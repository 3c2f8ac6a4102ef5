use vstd::prelude::*;
use crate::peer::{Peer, PeerView, is_stale_at};
use crate::strutil::str_eq;

verus! {

/// What an upsert did: inserted a new entry, replaced one whose address or
/// port changed, or refreshed one whose address and port were unchanged.
#[derive(Clone, Copy, PartialEq, Eq, Structural, Debug)]
pub enum UpsertOutcome {
    New,
    Updated,
    Unchanged,
}

/// Whether some entry carries the given identity.
pub open spec fn has_id(s: Seq<PeerView>, id: Seq<char>) -> bool {
    exists|k: int| 0 <= k < s.len() && s[k].id == id
}

/// Index of the first entry with the given identity, or -1 if there is none.
pub open spec fn index_of_id(s: Seq<PeerView>, id: Seq<char>) -> int
    decreases s.len(),
{
    if s.len() == 0 {
        -1
    } else if s[0].id == id {
        0
    } else if index_of_id(s.drop_first(), id) == -1 {
        -1
    } else {
        index_of_id(s.drop_first(), id) + 1
    }
}

/// No two entries carry the same identity.
pub open spec fn ids_unique(s: Seq<PeerView>) -> bool {
    forall|i: int, j: int| 0 <= i < j < s.len() ==> s[i].id != s[j].id
}

/// Functional model of an upsert: last write wins, position and size are
/// kept for an existing identity, a new identity goes to the end.
pub open spec fn spec_upsert(s: Seq<PeerView>, p: PeerView) -> Seq<PeerView> {
    if has_id(s, p.id) {
        s.update(index_of_id(s, p.id), p)
    } else {
        s.push(p)
    }
}

/// The event an upsert reports: `Updated` only when the address or port of
/// an existing entry actually changed.
pub open spec fn spec_upsert_outcome(s: Seq<PeerView>, p: PeerView) -> UpsertOutcome {
    if !has_id(s, p.id) {
        UpsertOutcome::New
    } else if s[index_of_id(s, p.id)].ip != p.ip || s[index_of_id(s, p.id)].port != p.port {
        UpsertOutcome::Updated
    } else {
        UpsertOutcome::Unchanged
    }
}

/// Functional model of a sweep: the entries that are not stale at `now`,
/// in their original order.
pub open spec fn spec_sweep(s: Seq<PeerView>, now: u64, timeout: u64) -> Seq<PeerView>
    decreases s.len(),
{
    if s.len() == 0 {
        Seq::empty()
    } else if is_stale_at(s[0].last_seen, now, timeout) {
        spec_sweep(s.drop_first(), now, timeout)
    } else {
        seq![s[0]] + spec_sweep(s.drop_first(), now, timeout)
    }
}

/// How many entries are stale at `now`, hence how many a sweep removes.
pub open spec fn spec_stale_count(s: Seq<PeerView>, now: u64, timeout: u64) -> int
    decreases s.len(),
{
    if s.len() == 0 {
        0
    } else {
        (if is_stale_at(s[0].last_seen, now, timeout) {
            1int
        } else {
            0int
        }) + spec_stale_count(s.drop_first(), now, timeout)
    }
}

/// `index_of_id` finds exactly the first entry with the identity, and
/// returns -1 exactly when there is none.
pub proof fn lemma_index_of_id(s: Seq<PeerView>, id: Seq<char>)
    ensures
        (index_of_id(s, id) == -1) <==> !has_id(s, id),
        has_id(s, id) ==> 0 <= index_of_id(s, id) < s.len()
            && s[index_of_id(s, id)].id == id
            && (forall|j: int| 0 <= j < index_of_id(s, id) ==> s[j].id != id),
    decreases s.len(),
{
    if s.len() == 0 {
    } else {
        let rest = s.drop_first();
        lemma_index_of_id(rest, id);
        assert(forall|j: int| 0 <= j < rest.len() ==> rest[j] == s[j + 1]);
        if s[0].id == id {
        } else {
            if has_id(s, id) {
                let k = choose|k: int| 0 <= k < s.len() && s[k].id == id;
                assert(rest[k - 1].id == id);
                assert(has_id(rest, id));
            }
            if has_id(rest, id) {
                let k = choose|k: int| 0 <= k < rest.len() && rest[k].id == id;
                assert(s[k + 1].id == id);
                assert(has_id(s, id));
            }
            if has_id(s, id) {
                let r = index_of_id(rest, id);
                assert(index_of_id(s, id) == r + 1);
                assert(s[r + 1] == rest[r]);
                assert(forall|j: int| 0 <= j < r + 1 ==> s[j].id != id) by {
                    assert(forall|j: int| 1 <= j < r + 1 ==> s[j] == rest[j - 1]);
                }
            }
        }
    }
}

/// Removing an entry keeps the identities unique.
proof fn lemma_remove_keeps_unique(s: Seq<PeerView>, i: int)
    requires
        ids_unique(s),
        0 <= i < s.len(),
    ensures
        ids_unique(s.remove(i)),
{
    s.remove_ensures(i);
    assert forall|a: int, b: int| 0 <= a < b < s.remove(i).len() implies s.remove(i)[a].id != s.remove(i)[b].id by {
        assert(s.remove(i)[a] == (if a < i { s[a] } else { s[a + 1] }));
        assert(s.remove(i)[b] == (if b < i { s[b] } else { s[b + 1] }));
    }
}

/// Sweeping a sequence extended by one entry sweeps the prefix and then
/// keeps or drops that entry.
proof fn lemma_sweep_push(s: Seq<PeerView>, p: PeerView, now: u64, timeout: u64)
    ensures
        spec_sweep(s.push(p), now, timeout) == spec_sweep(s, now, timeout) + (if is_stale_at(
            p.last_seen,
            now,
            timeout,
        ) {
            Seq::<PeerView>::empty()
        } else {
            seq![p]
        }),
        spec_stale_count(s.push(p), now, timeout) == spec_stale_count(s, now, timeout) + (
        if is_stale_at(p.last_seen, now, timeout) {
            1int
        } else {
            0int
        }),
    decreases s.len(),
{
    let tail = (if is_stale_at(p.last_seen, now, timeout) {
        Seq::<PeerView>::empty()
    } else {
        seq![p]
    });
    if s.len() == 0 {
        assert(s =~= Seq::<PeerView>::empty());
        assert(s.push(p)[0] == p);
        assert(s.push(p).drop_first() =~= s);
        assert(spec_sweep(s.push(p), now, timeout) =~= spec_sweep(s, now, timeout) + tail);
    } else {
        assert(s.push(p)[0] == s[0]);
        assert(s.push(p).drop_first() =~= s.drop_first().push(p));
        lemma_sweep_push(s.drop_first(), p, now, timeout);
        if !is_stale_at(s[0].last_seen, now, timeout) {
            assert(seq![s[0]] + (spec_sweep(s.drop_first(), now, timeout) + tail) =~= (seq![s[0]]
                + spec_sweep(s.drop_first(), now, timeout)) + tail);
        }
    }
}

/// The entries a sweep keeps plus those it removes account for the whole
/// sequence.
pub proof fn lemma_sweep_len(s: Seq<PeerView>, now: u64, timeout: u64)
    ensures
        spec_sweep(s, now, timeout).len() + spec_stale_count(s, now, timeout) == s.len(),
        0 <= spec_stale_count(s, now, timeout) <= s.len(),
    decreases s.len(),
{
    if s.len() > 0 {
        lemma_sweep_len(s.drop_first(), now, timeout);
    }
}

/// Last write wins: however the registry looked before, after an upsert of
/// `p` it holds exactly one entry with `p`'s identity, and that entry's
/// fields are exactly the most recently applied values; an upsert grows the
/// registry only when the identity was absent.
pub proof fn lemma_upsert_last_write_wins(s: Seq<PeerView>, p: PeerView)
    requires
        ids_unique(s),
    ensures
        ids_unique(spec_upsert(s, p)),
        has_id(spec_upsert(s, p), p.id),
        forall|k: int|
            0 <= k < spec_upsert(s, p).len() && spec_upsert(s, p)[k].id == p.id ==> spec_upsert(
                s,
                p,
            )[k] == p,
        spec_upsert(s, p).len() == (if has_id(s, p.id) {
            s.len()
        } else {
            s.len() + 1
        }),
{
    lemma_index_of_id(s, p.id);
    let t = spec_upsert(s, p);
    if has_id(s, p.id) {
        let i = index_of_id(s, p.id);
        assert(t == s.update(i, p));
        assert(t[i] == p);
        assert(has_id(t, p.id));
        assert forall|a: int, b: int| 0 <= a < b < t.len() implies t[a].id != t[b].id by {
            assert(t[a] == (if a == i { p } else { s[a] }));
            assert(t[b] == (if b == i { p } else { s[b] }));
            assert(s[i].id == p.id);
        }
        assert forall|k: int| 0 <= k < t.len() && t[k].id == p.id implies t[k] == p by {
            if k != i {
                assert(t[k] == s[k]);
                assert(s[i].id == p.id);
            }
        }
    } else {
        assert(t == s.push(p));
        assert(t[s.len() as int] == p);
        assert(has_id(t, p.id));
        assert forall|a: int, b: int| 0 <= a < b < t.len() implies t[a].id != t[b].id by {
            if b < s.len() {
                assert(t[a] == s[a] && t[b] == s[b]);
            } else {
                assert(t[b] == p);
                assert(t[a] == s[a]);
                assert(!(s[a].id == p.id)) by {
                    if s[a].id == p.id {
                        assert(has_id(s, p.id));
                    }
                }
            }
        }
        assert forall|k: int| 0 <= k < t.len() && t[k].id == p.id implies t[k] == p by {
            if k < s.len() {
                assert(t[k] == s[k]);
                if s[k].id == p.id {
                    assert(has_id(s, p.id));
                }
            }
        }
    }
}

/// Idempotence: upserting a peer whose entry is already present and
/// unchanged leaves the registry exactly as it was and does not report an
/// update.
pub proof fn lemma_upsert_idempotent(s: Seq<PeerView>, p: PeerView)
    requires
        has_id(s, p.id),
        s[index_of_id(s, p.id)] == p,
    ensures
        spec_upsert(s, p) == s,
        spec_upsert_outcome(s, p) == UpsertOutcome::Unchanged,
{
    lemma_index_of_id(s, p.id);
    let i = index_of_id(s, p.id);
    assert(s.update(i, p) =~= s);
}

/// A sweep keeps an entry exactly when it is not stale at `now`, and the
/// number it removes is exactly the number of stale entries.
pub proof fn lemma_sweep_removes_iff(s: Seq<PeerView>, now: u64, timeout: u64)
    ensures
        forall|q: PeerView| #[trigger]
            spec_sweep(s, now, timeout).contains(q) <==> (s.contains(q) && !is_stale_at(
                q.last_seen,
                now,
                timeout,
            )),
        spec_sweep(s, now, timeout).len() + spec_stale_count(s, now, timeout) == s.len(),
    decreases s.len(),
{
    lemma_sweep_len(s, now, timeout);
    if s.len() == 0 {
        assert forall|q: PeerView| #[trigger] s.contains(q) implies false by {}
    } else {
        let rest = s.drop_first();
        lemma_sweep_removes_iff(rest, now, timeout);
        let swept = spec_sweep(s, now, timeout);
        let swept_rest = spec_sweep(rest, now, timeout);
        assert forall|q: PeerView| #[trigger] swept.contains(q) implies (s.contains(q)
            && !is_stale_at(q.last_seen, now, timeout)) by {
            if is_stale_at(s[0].last_seen, now, timeout) {
                assert(swept_rest.contains(q));
                let k = choose|k: int| 0 <= k < rest.len() && rest[k] == q;
                assert(s[k + 1] == q);
            } else {
                let j = choose|j: int| 0 <= j < swept.len() && swept[j] == q;
                if j == 0 {
                    assert(s[0] == q);
                } else {
                    assert(swept[j] == swept_rest[j - 1]);
                    assert(swept_rest.contains(q));
                    let k = choose|k: int| 0 <= k < rest.len() && rest[k] == q;
                    assert(s[k + 1] == q);
                }
            }
        }
        assert forall|q: PeerView| s.contains(q) && !is_stale_at(q.last_seen, now, timeout)
            implies #[trigger] swept.contains(q) by {
            let k = choose|k: int| 0 <= k < s.len() && s[k] == q;
            if k == 0 {
                assert(!is_stale_at(s[0].last_seen, now, timeout));
                assert(swept[0] == q);
            } else {
                assert(rest[k - 1] == q);
                assert(rest.contains(q));
                assert(swept_rest.contains(q));
                let j = choose|j: int| 0 <= j < swept_rest.len() && swept_rest[j] == q;
                if is_stale_at(s[0].last_seen, now, timeout) {
                    assert(swept[j] == q);
                } else {
                    assert(swept[j + 1] == q);
                }
            }
        }
    }
}

/// The registry of discovered peers: at most one entry per identity, each
/// entry carrying the latest observed address, port, time and name.
pub struct PeerRegistry {
    peers: Vec<Peer>,
    timeout_secs: u64,
}

/// The views of a sequence of peers.
pub open spec fn views_of(s: Seq<Peer>) -> Seq<PeerView> {
    s.map_values(|p: Peer| p@)
}

impl PeerRegistry {
    /// The registry's mathematical contents: the entries in insertion order.
    pub closed spec fn peers_view(&self) -> Seq<PeerView> {
        views_of(self.peers@)
    }

    /// The staleness timeout this registry sweeps with, in seconds.
    pub closed spec fn timeout_spec(&self) -> u64 {
        self.timeout_secs
    }

    /// Well-formed: no identity occurs twice.
    pub open spec fn wf(&self) -> bool {
        ids_unique(self.peers_view())
    }

    /// An empty registry that will sweep entries older than `timeout_secs`.
    pub fn new(timeout_secs: u64) -> (r: Self)
        ensures
            r.wf(),
            r.peers_view() == Seq::<PeerView>::empty(),
            r.timeout_spec() == timeout_secs,
    {
        let r = PeerRegistry { peers: Vec::new(), timeout_secs };
        proof {
            assert(r.peers_view() =~= Seq::<PeerView>::empty());
        }
        r
    }

    /// Index of the entry with this identity, if any.
    fn find_index(&self, id: &str) -> (r: Option<usize>)
        ensures
            match r {
                Some(i) => i < self.peers_view().len() && index_of_id(self.peers_view(), id@)
                    == i,
                None => index_of_id(self.peers_view(), id@) == -1,
            },
    {
        let n = self.peers.len();
        let mut i: usize = 0;
        while i < n
            invariant
                i <= n,
                n == self.peers.len(),
                forall|j: int| 0 <= j < i ==> views_of(self.peers@)[j].id != id@,
            decreases n - i,
        {
            if str_eq(self.peers[i].id.as_str(), id) {
                proof {
                    lemma_index_of_id(self.peers_view(), id@);
                    assert(self.peers_view()[i as int].id == id@);
                    assert(has_id(self.peers_view(), id@));
                }
                return Some(i);
            }
            i = i + 1;
        }
        proof {
            lemma_index_of_id(self.peers_view(), id@);
            if has_id(self.peers_view(), id@) {
                let k = choose|k: int|
                    0 <= k < self.peers_view().len() && self.peers_view()[k].id == id@;
                assert(views_of(self.peers@)[k].id != id@);
            }
        }
        None
    }

    /// Inserts the peer, or replaces the entry with the same identity; the
    /// incoming address, port, time and name win unconditionally. Reports
    /// `Updated` only when the address or port of an existing entry changed.
    pub fn add_peer(&mut self, peer: Peer) -> (r: UpsertOutcome)
        requires
            old(self).wf(),
        ensures
            final(self).wf(),
            final(self).peers_view() == spec_upsert(old(self).peers_view(), peer@),
            r == spec_upsert_outcome(old(self).peers_view(), peer@),
            final(self).timeout_spec() == old(self).timeout_spec(),
    {
        let ghost pv = peer@;
        proof {
            lemma_index_of_id(self.peers_view(), pv.id);
        }
        match self.find_index(peer.id.as_str()) {
            Some(i) => {
                let outcome = if self.peers[i].ip == peer.ip && self.peers[i].port == peer.port {
                    UpsertOutcome::Unchanged
                } else {
                    UpsertOutcome::Updated
                };
                proof {
                    assert(views_of(self.peers@)[i as int].ip == self.peers@[i as int]@.ip);
                }
                self.peers[i] = peer;
                proof {
                    assert(self.peers_view() =~= old(self).peers_view().update(i as int, pv));
                    assert forall|a: int, b: int|
                        0 <= a < b < self.peers_view().len() implies self.peers_view()[a].id
                        != self.peers_view()[b].id by {
                        assert(old(self).peers_view()[a].id != old(self).peers_view()[b].id);
                        assert(old(self).peers_view()[i as int].id == pv.id);
                    }
                }
                outcome
            },
            None => {
                self.peers.push(peer);
                proof {
                    assert(self.peers_view() =~= old(self).peers_view().push(pv));
                    if has_id(old(self).peers_view(), pv.id) {
                        let k = choose|k: int|
                            0 <= k < old(self).peers_view().len() && old(self).peers_view()[k].id
                                == pv.id;
                        assert(false);
                    }
                    assert forall|a: int, b: int|
                        0 <= a < b < self.peers_view().len() implies self.peers_view()[a].id
                        != self.peers_view()[b].id by {
                        if b < old(self).peers_view().len() {
                            assert(old(self).peers_view()[a].id != old(self).peers_view()[b].id);
                        } else {
                            assert(!(old(self).peers_view()[a].id == pv.id));
                        }
                    }
                }
                UpsertOutcome::New
            },
        }
    }

    /// Deletes the entry with this identity; reports whether one was there.
    pub fn remove_peer(&mut self, peer_id: &str) -> (r: bool)
        requires
            old(self).wf(),
        ensures
            final(self).wf(),
            final(self).timeout_spec() == old(self).timeout_spec(),
            r == has_id(old(self).peers_view(), peer_id@),
            has_id(old(self).peers_view(), peer_id@) ==> final(self).peers_view() == old(self).peers_view().remove(index_of_id(old(self).peers_view(), peer_id@)),
            !has_id(old(self).peers_view(), peer_id@) ==> final(self).peers_view() == old(self).peers_view(),
    {
        proof {
            lemma_index_of_id(self.peers_view(), peer_id@);
        }
        match self.find_index(peer_id) {
            Some(i) => {
                self.peers.remove(i);
                proof {
                    old(self).peers_view().remove_ensures(i as int);
                    assert(self.peers_view() =~= old(self).peers_view().remove(i as int));
                    lemma_remove_keeps_unique(old(self).peers_view(), i as int);
                }
                true
            },
            None => false,
        }
    }

    /// A point-in-time copy of all entries, in insertion order.
    pub fn get_peers(&self) -> (r: Vec<Peer>)
        ensures
            views_of(r@) == self.peers_view(),
    {
        let n = self.peers.len();
        let mut out: Vec<Peer> = Vec::new();
        let mut i: usize = 0;
        while i < n
            invariant
                i <= n,
                n == self.peers.len(),
                views_of(out@) == self.peers_view().take(i as int),
            decreases n - i,
        {
            let ghost prev = out@;
            let c = self.peers[i].clone();
            out.push(c);
            proof {
                assert(out@ == prev.push(c));
                assert(views_of(prev) == self.peers_view().take(i as int));
                assert(views_of(prev).len() == prev.len());
                assert(prev.len() == i as int);
                assert forall|j: int| 0 <= j < out@.len() implies views_of(out@)[j]
                    == self.peers_view().take(i + 1)[j] by {
                    if j < i as int {
                        assert(out@[j] == prev[j]);
                        assert(views_of(prev)[j] == self.peers_view().take(i as int)[j]);
                    } else {
                        assert(out@[j] == c);
                    }
                }
                assert(views_of(out@) =~= self.peers_view().take(i + 1));
            }
            i = i + 1;
        }
        proof {
            assert(self.peers_view().take(n as int) =~= self.peers_view());
        }
        out
    }

    /// A copy of the entry with this identity, if one is present.
    pub fn get_peer(&self, peer_id: &str) -> (r: Option<Peer>)
        ensures
            match r {
                Some(p) => has_id(self.peers_view(), peer_id@) && p@ == self.peers_view()[
                    index_of_id(self.peers_view(), peer_id@)],
                None => !has_id(self.peers_view(), peer_id@),
            },
    {
        proof {
            lemma_index_of_id(self.peers_view(), peer_id@);
        }
        match self.find_index(peer_id) {
            Some(i) => Some(self.peers[i].clone()),
            None => None,
        }
    }

    /// Removes every entry whose last-seen time is more than the timeout
    /// before `now_secs`; reports how many were removed.
    pub fn cleanup_stale_peers(&mut self, now_secs: u64) -> (removed: usize)
        requires
            old(self).wf(),
        ensures
            final(self).wf(),
            final(self).peers_view() == spec_sweep(
                old(self).peers_view(),
                now_secs,
                old(self).timeout_spec(),
            ),
            removed == spec_stale_count(old(self).peers_view(), now_secs, old(self).timeout_spec()),
            removed + final(self).peers_view().len() == old(self).peers_view().len(),
            final(self).timeout_spec() == old(self).timeout_spec(),
    {
        let n = self.peers.len();
        let mut kept: Vec<Peer> = Vec::new();
        let mut removed: usize = 0;
        let mut i: usize = 0;
        proof {
            assert(views_of(kept@) =~= spec_sweep(
                self.peers_view().take(0),
                now_secs,
                self.timeout_secs,
            ));
        }
        while i < n
            invariant
                i <= n,
                n == self.peers.len(),
                *self == *old(self),
                views_of(kept@) == spec_sweep(
                    self.peers_view().take(i as int),
                    now_secs,
                    self.timeout_secs,
                ),
                removed == spec_stale_count(
                    self.peers_view().take(i as int),
                    now_secs,
                    self.timeout_secs,
                ),
                kept.len() + removed == i,
            decreases n - i,
        {
            proof {
                assert(self.peers_view().take(i + 1) =~= self.peers_view().take(i as int).push(
                    self.peers_view()[i as int],
                ));
                lemma_sweep_push(
                    self.peers_view().take(i as int),
                    self.peers_view()[i as int],
                    now_secs,
                    self.timeout_secs,
                );
            }
            if self.peers[i].is_stale(now_secs, self.timeout_secs) {
                removed = removed + 1;
                proof {
                    assert(views_of(kept@) =~= spec_sweep(
                        self.peers_view().take(i + 1),
                        now_secs,
                        self.timeout_secs,
                    ));
                }
            } else {
                let c = self.peers[i].clone();
                kept.push(c);
                proof {
                    assert(views_of(kept@) =~= spec_sweep(
                        self.peers_view().take(i + 1),
                        now_secs,
                        self.timeout_secs,
                    ));
                }
            }
            i = i + 1;
        }
        proof {
            assert(self.peers_view().take(n as int) =~= self.peers_view());
        }
        self.peers = kept;
        proof {
            lemma_sweep_keeps_unique(old(self).peers_view(), now_secs, old(self).timeout_spec());
        }
        removed
    }

    /// How many peers are currently known.
    pub fn peer_count(&self) -> (r: usize)
        ensures
            r == self.peers_view().len(),
    {
        self.peers.len()
    }
}

/// A sweep keeps a subsequence, so identities stay unique.
proof fn lemma_sweep_keeps_unique(s: Seq<PeerView>, now: u64, timeout: u64)
    requires
        ids_unique(s),
    ensures
        ids_unique(spec_sweep(s, now, timeout)),
        forall|q: PeerView| #[trigger] spec_sweep(s, now, timeout).contains(q) ==> s.contains(q),
    decreases s.len(),
{
    if s.len() > 0 {
        let rest = s.drop_first();
        assert(ids_unique(rest)) by {
            assert(forall|j: int| 0 <= j < rest.len() ==> rest[j] == s[j + 1]);
        }
        lemma_sweep_keeps_unique(rest, now, timeout);
        let swept = spec_sweep(s, now, timeout);
        let swept_rest = spec_sweep(rest, now, timeout);
        assert(forall|q: PeerView| #[trigger] rest.contains(q) ==> s.contains(q)) by {
            assert(forall|k: int| 0 <= k < rest.len() ==> rest[k] == s[k + 1]);
        }
        if !is_stale_at(s[0].last_seen, now, timeout) {
            assert(swept == seq![s[0]] + swept_rest);
            assert(swept[0] == s[0]);
            assert(forall|j: int| 1 <= j < swept.len() ==> swept[j] == swept_rest[j - 1]);
            assert forall|a: int, b: int| 0 <= a < b < swept.len() implies swept[a].id
                != swept[b].id by {
                if a == 0 {
                    assert(swept_rest.contains(swept_rest[b - 1]));
                    let k = choose|k: int|
                        0 <= k < rest.len() && rest[k] == swept_rest[b - 1];
                    assert(s[k + 1] == swept[b]);
                    assert(s[0].id != s[k + 1].id);
                } else {
                    assert(swept_rest[a - 1].id != swept_rest[b - 1].id);
                }
            }
            assert forall|q: PeerView| #[trigger] swept.contains(q) implies s.contains(q) by {
                let j = choose|j: int| 0 <= j < swept.len() && swept[j] == q;
                if j == 0 {
                    assert(s[0] == q);
                } else {
                    assert(swept_rest.contains(q));
                }
            }
        }
    }
}

} // verus!
