use vstd::prelude::*;
use crate::strutil::push_char;
use crate::message::{MessageType, MessageView, DiscoveryMessage};
use crate::peer::opt_str_view;

verus! {

// ---------------------------------------------------------------------
// String escaping
//
// The payload is a fixed-shape JSON object. Inside a JSON string the two
// characters `"` and `\` are escaped with a backslash; every other
// character stands for itself.
// ---------------------------------------------------------------------

/// How one character is written inside a quoted string.
pub open spec fn esc_char(c: char) -> Seq<char> {
    if c == '"' || c == '\\' {
        seq!['\\', c]
    } else {
        seq![c]
    }
}

/// How a whole string is written inside quotes.
pub open spec fn spec_escape(s: Seq<char>) -> Seq<char>
    decreases s.len(),
{
    if s.len() == 0 {
        Seq::empty()
    } else {
        esc_char(s[0]) + spec_escape(s.drop_first())
    }
}

proof fn lemma_escape_push(s: Seq<char>, c: char)
    ensures
        spec_escape(s.push(c)) == spec_escape(s) + esc_char(c),
    decreases s.len(),
{
    if s.len() == 0 {
        assert(s =~= Seq::<char>::empty());
        assert(s.push(c)[0] == c);
        assert(s.push(c).drop_first() =~= s);
        assert(spec_escape(s.push(c)) =~= spec_escape(s) + esc_char(c));
    } else {
        assert(s.push(c)[0] == s[0]);
        assert(s.push(c).drop_first() =~= s.drop_first().push(c));
        lemma_escape_push(s.drop_first(), c);
        assert(esc_char(s[0]) + (spec_escape(s.drop_first()) + esc_char(c)) =~= (esc_char(s[0])
            + spec_escape(s.drop_first())) + esc_char(c));
    }
}

/// Appends the escaped form of `s` to `out`.
fn append_escaped(out: &mut String, s: &str)
    ensures
        final(out)@ == old(out)@ + spec_escape(s@),
{
    let n = s.unicode_len();
    let mut i: usize = 0;
    while i < n
        invariant
            i <= n,
            n == s@.len(),
            out@ == old(out)@ + spec_escape(s@.take(i as int)),
        decreases n - i,
    {
        proof {
            assert(s@.take(i + 1) =~= s@.take(i as int).push(s@[i as int]));
            lemma_escape_push(s@.take(i as int), s@[i as int]);
        }
        let c = s.get_char(i);
        if c == '"' || c == '\\' {
            push_char(out, '\\');
            push_char(out, c);
        } else {
            push_char(out, c);
        }
        proof {
            assert(out@ =~= old(out)@ + spec_escape(s@.take(i + 1)));
        }
        i = i + 1;
    }
    proof {
        assert(s@.take(n as int) =~= s@);
    }
}

// ---------------------------------------------------------------------
// Decimal numbers
// ---------------------------------------------------------------------

/// The ten digit characters.
pub open spec fn is_digit(c: char) -> bool {
    c == '0' || c == '1' || c == '2' || c == '3' || c == '4' || c == '5' || c == '6' || c == '7'
        || c == '8' || c == '9'
}

/// The value of a digit character.
pub open spec fn digit_val(c: char) -> int {
    if c == '0' {
        0
    } else if c == '1' {
        1
    } else if c == '2' {
        2
    } else if c == '3' {
        3
    } else if c == '4' {
        4
    } else if c == '5' {
        5
    } else if c == '6' {
        6
    } else if c == '7' {
        7
    } else if c == '8' {
        8
    } else {
        9
    }
}

/// The digit character of a value below ten.
pub open spec fn char_of_digit(d: int) -> char {
    if d == 0 {
        '0'
    } else if d == 1 {
        '1'
    } else if d == 2 {
        '2'
    } else if d == 3 {
        '3'
    } else if d == 4 {
        '4'
    } else if d == 5 {
        '5'
    } else if d == 6 {
        '6'
    } else if d == 7 {
        '7'
    } else if d == 8 {
        '8'
    } else {
        '9'
    }
}

/// The usual decimal writing of a nonnegative number, most significant
/// digit first, no leading zeroes (a single zero for zero).
pub open spec fn spec_digits(n: int) -> Seq<char>
    decreases n,
{
    if n < 10 {
        seq![char_of_digit(n)]
    } else {
        spec_digits(n / 10).push(char_of_digit(n % 10))
    }
}

/// The number a digit string denotes.
pub open spec fn val_of(s: Seq<char>) -> int
    decreases s.len(),
{
    if s.len() == 0 {
        0
    } else {
        val_of(s.drop_last()) * 10 + digit_val(s.last())
    }
}

/// Decimal writing round-trips: the digit string of `n` denotes `n`, is
/// nonempty, and consists of digits.
proof fn lemma_digits_val(n: int)
    requires
        n >= 0,
    ensures
        val_of(spec_digits(n)) == n,
        spec_digits(n).len() >= 1,
        forall|j: int| 0 <= j < spec_digits(n).len() ==> is_digit(#[trigger] spec_digits(n)[j]),
    decreases n,
{
    if n < 10 {
        let s = seq![char_of_digit(n)];
        assert(s.drop_last() =~= Seq::<char>::empty());
        assert(val_of(s.drop_last()) == 0);
        assert(s.last() == char_of_digit(n));
        assert(val_of(s) == digit_val(char_of_digit(n)));
    } else {
        lemma_digits_val(n / 10);
        let s = spec_digits(n / 10);
        let c = char_of_digit(n % 10);
        assert(spec_digits(n) == s.push(c));
        assert(s.push(c).drop_last() =~= s);
        assert(s.push(c).last() == c);
        assert(val_of(s.push(c)) == n / 10 * 10 + n % 10);
        assert(forall|j: int|
            0 <= j < s.push(c).len() ==> is_digit(#[trigger] s.push(c)[j])) by {
            assert(forall|j: int| 0 <= j < s.len() ==> s.push(c)[j] == s[j]);
        }
    }
}

fn exec_digit_char(d: u64) -> (c: char)
    requires
        d < 10,
    ensures
        c == char_of_digit(d as int),
{
    if d == 0 {
        '0'
    } else if d == 1 {
        '1'
    } else if d == 2 {
        '2'
    } else if d == 3 {
        '3'
    } else if d == 4 {
        '4'
    } else if d == 5 {
        '5'
    } else if d == 6 {
        '6'
    } else if d == 7 {
        '7'
    } else if d == 8 {
        '8'
    } else {
        '9'
    }
}

// ---------------------------------------------------------------------
// Parsing, specified
//
// Each parser consumes a prefix of the input and leaves a rest. A failed
// parse reports `ok == false`; its other fields carry no meaning.
// ---------------------------------------------------------------------

/// Result of matching a fixed literal.
pub struct LitParse {
    pub ok: bool,
    pub rest: Seq<char>,
}

/// Result of reading a quoted string's body up to its closing quote.
pub struct StrParse {
    pub ok: bool,
    pub val: Seq<char>,
    pub rest: Seq<char>,
}

/// Result of reading a decimal number.
pub struct NumParse {
    pub ok: bool,
    pub val: int,
    pub rest: Seq<char>,
}

/// Result of reading either `null` or a quoted string.
pub struct OptStrParse {
    pub ok: bool,
    pub val: Option<Seq<char>>,
    pub rest: Seq<char>,
}

/// Matches `lit` at the front of `s`.
pub open spec fn spec_expect(s: Seq<char>, lit: Seq<char>) -> LitParse {
    if s.len() >= lit.len() && s.take(lit.len() as int) == lit {
        LitParse { ok: true, rest: s.skip(lit.len() as int) }
    } else {
        LitParse { ok: false, rest: Seq::empty() }
    }
}

/// Reads the body of a quoted string (the opening quote already
/// consumed), undoing the escaping, up to and including the closing
/// quote.
pub open spec fn spec_unescape(s: Seq<char>) -> StrParse
    decreases s.len(),
{
    if s.len() == 0 {
        StrParse { ok: false, val: Seq::empty(), rest: Seq::empty() }
    } else if s[0] == '"' {
        StrParse { ok: true, val: Seq::empty(), rest: s.drop_first() }
    } else if s[0] == '\\' {
        if s.len() < 2 || !(s[1] == '"' || s[1] == '\\') {
            StrParse { ok: false, val: Seq::empty(), rest: Seq::empty() }
        } else {
            let p = spec_unescape(s.skip(2));
            if p.ok {
                StrParse { ok: true, val: seq![s[1]] + p.val, rest: p.rest }
            } else {
                StrParse { ok: false, val: Seq::empty(), rest: Seq::empty() }
            }
        }
    } else {
        let p = spec_unescape(s.drop_first());
        if p.ok {
            StrParse { ok: true, val: seq![s[0]] + p.val, rest: p.rest }
        } else {
            StrParse { ok: false, val: Seq::empty(), rest: Seq::empty() }
        }
    }
}

/// Length of the run of digits at the front of `s`.
pub open spec fn digit_run(s: Seq<char>) -> int
    decreases s.len(),
{
    if s.len() == 0 || !is_digit(s[0]) {
        0
    } else {
        1 + digit_run(s.drop_first())
    }
}

/// Reads a nonempty run of digits as a number; fails when there is no
/// digit or the value does not fit in 64 bits.
pub open spec fn spec_parse_u64(s: Seq<char>) -> NumParse {
    let k = digit_run(s);
    if k == 0 {
        NumParse { ok: false, val: 0, rest: Seq::empty() }
    } else if val_of(s.take(k)) > u64::MAX as int {
        NumParse { ok: false, val: 0, rest: Seq::empty() }
    } else {
        NumParse { ok: true, val: val_of(s.take(k)), rest: s.skip(k) }
    }
}

/// How an optional string is written: `null`, or the escaped string in
/// quotes.
pub open spec fn opt_str_enc(o: Option<Seq<char>>) -> Seq<char> {
    match o {
        None => "null"@,
        Some(u) => seq!['"'] + spec_escape(u) + seq!['"'],
    }
}

/// Reads `null` or a quoted string.
pub open spec fn spec_parse_opt_str(s: Seq<char>) -> OptStrParse {
    if s.len() > 0 && s[0] == '"' {
        let p = spec_unescape(s.drop_first());
        OptStrParse { ok: p.ok, val: Some(p.val), rest: p.rest }
    } else {
        let q = spec_expect(s, "null"@);
        OptStrParse { ok: q.ok, val: None, rest: q.rest }
    }
}

// ---------------------------------------------------------------------
// Round-trip facts about the parsing pieces
// ---------------------------------------------------------------------

/// A literal at the front of the input is matched and consumed exactly.
proof fn lemma_expect_concat(lit: Seq<char>, r: Seq<char>)
    ensures
        spec_expect(lit + r, lit).ok,
        spec_expect(lit + r, lit).rest == r,
{
    assert((lit + r).take(lit.len() as int) =~= lit);
    assert((lit + r).skip(lit.len() as int) =~= r);
}

/// Unescaping undoes escaping: the body is recovered exactly and the
/// closing quote is consumed.
proof fn lemma_unescape_escape(u: Seq<char>, rest: Seq<char>)
    ensures
        spec_unescape(spec_escape(u) + seq!['"'] + rest).ok,
        spec_unescape(spec_escape(u) + seq!['"'] + rest).val == u,
        spec_unescape(spec_escape(u) + seq!['"'] + rest).rest == rest,
    decreases u.len(),
{
    let s = spec_escape(u) + seq!['"'] + rest;
    if u.len() == 0 {
        assert(spec_escape(u) =~= Seq::<char>::empty());
        assert(s[0] == '"');
        assert(s.drop_first() =~= rest);
        assert(spec_unescape(s).val =~= u);
    } else {
        let c = u[0];
        let u1 = u.drop_first();
        assert(spec_escape(u) == esc_char(c) + spec_escape(u1));
        lemma_unescape_escape(u1, rest);
        let s1 = spec_escape(u1) + seq!['"'] + rest;
        if c == '"' || c == '\\' {
            assert(s[0] == '\\');
            assert(s[1] == c);
            assert(s.len() >= 2);
            assert(s.skip(2) =~= s1);
            assert(spec_unescape(s).val =~= u) by {
                assert(seq![s[1]] + u1 =~= u);
            }
        } else {
            assert(s[0] == c);
            assert(s.drop_first() =~= s1);
            assert(spec_unescape(s).val =~= u) by {
                assert(seq![s[0]] + u1 =~= u);
            }
        }
    }
}

/// The digit run of a digit string followed by a non-digit is exactly
/// that string.
proof fn lemma_digit_run_concat(d: Seq<char>, rest: Seq<char>)
    requires
        forall|j: int| 0 <= j < d.len() ==> is_digit(#[trigger] d[j]),
        rest.len() == 0 || !is_digit(rest[0]),
    ensures
        digit_run(d + rest) == d.len(),
    decreases d.len(),
{
    if d.len() == 0 {
        assert(d + rest =~= rest);
    } else {
        assert((d + rest)[0] == d[0]);
        assert((d + rest).drop_first() =~= d.drop_first() + rest);
        assert(forall|j: int|
            0 <= j < d.drop_first().len() ==> is_digit(#[trigger] d.drop_first()[j])) by {
            assert(forall|j: int| 0 <= j < d.drop_first().len() ==> d.drop_first()[j] == d[j + 1]);
        }
        lemma_digit_run_concat(d.drop_first(), rest);
    }
}

/// Digit prefixes denote nondecreasing, nonnegative values.
proof fn lemma_val_prefix(s: Seq<char>, a: int, b: int)
    requires
        0 <= a <= b <= s.len(),
        forall|j: int| 0 <= j < b ==> is_digit(#[trigger] s[j]),
    ensures
        0 <= val_of(s.take(a)) <= val_of(s.take(b)),
    decreases b - a,
{
    if a == b {
        lemma_val_nonneg(s.take(a));
    } else {
        lemma_val_prefix(s, a, b - 1);
        assert(s.take(b).drop_last() =~= s.take(b - 1));
        assert(s.take(b).last() == s[b - 1]);
        assert(val_of(s.take(b)) == val_of(s.take(b - 1)) * 10 + digit_val(s[b - 1]));
    }
}

/// A digit string denotes a nonnegative value.
proof fn lemma_val_nonneg(s: Seq<char>)
    ensures
        val_of(s) >= 0,
    decreases s.len(),
{
    if s.len() > 0 {
        lemma_val_nonneg(s.drop_last());
    }
}

/// A decimal writing followed by a non-digit parses back to its value.
proof fn lemma_parse_digits(n: u64, rest: Seq<char>)
    requires
        rest.len() == 0 || !is_digit(rest[0]),
    ensures
        spec_parse_u64(spec_digits(n as int) + rest).ok,
        spec_parse_u64(spec_digits(n as int) + rest).val == n as int,
        spec_parse_u64(spec_digits(n as int) + rest).rest == rest,
{
    let ds = spec_digits(n as int);
    lemma_digits_val(n as int);
    lemma_digit_run_concat(ds, rest);
    assert((ds + rest).take(ds.len() as int) =~= ds);
    assert((ds + rest).skip(ds.len() as int) =~= rest);
}

/// An encoded optional string parses back to its value.
proof fn lemma_parse_opt_str(o: Option<Seq<char>>, rest: Seq<char>)
    ensures
        spec_parse_opt_str(opt_str_enc(o) + rest).ok,
        spec_parse_opt_str(opt_str_enc(o) + rest).val == o,
        spec_parse_opt_str(opt_str_enc(o) + rest).rest == rest,
{
    let s = opt_str_enc(o) + rest;
    match o {
        None => {
            reveal_strlit("null");
            assert(s[0] == 'n');
            lemma_expect_concat("null"@, rest);
        },
        Some(u) => {
            assert(s[0] == '"');
            assert(s.drop_first() =~= spec_escape(u) + seq!['"'] + rest);
            lemma_unescape_escape(u, rest);
        },
    }
}

/// Digits at the front of `s` number at least zero and at most all of it,
/// and are digits up to the first non-digit.
proof fn lemma_digit_run_bounds(s: Seq<char>)
    ensures
        0 <= digit_run(s) <= s.len(),
        forall|j: int| 0 <= j < digit_run(s) ==> is_digit(#[trigger] s[j]),
        digit_run(s) < s.len() ==> !is_digit(s[digit_run(s)]),
    decreases s.len(),
{
    if s.len() == 0 || !is_digit(s[0]) {
    } else {
        let rest = s.drop_first();
        lemma_digit_run_bounds(rest);
        assert(forall|j: int| 0 <= j < rest.len() ==> rest[j] == s[j + 1]);
        assert forall|j: int| 0 <= j < digit_run(s) implies is_digit(#[trigger] s[j]) by {
            if j > 0 {
                assert(is_digit(rest[j - 1]));
            }
        }
    }
}

// ---------------------------------------------------------------------
// Parsing, executed
// ---------------------------------------------------------------------

fn exec_is_digit(c: char) -> (r: bool)
    ensures
        r == is_digit(c),
{
    c == '0' || c == '1' || c == '2' || c == '3' || c == '4' || c == '5' || c == '6' || c == '7'
        || c == '8' || c == '9'
}

fn exec_digit_val(c: char) -> (r: u64)
    requires
        is_digit(c),
    ensures
        r == digit_val(c),
        r <= 9,
{
    if c == '0' {
        0
    } else if c == '1' {
        1
    } else if c == '2' {
        2
    } else if c == '3' {
        3
    } else if c == '4' {
        4
    } else if c == '5' {
        5
    } else if c == '6' {
        6
    } else if c == '7' {
        7
    } else if c == '8' {
        8
    } else {
        9
    }
}

/// Matches the literal `lit` at position `i` of `s`; on success returns
/// the position just past it.
fn expect_lit(s: &str, i: usize, lit: &str) -> (r: Option<usize>)
    requires
        i <= s@.len(),
    ensures
        match r {
            Some(j) => spec_expect(s@.skip(i as int), lit@).ok && i <= j <= s@.len()
                && spec_expect(s@.skip(i as int), lit@).rest == s@.skip(j as int),
            None => !spec_expect(s@.skip(i as int), lit@).ok,
        },
{
    let n = s.unicode_len();
    let m = lit.unicode_len();
    if m > n - i {
        return None;
    }
    let mut k: usize = 0;
    while k < m
        invariant
            k <= m,
            m == lit@.len(),
            n == s@.len(),
            i + m <= n,
            forall|t: int| 0 <= t < k ==> s@[i + t] == lit@[t],
        decreases m - k,
    {
        if s.get_char(i + k) != lit.get_char(k) {
            proof {
                if spec_expect(s@.skip(i as int), lit@).ok {
                    assert(s@.skip(i as int).take(m as int) == lit@);
                    assert(s@.skip(i as int).take(m as int)[k as int] == s@[i + k]);
                }
            }
            return None;
        }
        k = k + 1;
    }
    proof {
        assert(s@.skip(i as int).take(m as int) =~= lit@);
        assert(s@.skip(i as int).skip(m as int) =~= s@.skip(i + m));
    }
    Some(i + m)
}

/// Reads the body of a quoted string starting at `start` (the opening
/// quote already consumed), undoing the escaping; on success returns the
/// body and the position just past the closing quote.
fn parse_string_body(s: &str, start: usize) -> (r: Option<(String, usize)>)
    requires
        start <= s@.len(),
    ensures
        match r {
            Some(p) => spec_unescape(s@.skip(start as int)).ok && p.1 <= s@.len()
                && spec_unescape(s@.skip(start as int)).val == p.0@ && spec_unescape(
                s@.skip(start as int),
            ).rest == s@.skip(p.1 as int),
            None => !spec_unescape(s@.skip(start as int)).ok,
        },
{
    let n = s.unicode_len();
    let mut acc = String::new();
    let mut i = start;
    while i < n
        invariant
            start <= i <= n,
            n == s@.len(),
            spec_unescape(s@.skip(start as int)).ok == spec_unescape(s@.skip(i as int)).ok,
            spec_unescape(s@.skip(i as int)).ok ==> spec_unescape(s@.skip(start as int)).val
                == acc@ + spec_unescape(s@.skip(i as int)).val && spec_unescape(
                s@.skip(start as int),
            ).rest == spec_unescape(s@.skip(i as int)).rest,
        decreases n - i,
    {
        let c = s.get_char(i);
        proof {
            assert(s@.skip(i as int)[0] == s@[i as int]);
        }
        if c == '"' {
            proof {
                assert(s@.skip(i as int).drop_first() =~= s@.skip(i + 1));
                assert(acc@ + Seq::<char>::empty() =~= acc@);
            }
            return Some((acc, i + 1));
        } else if c == '\\' {
            if i + 1 == n {
                return None;
            }
            let d = s.get_char(i + 1);
            proof {
                assert(s@.skip(i as int)[1] == s@[i + 1]);
            }
            if d == '"' || d == '\\' {
                let ghost prev = acc@;
                push_char(&mut acc, d);
                proof {
                    assert(s@.skip(i as int).skip(2) =~= s@.skip(i + 2));
                    let p2 = spec_unescape(s@.skip(i + 2));
                    if p2.ok {
                        assert(prev + (seq![d] + p2.val) =~= acc@ + p2.val);
                    }
                }
                i = i + 2;
            } else {
                return None;
            }
        } else {
            let ghost prev = acc@;
            push_char(&mut acc, c);
            proof {
                assert(s@.skip(i as int).drop_first() =~= s@.skip(i + 1));
                let p2 = spec_unescape(s@.skip(i + 1));
                if p2.ok {
                    assert(prev + (seq![c] + p2.val) =~= acc@ + p2.val);
                }
            }
            i = i + 1;
        }
    }
    proof {
        assert(s@.skip(i as int).len() == 0);
    }
    None
}

/// Reads a decimal number starting at `start`; on success returns its
/// value and the position just past the digits.
fn parse_number(s: &str, start: usize) -> (r: Option<(u64, usize)>)
    requires
        start <= s@.len(),
    ensures
        match r {
            Some(p) => spec_parse_u64(s@.skip(start as int)).ok && p.1 <= s@.len()
                && spec_parse_u64(s@.skip(start as int)).val == p.0 as int && spec_parse_u64(
                s@.skip(start as int),
            ).rest == s@.skip(p.1 as int),
            None => !spec_parse_u64(s@.skip(start as int)).ok,
        },
{
    let ghost sub = s@.skip(start as int);
    let n = s.unicode_len();
    let mut acc: u64 = 0;
    let mut i = start;
    while i < n
        invariant
            start <= i <= n,
            n == s@.len(),
            sub == s@.skip(start as int),
            forall|t: int| start <= t < i ==> is_digit(#[trigger] s@[t]),
            acc as int == val_of(sub.take(i - start)),
            digit_run(sub) == (i - start) + digit_run(s@.skip(i as int)),
        decreases n - i,
    {
        let c = s.get_char(i);
        proof {
            assert(s@.skip(i as int)[0] == s@[i as int]);
        }
        if !exec_is_digit(c) {
            if i == start {
                return None;
            }
            proof {
                assert(digit_run(s@.skip(i as int)) == 0);
                assert(sub.skip(i - start) =~= s@.skip(i as int));
            }
            return Some((acc, i));
        }
        let d = exec_digit_val(c);
        proof {
            assert(s@.skip(i as int).drop_first() =~= s@.skip(i + 1));
            assert(digit_run(s@.skip(i as int)) == 1 + digit_run(s@.skip(i + 1))) by {
                lemma_digit_run_bounds(s@.skip(i + 1));
            }
            assert(sub.take(i + 1 - start).drop_last() =~= sub.take(i - start));
            assert(sub.take(i + 1 - start).last() == s@[i as int]);
            assert(val_of(sub.take(i + 1 - start)) == acc as int * 10 + digit_val(c));
        }
        if acc > u64::MAX / 10 || (acc == u64::MAX / 10 && d > u64::MAX % 10) {
            proof {
                lemma_digit_run_bounds(s@.skip(i + 1));
                lemma_digit_run_bounds(sub);
                let run = digit_run(sub);
                assert(run >= i + 1 - start);
                assert(acc as int * 10 + digit_val(c) > u64::MAX as int);
                lemma_val_prefix(sub, i + 1 - start, run);
                assert(val_of(sub.take(run)) > u64::MAX as int);
            }
            return None;
        }
        acc = acc * 10 + d;
        i = i + 1;
    }
    if i == start {
        return None;
    }
    proof {
        assert(s@.skip(i as int).len() == 0);
        assert(digit_run(s@.skip(i as int)) == 0);
        assert(sub.skip(i - start) =~= s@.skip(i as int));
    }
    Some((acc, i))
}

/// Reads `null` or a quoted string starting at `start`.
fn parse_opt_str(s: &str, start: usize) -> (r: Option<(Option<String>, usize)>)
    requires
        start <= s@.len(),
    ensures
        match r {
            Some(p) => spec_parse_opt_str(s@.skip(start as int)).ok && p.1 <= s@.len()
                && spec_parse_opt_str(s@.skip(start as int)).val == opt_str_view(p.0)
                && spec_parse_opt_str(s@.skip(start as int)).rest == s@.skip(p.1 as int),
            None => !spec_parse_opt_str(s@.skip(start as int)).ok,
        },
{
    let n = s.unicode_len();
    if start < n {
        let c = s.get_char(start);
        proof {
            assert(s@.skip(start as int)[0] == s@[start as int]);
        }
        if c == '"' {
            proof {
                assert(s@.skip(start as int).drop_first() =~= s@.skip(start + 1));
            }
            return match parse_string_body(s, start + 1) {
                Some(p) => Some((Some(p.0), p.1)),
                None => None,
            };
        }
    }
    match expect_lit(s, start, "null") {
        Some(j) => Some((None, j)),
        None => None,
    }
}

/// The decimal writing of `n`.
pub fn u64_to_string(n: u64) -> (r: String)
    ensures
        r@ == spec_digits(n as int),
    decreases n,
{
    if n < 10 {
        let mut s = String::new();
        push_char(&mut s, exec_digit_char(n));
        proof {
            assert(s@ =~= spec_digits(n as int));
        }
        s
    } else {
        let mut s = u64_to_string(n / 10);
        push_char(&mut s, exec_digit_char(n % 10));
        s
    }
}

// ---------------------------------------------------------------------
// The whole envelope
// ---------------------------------------------------------------------

/// The word naming a message kind on the wire.
pub open spec fn kind_lit(k: MessageType) -> Seq<char> {
    match k {
        MessageType::PeerDiscovery => "PeerDiscovery"@,
        MessageType::TextMessage => "TextMessage"@,
    }
}

/// The canonical wire form of a message: one JSON object with the fields
/// in a fixed order and no spaces.
pub open spec fn spec_encode_message(m: MessageView) -> Seq<char> {
    "{\"message_type\":\""@ + (kind_lit(m.message_type) + ("\",\"peer_id\":\""@ + (spec_escape(
        m.peer_id,
    ) + ("\",\"port\":"@ + (spec_digits(m.port as int) + (",\"hostname\":"@ + (opt_str_enc(
        m.hostname,
    ) + (",\"timestamp\":"@ + (spec_digits(m.timestamp as int) + (",\"text\":"@ + (opt_str_enc(
        m.text,
    ) + "}"@)))))))))))
}

/// What a character string decodes to, if anything: the fields read in
/// order, the port fitting 16 bits, and nothing left over.
pub open spec fn spec_decode_message(s: Seq<char>) -> Option<MessageView> {
    let h = spec_expect(s, "{\"message_type\":\""@);
    let pd = spec_expect(h.rest, "PeerDiscovery"@);
    let tm = spec_expect(h.rest, "TextMessage"@);
    let kind = if pd.ok {
        MessageType::PeerDiscovery
    } else {
        MessageType::TextMessage
    };
    let k = if pd.ok {
        pd
    } else {
        tm
    };
    let c1 = spec_expect(k.rest, "\",\"peer_id\":\""@);
    let pid = spec_unescape(c1.rest);
    let c2 = spec_expect(pid.rest, ",\"port\":"@);
    let num1 = spec_parse_u64(c2.rest);
    let c3 = spec_expect(num1.rest, ",\"hostname\":"@);
    let host = spec_parse_opt_str(c3.rest);
    let c4 = spec_expect(host.rest, ",\"timestamp\":"@);
    let num2 = spec_parse_u64(c4.rest);
    let c5 = spec_expect(num2.rest, ",\"text\":"@);
    let txt = spec_parse_opt_str(c5.rest);
    let c6 = spec_expect(txt.rest, "}"@);
    if h.ok && (pd.ok || tm.ok) && c1.ok && pid.ok && c2.ok && num1.ok && num1.val <= 65535
        && c3.ok && host.ok && c4.ok && num2.ok && c5.ok && txt.ok && c6.ok && c6.rest.len()
        == 0 {
        Some(
            MessageView {
                message_type: kind,
                peer_id: pid.val,
                port: num1.val as u16,
                hostname: host.val,
                timestamp: num2.val as u64,
                text: txt.val,
            },
        )
    } else {
        None
    }
}

/// Appends `null` or the quoted, escaped string.
fn append_opt_str(out: &mut String, o: &Option<String>)
    ensures
        final(out)@ == old(out)@ + opt_str_enc(opt_str_view(*o)),
{
    match o {
        None => out.append("null"),
        Some(u) => {
            let ghost start = out@;
            push_char(out, '"');
            append_escaped(out, u.as_str());
            push_char(out, '"');
            proof {
                assert(out@ =~= start + (seq!['"'] + spec_escape(u@) + seq!['"']));
            }
        },
    }
}

/// Writes the message in its canonical wire form.
#[verifier::rlimit(100)]
pub fn encode_message(m: &DiscoveryMessage) -> (r: String)
    ensures
        r@ == spec_encode_message(m@),
{
    let mut out = String::new();
    out.append("{\"message_type\":\"");
    proof {
        assert(out@ =~= "{\"message_type\":\""@);
    }
    let ghost o1 = out@;
    match m.message_type {
        MessageType::PeerDiscovery => out.append("PeerDiscovery"),
        MessageType::TextMessage => out.append("TextMessage"),
    }
    proof {
        assert(out@ == o1 + kind_lit(m@.message_type));
    }
    let ghost o2 = out@;
    out.append("\",\"peer_id\":\"");
    let ghost o3 = out@;
    append_escaped(&mut out, m.peer_id.as_str());
    let ghost o4 = out@;
    out.append("\",\"port\":");
    let ghost o5 = out@;
    let port_digits = u64_to_string(m.port as u64);
    out.append(port_digits.as_str());
    let ghost o6 = out@;
    out.append(",\"hostname\":");
    let ghost o7 = out@;
    append_opt_str(&mut out, &m.hostname);
    let ghost o8 = out@;
    out.append(",\"timestamp\":");
    let ghost o9 = out@;
    let ts_digits = u64_to_string(m.timestamp);
    out.append(ts_digits.as_str());
    let ghost o10 = out@;
    out.append(",\"text\":");
    let ghost o11 = out@;
    append_opt_str(&mut out, &m.text);
    let ghost o12 = out@;
    out.append("}");
    proof {
        let p2 = kind_lit(m@.message_type);
        let p3 = "\",\"peer_id\":\""@;
        let p4 = spec_escape(m@.peer_id);
        let p5 = "\",\"port\":"@;
        let p6 = spec_digits(m@.port as int);
        let p7 = ",\"hostname\":"@;
        let p8 = opt_str_enc(m@.hostname);
        let p9 = ",\"timestamp\":"@;
        let p10 = spec_digits(m@.timestamp as int);
        let p11 = ",\"text\":"@;
        let p12 = opt_str_enc(m@.text);
        let t13 = "}"@;
        let t12 = p12 + t13;
        let t11 = p11 + t12;
        let t10 = p10 + t11;
        let t9 = p9 + t10;
        let t8 = p8 + t9;
        let t7 = p7 + t8;
        let t6 = p6 + t7;
        let t5 = p5 + t6;
        let t4 = p4 + t5;
        let t3 = p3 + t4;
        let t2 = p2 + t3;
        assert(port_digits@ == p6);
        assert(ts_digits@ == p10);
        assert(out@ == o12 + t13);
        assert((o11 + p12) + t13 =~= o11 + t12);
        assert((o10 + p11) + t12 =~= o10 + t11);
        assert((o9 + p10) + t11 =~= o9 + t10);
        assert((o8 + p9) + t10 =~= o8 + t9);
        assert((o7 + p8) + t9 =~= o7 + t8);
        assert((o6 + p7) + t8 =~= o6 + t7);
        assert((o5 + p6) + t7 =~= o5 + t6);
        assert((o4 + p5) + t6 =~= o4 + t5);
        assert((o3 + p4) + t5 =~= o3 + t4);
        assert((o2 + p3) + t4 =~= o2 + t3);
        assert((o1 + p2) + t3 =~= o1 + t2);
        assert(out@ == o1 + t2);
        assert(spec_encode_message(m@) == o1 + t2);
    }
    out
}

/// Reads a message back from its wire form; any string that is not the
/// canonical form of some message is rejected.
pub fn decode_message(s: &str) -> (r: Option<DiscoveryMessage>)
    ensures
        spec_decode_message(s@) is None ==> r is None,
        spec_decode_message(s@) matches Some(mv) ==> (r matches Some(d) && d@ == mv),
{
    let n = s.unicode_len();
    proof {
        assert(s@.skip(0) =~= s@);
    }
    let i1 = match expect_lit(s, 0, "{\"message_type\":\"") {
        Some(j) => j,
        None => {
            return None;
        },
    };
    let (mt, i2) = match expect_lit(s, i1, "PeerDiscovery") {
        Some(j) => (MessageType::PeerDiscovery, j),
        None => match expect_lit(s, i1, "TextMessage") {
            Some(j) => (MessageType::TextMessage, j),
            None => {
                return None;
            },
        },
    };
    let i3 = match expect_lit(s, i2, "\",\"peer_id\":\"") {
        Some(j) => j,
        None => {
            return None;
        },
    };
    let (peer_id, i4) = match parse_string_body(s, i3) {
        Some(p) => p,
        None => {
            return None;
        },
    };
    let i5 = match expect_lit(s, i4, ",\"port\":") {
        Some(j) => j,
        None => {
            return None;
        },
    };
    let (port_val, i6) = match parse_number(s, i5) {
        Some(p) => p,
        None => {
            return None;
        },
    };
    if port_val > 65535 {
        return None;
    }
    let i7 = match expect_lit(s, i6, ",\"hostname\":") {
        Some(j) => j,
        None => {
            return None;
        },
    };
    let (hostname, i8) = match parse_opt_str(s, i7) {
        Some(p) => p,
        None => {
            return None;
        },
    };
    let i9 = match expect_lit(s, i8, ",\"timestamp\":") {
        Some(j) => j,
        None => {
            return None;
        },
    };
    let (timestamp, i10) = match parse_number(s, i9) {
        Some(p) => p,
        None => {
            return None;
        },
    };
    let i11 = match expect_lit(s, i10, ",\"text\":") {
        Some(j) => j,
        None => {
            return None;
        },
    };
    let (text, i12) = match parse_opt_str(s, i11) {
        Some(p) => p,
        None => {
            return None;
        },
    };
    let i13 = match expect_lit(s, i12, "}") {
        Some(j) => j,
        None => {
            return None;
        },
    };
    if i13 != n {
        return None;
    }
    Some(
        DiscoveryMessage {
            message_type: mt,
            peer_id,
            port: port_val as u16,
            hostname,
            timestamp,
            text,
        },
    )
}

/// Round trip: every message decodes back from its canonical wire form
/// to exactly the same value, whichever kind it is and whether or not
/// the optional fields are present.
pub proof fn lemma_encode_decode(m: MessageView)
    ensures
        spec_decode_message(spec_encode_message(m)) == Some(m),
{
    let r12 = "}"@;
    let r11 = opt_str_enc(m.text) + r12;
    let r10 = ",\"text\":"@ + r11;
    let r9 = spec_digits(m.timestamp as int) + r10;
    let r8 = ",\"timestamp\":"@ + r9;
    let r7 = opt_str_enc(m.hostname) + r8;
    let r6 = ",\"hostname\":"@ + r7;
    let r5 = spec_digits(m.port as int) + r6;
    let r4 = "\",\"port\":"@ + r5;
    let r3 = spec_escape(m.peer_id) + r4;
    let r2 = "\",\"peer_id\":\""@ + r3;
    let r1 = kind_lit(m.message_type) + r2;
    let s = "{\"message_type\":\""@ + r1;
    assert(spec_encode_message(m) == s);
    lemma_expect_concat("{\"message_type\":\""@, r1);
    let h = spec_expect(s, "{\"message_type\":\""@);
    let pd = spec_expect(h.rest, "PeerDiscovery"@);
    let tm = spec_expect(h.rest, "TextMessage"@);
    match m.message_type {
        MessageType::PeerDiscovery => {
            lemma_expect_concat("PeerDiscovery"@, r2);
            assert(pd.ok && pd.rest == r2);
        },
        MessageType::TextMessage => {
            lemma_expect_concat("TextMessage"@, r2);
            assert(tm.ok && tm.rest == r2);
            reveal_strlit("PeerDiscovery");
            reveal_strlit("TextMessage");
            assert(!pd.ok) by {
                if pd.ok {
                    assert(r1.take("PeerDiscovery"@.len() as int) == "PeerDiscovery"@);
                    assert(r1[0] == "TextMessage"@[0]);
                    assert("PeerDiscovery"@[0] == 'P' && "TextMessage"@[0] == 'T');
                    assert(r1.take("PeerDiscovery"@.len() as int)[0] == r1[0]);
                    assert(false);
                }
            }
        },
    }
    let k = if pd.ok {
        pd
    } else {
        tm
    };
    assert(k.ok && k.rest == r2);
    lemma_expect_concat("\",\"peer_id\":\""@, r3);
    let c1 = spec_expect(k.rest, "\",\"peer_id\":\""@);
    assert(c1.ok && c1.rest == r3);
    reveal_strlit("\",\"port\":");
    reveal_strlit(",\"port\":");
    assert("\",\"port\":"@ =~= seq!['"'] + ",\"port\":"@);
    assert(r3 =~= spec_escape(m.peer_id) + seq!['"'] + (",\"port\":"@ + r5));
    lemma_unescape_escape(m.peer_id, ",\"port\":"@ + r5);
    let pid = spec_unescape(c1.rest);
    assert(pid.ok && pid.val == m.peer_id && pid.rest == ",\"port\":"@ + r5);
    lemma_expect_concat(",\"port\":"@, r5);
    let c2 = spec_expect(pid.rest, ",\"port\":"@);
    assert(c2.ok && c2.rest == r5);
    reveal_strlit(",\"hostname\":");
    assert(r6[0] == ',');
    lemma_parse_digits(m.port as u64, r6);
    let num1 = spec_parse_u64(c2.rest);
    assert(num1.ok && num1.val == m.port as int && num1.rest == r6);
    lemma_expect_concat(",\"hostname\":"@, r7);
    let c3 = spec_expect(num1.rest, ",\"hostname\":"@);
    assert(c3.ok && c3.rest == r7);
    lemma_parse_opt_str(m.hostname, r8);
    let host = spec_parse_opt_str(c3.rest);
    assert(host.ok && host.val == m.hostname && host.rest == r8);
    lemma_expect_concat(",\"timestamp\":"@, r9);
    let c4 = spec_expect(host.rest, ",\"timestamp\":"@);
    assert(c4.ok && c4.rest == r9);
    reveal_strlit(",\"text\":");
    assert(r10[0] == ',');
    lemma_parse_digits(m.timestamp, r10);
    let num2 = spec_parse_u64(c4.rest);
    assert(num2.ok && num2.val == m.timestamp as int && num2.rest == r10);
    lemma_expect_concat(",\"text\":"@, r11);
    let c5 = spec_expect(num2.rest, ",\"text\":"@);
    assert(c5.ok && c5.rest == r11);
    lemma_parse_opt_str(m.text, r12);
    let txt = spec_parse_opt_str(c5.rest);
    assert(txt.ok && txt.val == m.text && txt.rest == r12);
    assert(r12 =~= "}"@ + Seq::<char>::empty());
    lemma_expect_concat("}"@, Seq::<char>::empty());
    let c6 = spec_expect(txt.rest, "}"@);
    assert(c6.ok && c6.rest.len() == 0);
    let got = spec_decode_message(s);
    assert(got is Some);
    assert(got.unwrap() == m);
}

} // verus!
