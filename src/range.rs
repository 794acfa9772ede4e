//! Column ranges and the language in which they are written.
//!
//! A token is either a single integer (`3`, `-1`, `+2`), read as Rust reads
//! an `isize`, or two integers joined by a colon (`2:5`, `-1:-3`), each
//! matching `-?[0-9]+`.
use vstd::prelude::*;
use vstd::utf8::{is_ascii_chars, is_ascii_chars_encode_utf8};
use vstd::string::StringSliceAdditionalSpecFns;

verus! {

/// An inclusive span of field indices; `start == end` selects one field.
#[derive(Debug, Clone, Copy, PartialEq, Eq, Structural)]
pub struct ColumnRange {
    pub start: isize,
    pub end: isize,
}

pub open spec fn is_digit(c: char) -> bool {
    '0' <= c && c <= '9'
}

/// One or more ASCII decimal digits.
pub open spec fn is_digits(s: Seq<char>) -> bool {
    s.len() > 0 && forall|i: int| 0 <= i < s.len() ==> is_digit(#[trigger] s[i])
}

pub open spec fn digit_value(c: char) -> int {
    c as int - '0' as int
}

/// The number that a run of decimal digits denotes.
pub open spec fn digits_value(s: Seq<char>) -> int
    decreases s.len(),
{
    if s.len() == 0 {
        0
    } else {
        10 * digits_value(s.drop_last()) + digit_value(s.last())
    }
}

/// `-?[0-9]+`: the syntax of each side of a colon.
pub open spec fn signed_value(s: Seq<char>) -> Option<int> {
    if s.len() > 0 && s[0] == '-' && is_digits(s.drop_first()) {
        Some(-digits_value(s.drop_first()))
    } else if is_digits(s) {
        Some(digits_value(s))
    } else {
        None
    }
}

/// `[+-]?[0-9]+`: the syntax of a single column.
pub open spec fn integer_value(s: Seq<char>) -> Option<int> {
    if s.len() > 0 && s[0] == '+' && is_digits(s.drop_first()) {
        Some(digits_value(s.drop_first()))
    } else {
        signed_value(s)
    }
}

/// Keeps a value only where an `isize` can hold it.
pub open spec fn within_isize(v: Option<int>) -> Option<isize> {
    match v {
        Some(x) => if isize::MIN <= x <= isize::MAX {
            Some(x as isize)
        } else {
            None
        },
        None => None,
    }
}

/// The position of the first colon, or the length where there is none.
pub open spec fn colon_index(s: Seq<char>) -> int
    decreases s.len(),
{
    if s.len() == 0 {
        0
    } else if s[0] == ':' {
        0
    } else {
        1 + colon_index(s.drop_first())
    }
}

/// `a:b`, each side `-?[0-9]+` and within `isize`.
pub open spec fn pair_value(s: Seq<char>) -> Option<ColumnRange> {
    let p = colon_index(s);
    if p < s.len() {
        match (within_isize(signed_value(s.take(p))), within_isize(signed_value(s.skip(p + 1)))) {
            (Some(a), Some(b)) => Some(ColumnRange { start: a, end: b }),
            _ => None,
        }
    } else {
        None
    }
}

/// What a token denotes: a single column `n` as `n:n`, else a pair, else nothing.
pub open spec fn parse_token(s: Seq<char>) -> Option<ColumnRange> {
    match within_isize(integer_value(s)) {
        Some(n) => Some(ColumnRange { start: n, end: n }),
        None => pair_value(s),
    }
}

proof fn lemma_digits_value_nonneg(s: Seq<char>)
    requires
        forall|i: int| 0 <= i < s.len() ==> is_digit(#[trigger] s[i]),
    ensures
        digits_value(s) >= 0,
    decreases s.len(),
{
    if s.len() > 0 {
        let t = s.drop_last();
        assert forall|i: int| 0 <= i < t.len() implies is_digit(#[trigger] t[i]) by {
            assert(t[i] == s[i]);
        }
        lemma_digits_value_nonneg(t);
    }
}

/// A longer run of digits never denotes a smaller number.
proof fn lemma_digits_value_grows(s: Seq<char>, k: int)
    requires
        forall|i: int| 0 <= i < s.len() ==> is_digit(#[trigger] s[i]),
        0 <= k <= s.len(),
    ensures
        0 <= digits_value(s.take(k)) <= digits_value(s),
    decreases s.len() - k,
{
    if k == s.len() {
        assert(s.take(k) =~= s);
        lemma_digits_value_nonneg(s);
    } else {
        let t = s.take(k + 1);
        assert(t.drop_last() =~= s.take(k));
        assert forall|i: int| 0 <= i < t.len() implies is_digit(#[trigger] t[i]) by {
            assert(t[i] == s[i]);
        }
        lemma_digits_value_nonneg(t.drop_last());
        assert(is_digit(t.last()));
        lemma_digits_value_grows(s, k + 1);
    }
}

proof fn lemma_colon_index(s: Seq<char>, p: int)
    requires
        0 <= p <= s.len(),
        forall|j: int| 0 <= j < p ==> s[j] != ':',
        p == s.len() || s[p] == ':',
    ensures
        colon_index(s) == p,
    decreases p,
{
    if p > 0 {
        let t = s.drop_first();
        assert forall|j: int| 0 <= j < p - 1 implies t[j] != ':' by {
            assert(t[j] == s[j + 1]);
        }
        if p < s.len() {
            assert(t[p - 1] == s[p]);
        }
        lemma_colon_index(t, p - 1);
    }
}

/// Reads `s[lo..hi]` as a run of digits, negated where `negative` holds.
fn digits_in(s: &Vec<char>, lo: usize, hi: usize, negative: bool) -> (r: Option<isize>)
    requires
        lo <= hi <= s@.len(),
    ensures
        r == (if is_digits(s@.subrange(lo as int, hi as int)) {
            within_isize(
                Some(
                    if negative {
                        -digits_value(s@.subrange(lo as int, hi as int))
                    } else {
                        digits_value(s@.subrange(lo as int, hi as int))
                    },
                ),
            )
        } else {
            None
        }),
{
    let ghost d = s@.subrange(lo as int, hi as int);
    if lo == hi {
        return None;
    }
    let mut i: usize = lo;
    while i < hi
        invariant
            lo <= i <= hi <= s@.len(),
            d == s@.subrange(lo as int, hi as int),
            forall|j: int| lo <= j < i ==> is_digit(#[trigger] s@[j]),
        decreases hi - i,
    {
        if !('0' <= s[i] && s[i] <= '9') {
            assert(!is_digits(d)) by {
                assert(d[i - lo] == s@[i as int]);
            }
            return None;
        }
        i = i + 1;
    }
    assert(is_digits(d)) by {
        assert forall|j: int| 0 <= j < d.len() implies is_digit(#[trigger] d[j]) by {
            assert(d[j] == s@[lo + j]);
        }
    }
    let mut v: isize = 0;
    let mut i: usize = lo;
    while i < hi
        invariant
            lo <= i <= hi <= s@.len(),
            d == s@.subrange(lo as int, hi as int),
            is_digits(d),
            v == (if negative {
                -digits_value(d.take(i - lo))
            } else {
                digits_value(d.take(i - lo))
            }),
        decreases hi - i,
    {
        let ghost k = i - lo;
        assert(d.take(k + 1).drop_last() =~= d.take(k));
        assert(d.take(k + 1).last() == s@[i as int]);
        let c = s[i];
        assert(is_digit(d[k]));
        let dv = (c as u32 - '0' as u32) as isize;
        let step = v.checked_mul(10);
        let next = match step {
            Some(m) => if negative {
                m.checked_sub(dv)
            } else {
                m.checked_add(dv)
            },
            None => None,
        };
        match next {
            Some(n) => {
                v = n;
            },
            None => {
                proof {
                    lemma_digits_value_grows(d, k);
                    lemma_digits_value_grows(d, k + 1);
                }
                return None;
            },
        }
        i = i + 1;
    }
    assert(d.take(hi - lo) =~= d);
    Some(v)
}


/// Reads `s[lo..hi]` as `-?[0-9]+`.
fn signed_in(s: &Vec<char>, lo: usize, hi: usize) -> (r: Option<isize>)
    requires
        lo <= hi <= s@.len(),
    ensures
        r == within_isize(signed_value(s@.subrange(lo as int, hi as int))),
{
    let ghost d = s@.subrange(lo as int, hi as int);
    if lo < hi && s[lo] == '-' {
        assert(d.drop_first() =~= s@.subrange(lo + 1, hi as int));
        assert(!is_digits(d)) by {
            assert(d[0] == '-');
        }
        digits_in(s, lo + 1, hi, true)
    } else {
        digits_in(s, lo, hi, false)
    }
}

/// The characters of `s`, where all of them are ASCII.
fn ascii_chars(s: &str) -> (r: Option<Vec<char>>)
    ensures
        r is Some <==> is_ascii_chars(s@),
        r matches Some(v) ==> v@ == s@,
{
    if !s.is_ascii() {
        return None;
    }
    let b = s.as_bytes();
    proof {
        is_ascii_chars_encode_utf8(s@);
    }
    let mut v: Vec<char> = Vec::new();
    let mut i: usize = 0;
    while i < b.len()
        invariant
            is_ascii_chars(s@),
            b@ == s.spec_bytes(),
            b@.len() == s@.len(),
            forall|j: int| 0 <= j < s@.len() ==> s@[j] as u8 == #[trigger] b@[j],
            i <= b@.len(),
            v@ == s@.take(i as int),
        decreases b@.len() - i,
    {
        let c = b[i] as char;
        assert(c == s@[i as int]) by {
            assert('\0' <= s@[i as int] <= '\u{7f}');
        }
        v.push(c);
        assert(v@ =~= s@.take(i + 1));
        i = i + 1;
    }
    assert(v@ =~= s@);
    Some(v)
}

/// The characters that can stand in a token that denotes a range.
pub open spec fn is_token_char(c: char) -> bool {
    is_digit(c) || c == '+' || c == '-' || c == ':'
}

proof fn lemma_signed_chars(t: Seq<char>)
    requires
        signed_value(t) is Some || integer_value(t) is Some,
    ensures
        forall|i: int| 0 <= i < t.len() ==> is_token_char(#[trigger] t[i]) && t[i] != ':',
{
    assert forall|i: int| 0 <= i < t.len() implies is_token_char(#[trigger] t[i]) && t[i] != ':' by {
        if i > 0 && (t[0] == '-' || t[0] == '+') && is_digits(t.drop_first()) {
            assert(t[i] == t.drop_first()[i - 1]);
        }
    }
}

proof fn lemma_colon_index_bounds(s: Seq<char>)
    ensures
        0 <= colon_index(s) <= s.len(),
        colon_index(s) < s.len() ==> s[colon_index(s)] == ':',
        forall|j: int| 0 <= j < colon_index(s) ==> s[j] != ':',
    decreases s.len(),
{
    if s.len() > 0 && s[0] != ':' {
        let t = s.drop_first();
        lemma_colon_index_bounds(t);
        assert forall|j: int| 0 <= j < colon_index(s) implies s[j] != ':' by {
            if j > 0 {
                assert(s[j] == t[j - 1]);
            }
        }
    }
}

/// A token with a character other than a digit, a sign or a colon denotes
/// no range.
pub proof fn lemma_foreign_char_rejected(s: Seq<char>, i: int)
    requires
        0 <= i < s.len(),
        !is_token_char(s[i]),
    ensures
        parse_token(s) is None,
{
    if integer_value(s) is Some {
        lemma_signed_chars(s);
    }
    let p = colon_index(s);
    lemma_colon_index_bounds(s);
    if p < s.len() && signed_value(s.take(p)) is Some && signed_value(s.skip(p + 1)) is Some {
        lemma_signed_chars(s.take(p));
        lemma_signed_chars(s.skip(p + 1));
        if i < p {
            assert(s[i] == s.take(p)[i]);
        } else if i > p {
            assert(s[i] == s.skip(p + 1)[i - p - 1]);
        }
    }
}

/// Parses one token: a single column `n` gives `n:n`, a pair `a:b` gives
/// `a:b`, anything else gives `None`.
pub fn parse_column_range(maybe_column: &str) -> (r: Option<ColumnRange>)
    ensures
        r == parse_token(maybe_column@),
{
    let ghost s = maybe_column@;
    let chars = match ascii_chars(maybe_column) {
        Some(v) => v,
        None => {
            proof {
                let i = choose|i: int| 0 <= i < s.len() && !('\0' <= #[trigger] s[i] <= '\u{7f}');
                lemma_foreign_char_rejected(s, i);
            }
            return None;
        },
    };
    let n = chars.len();
    assert(chars@.subrange(0, n as int) =~= s);
    let single = if n > 0 && chars[0] == '+' {
        assert(chars@.subrange(1, n as int) =~= s.drop_first());
        digits_in(&chars, 1, n, false)
    } else {
        signed_in(&chars, 0, n)
    };
    if let Some(v) = single {
        return Some(ColumnRange { start: v, end: v });
    }
    let mut p: usize = 0;
    while p < n && chars[p] != ':'
        invariant
            n == chars@.len(),
            chars@ == s,
            p <= n,
            forall|j: int| 0 <= j < p ==> s[j] != ':',
        decreases n - p,
    {
        p = p + 1;
    }
    proof {
        lemma_colon_index(s, p as int);
    }
    if p == n {
        return None;
    }
    assert(chars@.subrange(0, p as int) =~= s.take(p as int));
    assert(chars@.subrange(p + 1, n as int) =~= s.skip(p + 1));
    let first = signed_in(&chars, 0, p);
    let second = signed_in(&chars, p + 1, n);
    match (first, second) {
        (Some(a), Some(b)) => Some(ColumnRange { start: a, end: b }),
        _ => None,
    }
}

/// `ranges` are the leading range tokens of `args`, parsed, up to the first
/// token that is no range; `rest` is what follows them, untouched.
pub open spec fn splits_args(
    args: Seq<String>,
    ranges: Seq<ColumnRange>,
    rest: Seq<String>,
) -> bool {
    &&& ranges.len() <= args.len()
    &&& forall|i: int| 0 <= i < ranges.len() ==> parse_token(#[trigger] args[i]@) == Some(ranges[i])
    &&& ranges.len() < args.len() ==> parse_token(args[ranges.len() as int]@) is None
    &&& rest == args.subrange(ranges.len() as int, args.len() as int)
}

/// Splits the arguments into the leading run of range tokens, parsed, and
/// the rest, untouched. The first token that is not a range ends the run.
pub fn separate_args(args: Vec<String>) -> (r: (Vec<ColumnRange>, Vec<String>))
    ensures
        splits_args(args@, r.0@, r.1@),
{
    let mut args = args;
    let mut columns: Vec<ColumnRange> = Vec::new();
    let mut i: usize = 0;
    let mut done = false;
    while !done && i < args.len()
        invariant
            i <= args@.len(),
            columns@.len() == i,
            forall|j: int| 0 <= j < i ==> parse_token(#[trigger] args@[j]@) == Some(columns@[j]),
            done ==> i < args@.len() && parse_token(args@[i as int]@) is None,
        decreases (args@.len() - i) * 2 + if done {
            0int
        } else {
            1int
        },
    {
        match parse_column_range(args[i].as_str()) {
            Some(c) => {
                columns.push(c);
                i = i + 1;
            },
            None => {
                done = true;
            },
        }
    }
    let filenames = args.split_off(i);
    (columns, filenames)
}

/// The character of a decimal digit.
pub open spec fn digit_char(d: int) -> char {
    if d == 0 {
        '0'
    } else if d == 1 {
        '1'
    } else if d == 2 {
        '2'
    } else if d == 3 {
        '3'
    } else if d == 4 {
        '4'
    } else if d == 5 {
        '5'
    } else if d == 6 {
        '6'
    } else if d == 7 {
        '7'
    } else if d == 8 {
        '8'
    } else {
        '9'
    }
}

/// The shortest run of decimal digits that denotes `m`.
pub open spec fn digits_of(m: nat) -> Seq<char>
    decreases m,
{
    if m < 10 {
        seq![digit_char(m as int)]
    } else {
        digits_of(m / 10).push(digit_char(m as int % 10))
    }
}

/// `n` written in decimal, with a leading `-` where it is negative.
pub open spec fn decimal(n: int) -> Seq<char> {
    if n < 0 {
        seq!['-'] + digits_of((-n) as nat)
    } else {
        digits_of(n as nat)
    }
}

proof fn lemma_digit_char(d: int)
    requires
        0 <= d < 10,
    ensures
        is_digit(digit_char(d)),
        digit_value(digit_char(d)) == d,
{
}

proof fn lemma_digits_of(m: nat)
    ensures
        is_digits(digits_of(m)),
        digits_value(digits_of(m)) == m,
    decreases m,
{
    let s = digits_of(m);
    lemma_digit_char(m as int % 10);
    if m < 10 {
        assert(s.drop_last() =~= Seq::<char>::empty());
        assert(digits_value(s.drop_last()) == 0);
        assert(s.last() == digit_char(m as int));
    } else {
        lemma_digits_of(m / 10);
        assert(s.drop_last() =~= digits_of(m / 10));
        assert(s.last() == digit_char(m as int % 10));
        assert(10 * (m / 10) + m % 10 == m);
        assert forall|i: int| 0 <= i < s.len() implies is_digit(#[trigger] s[i]) by {
            if i < s.len() - 1 {
                assert(s[i] == digits_of(m / 10)[i]);
            }
        }
    }
}

proof fn lemma_decimal(n: int)
    ensures
        decimal(n).len() > 0,
        is_digit(decimal(n).last()),
        forall|i: int| 0 <= i < decimal(n).len() ==> is_token_char(#[trigger] decimal(n)[i]) && decimal(n)[i] != ':',
        signed_value(decimal(n)) == Some(n),
        integer_value(decimal(n)) == Some(n),
{
    let s = decimal(n);
    if n < 0 {
        let m = (-n) as nat;
        lemma_digits_of(m);
        assert(s.drop_first() =~= digits_of(m));
        assert(s.last() == digits_of(m).last());
    } else {
        lemma_digits_of(n as nat);
        assert(is_digit(s[0]));
    }
    lemma_signed_chars(s);
}

/// Every `isize`, written in decimal, is read as the single column it names.
pub proof fn lemma_single_column_token(n: isize)
    ensures
        parse_token(decimal(n as int)) == Some(ColumnRange { start: n, end: n }),
{
    lemma_decimal(n as int);
}

/// Every pair of `isize` values written `a:b` is read as the range from `a`
/// to `b`, in either direction; with a side left out, or with a trailing
/// sign, the token is no range.
pub proof fn lemma_pair_token(a: isize, b: isize)
    ensures
        parse_token(decimal(a as int) + seq![':'] + decimal(b as int)) == Some(
            ColumnRange { start: a, end: b },
        ),
        parse_token(decimal(a as int) + seq![':']) is None,
        parse_token(seq![':'] + decimal(b as int)) is None,
        parse_token(decimal(a as int) + seq![':'] + decimal(b as int) + seq!['-']) is None,
{
    let da = decimal(a as int);
    let db = decimal(b as int);
    lemma_decimal(a as int);
    lemma_decimal(b as int);
    let p = da.len() as int;

    let full = da + seq![':'] + db;
    assert(full[p] == ':');
    lemma_no_integer_with_colon(full, p);
    lemma_colon_index(full, p);
    assert(full.take(p) =~= da);
    assert(full.skip(p + 1) =~= db);

    let open_end = da + seq![':'];
    assert(open_end[p] == ':');
    lemma_no_integer_with_colon(open_end, p);
    lemma_colon_index(open_end, p);
    assert(open_end.skip(p + 1) =~= Seq::<char>::empty());

    let open_start = seq![':'] + db;
    assert(open_start[0] == ':');
    lemma_no_integer_with_colon(open_start, 0);
    lemma_colon_index(open_start, 0);
    assert(open_start.take(0) =~= Seq::<char>::empty());

    let trailing = da + seq![':'] + db + seq!['-'];
    assert(trailing[p] == ':');
    lemma_no_integer_with_colon(trailing, p);
    lemma_colon_index(trailing, p);
    let tail = trailing.skip(p + 1);
    assert(tail =~= db + seq!['-']);
    assert(tail.last() == '-');
    assert(!is_digits(tail));
    assert(!is_digits(tail.drop_first())) by {
        assert(tail.drop_first().last() == '-');
    }
}

proof fn lemma_no_integer_with_colon(s: Seq<char>, p: int)
    requires
        0 <= p < s.len(),
        s[p] == ':',
    ensures
        integer_value(s) is None,
{
    if integer_value(s) is Some {
        lemma_signed_chars(s);
    }
}

} // verus!
