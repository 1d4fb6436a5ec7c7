//! Decimal text of integers: how a number is written on the wire and how
//! a line of text is read back as a number.

use vstd::prelude::*;

verus! {

pub open spec fn is_digit(b: u8) -> bool {
    48 <= b <= 57
}

/// White space of one byte: space, tab, line feed, vertical tab, form
/// feed and carriage return.
pub open spec fn is_space(b: u8) -> bool {
    b == 32 || (9 <= b <= 13)
}

/// White space of two bytes: the encodings of U+0085 and U+00A0.
pub open spec fn is_space2(a: u8, b: u8) -> bool {
    a == 0xC2 && (b == 0x85 || b == 0xA0)
}

/// White space of three bytes: the encodings of U+1680, U+2000 to
/// U+200A, U+2028, U+2029, U+202F, U+205F and U+3000.
pub open spec fn is_space3(a: u8, b: u8, c: u8) -> bool {
    ||| a == 0xE1 && b == 0x9A && c == 0x80
    ||| a == 0xE2 && b == 0x80 && (0x80 <= c <= 0x8A || c == 0xA8 || c == 0xA9 || c == 0xAF)
    ||| a == 0xE2 && b == 0x81 && c == 0x9F
    ||| a == 0xE3 && b == 0x80 && c == 0x80
}

/// The number of bytes of the white-space character at the front of
/// `s`; 0 where there is none.
pub open spec fn space_front(s: Seq<u8>) -> nat {
    if s.len() >= 1 && is_space(s[0]) {
        1
    } else if s.len() >= 2 && is_space2(s[0], s[1]) {
        2
    } else if s.len() >= 3 && is_space3(s[0], s[1], s[2]) {
        3
    } else {
        0
    }
}

/// The number of bytes of the white-space character at the end of `s`;
/// 0 where there is none.
pub open spec fn space_back(s: Seq<u8>) -> nat {
    let n = s.len() as int;
    if n >= 1 && is_space(s[n - 1]) {
        1
    } else if n >= 2 && is_space2(s[n - 2], s[n - 1]) {
        2
    } else if n >= 3 && is_space3(s[n - 3], s[n - 2], s[n - 1]) {
        3
    } else {
        0
    }
}

/// The decimal digits of `n`, most significant first, without leading
/// zeros (`0` is the single digit `0`).
pub open spec fn digits(n: nat) -> Seq<u8>
    decreases n,
{
    if n < 10 {
        seq![(48 + n) as u8]
    } else {
        digits(n / 10).push((48 + n % 10) as u8)
    }
}

/// The decimal text of `i`: a minus sign for a negative number, then the
/// digits of its magnitude.
pub open spec fn decimal(i: int) -> Seq<u8> {
    if i < 0 {
        seq![45u8] + digits((-i) as nat)
    } else {
        digits(i as nat)
    }
}

pub open spec fn all_digits(s: Seq<u8>) -> bool {
    forall|i: int| 0 <= i < s.len() ==> is_digit(#[trigger] s[i])
}

/// The number that a sequence of digits denotes (0 for the empty one).
pub open spec fn digits_value(s: Seq<u8>) -> nat
    decreases s.len(),
{
    if s.len() == 0 {
        0
    } else {
        digits_value(s.drop_last()) * 10 + (s.last() - 48) as nat
    }
}

/// A non-empty run of digits read as a number.
pub open spec fn parse_unsigned(s: Seq<u8>) -> Option<nat> {
    if s.len() > 0 && all_digits(s) {
        Some(digits_value(s))
    } else {
        None
    }
}

/// An optional sign followed by a non-empty run of digits.
pub open spec fn parse_signed(s: Seq<u8>) -> Option<int> {
    if s.len() > 0 && s[0] == 45 {
        match parse_unsigned(s.skip(1)) {
            Some(n) => Some(-(n as int)),
            None => None,
        }
    } else if s.len() > 0 && s[0] == 43 {
        match parse_unsigned(s.skip(1)) {
            Some(n) => Some(n as int),
            None => None,
        }
    } else {
        match parse_unsigned(s) {
            Some(n) => Some(n as int),
            None => None,
        }
    }
}

pub open spec fn trim_start(s: Seq<u8>) -> Seq<u8>
    decreases s.len(),
{
    let w = space_front(s);
    if w > 0 {
        trim_start(s.skip(w as int))
    } else {
        s
    }
}

pub open spec fn trim_end(s: Seq<u8>) -> Seq<u8>
    decreases s.len(),
{
    let w = space_back(s);
    if w > 0 {
        trim_end(s.take(s.len() - w))
    } else {
        s
    }
}

/// `s` without the white-space characters at its two ends.
pub open spec fn trim(s: Seq<u8>) -> Seq<u8> {
    trim_end(trim_start(s))
}

/// A line of text read as a signed 64-bit number: white space at the ends
/// is ignored, a sign may come first, and the number must fit.
pub open spec fn parse_i64_text(s: Seq<u8>) -> Option<i64> {
    match parse_signed(trim(s)) {
        Some(v) => if i64::MIN <= v <= i64::MAX {
            Some(v as i64)
        } else {
            None
        },
        None => None,
    }
}

pub proof fn lemma_digits_shape(n: nat)
    ensures
        digits(n).len() > 0,
        all_digits(digits(n)),
    decreases n,
{
    if n >= 10 {
        lemma_digits_shape(n / 10);
    }
}

pub proof fn lemma_digits_value(n: nat)
    ensures
        digits_value(digits(n)) == n,
    decreases n,
{
    if n < 10 {
        let s = digits(n);
        assert(s.drop_last().len() == 0);
        assert(digits_value(s.drop_last()) == 0);
    } else {
        lemma_digits_value(n / 10);
        let s = digits(n);
        assert(s.drop_last() =~= digits(n / 10));
    }
}

/// A prefix of a run of digits denotes no more than the whole run.
pub proof fn lemma_digits_value_prefix(s: Seq<u8>, k: int)
    requires
        0 <= k <= s.len(),
    ensures
        digits_value(s.take(k)) <= digits_value(s),
    decreases s.len() - k,
{
    if k == s.len() {
        assert(s.take(k) =~= s);
    } else {
        lemma_digits_value_prefix(s.drop_last(), k);
        assert(s.drop_last().take(k) =~= s.take(k));
    }
}

/// Text that starts and ends with a byte below 128 that is no white
/// space is its own trimmed form.
pub proof fn lemma_trim_tight(s: Seq<u8>)
    requires
        s.len() > 0 ==> !is_space(s[0]) && s[0] < 128 && !is_space(s.last()) && s.last() < 128,
    ensures
        trim(s) == s,
{
}

/// Reading the decimal text of a number gives the number back.
pub proof fn lemma_decimal_parses(i: int)
    ensures
        parse_signed(decimal(i)) == Some(i),
        trim(decimal(i)) == decimal(i),
        decimal(i).len() > 0,
        forall|k: int|
            0 <= k < decimal(i).len() ==> (#[trigger] decimal(i)[k]) != 10 && decimal(i)[k] != 13
                && decimal(i)[k] < 128,
{
    let s = decimal(i);
    if i < 0 {
        let n = (-i) as nat;
        lemma_digits_shape(n);
        lemma_digits_value(n);
        assert(s.skip(1) =~= digits(n));
        assert(is_digit(digits(n).last()));
        assert(s.last() == digits(n).last());
        assert forall|k: int| 0 <= k < s.len() implies (#[trigger] s[k]) != 10 && s[k] != 13
            && s[k] < 128 by {
            if k > 0 {
                assert(is_digit(digits(n)[k - 1]));
            }
        }
    } else {
        let n = i as nat;
        lemma_digits_shape(n);
        lemma_digits_value(n);
        assert(is_digit(s[0]));
        assert(is_digit(s.last()));
        assert forall|k: int| 0 <= k < s.len() implies (#[trigger] s[k]) != 10 && s[k] != 13
            && s[k] < 128 by {
            assert(is_digit(s[k]));
        }
    }
    lemma_trim_tight(s);
}

/// Appends the decimal digits of `n` to `out`.
pub fn push_digits(n: u128, out: &mut Vec<u8>)
    ensures
        final(out)@ == old(out)@ + digits(n as nat),
    decreases n,
{
    if n >= 10 {
        push_digits(n / 10, out);
    }
    let d: u8 = (n % 10) as u8;
    out.push(48 + d);
    proof {
        if n < 10 {
            assert(final(out)@ =~= old(out)@ + digits(n as nat));
        } else {
            assert(final(out)@ =~= old(out)@ + digits(n as nat));
        }
    }
}

/// The decimal text of a signed number.
pub fn format_i64(n: i64) -> (r: Vec<u8>)
    ensures
        r@ == decimal(n as int),
{
    let mut out: Vec<u8> = Vec::new();
    if n < 0 {
        out.push(45u8);
        let m: u128 = if n == i64::MIN {
            9223372036854775808u128
        } else {
            (-n) as u128
        };
        push_digits(m, &mut out);
        assert(out@ =~= decimal(n as int));
    } else {
        push_digits(n as u128, &mut out);
        assert(out@ =~= decimal(n as int));
    }
    out
}

/// Reads the digits `s[from..to]` as a number no greater than `limit`.
pub fn parse_magnitude(s: &[u8], from: usize, to: usize, limit: u64) -> (r: Option<u64>)
    requires
        from <= to <= s@.len(),
        limit >= 9,
    ensures
        r == match parse_unsigned(s@.subrange(from as int, to as int)) {
            Some(v) => if v <= limit {
                Some(v as u64)
            } else {
                None
            },
            None => None,
        },
{
    let ghost run = s@.subrange(from as int, to as int);
    if from == to {
        return None;
    }
    let mut acc: u64 = 0;
    let mut i: usize = from;
    assert(run.take(0).len() == 0);
    while i < to
        invariant
            from <= i <= to <= s@.len(),
            limit >= 9,
            run == s@.subrange(from as int, to as int),
            all_digits(run.take(i - from)),
            acc == digits_value(run.take(i - from)),
            acc <= limit,
        decreases to - i,
    {
        let d: u8 = s[i];
        if d < 48 || d > 57 {
            assert(run[i - from] == d);
            return None;
        }
        let dv: u64 = (d - 48) as u64;
        proof {
            let next = run.take(i - from + 1);
            assert(next.drop_last() =~= run.take(i - from));
            assert(next.last() == d);
            assert(digits_value(next) == acc * 10 + dv);
            assert forall|k: int| 0 <= k < next.len() implies is_digit(#[trigger] next[k]) by {
                if k < i - from {
                    assert(run.take(i - from)[k] == next[k]);
                }
            }
        }
        if acc > (limit - dv) / 10 {
            proof {
                lemma_digits_value_prefix(run, i - from + 1);
            }
            return None;
        }
        acc = acc * 10 + dv;
        i = i + 1;
    }
    assert(run.take(to - from) =~= run);
    Some(acc)
}

/// The width of the white-space character at the front of
/// `line[from..to]`.
pub fn space_width_front(line: &[u8], from: usize, to: usize) -> (r: usize)
    requires
        from <= to <= line@.len(),
    ensures
        r == space_front(line@.subrange(from as int, to as int)),
        r <= to - from,
{
    let n: usize = to - from;
    if n >= 1 && is_space_byte(line[from]) {
        1
    } else if n >= 2 && line[from] == 0xC2 && (line[from + 1] == 0x85 || line[from + 1] == 0xA0) {
        2
    } else if n >= 3 && is_space_triple(line[from], line[from + 1], line[from + 2]) {
        3
    } else {
        0
    }
}

/// The width of the white-space character at the end of
/// `line[from..to]`.
pub fn space_width_back(line: &[u8], from: usize, to: usize) -> (r: usize)
    requires
        from <= to <= line@.len(),
    ensures
        r == space_back(line@.subrange(from as int, to as int)),
        r <= to - from,
{
    let n: usize = to - from;
    if n >= 1 && is_space_byte(line[to - 1]) {
        1
    } else if n >= 2 && line[to - 2] == 0xC2 && (line[to - 1] == 0x85 || line[to - 1] == 0xA0) {
        2
    } else if n >= 3 && is_space_triple(line[to - 3], line[to - 2], line[to - 1]) {
        3
    } else {
        0
    }
}

/// Where the text of `line` starts and ends once the white space at its
/// two ends is left out.
pub fn trim_range(line: &[u8]) -> (r: (usize, usize))
    ensures
        r.0 <= r.1 <= line@.len(),
        trim(line@) == line@.subrange(r.0 as int, r.1 as int),
{
    let n: usize = line.len();
    let mut start: usize = 0;
    assert(line@.subrange(0, n as int) =~= line@);
    let mut w: usize = space_width_front(line, start, n);
    while w > 0
        invariant
            start <= n == line@.len(),
            w == space_front(line@.subrange(start as int, n as int)),
            w <= n - start,
            trim_start(line@) == trim_start(line@.subrange(start as int, n as int)),
        decreases n - start,
    {
        assert(line@.subrange(start as int, n as int).skip(w as int) =~= line@.subrange(
            start + w,
            n as int,
        ));
        start = start + w;
        w = space_width_front(line, start, n);
    }
    let ghost tail = line@.subrange(start as int, n as int);
    assert(trim_start(line@) == tail);
    let mut end: usize = n;
    let mut v: usize = space_width_back(line, start, end);
    while v > 0
        invariant
            start <= end <= n == line@.len(),
            v == space_back(line@.subrange(start as int, end as int)),
            v <= end - start,
            trim_end(tail) == trim_end(line@.subrange(start as int, end as int)),
        decreases end,
    {
        assert(line@.subrange(start as int, end as int).take(end - start - v) =~= line@.subrange(
            start as int,
            end - v,
        ));
        end = end - v;
        v = space_width_back(line, start, end);
    }
    (start, end)
}

/// Reads a line of text as a signed 64-bit number.
pub fn parse_i64(line: &[u8]) -> (r: Option<i64>)
    ensures
        r == parse_i64_text(line@),
{
    let (start, end) = trim_range(line);
    let ghost body = line@.subrange(start as int, end as int);
    if start == end {
        return None;
    }
    let first: u8 = line[start];
    assert(body[0] == first);
    if first == 45 {
        assert(body.skip(1) =~= line@.subrange(start + 1, end as int));
        match parse_magnitude(line, start + 1, end, 9223372036854775808u64) {
            Some(m) => {
                if m == 9223372036854775808u64 {
                    Some(i64::MIN)
                } else {
                    Some(-(m as i64))
                }
            },
            None => None,
        }
    } else if first == 43 {
        assert(body.skip(1) =~= line@.subrange(start + 1, end as int));
        match parse_magnitude(line, start + 1, end, 9223372036854775807u64) {
            Some(m) => Some(m as i64),
            None => None,
        }
    } else {
        match parse_magnitude(line, start, end, 9223372036854775807u64) {
            Some(m) => Some(m as i64),
            None => None,
        }
    }
}

/// Whether `b` is white space of one byte.
pub fn is_space_byte(b: u8) -> (r: bool)
    ensures
        r == is_space(b),
{
    b == 32 || (9 <= b && b <= 13)
}

/// Whether the three bytes are white space of three bytes.
pub fn is_space_triple(a: u8, b: u8, c: u8) -> (r: bool)
    ensures
        r == is_space3(a, b, c),
{
    (a == 0xE1 && b == 0x9A && c == 0x80) || (a == 0xE2 && b == 0x80 && ((0x80 <= c && c <= 0x8A)
        || c == 0xA8 || c == 0xA9 || c == 0xAF)) || (a == 0xE2 && b == 0x81 && c == 0x9F) || (a
        == 0xE3 && b == 0x80 && c == 0x80)
}

} // verus!
