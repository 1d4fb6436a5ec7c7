//! The two numbers that are kept as text: floating-point numbers and
//! integers of any size.

use vstd::prelude::*;
use vstd::utf8::encode_utf8;
use crate::decimal::{decimal, is_digit, is_space};
use crate::text::{lemma_ascii_is_utf8, utf8_text};

verus! {

/// An ASCII letter in lower case; any other byte unchanged.
pub open spec fn lower(b: u8) -> u8 {
    if 65 <= b <= 90 {
        (b + 32) as u8
    } else {
        b
    }
}

/// Whether `s` spells the lower-case word `w`, in any mix of cases.
pub open spec fn is_word(s: Seq<u8>, w: Seq<u8>) -> bool {
    &&& s.len() == w.len()
    &&& forall|i: int| 0 <= i < s.len() ==> lower(#[trigger] s[i]) == w[i]
}

/// The index after the longest run of digits that starts at `from`.
pub open spec fn digits_end(s: Seq<u8>, from: int) -> int
    decreases s.len() - from,
{
    if 0 <= from < s.len() && is_digit(s[from]) {
        digits_end(s, from + 1)
    } else {
        from
    }
}

/// Where the exponent's digits start, for an exponent mark at `b`: after
/// the mark and an optional sign.
pub open spec fn exponent_start(s: Seq<u8>, b: int) -> int {
    if b + 1 < s.len() && (s[b + 1] == 43 || s[b + 1] == 45) {
        b + 2
    } else {
        b + 1
    }
}

/// An unsigned decimal number: digits with an optional point among them
/// or at either end, at least one digit in all, and an optional exponent
/// (`e` or `E`, an optional sign, one digit or more).
pub open spec fn is_number_text(s: Seq<u8>) -> bool {
    let a = digits_end(s, 0);
    let b = if a < s.len() && s[a] == 46 {
        digits_end(s, a + 1)
    } else {
        a
    };
    let c = exponent_start(s, b);
    &&& (a > 0 || b > a + 1)
    &&& (b == s.len() || (lower(s[b]) == 101 && c < s.len() && digits_end(s, c) == s.len()))
}

pub open spec fn word_inf() -> Seq<u8> {
    seq![105u8, 110u8, 102u8]
}

pub open spec fn word_infinity() -> Seq<u8> {
    seq![105u8, 110u8, 102u8, 105u8, 110u8, 105u8, 116u8, 121u8]
}

pub open spec fn word_nan() -> Seq<u8> {
    seq![110u8, 97u8, 110u8]
}

/// `s` without a sign at its front.
pub open spec fn unsigned_part(s: Seq<u8>) -> Seq<u8> {
    if s.len() > 0 && (s[0] == 43 || s[0] == 45) {
        s.skip(1)
    } else {
        s
    }
}

/// The texts that stand for a floating-point number: an optional sign,
/// then `inf`, `infinity` or `nan` in any mix of cases, or a decimal
/// number.
pub open spec fn is_float_text(s: Seq<u8>) -> bool {
    let t = unsigned_part(s);
    is_word(t, word_inf()) || is_word(t, word_infinity()) || is_word(t, word_nan())
        || is_number_text(t)
}

/// Every byte of a run of digits is a digit.
pub proof fn lemma_digits_end(s: Seq<u8>, from: int)
    requires
        0 <= from <= s.len(),
    ensures
        from <= digits_end(s, from) <= s.len(),
        forall|k: int| from <= k < digits_end(s, from) ==> is_digit(#[trigger] s[k]),
        digits_end(s, from) < s.len() ==> !is_digit(s[digits_end(s, from)]),
    decreases s.len() - from,
{
    if from < s.len() && is_digit(s[from]) {
        lemma_digits_end(s, from + 1);
    }
}

/// The text of a floating-point number is not empty and holds no white
/// space.
pub proof fn lemma_float_text_tight(s: Seq<u8>)
    requires
        is_float_text(s),
    ensures
        s.len() > 0,
        forall|k: int| 0 <= k < s.len() ==> !is_space(#[trigger] s[k]) && s[k] < 128,
{
    let t = unsigned_part(s);
    let off: int = s.len() - t.len();
    assert forall|k: int| 0 <= k < t.len() implies !is_space(#[trigger] t[k]) && t[k] < 128 by {
        if is_word(t, word_inf()) {
            assert(lower(t[k]) == word_inf()[k]);
        } else if is_word(t, word_infinity()) {
            assert(lower(t[k]) == word_infinity()[k]);
        } else if is_word(t, word_nan()) {
            assert(lower(t[k]) == word_nan()[k]);
        } else {
            let a = digits_end(t, 0);
            lemma_digits_end(t, 0);
            let b = if a < t.len() && t[a] == 46 {
                digits_end(t, a + 1)
            } else {
                a
            };
            if a < t.len() && t[a] == 46 {
                lemma_digits_end(t, a + 1);
            }
            if b < t.len() {
                let c = exponent_start(t, b);
                lemma_digits_end(t, c);
                if k < a {
                    assert(is_digit(t[k]));
                } else if k < b {
                    if k > a {
                        assert(is_digit(t[k]));
                    }
                } else if k >= c {
                    assert(is_digit(t[k]));
                }
            } else {
                if k < a {
                    assert(is_digit(t[k]));
                } else if k > a {
                    assert(is_digit(t[k]));
                }
            }
        }
    }
    assert forall|k: int| 0 <= k < s.len() implies !is_space(#[trigger] s[k]) && s[k] < 128 by {
        if off == 1 {
            if k > 0 {
                assert(t[k - 1] == s[k]);
            }
        } else {
            assert(t[k] == s[k]);
        }
    }
    if t.len() == 0 {
        assert(digits_end(t, 0) == 0);
    }
}

/// The end of the run of digits of `s` that starts at `from`.
pub fn scan_digits(s: &[u8], from: usize) -> (r: usize)
    requires
        from <= s@.len(),
    ensures
        r == digits_end(s@, from as int),
        from <= r <= s@.len(),
{
    let mut i: usize = from;
    while i < s.len() && 48 <= s[i] && s[i] <= 57
        invariant
            from <= i <= s@.len(),
            digits_end(s@, from as int) == digits_end(s@, i as int),
        decreases s@.len() - i,
    {
        i = i + 1;
    }
    i
}

/// Whether `s` spells the lower-case word `w` in any mix of cases.
pub fn spells(s: &[u8], w: &[u8]) -> (r: bool)
    ensures
        r == is_word(s@, w@),
{
    if s.len() != w.len() {
        return false;
    }
    let mut i: usize = 0;
    while i < s.len()
        invariant
            i <= s@.len() == w@.len(),
            forall|k: int| 0 <= k < i ==> lower(#[trigger] s@[k]) == w@[k],
        decreases s@.len() - i,
    {
        let b: u8 = s[i];
        let l: u8 = if 65 <= b && b <= 90 {
            b + 32
        } else {
            b
        };
        if l != w[i] {
            return false;
        }
        i = i + 1;
    }
    true
}

/// Whether `s` is an unsigned decimal number.
pub fn check_number_text(s: &[u8]) -> (r: bool)
    ensures
        r == is_number_text(s@),
{
    let n: usize = s.len();
    let a: usize = scan_digits(s, 0);
    let b: usize = if a < n && s[a] == 46 {
        scan_digits(s, a + 1)
    } else {
        a
    };
    if !(a > 0 || b > a + 1) {
        return false;
    }
    if b == n {
        return true;
    }
    if s[b] != 101 && s[b] != 69 {
        return false;
    }
    let c: usize = if b + 1 < n && (s[b + 1] == 43 || s[b + 1] == 45) {
        b + 2
    } else {
        b + 1
    };
    c < n && scan_digits(s, c) == n
}

/// Whether `s` stands for a floating-point number.
pub fn check_float_text(s: &[u8]) -> (r: bool)
    ensures
        r == is_float_text(s@),
{
    let n: usize = s.len();
    let from: usize = if n > 0 && (s[0] == 43 || s[0] == 45) {
        1
    } else {
        0
    };
    let t: &[u8] = vstd::slice::slice_subrange(s, from, n);
    assert(t@ =~= unsigned_part(s@));
    let inf: Vec<u8> = vec![105u8, 110u8, 102u8];
    let infinity: Vec<u8> = vec![105u8, 110u8, 102u8, 105u8, 110u8, 105u8, 116u8, 121u8];
    let nan: Vec<u8> = vec![110u8, 97u8, 110u8];
    assert(inf@ =~= word_inf());
    assert(infinity@ =~= word_infinity());
    assert(nan@ =~= word_nan());
    spells(t, inf.as_slice()) || spells(t, infinity.as_slice()) || spells(t, nan.as_slice())
        || check_number_text(t)
}

/// A floating-point number, held as the decimal text that stands for it
/// on the wire.
#[derive(Debug, Hash)]
pub struct Float64 {
    text: Vec<u8>,
}

impl View for Float64 {
    type V = Seq<u8>;

    closed spec fn view(&self) -> Seq<u8> {
        self.text@
    }
}

impl Clone for Float64 {
    fn clone(&self) -> (r: Self)
        ensures
            r@ == self@,
    {
        proof {
            use_type_invariant(self);
        }
        Float64 { text: self.text.clone() }
    }
}

impl Float64 {
    #[verifier::type_invariant]
    spec fn well_formed(&self) -> bool {
        is_float_text(self.text@)
    }

    /// The number that `text` stands for, if it stands for one.
    pub fn from_text(text: &[u8]) -> (r: Option<Float64>)
        ensures
            r is Some <==> is_float_text(text@),
            r matches Some(f) ==> f@ == text@,
    {
        if check_float_text(text) {
            Some(Float64 { text: vstd::slice::slice_to_vec(text) })
        } else {
            None
        }
    }

    /// The decimal text of the number, as a string.
    pub fn to_string(&self) -> (r: String)
        ensures
            encode_utf8(r@) == self@,
    {
        proof {
            use_type_invariant(self);
            lemma_float_text_tight(self.text@);
            lemma_ascii_is_utf8(self.text@);
        }
        match utf8_text(self.text.as_slice()) {
            Some(t) => t.to_owned(),
            None => vstd::pervasive::unreached(),
        }
    }

    /// The decimal text of the number.
    pub fn text(&self) -> (r: &[u8])
        ensures
            r@ == self@,
            is_float_text(self@),
    {
        proof {
            use_type_invariant(self);
        }
        self.text.as_slice()
    }
}

/// The integer that a text denotes in base ten, where it denotes one.
pub uninterp spec fn bigint_value(text: Seq<u8>) -> Option<int>;

/// Reads `text` with `num_bigint::BigInt::parse_bytes` in base ten and
/// gives back the number's `Display` text. The contract claims that the
/// text is read as a number exactly where `bigint_value` says so, that
/// the text given back is that number's plain decimal form (a minus sign
/// for a negative number, no leading zeros), and that reading it again
/// gives the same number.
#[verifier::external_body]
fn bigint_canonical(text: &[u8]) -> (r: Option<Vec<u8>>)
    ensures
        r is Some <==> bigint_value(text@) is Some,
        r matches Some(t) ==> t@ == decimal(bigint_value(text@).unwrap()) && bigint_value(t@)
            == bigint_value(text@),
{
    match num_bigint::BigInt::parse_bytes(text, 10) {
        Some(n) => Some(n.to_string().into_bytes()),
        None => None,
    }
}

/// An integer of any size, held as its decimal text.
#[derive(Debug, Hash)]
pub struct BigInteger {
    text: Vec<u8>,
}

impl View for BigInteger {
    type V = int;

    closed spec fn view(&self) -> int {
        bigint_value(self.text@).unwrap()
    }
}

impl Clone for BigInteger {
    fn clone(&self) -> (r: Self)
        ensures
            r@ == self@,
    {
        proof {
            use_type_invariant(self);
        }
        BigInteger { text: self.text.clone() }
    }
}

impl BigInteger {
    #[verifier::type_invariant]
    spec fn well_formed(&self) -> bool {
        &&& bigint_value(self.text@) is Some
        &&& self.text@ == decimal(bigint_value(self.text@).unwrap())
    }

    /// The number that `text` denotes in base ten, if it denotes one.
    pub fn parse(text: &[u8]) -> (r: Option<BigInteger>)
        ensures
            r is Some <==> bigint_value(text@) is Some,
            r matches Some(b) ==> Some(b@) == bigint_value(text@),
    {
        match bigint_canonical(text) {
            Some(t) => Some(BigInteger { text: t }),
            None => None,
        }
    }

    /// The decimal text of the number.
    pub fn text(&self) -> (r: &[u8])
        ensures
            r@ == decimal(self@),
            bigint_value(decimal(self@)) == Some(self@),
    {
        proof {
            use_type_invariant(self);
        }
        self.text.as_slice()
    }
}

} // verus!
