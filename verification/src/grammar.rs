//! What a sequence of bytes means as a frame: the decoder, stated as a
//! function from the bytes to the value and the number of bytes it
//! takes up, or to the reason why there is none.

use vstd::prelude::*;
use vstd::utf8::valid_utf8;
use crate::decimal::{parse_i64_text, trim};
use crate::error::DecodeError;
use crate::model::{insert_entry, ValueModel};
use crate::scalar::{bigint_value, is_float_text};

verus! {

/// The number of bytes that a result takes up; 0 for a failure.
pub open spec fn used<T>(r: Result<(T, nat), DecodeError>) -> nat {
    match r {
        Ok((_, c)) => c,
        Err(_) => 0,
    }
}

/// Where the first line of `s` ends: the length of its text and the
/// number of bytes up to and including its terminator, which is a line
/// feed, alone or after a carriage return.
pub open spec fn line_break(s: Seq<u8>) -> Result<(nat, nat), DecodeError>
    decreases s.len(),
{
    if s.len() == 0 {
        Err(DecodeError::Incomplete)
    } else if s[0] == 10 {
        Ok((0, 1))
    } else if s[0] == 13 {
        if s.len() == 1 {
            Err(DecodeError::Incomplete)
        } else if s[1] == 10 {
            Ok((0, 2))
        } else {
            Err(DecodeError::BadProtocol)
        }
    } else {
        match line_break(s.skip(1)) {
            Ok((n, c)) => Ok((n + 1, c + 1)),
            Err(e) => Err(e),
        }
    }
}

/// A line ends within the bytes: after its text comes a terminator of
/// one byte or two.
pub proof fn lemma_line_break(s: Seq<u8>)
    ensures
        line_break(s) matches Ok((n, c)) ==> (c == n + 1 || c == n + 2) && c <= s.len(),
    decreases s.len(),
{
    if s.len() > 0 && s[0] != 10 && s[0] != 13 {
        lemma_line_break(s.skip(1));
    }
}

/// The number of bytes of the terminator that `s` starts with.
pub open spec fn newline(s: Seq<u8>) -> Result<nat, DecodeError> {
    if s.len() == 0 {
        Err(DecodeError::Incomplete)
    } else if s[0] == 10 {
        Ok(1)
    } else if s[0] == 13 {
        if s.len() == 1 {
            Err(DecodeError::Incomplete)
        } else if s[1] == 10 {
            Ok(2)
        } else {
            Err(DecodeError::BadProtocol)
        }
    } else {
        Err(DecodeError::BadProtocol)
    }
}

/// The first line of `s` read as a number, and the bytes it takes up.
pub open spec fn number_line(s: Seq<u8>) -> Result<(i64, nat), DecodeError> {
    match line_break(s) {
        Ok((n, c)) => match parse_i64_text(s.take(n as int)) {
            Some(v) => Ok((v, c)),
            None => Err(DecodeError::BadProtocol),
        },
        Err(e) => Err(e),
    }
}

/// The first line of `s` read as text, and the bytes it takes up.
pub open spec fn text_line(s: Seq<u8>) -> Result<(Seq<u8>, nat), DecodeError> {
    match line_break(s) {
        Ok((n, c)) => if valid_utf8(s.take(n as int)) {
            Ok((s.take(n as int), c))
        } else {
            Err(DecodeError::InvalidArgument)
        },
        Err(e) => Err(e),
    }
}

/// The entries that the first `n` pairs of `items` give when they are
/// inserted in order, each pair a key and its value.
pub open spec fn collect_entries(items: Seq<ValueModel>, n: nat) -> Seq<(ValueModel, ValueModel)>
    decreases n,
{
    if n == 0 {
        Seq::empty()
    } else {
        insert_entry(
            collect_entries(items, (n - 1) as nat),
            items[2 * n - 2],
            items[2 * n - 1],
        )
    }
}

/// A simple string after its tag: a line of text.
#[verifier::opaque]
pub open spec fn simple_string(r: Seq<u8>) -> Result<(ValueModel, nat), DecodeError> {
    match text_line(r) {
        Ok((t, c)) => Ok((ValueModel::String(t), c)),
        Err(e) => Err(e),
    }
}

/// A simple error after its tag: a line of text.
#[verifier::opaque]
pub open spec fn simple_error(r: Seq<u8>) -> Result<(ValueModel, nat), DecodeError> {
    match text_line(r) {
        Ok((t, c)) => Ok((ValueModel::Error(t), c)),
        Err(e) => Err(e),
    }
}

/// A number after its tag: a line that reads as a signed 64-bit number.
#[verifier::opaque]
pub open spec fn number(r: Seq<u8>) -> Result<(ValueModel, nat), DecodeError> {
    match number_line(r) {
        Ok((v, c)) => Ok((ValueModel::Number(v), c)),
        Err(e) => Err(e),
    }
}

/// A blob after its tag: a line with the length, that many bytes, and a
/// terminator. The length -1 stands for the null value and has no
/// payload.
#[verifier::opaque]
pub open spec fn blob(r: Seq<u8>) -> Result<(ValueModel, nat), DecodeError> {
    match number_line(r) {
        Ok((v, c)) => if v == -1 {
            Ok((ValueModel::Null, c))
        } else if v < 0 {
            Err(DecodeError::BadProtocol)
        } else if r.len() - c < v {
            Err(DecodeError::Incomplete)
        } else {
            match newline(r.skip(c + v)) {
                Ok(k) => Ok((ValueModel::Blob(r.subrange(c as int, c + v)), (c + v + k) as nat)),
                Err(e) => Err(e),
            }
        },
        Err(e) => Err(e),
    }
}

/// The null value after its tag: a terminator.
#[verifier::opaque]
pub open spec fn null(r: Seq<u8>) -> Result<(ValueModel, nat), DecodeError> {
    match newline(r) {
        Ok(k) => Ok((ValueModel::Null, k)),
        Err(e) => Err(e),
    }
}

/// A big number after its tag: a line of text that denotes an integer in
/// base ten.
#[verifier::opaque]
pub open spec fn big_number(r: Seq<u8>) -> Result<(ValueModel, nat), DecodeError> {
    match text_line(r) {
        Ok((t, c)) => match bigint_value(t) {
            Some(i) => Ok((ValueModel::Bigint(i), c)),
            None => Err(DecodeError::BadProtocol),
        },
        Err(e) => Err(e),
    }
}

/// A truth value after its tag: the line `t` or the line `f`.
#[verifier::opaque]
pub open spec fn boolean(r: Seq<u8>) -> Result<(ValueModel, nat), DecodeError> {
    match text_line(r) {
        Ok((t, c)) => if t == seq![116u8] {
            Ok((ValueModel::Boolean(true), c))
        } else if t == seq![102u8] {
            Ok((ValueModel::Boolean(false), c))
        } else {
            Err(DecodeError::BadProtocol)
        },
        Err(e) => Err(e),
    }
}

/// A floating-point number after its tag: a line whose text, without
/// the white space at its ends, stands for one.
#[verifier::opaque]
pub open spec fn double(r: Seq<u8>) -> Result<(ValueModel, nat), DecodeError> {
    match text_line(r) {
        Ok((t, c)) => if is_float_text(trim(t)) {
            Ok((ValueModel::Double(trim(t)), c))
        } else {
            Err(DecodeError::BadProtocol)
        },
        Err(e) => Err(e),
    }
}

/// The number of frames that follow the count `v` of an aggregate: two
/// for each entry of a map, one for each element of an array or a set.
pub open spec fn frames_of(tag: u8, v: i64) -> nat {
    if tag == 37 {
        (2 * v) as nat
    } else {
        v as nat
    }
}

/// The aggregate that the frames `items` make under the tag.
pub open spec fn gather(tag: u8, v: i64, items: Seq<ValueModel>) -> ValueModel {
    if tag == 42 {
        ValueModel::Array(items)
    } else if tag == 126 {
        ValueModel::SetOf(items)
    } else {
        ValueModel::MapOf(collect_entries(items, v as nat))
    }
}

/// The deepest that aggregates may be nested within a frame: a frame
/// with aggregates within aggregates beyond this is refused.
pub const MAX_DEPTH: usize = 512;

/// An array (tag `*`), a set (`~`) or a map (`%`) after its tag: a line
/// with the count, then the frames of the elements, or of each key and
/// its value in turn. The elements may hold aggregates nested `depth`
/// deep, less one.
pub open spec fn aggregate(r: Seq<u8>, tag: u8, depth: nat) -> Result<
    (ValueModel, nat),
    DecodeError,
>
    decreases r.len(), 0nat,
{
    if depth == 0 {
        Err(DecodeError::BadProtocol)
    } else {
        match number_line(r) {
            Ok((v, c)) => if v < 0 {
                Err(DecodeError::BadProtocol)
            } else {
                proof {
                    lemma_line_break(r);
                }
                match decode_seq(r.skip(c as int), frames_of(tag, v), (depth - 1) as nat) {
                    Ok((items, k)) => Ok((gather(tag, v, items), c + k)),
                    Err(e) => Err(e),
                }
            },
            Err(e) => Err(e),
        }
    }
}

/// What follows the tag byte `tag`, read as the body of a frame.
#[verifier::opaque]
pub open spec fn body(tag: u8, r: Seq<u8>, depth: nat) -> Result<(ValueModel, nat), DecodeError>
    decreases r.len(), 1nat,
{
    if tag == 43 {
        simple_string(r)
    } else if tag == 45 {
        simple_error(r)
    } else if tag == 58 {
        number(r)
    } else if tag == 36 {
        blob(r)
    } else if tag == 42 || tag == 126 || tag == 37 {
        aggregate(r, tag, depth)
    } else if tag == 95 {
        null(r)
    } else if tag == 40 {
        big_number(r)
    } else if tag == 35 {
        boolean(r)
    } else if tag == 44 {
        double(r)
    } else {
        Err(DecodeError::BadProtocol)
    }
}

/// The frame at the front of `s`, with aggregates nested no more than
/// `depth` deep, and the number of bytes it takes up: a tag byte and
/// the body that the tag announces.
pub open spec fn frame(s: Seq<u8>, depth: nat) -> Result<(ValueModel, nat), DecodeError>
    decreases s.len(), 0nat,
{
    if s.len() == 0 {
        Err(DecodeError::Incomplete)
    } else {
        match body(s[0], s.skip(1), depth) {
            Ok((m, c)) => Ok((m, 1 + c)),
            Err(e) => Err(e),
        }
    }
}

/// The frame at the front of `s` and the number of bytes it takes up.
pub open spec fn decode(s: Seq<u8>) -> Result<(ValueModel, nat), DecodeError> {
    frame(s, MAX_DEPTH as nat)
}

/// The `n` frames at the front of `s`, one after the other, and the
/// number of bytes that they take up together.
pub open spec fn decode_seq(s: Seq<u8>, n: nat, depth: nat) -> Result<
    (Seq<ValueModel>, nat),
    DecodeError,
>
    decreases s.len(), n + 2,
{
    if n == 0 {
        Ok((Seq::empty(), 0))
    } else {
        match frame(s, depth) {
            Ok((m, c)) => if 0 < c <= s.len() {
                match decode_seq(s.skip(c as int), (n - 1) as nat, depth) {
                    Ok((rest, k)) => Ok((seq![m] + rest, c + k)),
                    Err(e) => Err(e),
                }
            } else {
                Err(DecodeError::BadProtocol)
            },
            Err(e) => Err(e),
        }
    }
}

/// A frame takes up at least its tag byte and no more than the bytes
/// there are.
pub proof fn lemma_frame_bounds(s: Seq<u8>, depth: nat)
    ensures
        frame(s, depth) matches Ok((m, c)) ==> 1 <= c <= s.len(),
    decreases s.len(), 0nat,
{
    if s.len() > 0 {
        let r = s.skip(1);
        let tag = s[0];
        reveal(body);
        reveal(simple_string);
        reveal(simple_error);
        reveal(number);
        reveal(blob);
        reveal(null);
        reveal(big_number);
        reveal(boolean);
        reveal(double);
        lemma_line_break(r);
        if (tag == 42 || tag == 126 || tag == 37) && depth > 0 {
            if let Ok((v, c)) = number_line(r) {
                if v >= 0 {
                    lemma_decode_seq_bounds(
                        r.skip(c as int),
                        frames_of(tag, v),
                        (depth - 1) as nat,
                    );
                }
            }
        }
    }
}

/// A run of frames takes up no more than the bytes there are, and holds
/// as many frames as were asked for.
pub proof fn lemma_decode_seq_bounds(s: Seq<u8>, n: nat, depth: nat)
    ensures
        decode_seq(s, n, depth) matches Ok((items, k)) ==> k <= s.len() && items.len() == n,
    decreases s.len(), n + 1,
{
    if n > 0 {
        lemma_frame_bounds(s, depth);
        if let Ok((m, c)) = frame(s, depth) {
            lemma_decode_seq_bounds(s.skip(c as int), (n - 1) as nat, depth);
        }
    }
}

/// The entries depend on the pairs that are counted and on no frame
/// after them.
pub proof fn lemma_collect_prefix(a: Seq<ValueModel>, b: Seq<ValueModel>, n: nat)
    requires
        2 * n <= a.len() <= b.len(),
        forall|i: int| 0 <= i < 2 * n ==> a[i] == b[i],
    ensures
        collect_entries(a, n) == collect_entries(b, n),
    decreases n,
{
    if n > 0 {
        lemma_collect_prefix(a, b, (n - 1) as nat);
    }
}

} // verus!
