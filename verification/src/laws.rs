//! What holds of the encoder and the decoder together.

use vstd::prelude::*;
use vstd::utf8::valid_utf8;
use crate::decimal::{decimal, digits, is_space, lemma_decimal_parses, lemma_trim_tight};
use crate::error::DecodeError;
use crate::grammar::{
    aggregate, big_number, blob, body, boolean, collect_entries, decode, decode_seq, double,
    frame, frames_of, gather, lemma_frame_bounds, line_break, newline, null, number, number_line,
    simple_error, simple_string, text_line, MAX_DEPTH,
};
use crate::model::{
    crlf, distinct_keys, insert_entry, lemma_key_position_is, line, wire, wire_all, wire_pairs,
    RespVersion, ValueModel,
};
use crate::scalar::{bigint_value, is_float_text, lemma_float_text_tight};
use crate::text::lemma_ascii_is_utf8;

verus! {

/// Text that can stand in a line: it holds neither a carriage return
/// nor a line feed.
pub open spec fn line_safe(t: Seq<u8>) -> bool {
    forall|i: int| 0 <= i < t.len() ==> (#[trigger] t[i]) != 10 && t[i] != 13
}

/// A line of line-safe text, followed by anything, is read back as that
/// text.
pub proof fn lemma_line_reads(t: Seq<u8>, tail: Seq<u8>)
    requires
        line_safe(t),
    ensures
        line_break(t + crlf() + tail) == Ok::<(nat, nat), DecodeError>((t.len(), t.len() + 2)),
        (t + crlf() + tail).take(t.len() as int) == t,
    decreases t.len(),
{
    let s = t + crlf() + tail;
    assert(s.take(t.len() as int) =~= t);
    if t.len() == 0 {
        assert(s[0] == 13 && s[1] == 10);
    } else {
        assert(s[0] == t[0]);
        lemma_line_reads(t.skip(1), tail);
        assert(s.skip(1) =~= t.skip(1) + crlf() + tail);
    }
}

/// A line that is cut short is incomplete.
pub proof fn lemma_line_cut(t: Seq<u8>, k: int)
    requires
        line_safe(t),
        0 <= k < t.len() + 2,
    ensures
        line_break((t + crlf()).take(k)) == Err::<(nat, nat), DecodeError>(DecodeError::Incomplete),
    decreases t.len(),
{
    let s = t + crlf();
    let p = s.take(k);
    if k == 0 {
    } else if t.len() == 0 {
        assert(p[0] == 13);
    } else {
        assert(p[0] == t[0]);
        lemma_line_cut(t.skip(1), k - 1);
        assert(p.skip(1) =~= (t.skip(1) + crlf()).take(k - 1));
    }
}

/// A line that holds a count or a length is read back as that number.
pub proof fn lemma_count_reads(n: nat, tail: Seq<u8>)
    requires
        n <= i64::MAX,
    ensures
        number_line(digits(n) + crlf() + tail) == Ok::<(i64, nat), DecodeError>(
            (n as i64, digits(n).len() + 2),
        ),
{
    lemma_decimal_parses(n as int);
    assert(decimal(n as int) == digits(n));
    lemma_line_reads(digits(n), tail);
}

/// A line that holds a number is read back as that number.
pub proof fn lemma_number_reads(v: i64, tail: Seq<u8>)
    ensures
        number_line(decimal(v as int) + crlf() + tail) == Ok::<(i64, nat), DecodeError>(
            (v, decimal(v as int).len() + 2),
        ),
{
    lemma_decimal_parses(v as int);
    lemma_line_reads(decimal(v as int), tail);
}

/// A line of line-safe text that is valid UTF-8 is read back as text.
pub proof fn lemma_text_reads(t: Seq<u8>, tail: Seq<u8>)
    requires
        line_safe(t),
        valid_utf8(t),
    ensures
        text_line(t + crlf() + tail) == Ok::<(Seq<u8>, nat), DecodeError>((t, t.len() + 2)),
{
    lemma_line_reads(t, tail);
}

/// The values that the decoder reads back from their wire form under
/// the given version: blobs, simple strings and errors of line-safe
/// UTF-8 text (errors in the older revision only), numbers, the null
/// value, floating-point numbers, truth values, big numbers, and
/// arrays, sets and maps of such values, a map with no key twice, with
/// aggregates nested no more than `depth` deep.
pub open spec fn decodable(m: ValueModel, version: RespVersion, depth: nat) -> bool
    decreases m,
{
    match m {
        ValueModel::Blob(d) => d.len() <= i64::MAX,
        ValueModel::String(s) => line_safe(s) && valid_utf8(s),
        ValueModel::Error(s) => version == RespVersion::Resp2 && line_safe(s) && valid_utf8(s),
        ValueModel::Number(_) => true,
        ValueModel::Null => true,
        ValueModel::Double(t) => is_float_text(t),
        ValueModel::Boolean(_) => true,
        ValueModel::BlobError(_) => false,
        ValueModel::Verbatimstring(_) => false,
        ValueModel::Bigint(i) => bigint_value(decimal(i)) == Some(i),
        ValueModel::Array(a) => depth > 0 && a.len() <= i64::MAX && forall|i: int|
            0 <= i < a.len() ==> decodable(#[trigger] a[i], version, (depth - 1) as nat),
        ValueModel::MapOf(p) => depth > 0 && p.len() <= i64::MAX && distinct_keys(p) && forall|
            i: int,
        |
            0 <= i < p.len() ==> decodable((#[trigger] p[i]).0, version, (depth - 1) as nat)
                && decodable(p[i].1, version, (depth - 1) as nat),
        ValueModel::SetOf(a) => depth > 0 && a.len() <= i64::MAX && forall|i: int|
            0 <= i < a.len() ==> decodable(#[trigger] a[i], version, (depth - 1) as nat),
        ValueModel::Attribute(_) => false,
        ValueModel::Push(_) => false,
    }
}

/// The keys and values of the entries in one row: each key, then its
/// value.
pub open spec fn flatten(p: Seq<(ValueModel, ValueModel)>) -> Seq<ValueModel>
    decreases p.len(),
{
    if p.len() == 0 {
        Seq::empty()
    } else {
        seq![p[0].0, p[0].1] + flatten(p.skip(1))
    }
}

/// Where the keys and the values stand in the row.
pub proof fn lemma_flatten_index(p: Seq<(ValueModel, ValueModel)>)
    ensures
        flatten(p).len() == 2 * p.len(),
        forall|i: int|
            0 <= i < p.len() ==> flatten(p)[2 * i] == (#[trigger] p[i]).0 && flatten(p)[2 * i + 1]
                == p[i].1,
    decreases p.len(),
{
    if p.len() > 0 {
        let q = p.skip(1);
        lemma_flatten_index(q);
        assert forall|i: int| 0 <= i < p.len() implies flatten(p)[2 * i] == (#[trigger] p[i]).0
            && flatten(p)[2 * i + 1] == p[i].1 by {
            if i > 0 {
                assert(q[i - 1] == p[i]);
                assert(flatten(p)[2 * i] == flatten(q)[2 * (i - 1)]);
                assert(flatten(p)[2 * i + 1] == flatten(q)[2 * (i - 1) + 1]);
            }
        }
    }
}

/// Entries with distinct keys, inserted in order, are the entries.
pub proof fn lemma_collect_flatten(p: Seq<(ValueModel, ValueModel)>, n: nat)
    requires
        distinct_keys(p),
        n <= p.len(),
    ensures
        collect_entries(flatten(p), n) == p.take(n as int),
    decreases n,
{
    lemma_flatten_index(p);
    if n == 0 {
        assert(p.take(0) =~= Seq::<(ValueModel, ValueModel)>::empty());
    } else {
        lemma_collect_flatten(p, (n - 1) as nat);
        let before = p.take(n - 1);
        let e = p[n - 1];
        assert(flatten(p)[2 * n - 2] == e.0 && flatten(p)[2 * n - 1] == e.1) by {
            assert(flatten(p)[2 * (n - 1)] == p[n - 1].0);
            assert(flatten(p)[2 * (n - 1) + 1] == p[n - 1].1);
        }
        assert forall|j: int| 0 <= j < before.len() implies (#[trigger] before[j]).0 != e.0 by {
            assert(before[j] == p[j]);
            assert(p[j].0 != p[n - 1].0);
        }
        lemma_key_position_is(before, e.0, before.len() as int);
        assert(before.push((e.0, e.1)) =~= p.take(n as int));
    }
}

/// A blob on the wire, followed by anything, is read back.
pub proof fn lemma_blob_reads(d: Seq<u8>, tail: Seq<u8>)
    requires
        d.len() <= i64::MAX,
    ensures
        blob(digits(d.len()) + crlf() + d + crlf() + tail) == Ok::<
            (ValueModel, nat),
            DecodeError,
        >((ValueModel::Blob(d), digits(d.len()).len() + 2 + d.len() + 2)),
{
    reveal(blob);
    let r = digits(d.len()) + crlf() + d + crlf() + tail;
    let c: int = (digits(d.len()).len() + 2) as int;
    assert(r =~= digits(d.len()) + crlf() + (d + crlf() + tail));
    lemma_count_reads(d.len(), d + crlf() + tail);
    let end = r.skip(c + d.len());
    assert(end =~= crlf() + tail);
    assert(end[0] == 13 && end[1] == 10);
    assert(r.subrange(c, c + d.len()) =~= d);
}

/// A frame is its tag byte and the body that follows it.
pub proof fn lemma_frame(tag: u8, r: Seq<u8>, m: ValueModel, c: nat, depth: nat)
    requires
        body(tag, r, depth) == Ok::<(ValueModel, nat), DecodeError>((m, c)),
    ensures
        frame(seq![tag] + r, depth) == Ok::<(ValueModel, nat), DecodeError>((m, 1 + c)),
{
    reveal(body);
    let s = seq![tag] + r;
    assert(s[0] == tag);
    assert(s.skip(1) =~= r);
}

/// How the wire form of a blob is put together.
pub proof fn lemma_blob_shape(d: Seq<u8>, version: RespVersion, tail: Seq<u8>)
    ensures
        wire(ValueModel::Blob(d), version) + tail == seq![36u8] + (digits(d.len()) + crlf() + d
            + crlf() + tail),
        wire(ValueModel::Blob(d), version).len() == 1 + digits(d.len()).len() + 2 + d.len() + 2,
{
    assert(wire(ValueModel::Blob(d), version) + tail =~= seq![36u8] + (digits(d.len()) + crlf()
        + d + crlf() + tail));
}

/// A blob is read back.
pub proof fn lemma_decode_blob(d: Seq<u8>, version: RespVersion, tail: Seq<u8>, depth: nat)
    requires
        d.len() <= i64::MAX,
    ensures
        frame(wire(ValueModel::Blob(d), version) + tail, depth) == Ok::<
            (ValueModel, nat),
            DecodeError,
        >(
            (ValueModel::Blob(d), wire(ValueModel::Blob(d), version).len()),
        ),
{
    reveal(body);
    let r = digits(d.len()) + crlf() + d + crlf() + tail;
    lemma_blob_reads(d, tail);
    lemma_blob_shape(d, version, tail);
    let s = seq![36u8] + r;
    assert(s[0] == 36u8);
    assert(s.skip(1) =~= r);
    assert(body(s[0], s.skip(1), depth) == blob(r));
}

/// A simple string is read back.
pub proof fn lemma_decode_string(t: Seq<u8>, version: RespVersion, tail: Seq<u8>, depth: nat)
    requires
        line_safe(t),
        valid_utf8(t),
    ensures
        frame(wire(ValueModel::String(t), version) + tail, depth) == Ok::<
            (ValueModel, nat),
            DecodeError,
        >(
            (ValueModel::String(t), wire(ValueModel::String(t), version).len()),
        ),
{
    reveal(body);
    reveal(simple_string);
    let m = ValueModel::String(t);
    let s = wire(m, version) + tail;
    let r = t + crlf() + tail;
    lemma_text_reads(t, tail);
    lemma_frame(43, r, m, (t.len() + 2) as nat, depth);
    assert(s =~= seq![43u8] + r);
}

/// A simple error is read back from its form in the older revision.
pub proof fn lemma_decode_error(t: Seq<u8>, version: RespVersion, tail: Seq<u8>, depth: nat)
    requires
        line_safe(t),
        valid_utf8(t),
        version == RespVersion::Resp2,
    ensures
        frame(wire(ValueModel::Error(t), version) + tail, depth) == Ok::<
            (ValueModel, nat),
            DecodeError,
        >(
            (ValueModel::Error(t), wire(ValueModel::Error(t), version).len()),
        ),
{
    reveal(body);
    reveal(simple_error);
    let m = ValueModel::Error(t);
    let s = wire(m, version) + tail;
    let r = t + crlf() + tail;
    lemma_text_reads(t, tail);
    lemma_frame(45, r, m, (t.len() + 2) as nat, depth);
    assert(s =~= seq![45u8] + r);
}

/// A number is read back.
pub proof fn lemma_decode_number(v: i64, version: RespVersion, tail: Seq<u8>, depth: nat)
    ensures
        frame(wire(ValueModel::Number(v), version) + tail, depth) == Ok::<
            (ValueModel, nat),
            DecodeError,
        >(
            (ValueModel::Number(v), wire(ValueModel::Number(v), version).len()),
        ),
{
    reveal(body);
    reveal(number);
    let m = ValueModel::Number(v);
    let s = wire(m, version) + tail;
    let r = decimal(v as int) + crlf() + tail;
    lemma_number_reads(v, tail);
    lemma_frame(58, r, m, (decimal(v as int).len() + 2) as nat, depth);
    assert(s =~= seq![58u8] + r);
}

/// A floating-point number is read back.
pub proof fn lemma_decode_double(t: Seq<u8>, version: RespVersion, tail: Seq<u8>, depth: nat)
    requires
        is_float_text(t),
    ensures
        frame(wire(ValueModel::Double(t), version) + tail, depth) == Ok::<
            (ValueModel, nat),
            DecodeError,
        >(
            (ValueModel::Double(t), wire(ValueModel::Double(t), version).len()),
        ),
{
    reveal(body);
    reveal(double);
    let m = ValueModel::Double(t);
    let s = wire(m, version) + tail;
    let r = t + crlf() + tail;
    lemma_float_text_tight(t);
    lemma_ascii_is_utf8(t);
    assert(line_safe(t)) by {
        assert forall|i: int| 0 <= i < t.len() implies (#[trigger] t[i]) != 10 && t[i] != 13 by {
            assert(!is_space(t[i]));
        }
    }
    lemma_trim_tight(t);
    lemma_text_reads(t, tail);
    lemma_frame(44, r, m, (t.len() + 2) as nat, depth);
    assert(s =~= seq![44u8] + r);
}

/// A big number is read back.
pub proof fn lemma_decode_bigint(i: int, version: RespVersion, tail: Seq<u8>, depth: nat)
    requires
        bigint_value(decimal(i)) == Some(i),
    ensures
        frame(wire(ValueModel::Bigint(i), version) + tail, depth) == Ok::<
            (ValueModel, nat),
            DecodeError,
        >(
            (ValueModel::Bigint(i), wire(ValueModel::Bigint(i), version).len()),
        ),
{
    reveal(body);
    reveal(big_number);
    let m = ValueModel::Bigint(i);
    let s = wire(m, version) + tail;
    let r = decimal(i) + crlf() + tail;
    lemma_decimal_parses(i);
    lemma_ascii_is_utf8(decimal(i));
    lemma_text_reads(decimal(i), tail);
    lemma_frame(40, r, m, (decimal(i).len() + 2) as nat, depth);
    assert(s =~= seq![40u8] + r);
}

/// A truth value is read back.
pub proof fn lemma_decode_boolean(b: bool, version: RespVersion, tail: Seq<u8>, depth: nat)
    ensures
        frame(wire(ValueModel::Boolean(b), version) + tail, depth) == Ok::<
            (ValueModel, nat),
            DecodeError,
        >((ValueModel::Boolean(b), wire(ValueModel::Boolean(b), version).len())),
{
    reveal(body);
    reveal(boolean);
    let m = ValueModel::Boolean(b);
    let s = wire(m, version) + tail;
    let t = if b {
        seq![116u8]
    } else {
        seq![102u8]
    };
    let r = t + crlf() + tail;
    lemma_ascii_is_utf8(t);
    lemma_text_reads(t, tail);
    assert(seq![116u8] != seq![102u8]) by {
        assert(seq![116u8][0] != seq![102u8][0]);
    }
    lemma_frame(35, r, m, 3, depth);
    assert(s =~= seq![35u8] + r);
}

/// The null value is read back from either of its forms.
pub proof fn lemma_decode_null(version: RespVersion, tail: Seq<u8>, depth: nat)
    ensures
        frame(wire(ValueModel::Null, version) + tail, depth) == Ok::<
            (ValueModel, nat),
            DecodeError,
        >(
            (ValueModel::Null, wire(ValueModel::Null, version).len()),
        ),
{
    reveal(body);
    reveal(blob);
    reveal(null);
    let m = ValueModel::Null;
    let s = wire(m, version) + tail;
    match version {
        RespVersion::Resp2 => {
            let r = decimal(-1) + crlf() + tail;
            lemma_number_reads(-1i64, tail);
            lemma_frame(36, r, m, decimal(-1).len() + 2, depth);
            assert(s =~= seq![36u8] + r);
        },
        RespVersion::Resp3 => {
            let r = crlf() + tail;
            assert(r[0] == 13 && r[1] == 10);
            lemma_frame(95, r, m, 2, depth);
            assert(s =~= seq![95u8] + r);
        },
    }
}

/// The wire form of a value that is one line or one blob, followed by
/// anything, is read back as the value.
pub proof fn lemma_decode_plain(m: ValueModel, version: RespVersion, tail: Seq<u8>, depth: nat)
    requires
        decodable(m, version, depth),
        !(m is Array),
        !(m is SetOf),
        !(m is MapOf),
    ensures
        frame(wire(m, version) + tail, depth) == Ok::<(ValueModel, nat), DecodeError>(
            (m, wire(m, version).len()),
        ),
{
    match m {
        ValueModel::Blob(d) => lemma_decode_blob(d, version, tail, depth),
        ValueModel::String(t) => lemma_decode_string(t, version, tail, depth),
        ValueModel::Error(t) => lemma_decode_error(t, version, tail, depth),
        ValueModel::Number(v) => lemma_decode_number(v, version, tail, depth),
        ValueModel::Null => lemma_decode_null(version, tail, depth),
        ValueModel::Double(t) => lemma_decode_double(t, version, tail, depth),
        ValueModel::Boolean(b) => lemma_decode_boolean(b, version, tail, depth),
        ValueModel::Bigint(i) => lemma_decode_bigint(i, version, tail, depth),
        _ => {},
    }
}

/// An aggregate whose frames are read back is read back itself.
pub proof fn lemma_decode_gathered(
    tag: u8,
    n: nat,
    items: Seq<ValueModel>,
    inner: Seq<u8>,
    tail: Seq<u8>,
    depth: nat,
)
    requires
        tag == 42 || tag == 126 || tag == 37,
        n <= i64::MAX,
        depth > 0,
        decode_seq(inner + tail, frames_of(tag, n as i64), (depth - 1) as nat) == Ok::<
            (Seq<ValueModel>, nat),
            DecodeError,
        >((items, inner.len())),
    ensures
        frame(line(tag, digits(n)) + inner + tail, depth) == Ok::<(ValueModel, nat), DecodeError>(
            (gather(tag, n as i64, items), line(tag, digits(n)).len() + inner.len()),
        ),
{
    reveal(body);
    let after = inner + tail;
    let r = digits(n) + crlf() + after;
    lemma_count_reads(n, after);
    let c = digits(n).len() + 2;
    assert(r.skip(c as int) =~= after);
    lemma_frame(tag, r, gather(tag, n as i64, items), c + inner.len(), depth);
    assert(line(tag, digits(n)) + inner + tail =~= seq![tag] + r);
}

/// The wire form of a decodable value, followed by anything, is read
/// back as the value, and exactly its bytes are taken.
pub proof fn lemma_decode_wire(m: ValueModel, version: RespVersion, tail: Seq<u8>, depth: nat)
    requires
        decodable(m, version, depth),
    ensures
        frame(wire(m, version) + tail, depth) == Ok::<(ValueModel, nat), DecodeError>(
            (m, wire(m, version).len()),
        ),
    decreases m,
{
    match m {
        ValueModel::Array(a) => {
            lemma_decode_wire_all(a, version, tail, (depth - 1) as nat);
            lemma_decode_gathered(42, a.len(), a, wire_all(a, version), tail, depth);
        },
        ValueModel::SetOf(a) => {
            lemma_decode_wire_all(a, version, tail, (depth - 1) as nat);
            lemma_decode_gathered(126, a.len(), a, wire_all(a, version), tail, depth);
        },
        ValueModel::MapOf(p) => {
            lemma_decode_wire_pairs(p, version, tail, (depth - 1) as nat);
            lemma_decode_gathered(37, p.len(), flatten(p), wire_pairs(p, version), tail, depth);
            lemma_collect_flatten(p, p.len());
            assert(p.take(p.len() as int) =~= p);
        },
        _ => {
            lemma_decode_plain(m, version, tail, depth);
        },
    }
}

/// A run of frames is its first frame and then the run of the others.
pub proof fn lemma_seq_step(first: Seq<u8>, after: Seq<u8>, m: ValueModel, n: nat, depth: nat)
    requires
        n > 0,
        frame(first + after, depth) == Ok::<(ValueModel, nat), DecodeError>((m, first.len())),
    ensures
        decode_seq(first + after, n, depth) == match decode_seq(after, (n - 1) as nat, depth) {
            Ok((rest, k)) => Ok::<(Seq<ValueModel>, nat), DecodeError>(
                (seq![m] + rest, first.len() + k),
            ),
            Err(e) => Err(e),
        },
{
    let s = first + after;
    lemma_frame_bounds(s, depth);
    assert(s.skip(first.len() as int) =~= after);
}

/// The wire forms of decodable values in a row, followed by anything,
/// are read back as the values.
pub proof fn lemma_decode_wire_all(
    a: Seq<ValueModel>,
    version: RespVersion,
    tail: Seq<u8>,
    depth: nat,
)
    requires
        forall|i: int| 0 <= i < a.len() ==> decodable(#[trigger] a[i], version, depth),
    ensures
        decode_seq(wire_all(a, version) + tail, a.len(), depth) == Ok::<
            (Seq<ValueModel>, nat),
            DecodeError,
        >((a, wire_all(a, version).len())),
    decreases a,
{
    if a.len() == 0 {
        assert(a =~= Seq::<ValueModel>::empty());
    } else {
        let first = wire(a[0], version);
        let b = a.skip(1);
        let after = wire_all(b, version) + tail;
        lemma_decode_wire(a[0], version, after, depth);
        lemma_seq_step(first, after, a[0], a.len(), depth);
        assert forall|i: int| 0 <= i < b.len() implies decodable(
            #[trigger] b[i],
            version,
            depth,
        ) by {
            assert(b[i] == a[i + 1]);
        }
        lemma_decode_wire_all(b, version, tail, depth);
        assert(wire_all(a, version) + tail =~= first + after);
        assert(seq![a[0]] + b =~= a);
    }
}

/// The wire forms of decodable entries in a row, followed by anything,
/// are read back as their keys and values.
pub proof fn lemma_decode_wire_pairs(
    p: Seq<(ValueModel, ValueModel)>,
    version: RespVersion,
    tail: Seq<u8>,
    depth: nat,
)
    requires
        forall|i: int|
            0 <= i < p.len() ==> decodable((#[trigger] p[i]).0, version, depth) && decodable(
                p[i].1,
                version,
                depth,
            ),
    ensures
        decode_seq(wire_pairs(p, version) + tail, 2 * p.len(), depth) == Ok::<
            (Seq<ValueModel>, nat),
            DecodeError,
        >((flatten(p), wire_pairs(p, version).len())),
    decreases p,
{
    if p.len() > 0 {
        let k = wire(p[0].0, version);
        let v = wire(p[0].1, version);
        let q = p.skip(1);
        let after = wire_pairs(q, version) + tail;
        let n = (2 * p.len()) as nat;
        assert(decodable(p[0].0, version, depth) && decodable(p[0].1, version, depth));
        lemma_decode_wire(p[0].0, version, v + after, depth);
        lemma_seq_step(k, v + after, p[0].0, n, depth);
        lemma_decode_wire(p[0].1, version, after, depth);
        lemma_seq_step(v, after, p[0].1, (n - 1) as nat, depth);
        assert forall|i: int| 0 <= i < q.len() implies decodable(
            (#[trigger] q[i]).0,
            version,
            depth,
        ) && decodable(q[i].1, version, depth) by {
            assert(q[i] == p[i + 1]);
        }
        lemma_decode_wire_pairs(q, version, tail, depth);
        assert(wire_pairs(p, version) + tail =~= k + (v + after));
        assert(seq![p[0].0] + (seq![p[0].1] + flatten(q)) =~= flatten(p));
    }
}

/// A frame that is one line, cut short, is incomplete. So is any frame
/// that is cut within its first line.
pub proof fn lemma_cut_line_frame(tag: u8, t: Seq<u8>, k: int, depth: nat)
    requires
        line_safe(t),
        tag == 43 || tag == 45 || tag == 58 || tag == 36 || tag == 40 || tag == 35 || tag == 44
            || ((tag == 42 || tag == 126 || tag == 37) && depth > 0),
        0 <= k < t.len() + 3,
    ensures
        frame((seq![tag] + t + crlf()).take(k), depth) == Err::<(ValueModel, nat), DecodeError>(
            DecodeError::Incomplete,
        ),
{
    reveal(body);
    reveal(simple_string);
    reveal(simple_error);
    reveal(number);
    reveal(blob);
    reveal(big_number);
    reveal(boolean);
    reveal(double);
    let p = (seq![tag] + t + crlf()).take(k);
    if k > 0 {
        assert(p[0] == tag);
        lemma_line_cut(t, k - 1);
        assert(p.skip(1) =~= (t + crlf()).take(k - 1));
    }
}

/// A terminator that is cut short is incomplete.
pub proof fn lemma_cut_newline(j: int)
    requires
        0 <= j < 2,
    ensures
        newline(crlf().take(j)) == Err::<nat, DecodeError>(DecodeError::Incomplete),
{
    if j == 1 {
        assert(crlf().take(1)[0] == 13);
    }
}

/// A blob that is cut short is incomplete.
pub proof fn lemma_cut_blob(d: Seq<u8>, version: RespVersion, k: int, depth: nat)
    requires
        d.len() <= i64::MAX,
        0 <= k < wire(ValueModel::Blob(d), version).len(),
    ensures
        frame(wire(ValueModel::Blob(d), version).take(k), depth) == Err::<
            (ValueModel, nat),
            DecodeError,
        >(DecodeError::Incomplete),
{
    reveal(body);
    reveal(blob);
    let w = wire(ValueModel::Blob(d), version);
    let t = digits(d.len());
    let head = seq![36u8] + t + crlf();
    let p = w.take(k);
    lemma_decimal_parses(d.len() as int);
    assert(decimal(d.len() as int) == t);
    assert(w =~= head + (d + crlf()));
    if k < head.len() {
        lemma_cut_line_frame(36, t, k, depth);
        assert(p =~= head.take(k));
    } else {
        let j = k - head.len();
        let rest = (d + crlf()).take(j);
        let r = t + crlf() + rest;
        assert(p =~= seq![36u8] + r);
        assert(p[0] == 36u8);
        assert(p.skip(1) =~= r);
        lemma_count_reads(d.len(), rest);
        let c = t.len() + 2;
        if j >= d.len() {
            let end = r.skip((c + d.len()) as int);
            assert(end =~= crlf().take(j - d.len()));
            lemma_cut_newline(j - d.len());
        }
    }
}

/// The null value in the newer revision, cut short, is incomplete.
pub proof fn lemma_cut_null(k: int, depth: nat)
    requires
        0 <= k < 3,
    ensures
        frame((seq![95u8] + crlf()).take(k), depth) == Err::<(ValueModel, nat), DecodeError>(
            DecodeError::Incomplete,
        ),
{
    reveal(body);
    reveal(null);
    let p = (seq![95u8] + crlf()).take(k);
    if k > 0 {
        assert(p[0] == 95u8);
        assert(p.skip(1) =~= crlf().take(k - 1));
        lemma_cut_newline(k - 1);
    }
}

/// The text of a decodable value that is one line: line-safe.
pub open spec fn line_text(m: ValueModel) -> Seq<u8> {
    match m {
        ValueModel::String(t) => t,
        ValueModel::Error(t) => t,
        ValueModel::Number(v) => decimal(v as int),
        ValueModel::Null => decimal(-1),
        ValueModel::Double(t) => t,
        ValueModel::Boolean(b) => if b {
            seq![116u8]
        } else {
            seq![102u8]
        },
        ValueModel::Bigint(i) => decimal(i),
        _ => Seq::empty(),
    }
}

/// The wire form of a value that is one line or one blob, cut short, is
/// incomplete.
pub proof fn lemma_cut_plain(m: ValueModel, version: RespVersion, k: int, depth: nat)
    requires
        decodable(m, version, depth),
        !(m is Array),
        !(m is SetOf),
        !(m is MapOf),
        0 <= k < wire(m, version).len(),
    ensures
        frame(wire(m, version).take(k), depth) == Err::<(ValueModel, nat), DecodeError>(
            DecodeError::Incomplete,
        ),
{
    let w = wire(m, version);
    let t = line_text(m);
    match m {
        ValueModel::Blob(d) => {
            lemma_cut_blob(d, version, k, depth);
        },
        ValueModel::String(_) => {
            lemma_cut_line_frame(43, t, k, depth);
            assert(w =~= seq![43u8] + t + crlf());
        },
        ValueModel::Error(_) => {
            lemma_cut_line_frame(45, t, k, depth);
            assert(w =~= seq![45u8] + t + crlf());
        },
        ValueModel::Number(v) => {
            lemma_decimal_parses(v as int);
            assert(w =~= seq![58u8] + t + crlf());
            lemma_cut_line_frame(58, t, k, depth);
        },
        ValueModel::Null => {
            match version {
                RespVersion::Resp2 => {
                    lemma_decimal_parses(-1);
                    assert(w =~= seq![36u8] + t + crlf());
                    lemma_cut_line_frame(36, t, k, depth);
                },
                RespVersion::Resp3 => {
                    assert(w =~= seq![95u8] + crlf());
                    lemma_cut_null(k, depth);
                },
            }
        },
        ValueModel::Double(_) => {
            lemma_float_text_tight(t);
            assert(line_safe(t)) by {
                assert forall|i: int| 0 <= i < t.len() implies (#[trigger] t[i]) != 10 && t[i]
                    != 13 by {
                    assert(!is_space(t[i]));
                }
            }
            assert(w =~= seq![44u8] + t + crlf());
            lemma_cut_line_frame(44, t, k, depth);
        },
        ValueModel::Boolean(_) => {
            assert(w =~= seq![35u8] + t + crlf());
            lemma_cut_line_frame(35, t, k, depth);
        },
        ValueModel::Bigint(i) => {
            lemma_decimal_parses(i);
            assert(w =~= seq![40u8] + t + crlf());
            lemma_cut_line_frame(40, t, k, depth);
        },
        _ => {},
    }
}

/// An aggregate that is cut short is incomplete, where its frames cut
/// short are.
pub proof fn lemma_cut_gathered(tag: u8, n: nat, inner: Seq<u8>, k: int, depth: nat)
    requires
        tag == 42 || tag == 126 || tag == 37,
        n <= i64::MAX,
        depth > 0,
        0 <= k < line(tag, digits(n)).len() + inner.len(),
        forall|j: int|
            0 <= j < inner.len() ==> #[trigger] decode_seq(
                inner.take(j),
                frames_of(tag, n as i64),
                (depth - 1) as nat,
            )
                == Err::<(Seq<ValueModel>, nat), DecodeError>(DecodeError::Incomplete),
    ensures
        frame((line(tag, digits(n)) + inner).take(k), depth) == Err::<
            (ValueModel, nat),
            DecodeError,
        >(DecodeError::Incomplete),
{
    reveal(body);
    let t = digits(n);
    let head = line(tag, t);
    let p = (head + inner).take(k);
    lemma_decimal_parses(n as int);
    assert(decimal(n as int) == t);
    if k < head.len() {
        lemma_cut_line_frame(tag, t, k, depth);
        assert(p =~= (seq![tag] + t + crlf()).take(k));
    } else {
        let j = k - head.len();
        let rest = inner.take(j);
        let r = t + crlf() + rest;
        assert(p =~= seq![tag] + r);
        assert(p[0] == tag);
        assert(p.skip(1) =~= r);
        lemma_count_reads(n, rest);
        let c = t.len() + 2;
        assert(r.skip(c as int) =~= rest);
        assert(decode_seq(inner.take(j), frames_of(tag, n as i64), (depth - 1) as nat) is Err);
    }
}

/// The wire form of a decodable value, cut short, is incomplete.
pub proof fn lemma_cut_wire(m: ValueModel, version: RespVersion, k: int, depth: nat)
    requires
        decodable(m, version, depth),
        0 <= k < wire(m, version).len(),
    ensures
        frame(wire(m, version).take(k), depth) == Err::<(ValueModel, nat), DecodeError>(
            DecodeError::Incomplete,
        ),
    decreases m,
{
    match m {
        ValueModel::Array(a) => {
            let inner = wire_all(a, version);
            assert forall|j: int| 0 <= j < inner.len() implies #[trigger] decode_seq(
                inner.take(j),
                frames_of(42, a.len() as i64),
                (depth - 1) as nat,
            ) == Err::<(Seq<ValueModel>, nat), DecodeError>(DecodeError::Incomplete) by {
                lemma_cut_wire_all(a, version, j, (depth - 1) as nat);
            }
            lemma_cut_gathered(42, a.len(), inner, k, depth);
        },
        ValueModel::SetOf(a) => {
            let inner = wire_all(a, version);
            assert forall|j: int| 0 <= j < inner.len() implies #[trigger] decode_seq(
                inner.take(j),
                frames_of(126, a.len() as i64),
                (depth - 1) as nat,
            ) == Err::<(Seq<ValueModel>, nat), DecodeError>(DecodeError::Incomplete) by {
                lemma_cut_wire_all(a, version, j, (depth - 1) as nat);
            }
            lemma_cut_gathered(126, a.len(), inner, k, depth);
        },
        ValueModel::MapOf(p) => {
            let inner = wire_pairs(p, version);
            assert forall|j: int| 0 <= j < inner.len() implies #[trigger] decode_seq(
                inner.take(j),
                frames_of(37, p.len() as i64),
                (depth - 1) as nat,
            ) == Err::<(Seq<ValueModel>, nat), DecodeError>(DecodeError::Incomplete) by {
                lemma_cut_wire_pairs(p, version, j, (depth - 1) as nat);
            }
            lemma_cut_gathered(37, p.len(), inner, k, depth);
        },
        _ => {
            lemma_cut_plain(m, version, k, depth);
        },
    }
}

/// The wire forms of decodable values in a row, cut short, are
/// incomplete.
pub proof fn lemma_cut_wire_all(a: Seq<ValueModel>, version: RespVersion, k: int, depth: nat)
    requires
        forall|i: int| 0 <= i < a.len() ==> decodable(#[trigger] a[i], version, depth),
        0 <= k < wire_all(a, version).len(),
    ensures
        decode_seq(wire_all(a, version).take(k), a.len(), depth) == Err::<
            (Seq<ValueModel>, nat),
            DecodeError,
        >(DecodeError::Incomplete),
    decreases a,
{
    if a.len() > 0 {
        let first = wire(a[0], version);
        let b = a.skip(1);
        let others = wire_all(b, version);
        let s = wire_all(a, version).take(k);
        if k < first.len() {
            assert(s =~= first.take(k));
            lemma_cut_wire(a[0], version, k, depth);
        } else {
            let after = others.take(k - first.len());
            assert(s =~= first + after);
            lemma_decode_wire(a[0], version, after, depth);
            lemma_seq_step(first, after, a[0], a.len(), depth);
            assert forall|i: int| 0 <= i < b.len() implies decodable(
            #[trigger] b[i],
            version,
            depth,
        ) by {
                assert(b[i] == a[i + 1]);
            }
            lemma_cut_wire_all(b, version, k - first.len(), depth);
        }
    }
}

/// The wire forms of decodable entries in a row, cut short, are
/// incomplete.
pub proof fn lemma_cut_wire_pairs(
    p: Seq<(ValueModel, ValueModel)>,
    version: RespVersion,
    k: int,
    depth: nat,
)
    requires
        forall|i: int|
            0 <= i < p.len() ==> decodable((#[trigger] p[i]).0, version, depth) && decodable(
                p[i].1,
                version,
                depth,
            ),
        0 <= k < wire_pairs(p, version).len(),
    ensures
        decode_seq(wire_pairs(p, version).take(k), 2 * p.len(), depth) == Err::<
            (Seq<ValueModel>, nat),
            DecodeError,
        >(DecodeError::Incomplete),
    decreases p,
{
    if p.len() > 0 {
        let key = wire(p[0].0, version);
        let val = wire(p[0].1, version);
        let q = p.skip(1);
        let others = wire_pairs(q, version);
        let s = wire_pairs(p, version).take(k);
        let n = (2 * p.len()) as nat;
        assert(decodable(p[0].0, version, depth) && decodable(p[0].1, version, depth));
        if k < key.len() {
            assert(s =~= key.take(k));
            lemma_cut_wire(p[0].0, version, k, depth);
        } else {
            let j = k - key.len();
            let mid = (val + others).take(j);
            assert(s =~= key + mid);
            lemma_decode_wire(p[0].0, version, mid, depth);
            lemma_seq_step(key, mid, p[0].0, n, depth);
            if j < val.len() {
                assert(mid =~= val.take(j));
                lemma_cut_wire(p[0].1, version, j, depth);
            } else {
                let after = others.take(j - val.len());
                assert(mid =~= val + after);
                lemma_decode_wire(p[0].1, version, after, depth);
                lemma_seq_step(val, after, p[0].1, (n - 1) as nat, depth);
                assert forall|x: int| 0 <= x < q.len() implies decodable(
                    (#[trigger] q[x]).0,
                    version,
                    depth,
                ) && decodable(q[x].1, version, depth) by {
                    assert(q[x] == p[x + 1]);
                }
                lemma_cut_wire_pairs(q, version, j - val.len(), depth);
            }
        }
    }
}

/// The entries of a map after the pairs `e` were inserted into an empty
/// map, one after the other.
pub open spec fn inserted(e: Seq<(ValueModel, ValueModel)>) -> Seq<(ValueModel, ValueModel)>
    decreases e.len(),
{
    if e.len() == 0 {
        Seq::empty()
    } else {
        insert_entry(inserted(e.drop_last()), e.last().0, e.last().1)
    }
}

/// Round trip: the wire form of a decodable value, under either version
/// of the protocol, is read back as the value, and all of its bytes are
/// taken.
pub proof fn law_round_trip(m: ValueModel, version: RespVersion)
    requires
        decodable(m, version, MAX_DEPTH as nat),
    ensures
        decode(wire(m, version)) == Ok::<(ValueModel, nat), DecodeError>(
            (m, wire(m, version).len()),
        ),
{
    lemma_decode_wire(m, version, Seq::empty(), MAX_DEPTH as nat);
    assert(wire(m, version) + Seq::<u8>::empty() =~= wire(m, version));
}

/// Byte stability: a well-formed frame, that is, the wire form `b` of a
/// decodable value under a version of the protocol, is read as a value
/// whose wire form under that version is `b` again.
pub proof fn law_byte_stability(b: Seq<u8>, m: ValueModel, version: RespVersion)
    requires
        decodable(m, version, MAX_DEPTH as nat),
        b == wire(m, version),
    ensures
        decode(b) matches Ok((read, used)) && wire(read, version) == b && used == b.len(),
{
    law_round_trip(m, version);
}

/// Prefix monotonicity: every proper prefix of a well-formed frame is
/// incomplete, and so is read as no frame at all.
pub proof fn law_prefix_incomplete(b: Seq<u8>, m: ValueModel, version: RespVersion, k: int)
    requires
        decodable(m, version, MAX_DEPTH as nat),
        b == wire(m, version),
        0 <= k < b.len(),
    ensures
        decode(b.take(k)) == Err::<(ValueModel, nat), DecodeError>(DecodeError::Incomplete),
{
    lemma_cut_wire(m, version, k, MAX_DEPTH as nat);
}

/// Exact consumption: of two well-formed frames one after the other,
/// the first is read, and exactly its bytes are taken.
pub proof fn law_exact_consumption(
    b1: Seq<u8>,
    m1: ValueModel,
    b2: Seq<u8>,
    m2: ValueModel,
    version: RespVersion,
)
    requires
        decodable(m1, version, MAX_DEPTH as nat),
        b1 == wire(m1, version),
        decodable(m2, version, MAX_DEPTH as nat),
        b2 == wire(m2, version),
    ensures
        decode(b1 + b2) == Ok::<(ValueModel, nat), DecodeError>((m1, b1.len())),
        decode((b1 + b2).skip(b1.len() as int)) == Ok::<(ValueModel, nat), DecodeError>(
            (m2, b2.len()),
        ),
{
    lemma_decode_wire(m1, version, b2, MAX_DEPTH as nat);
    law_round_trip(m2, version);
    assert((b1 + b2).skip(b1.len() as int) =~= b2);
}

/// Map order: pairs with distinct keys, inserted one after the other,
/// are the entries of the map in that order, and the wire form of the
/// map holds them in that order: the count, then each key and its value
/// in turn.
pub proof fn law_map_order(e: Seq<(ValueModel, ValueModel)>, version: RespVersion)
    requires
        distinct_keys(e),
    ensures
        inserted(e) == e,
        wire(ValueModel::MapOf(inserted(e)), version) == line(37, digits(e.len())) + wire_pairs(
            e,
            version,
        ),
    decreases e.len(),
{
    if e.len() > 0 {
        let front = e.drop_last();
        law_map_order(front, version);
        assert forall|j: int| 0 <= j < front.len() implies (#[trigger] front[j]).0
            != e.last().0 by {
            assert(front[j] == e[j]);
            assert(e[j].0 != e[e.len() - 1].0);
        }
        lemma_key_position_is(front, e.last().0, front.len() as int);
        assert(front.push((e.last().0, e.last().1)) =~= e);
    }
}

/// Equality: two decodable values are equal exactly where their wire
/// forms under a version of the protocol are the same bytes.
pub proof fn law_equal_by_wire(a: ValueModel, b: ValueModel, version: RespVersion)
    requires
        decodable(a, version, MAX_DEPTH as nat),
        decodable(b, version, MAX_DEPTH as nat),
    ensures
        a == b <==> wire(a, version) == wire(b, version),
{
    law_round_trip(a, version);
    law_round_trip(b, version);
}

} // verus!
