//! The mathematical model of a value and of its canonical wire form.

use vstd::prelude::*;
use crate::decimal::{decimal, digits};

verus! {

/// The two revisions of the protocol.
#[derive(Debug, Clone, Copy, PartialEq, Eq, Structural)]
pub enum RespVersion {
    Resp2,
    Resp3,
}

/// What a value is, apart from how it is stored: byte strings are
/// sequences of bytes, containers are sequences of models.
pub enum ValueModel {
    Blob(Seq<u8>),
    String(Seq<u8>),
    Error(Seq<u8>),
    Number(i64),
    Null,
    /// The decimal text of the floating-point number.
    Double(Seq<u8>),
    Boolean(bool),
    BlobError(Seq<u8>),
    Verbatimstring(Seq<u8>),
    Bigint(int),
    Array(Seq<ValueModel>),
    /// The entries in insertion order.
    MapOf(Seq<(ValueModel, ValueModel)>),
    SetOf(Seq<ValueModel>),
    /// The entries in insertion order.
    Attribute(Seq<(ValueModel, ValueModel)>),
    Push(Seq<ValueModel>),
}

pub open spec fn crlf() -> Seq<u8> {
    seq![13u8, 10u8]
}

/// A line: a tag byte, the text, and the terminator.
pub open spec fn line(tag: u8, text: Seq<u8>) -> Seq<u8> {
    seq![tag] + text + crlf()
}

/// A length-prefixed payload: the tag, the payload's length in decimal,
/// the terminator, the payload and the terminator again.
pub open spec fn bulk(tag: u8, payload: Seq<u8>) -> Seq<u8> {
    line(tag, digits(payload.len())) + payload + crlf()
}

/// The four bytes `txt:` that open a verbatim string's payload.
pub open spec fn verbatim_prefix() -> Seq<u8> {
    seq![116u8, 120u8, 116u8, 58u8]
}

/// The canonical wire form of a value under a protocol version.
pub open spec fn wire(m: ValueModel, version: RespVersion) -> Seq<u8>
    decreases m,
{
    match m {
        ValueModel::Blob(d) => bulk(36, d),
        ValueModel::String(s) => line(43, s),
        ValueModel::Error(s) => match version {
            RespVersion::Resp2 => line(45, s),
            RespVersion::Resp3 => line(33, s),
        },
        ValueModel::Number(n) => line(58, decimal(n as int)),
        ValueModel::Null => match version {
            RespVersion::Resp2 => line(36, decimal(-1)),
            RespVersion::Resp3 => line(95, Seq::empty()),
        },
        ValueModel::Double(t) => line(44, t),
        ValueModel::Boolean(b) => line(35, if b { seq![116u8] } else { seq![102u8] }),
        ValueModel::BlobError(s) => bulk(33, s),
        ValueModel::Verbatimstring(s) => bulk(61, verbatim_prefix() + s),
        ValueModel::Bigint(i) => line(40, decimal(i)),
        ValueModel::Array(a) => line(42, digits(a.len())) + wire_all(a, version),
        ValueModel::MapOf(p) => line(37, digits(p.len())) + wire_pairs(p, version),
        ValueModel::SetOf(a) => line(126, digits(a.len())) + wire_all(a, version),
        ValueModel::Attribute(p) => line(124, digits(p.len())) + wire_pairs(p, version),
        ValueModel::Push(a) => line(62, digits(a.len())) + wire_all(a, version),
    }
}

/// The wire forms of the elements, one after the other.
pub open spec fn wire_all(a: Seq<ValueModel>, version: RespVersion) -> Seq<u8>
    decreases a,
{
    if a.len() == 0 {
        Seq::empty()
    } else {
        wire(a[0], version) + wire_all(a.skip(1), version)
    }
}

/// The wire forms of the entries in order, each key before its value.
pub open spec fn wire_pairs(p: Seq<(ValueModel, ValueModel)>, version: RespVersion) -> Seq<u8>
    decreases p,
{
    if p.len() == 0 {
        Seq::empty()
    } else {
        wire(p[0].0, version) + wire(p[0].1, version) + wire_pairs(p.skip(1), version)
    }
}

/// Appending an element appends its wire form.
pub proof fn lemma_wire_all_push(a: Seq<ValueModel>, x: ValueModel, version: RespVersion)
    ensures
        wire_all(a.push(x), version) == wire_all(a, version) + wire(x, version),
    decreases a.len(),
{
    let b = a.push(x);
    if a.len() == 0 {
        assert(b.skip(1) =~= Seq::<ValueModel>::empty());
        assert(wire_all(b.skip(1), version) =~= Seq::<u8>::empty());
        assert(wire_all(b, version) =~= wire(x, version));
        assert(wire_all(a, version) + wire(x, version) =~= wire(x, version));
    } else {
        lemma_wire_all_push(a.skip(1), x, version);
        assert(b.skip(1) =~= a.skip(1).push(x));
        assert(wire_all(b, version) =~= wire_all(a, version) + wire(x, version));
    }
}

/// Appending an entry appends the wire forms of its key and its value.
pub proof fn lemma_wire_pairs_push(
    p: Seq<(ValueModel, ValueModel)>,
    e: (ValueModel, ValueModel),
    version: RespVersion,
)
    ensures
        wire_pairs(p.push(e), version) == wire_pairs(p, version) + wire(e.0, version) + wire(
            e.1,
            version,
        ),
    decreases p.len(),
{
    let q = p.push(e);
    if p.len() == 0 {
        assert(q.skip(1) =~= Seq::<(ValueModel, ValueModel)>::empty());
        assert(wire_pairs(q.skip(1), version) =~= Seq::<u8>::empty());
        assert(wire_pairs(q, version) =~= wire(e.0, version) + wire(e.1, version));
        assert(wire_pairs(p, version) + wire(e.0, version) + wire(e.1, version) =~= wire(
            e.0,
            version,
        ) + wire(e.1, version));
    } else {
        lemma_wire_pairs_push(p.skip(1), e, version);
        assert(q.skip(1) =~= p.skip(1).push(e));
        assert(wire_pairs(q, version) =~= wire_pairs(p, version) + wire(e.0, version) + wire(
            e.1,
            version,
        ));
    }
}

/// The index of the first entry of `p` whose key is `k`; the length of
/// `p` where no entry has that key.
pub open spec fn key_position(p: Seq<(ValueModel, ValueModel)>, k: ValueModel) -> int
    decreases p.len(),
{
    if p.len() == 0 {
        0
    } else if p[0].0 == k {
        0
    } else {
        1 + key_position(p.skip(1), k)
    }
}

/// No two entries have the same key.
pub open spec fn distinct_keys(p: Seq<(ValueModel, ValueModel)>) -> bool {
    forall|i: int, j: int| 0 <= i < j < p.len() ==> (#[trigger] p[i]).0 != (#[trigger] p[j]).0
}

/// The entries after `k` is given the value `v`: an entry that had the
/// key leaves its place, and the new entry comes last.
pub open spec fn insert_entry(
    p: Seq<(ValueModel, ValueModel)>,
    k: ValueModel,
    v: ValueModel,
) -> Seq<(ValueModel, ValueModel)> {
    let i = key_position(p, k);
    if i < p.len() {
        p.remove(i).push((k, v))
    } else {
        p.push((k, v))
    }
}

/// What `key_position` finds: the first entry with the key.
pub proof fn lemma_key_position(p: Seq<(ValueModel, ValueModel)>, k: ValueModel)
    ensures
        0 <= key_position(p, k) <= p.len(),
        key_position(p, k) < p.len() ==> p[key_position(p, k)].0 == k,
        forall|j: int| 0 <= j < key_position(p, k) ==> (#[trigger] p[j]).0 != k,
    decreases p.len(),
{
    if p.len() > 0 && p[0].0 != k {
        let q = p.skip(1);
        lemma_key_position(q, k);
        assert forall|j: int| 0 <= j < key_position(p, k) implies (#[trigger] p[j]).0 != k by {
            if j > 0 {
                assert(q[j - 1] == p[j]);
            }
        }
    }
}

/// The first entry with the key is where `key_position` points.
pub proof fn lemma_key_position_is(p: Seq<(ValueModel, ValueModel)>, k: ValueModel, i: int)
    requires
        0 <= i <= p.len(),
        i < p.len() ==> p[i].0 == k,
        forall|j: int| 0 <= j < i ==> (#[trigger] p[j]).0 != k,
    ensures
        key_position(p, k) == i,
{
    lemma_key_position(p, k);
    let f = key_position(p, k);
    if f < i {
        assert(p[f].0 != k);
    } else if f > i {
        assert(p[i].0 != k);
    }
}

/// Giving a key a value keeps the keys distinct.
pub proof fn lemma_insert_distinct(p: Seq<(ValueModel, ValueModel)>, k: ValueModel, v: ValueModel)
    requires
        distinct_keys(p),
    ensures
        distinct_keys(insert_entry(p, k, v)),
{
    lemma_key_position(p, k);
    let i = key_position(p, k);
    let q = insert_entry(p, k, v);
    assert forall|a: int, b: int| 0 <= a < b < q.len() implies (#[trigger] q[a]).0 != (
    #[trigger] q[b]).0 by {
        if i < p.len() {
            let r = p.remove(i);
            let a0 = if a < i { a } else { a + 1 };
            assert(q[a] == p[a0]);
            if b < r.len() {
                let b0 = if b < i { b } else { b + 1 };
                assert(q[b] == p[b0]);
                assert(p[a0].0 != p[b0].0);
            } else {
                if a0 < i {
                    assert(p[a0].0 != p[i].0);
                } else {
                    assert(p[i].0 != p[a0].0);
                }
            }
        } else {
            if b < p.len() {
                assert(q[a] == p[a] && q[b] == p[b]);
            } else {
                assert(q[a] == p[a]);
            }
        }
    }
}

} // verus!
