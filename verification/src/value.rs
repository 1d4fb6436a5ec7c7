//! Values: the typed form of every frame of the protocol.

use vstd::prelude::*;
use vstd::utf8::{encode_utf8, encode_utf8_valid_utf8};
use crate::decimal::{digits, format_i64, push_digits};
use crate::error::DecodeError;
use crate::grammar::{decode, MAX_DEPTH};
use crate::laws::{decodable, law_round_trip, line_safe};
use crate::model::{
    bulk, distinct_keys, insert_entry, key_position, lemma_insert_distinct,
    lemma_key_position_is, lemma_wire_all_push, lemma_wire_pairs_push, line, verbatim_prefix,
    wire, wire_all, wire_pairs, RespVersion, ValueModel,
};
use crate::scalar::{BigInteger, Float64};
use crate::text::utf8_text;

verus! {

/// A mapping from values to values that keeps the order of insertion.
#[derive(Debug, Hash)]
pub struct ValueMap {
    entries: Vec<(Value, Value)>,
}

/// A value of the protocol.
#[derive(Debug, Hash)]
pub enum Value {
    /// A blob string: `$<length>\r\n<bytes>\r\n`.
    Blob(Vec<u8>),
    /// A simple string: `+<string>\r\n`.
    String(Vec<u8>),
    /// A simple error: `-<string>\r\n`.
    Error(String),
    /// A number: `:<number>\r\n`.
    Number(i64),
    /// The null value.
    Null,
    /// A floating-point number: `,<number>\r\n`.
    Double(Float64),
    /// A truth value: `#t\r\n` or `#f\r\n`.
    Boolean(bool),
    /// A blob error: `!<length>\r\n<bytes>\r\n`.
    BlobError(String),
    /// A verbatim string: `=<length>\r\ntxt:<bytes>\r\n`.
    Verbatimstring(String),
    /// A big number: `(<number>\r\n`.
    Bigint(BigInteger),
    /// An array of values of any types.
    Array(Vec<Value>),
    /// A map of values, in insertion order.
    MapOf(ValueMap),
    /// A set of values.
    SetOf(Vec<Value>),
    /// Attributes: a map that decorates the frame after it.
    Attribute(ValueMap),
    /// A push message; its first element names the channel.
    Push(Vec<Value>),
}

impl View for ValueMap {
    type V = Seq<(ValueModel, ValueModel)>;

    closed spec fn view(&self) -> Seq<(ValueModel, ValueModel)>
        decreases self,
    {
        Seq::new(
            self.entries.len() as nat,
            |i: int|
                if 0 <= i < self.entries.len() {
                    (self.entries[i].0.view(), self.entries[i].1.view())
                } else {
                    (ValueModel::Null, ValueModel::Null)
                },
        )
    }
}

/// The models of the elements of `a`, in order.
pub open spec fn models(a: Vec<Value>) -> Seq<ValueModel>
    decreases a,
{
    Seq::new(
        a.len() as nat,
        |i: int|
            if 0 <= i < a.len() {
                a[i].view()
            } else {
                ValueModel::Null
            },
    )
}

impl View for Value {
    type V = ValueModel;

    open spec fn view(&self) -> ValueModel
        decreases self,
    {
        match *self {
            Value::Blob(d) => ValueModel::Blob(d@),
            Value::String(s) => ValueModel::String(s@),
            Value::Error(s) => ValueModel::Error(encode_utf8(s@)),
            Value::Number(n) => ValueModel::Number(n),
            Value::Null => ValueModel::Null,
            Value::Double(f) => ValueModel::Double(f@),
            Value::Boolean(b) => ValueModel::Boolean(b),
            Value::BlobError(s) => ValueModel::BlobError(encode_utf8(s@)),
            Value::Verbatimstring(s) => ValueModel::Verbatimstring(encode_utf8(s@)),
            Value::Bigint(b) => ValueModel::Bigint(b@),
            Value::Array(a) => ValueModel::Array(models(a)),
            Value::MapOf(m) => ValueModel::MapOf(m.view()),
            Value::SetOf(a) => ValueModel::SetOf(models(a)),
            Value::Attribute(m) => ValueModel::Attribute(m.view()),
            Value::Push(a) => ValueModel::Push(models(a)),
        }
    }
}

/// Appends the line `tag`, `text`, terminator.
pub fn push_line(out: &mut Vec<u8>, tag: u8, text: &[u8])
    ensures
        final(out)@ == old(out)@ + line(tag, text@),
{
    out.push(tag);
    out.extend_from_slice(text);
    out.push(13u8);
    out.push(10u8);
    assert(final(out)@ =~= old(out)@ + line(tag, text@));
}

/// Appends the line that holds a count or a length.
pub fn push_count(out: &mut Vec<u8>, tag: u8, n: u128)
    ensures
        final(out)@ == old(out)@ + line(tag, digits(n as nat)),
{
    out.push(tag);
    push_digits(n, out);
    out.push(13u8);
    out.push(10u8);
    assert(final(out)@ =~= old(out)@ + line(tag, digits(n as nat)));
}

/// Appends a length-prefixed payload.
pub fn push_bulk(out: &mut Vec<u8>, tag: u8, payload: &[u8])
    ensures
        final(out)@ == old(out)@ + bulk(tag, payload@),
{
    push_count(out, tag, payload.len() as u128);
    out.extend_from_slice(payload);
    out.push(13u8);
    out.push(10u8);
    assert(final(out)@ =~= old(out)@ + bulk(tag, payload@));
}

/// Appends the wire forms of the elements of `a`.
fn push_all(a: &Vec<Value>, version: RespVersion, out: &mut Vec<u8>)
    ensures
        final(out)@ == old(out)@ + wire_all(models(*a), version),
    decreases a, 0nat,
{
    let ghost all = models(*a);
    let mut i: usize = 0;
    assert(all.take(0) =~= Seq::<ValueModel>::empty());
    assert(out@ =~= old(out)@ + wire_all(all.take(0), version));
    while i < a.len()
        invariant
            i <= a.len(),
            all == models(*a),
            out@ == old(out)@ + wire_all(all.take(i as int), version),
        decreases a.len() - i,
    {
        let ghost before = out@;
        a[i].encode_into(version, out);
        proof {
            lemma_wire_all_push(all.take(i as int), all[i as int], version);
            assert(all.take(i as int).push(all[i as int]) =~= all.take(i + 1));
            assert(out@ =~= old(out)@ + wire_all(all.take(i + 1), version));
        }
        i = i + 1;
    }
    assert(all.take(a.len() as int) =~= all);
}

/// Appends the wire forms of the entries of `m`.
fn push_pairs(m: &ValueMap, version: RespVersion, out: &mut Vec<u8>)
    ensures
        final(out)@ == old(out)@ + wire_pairs(m@, version),
    decreases m, 0nat,
{
    let ghost all = m@;
    let mut i: usize = 0;
    assert(all.take(0) =~= Seq::<(ValueModel, ValueModel)>::empty());
    assert(out@ =~= old(out)@ + wire_pairs(all.take(0), version));
    while i < m.entries.len()
        invariant
            i <= m.entries.len(),
            all == m@,
            out@ == old(out)@ + wire_pairs(all.take(i as int), version),
        decreases m.entries.len() - i,
    {
        m.entries[i].0.encode_into(version, out);
        m.entries[i].1.encode_into(version, out);
        proof {
            lemma_wire_pairs_push(all.take(i as int), all[i as int], version);
            assert(all.take(i as int).push(all[i as int]) =~= all.take(i + 1));
            assert(out@ =~= old(out)@ + wire_pairs(all.take(i + 1), version));
        }
        i = i + 1;
    }
    assert(all.take(m.entries.len() as int) =~= all);
}

impl Value {
    /// Appends the canonical wire form of the value to `out`.
    pub fn encode_into(&self, version: RespVersion, out: &mut Vec<u8>)
        ensures
            final(out)@ == old(out)@ + wire(self@, version),
        decreases self, 1nat,
    {
        match self {
            Value::Blob(d) => push_bulk(out, 36, d.as_slice()),
            Value::String(s) => push_line(out, 43, s.as_slice()),
            Value::Error(s) => match version {
                RespVersion::Resp2 => push_line(out, 45, s.as_str().as_bytes()),
                RespVersion::Resp3 => push_line(out, 33, s.as_str().as_bytes()),
            },
            Value::Number(n) => {
                let text = format_i64(*n);
                push_line(out, 58, text.as_slice());
            },
            Value::Null => match version {
                RespVersion::Resp2 => {
                    let text = format_i64(-1);
                    push_line(out, 36, text.as_slice());
                },
                RespVersion::Resp3 => {
                    let text: Vec<u8> = Vec::new();
                    push_line(out, 95, text.as_slice());
                    assert(text@ =~= Seq::<u8>::empty());
                },
            },
            Value::Double(f) => push_line(out, 44, f.text()),
            Value::Boolean(b) => {
                let text: Vec<u8> = if *b {
                    vec![116u8]
                } else {
                    vec![102u8]
                };
                assert(text@ =~= if *b {
                    seq![116u8]
                } else {
                    seq![102u8]
                });
                push_line(out, 35, text.as_slice());
            },
            Value::BlobError(s) => push_bulk(out, 33, s.as_str().as_bytes()),
            Value::Verbatimstring(s) => {
                let body = s.as_str().as_bytes();
                push_count(out, 61, body.len() as u128 + 4);
                out.push(116u8);
                out.push(120u8);
                out.push(116u8);
                out.push(58u8);
                out.extend_from_slice(body);
                out.push(13u8);
                out.push(10u8);
                assert((verbatim_prefix() + body@).len() == body@.len() + 4);
                assert(final(out)@ =~= old(out)@ + bulk(61, verbatim_prefix() + body@));
            },
            Value::Bigint(b) => push_line(out, 40, b.text()),
            Value::Array(a) => {
                push_count(out, 42, a.len() as u128);
                push_all(a, version, out);
                assert(final(out)@ =~= old(out)@ + wire(self@, version));
            },
            Value::MapOf(m) => {
                push_count(out, 37, m.entries.len() as u128);
                push_pairs(m, version, out);
                assert(final(out)@ =~= old(out)@ + wire(self@, version));
            },
            Value::SetOf(a) => {
                push_count(out, 126, a.len() as u128);
                push_all(a, version, out);
                assert(final(out)@ =~= old(out)@ + wire(self@, version));
            },
            Value::Attribute(m) => {
                push_count(out, 124, m.entries.len() as u128);
                push_pairs(m, version, out);
                assert(final(out)@ =~= old(out)@ + wire(self@, version));
            },
            Value::Push(a) => {
                push_count(out, 62, a.len() as u128);
                push_all(a, version, out);
                assert(final(out)@ =~= old(out)@ + wire(self@, version));
            },
        }
    }

    /// The canonical wire form of the value under a protocol version.
    pub fn encode(&self, version: RespVersion) -> (r: Vec<u8>)
        ensures
            r@ == wire(self@, version),
    {
        let mut out: Vec<u8> = Vec::new();
        self.encode_into(version, &mut out);
        assert(out@ =~= wire(self@, version));
        out
    }

    /// The canonical wire form of the value in the newer revision of the
    /// protocol.
    pub fn as_bytes(&self) -> (r: Vec<u8>)
        ensures
            r@ == wire(self@, RespVersion::Resp3),
    {
        self.encode(RespVersion::Resp3)
    }

    /// Whether the value is a simple error.
    pub fn is_error(&self) -> (r: bool)
        ensures
            r == (self@ is Error),
    {
        match self {
            Value::Error(_) => true,
            _ => false,
        }
    }

    /// Whether the value is a status, that is, a simple string.
    pub fn is_status(&self) -> (r: bool)
        ensures
            r == (self@ is String),
    {
        match self {
            Value::String(_) => true,
            _ => false,
        }
    }

    /// Whether the value is the null value.
    pub fn is_nil(&self) -> (r: bool)
        ensures
            r == (self@ is Null),
    {
        match self {
            Value::Null => true,
            _ => false,
        }
    }
}

/// Whether two byte strings hold the same bytes.
pub fn bytes_equal(a: &[u8], b: &[u8]) -> (r: bool)
    ensures
        r == (a@ == b@),
{
    if a.len() != b.len() {
        return false;
    }
    let mut i: usize = 0;
    while i < a.len()
        invariant
            i <= a@.len() == b@.len(),
            forall|k: int| 0 <= k < i ==> a@[k] == b@[k],
        decreases a@.len() - i,
    {
        if a[i] != b[i] {
            return false;
        }
        i = i + 1;
    }
    assert(a@ =~= b@);
    true
}

/// Whether two sequences of values are equal element by element.
fn same_all(a: &Vec<Value>, b: &Vec<Value>) -> (r: bool)
    ensures
        r == (models(*a) == models(*b)),
    decreases a, 0nat,
{
    if a.len() != b.len() {
        assert(models(*a).len() != models(*b).len());
        return false;
    }
    let mut i: usize = 0;
    while i < a.len()
        invariant
            i <= a.len() == b.len(),
            forall|k: int| 0 <= k < i ==> models(*a)[k] == models(*b)[k],
        decreases a.len() - i,
    {
        if !a[i].same(&b[i]) {
            assert(models(*a)[i as int] != models(*b)[i as int]);
            return false;
        }
        i = i + 1;
    }
    assert(models(*a) =~= models(*b));
    true
}

/// Whether two maps hold equal entries in the same order.
pub(crate) fn same_pairs(m: &ValueMap, n: &ValueMap) -> (r: bool)
    ensures
        r == (m@ == n@),
    decreases m, 0nat,
{
    if m.entries.len() != n.entries.len() {
        assert(m@.len() != n@.len());
        return false;
    }
    let mut i: usize = 0;
    while i < m.entries.len()
        invariant
            i <= m.entries.len() == n.entries.len(),
            forall|k: int| 0 <= k < i ==> m@[k] == n@[k],
        decreases m.entries.len() - i,
    {
        if !m.entries[i].0.same(&n.entries[i].0) || !m.entries[i].1.same(&n.entries[i].1) {
            assert(m@[i as int] != n@[i as int]);
            return false;
        }
        i = i + 1;
    }
    assert(m@ =~= n@);
    true
}

impl Value {
    /// Whether two values are equal: whether they are the same value of
    /// the protocol, whatever way they are stored.
    pub fn same(&self, other: &Value) -> (r: bool)
        ensures
            r == (self@ == other@),
        decreases self, 1nat,
    {
        match (self, other) {
            (Value::Blob(a), Value::Blob(b)) => bytes_equal(a.as_slice(), b.as_slice()),
            (Value::String(a), Value::String(b)) => bytes_equal(a.as_slice(), b.as_slice()),
            (Value::Error(a), Value::Error(b)) => bytes_equal(
                a.as_str().as_bytes(),
                b.as_str().as_bytes(),
            ),
            (Value::Number(a), Value::Number(b)) => *a == *b,
            (Value::Null, Value::Null) => true,
            (Value::Double(a), Value::Double(b)) => bytes_equal(a.text(), b.text()),
            (Value::Boolean(a), Value::Boolean(b)) => *a == *b,
            (Value::BlobError(a), Value::BlobError(b)) => bytes_equal(
                a.as_str().as_bytes(),
                b.as_str().as_bytes(),
            ),
            (Value::Verbatimstring(a), Value::Verbatimstring(b)) => bytes_equal(
                a.as_str().as_bytes(),
                b.as_str().as_bytes(),
            ),
            (Value::Bigint(a), Value::Bigint(b)) => bytes_equal(a.text(), b.text()),
            (Value::Array(a), Value::Array(b)) => same_all(a, b),
            (Value::MapOf(a), Value::MapOf(b)) => same_pairs(a, b),
            (Value::SetOf(a), Value::SetOf(b)) => same_all(a, b),
            (Value::Attribute(a), Value::Attribute(b)) => same_pairs(a, b),
            (Value::Push(a), Value::Push(b)) => same_all(a, b),
            _ => false,
        }
    }
}

impl ValueMap {
    /// Whether two maps hold equal entries in the same order.
    pub fn same(&self, other: &ValueMap) -> (r: bool)
        ensures
            r == (self@ == other@),
    {
        same_pairs(self, other)
    }

    #[verifier::type_invariant]
    spec fn well_formed(&self) -> bool {
        distinct_keys(self@)
    }

    /// A map without entries.
    pub fn new() -> (r: ValueMap)
        ensures
            r@ == Seq::<(ValueModel, ValueModel)>::empty(),
    {
        let r = ValueMap { entries: Vec::new() };
        assert(r@ =~= Seq::<(ValueModel, ValueModel)>::empty());
        r
    }

    /// The number of entries.
    pub fn len(&self) -> (r: usize)
        ensures
            r == self@.len(),
            distinct_keys(self@),
    {
        proof {
            use_type_invariant(self);
        }
        self.entries.len()
    }

    /// The index of the entry with the key `k`; the number of entries
    /// where there is none.
    pub fn position(&self, k: &Value) -> (r: usize)
        ensures
            r == key_position(self@, k@),
            r <= self@.len(),
    {
        let mut i: usize = 0;
        while i < self.entries.len()
            invariant
                i <= self.entries.len(),
                forall|j: int| 0 <= j < i ==> (#[trigger] self@[j]).0 != k@,
            decreases self.entries.len() - i,
        {
            if self.entries[i].0.same(k) {
                proof {
                    lemma_key_position_is(self@, k@, i as int);
                }
                return i;
            }
            i = i + 1;
        }
        proof {
            lemma_key_position_is(self@, k@, i as int);
        }
        i
    }

    /// The value that the key `k` has, if it has one.
    pub fn get(&self, k: &Value) -> (r: Option<&Value>)
        ensures
            r is Some <==> key_position(self@, k@) < self@.len(),
            r matches Some(v) ==> v@ == self@[key_position(self@, k@)].1,
    {
        let i = self.position(k);
        if i < self.entries.len() {
            Some(&self.entries[i].1)
        } else {
            None
        }
    }

    /// The key and the value of the entry at `i`, counted in insertion
    /// order.
    pub fn entry(&self, i: usize) -> (r: Option<(&Value, &Value)>)
        ensures
            r is Some <==> i < self@.len(),
            r matches Some(e) ==> (e.0@, e.1@) == self@[i as int],
    {
        if i < self.entries.len() {
            Some((&self.entries[i].0, &self.entries[i].1))
        } else {
            None
        }
    }

    /// Gives the key `k` the value `v`. An entry that had the key leaves
    /// its place and its value is handed back; the new entry comes last.
    pub fn insert(&mut self, k: Value, v: Value) -> (r: Option<Value>)
        ensures
            final(self)@ == insert_entry(old(self)@, k@, v@),
            r is Some <==> key_position(old(self)@, k@) < old(self)@.len(),
            r matches Some(w) ==> w@ == old(self)@[key_position(old(self)@, k@)].1,
    {
        proof {
            use_type_invariant(&*self);
            lemma_insert_distinct(self@, k@, v@);
        }
        let i = self.position(&k);
        let ghost before = self@;
        let mut entries: Vec<(Value, Value)> = Vec::new();
        core::mem::swap(&mut entries, &mut self.entries);
        let r = if i < entries.len() {
            let e = entries.remove(i);
            Some(e.1)
        } else {
            None
        };
        entries.push((k, v));
        let ghost after = ValueMap { entries: entries }@;
        assert(after =~= insert_entry(before, k@, v@));
        self.entries = entries;
        r
    }
}

/// Appends the attribute frame of the entries of `m`.
pub(crate) fn push_attributes(m: &ValueMap, out: &mut Vec<u8>)
    ensures
        final(out)@ == old(out)@ + wire(ValueModel::Attribute(m@), RespVersion::Resp3),
{
    push_count(out, 124, m.entries.len() as u128);
    push_pairs(m, RespVersion::Resp3, out);
    assert(final(out)@ =~= old(out)@ + wire(ValueModel::Attribute(m@), RespVersion::Resp3));
}

/// The character that opens the wire form of a value of each type.
pub open spec fn type_char(m: ValueModel) -> char {
    match m {
        ValueModel::Blob(_) => '$',
        ValueModel::String(_) => '+',
        ValueModel::Error(_) => '-',
        ValueModel::Number(_) => ':',
        ValueModel::Null => '_',
        ValueModel::Double(_) => ',',
        ValueModel::Boolean(_) => '#',
        ValueModel::BlobError(_) => '!',
        ValueModel::Verbatimstring(_) => '=',
        ValueModel::Bigint(_) => '(',
        ValueModel::Array(_) => '*',
        ValueModel::MapOf(_) => '%',
        ValueModel::SetOf(_) => '~',
        ValueModel::Attribute(_) => '|',
        ValueModel::Push(_) => '>',
    }
}

impl Value {
    /// The character that opens the wire form of a value of this type.
    pub fn get_char(&self) -> (r: char)
        ensures
            r == type_char(self@),
    {
        match self {
            Value::Blob(_) => '$',
            Value::String(_) => '+',
            Value::Error(_) => '-',
            Value::Number(_) => ':',
            Value::Null => '_',
            Value::Double(_) => ',',
            Value::Boolean(_) => '#',
            Value::BlobError(_) => '!',
            Value::Verbatimstring(_) => '=',
            Value::Bigint(_) => '(',
            Value::Array(_) => '*',
            Value::MapOf(_) => '%',
            Value::SetOf(_) => '~',
            Value::Attribute(_) => '|',
            Value::Push(_) => '>',
        }
    }
}

/// Whether text can stand in a line: whether it holds neither a
/// carriage return nor a line feed.
pub fn check_line_safe(t: &[u8]) -> (r: bool)
    ensures
        r == line_safe(t@),
{
    let mut i: usize = 0;
    while i < t.len()
        invariant
            i <= t@.len(),
            forall|k: int| 0 <= k < i ==> (#[trigger] t@[k]) != 10 && t@[k] != 13,
        decreases t@.len() - i,
    {
        if t[i] == 10 || t[i] == 13 {
            return false;
        }
        i = i + 1;
    }
    true
}

/// Whether a count or a length can be written as a signed 64-bit
/// number.
fn fits_count(n: usize) -> (r: bool)
    ensures
        r == (n <= i64::MAX),
{
    (n as u64) <= 9223372036854775807u64
}

/// Whether every element of `a` is decodable with aggregates nested no
/// more than `depth` deep.
fn all_decodable(a: &Vec<Value>, version: RespVersion, depth: usize) -> (r: bool)
    ensures
        r == (forall|i: int| 0 <= i < models(*a).len() ==> decodable(
            #[trigger] models(*a)[i],
            version,
            depth as nat,
        )),
    decreases a, 0nat,
{
    let mut i: usize = 0;
    while i < a.len()
        invariant
            i <= a.len(),
            forall|k: int|
                0 <= k < i ==> decodable(#[trigger] models(*a)[k], version, depth as nat),
        decreases a.len() - i,
    {
        if !a[i].is_decodable_within(version, depth) {
            assert(!decodable(models(*a)[i as int], version, depth as nat));
            return false;
        }
        i = i + 1;
    }
    true
}

/// Whether every key and every value of `m` is decodable with
/// aggregates nested no more than `depth` deep.
fn pairs_decodable(m: &ValueMap, version: RespVersion, depth: usize) -> (r: bool)
    ensures
        r == (forall|i: int|
            0 <= i < m@.len() ==> decodable((#[trigger] m@[i]).0, version, depth as nat)
                && decodable(m@[i].1, version, depth as nat)),
    decreases m, 0nat,
{
    let mut i: usize = 0;
    while i < m.entries.len()
        invariant
            i <= m.entries.len(),
            forall|k: int|
                0 <= k < i ==> decodable((#[trigger] m@[k]).0, version, depth as nat)
                    && decodable(m@[k].1, version, depth as nat),
        decreases m.entries.len() - i,
    {
        if !m.entries[i].0.is_decodable_within(version, depth)
            || !m.entries[i].1.is_decodable_within(version, depth) {
            assert(!(decodable(m@[i as int].0, version, depth as nat) && decodable(
                m@[i as int].1,
                version,
                depth as nat,
            )));
            return false;
        }
        i = i + 1;
    }
    true
}

impl Value {
    /// Whether the decoder reads the value back from its wire form
    /// under the given version, where it allows aggregates to be nested
    /// `depth` deep.
    pub fn is_decodable_within(&self, version: RespVersion, depth: usize) -> (r: bool)
        ensures
            r == decodable(self@, version, depth as nat),
        decreases self, 1nat,
    {
        match self {
            Value::Blob(d) => fits_count(d.len()),
            Value::String(s) => check_line_safe(s.as_slice()) && utf8_text(s.as_slice()).is_some(),
            Value::Error(s) => {
                proof {
                    encode_utf8_valid_utf8(s@);
                }
                match version {
                    RespVersion::Resp2 => check_line_safe(s.as_str().as_bytes()),
                    RespVersion::Resp3 => false,
                }
            },
            Value::Number(_) => true,
            Value::Null => true,
            Value::Double(f) => {
                let _ = f.text();
                true
            },
            Value::Boolean(_) => true,
            Value::BlobError(_) => false,
            Value::Verbatimstring(_) => false,
            Value::Bigint(b) => {
                let _ = b.text();
                true
            },
            Value::Array(a) => {
                assert(decodable(ValueModel::Array(models(*a)), version, depth as nat) == (depth
                    > 0 && models(*a).len() <= i64::MAX && forall|i: int|
                    0 <= i < models(*a).len() ==> decodable(
                        #[trigger] models(*a)[i],
                        version,
                        (depth - 1) as nat,
                    )));
                depth > 0 && fits_count(a.len()) && all_decodable(a, version, depth - 1)
            },
            Value::MapOf(m) => {
                let n = m.len();
                depth > 0 && fits_count(n) && pairs_decodable(m, version, depth - 1)
            },
            Value::SetOf(a) => {
                assert(decodable(ValueModel::SetOf(models(*a)), version, depth as nat) == (depth
                    > 0 && models(*a).len() <= i64::MAX && forall|i: int|
                    0 <= i < models(*a).len() ==> decodable(
                        #[trigger] models(*a)[i],
                        version,
                        (depth - 1) as nat,
                    )));
                depth > 0 && fits_count(a.len()) && all_decodable(a, version, depth - 1)
            },
            Value::Attribute(_) => false,
            Value::Push(_) => false,
        }
    }

    /// Whether the decoder reads the value back from its wire form
    /// under the given version.
    pub fn is_decodable(&self, version: RespVersion) -> (r: bool)
        ensures
            r == decodable(self@, version, MAX_DEPTH as nat),
    {
        self.is_decodable_within(version, MAX_DEPTH)
    }

    /// Whether the value makes the round trip under the given version:
    /// where it is so, the wire form of the value is read back as the
    /// value, and all of its bytes are taken.
    pub fn round_trips(&self, version: RespVersion) -> (r: bool)
        ensures
            r == decodable(self@, version, MAX_DEPTH as nat),
            r ==> decode(wire(self@, version)) == Ok::<(ValueModel, nat), DecodeError>(
                (self@, wire(self@, version).len()),
            ),
    {
        let r = self.is_decodable(version);
        proof {
            if r {
                law_round_trip(self@, version);
            }
        }
        r
    }
}

} // verus!
