//! A value together with the attributes that decorate it.

use vstd::prelude::*;
use vstd::utf8::{encode_utf8, valid_utf8};
use crate::error::ParseError;
use crate::model::{wire, RespVersion, ValueModel};
use crate::text::utf8_text;
use crate::value::{Value, ValueMap};

verus! {

/// A value and its attributes. The attributes go over the wire as an
/// attribute frame before the value, where there are any.
#[derive(Debug)]
pub struct ValuePair {
    value: Value,
    attrs: ValueMap,
}

/// The wire form of a value with its attributes: the attribute frame,
/// where there is an attribute, and then the value.
pub open spec fn pair_wire(attrs: Seq<(ValueModel, ValueModel)>, value: ValueModel) -> Seq<u8> {
    if attrs.len() > 0 {
        wire(ValueModel::Attribute(attrs), RespVersion::Resp3) + wire(value, RespVersion::Resp3)
    } else {
        wire(value, RespVersion::Resp3)
    }
}

impl ValuePair {
    /// The value.
    pub closed spec fn value(&self) -> ValueModel {
        self.value@
    }

    /// The attributes, in insertion order.
    pub closed spec fn attrs(&self) -> Seq<(ValueModel, ValueModel)> {
        self.attrs@
    }

    pub fn new(value: Value, attrs: ValueMap) -> (r: ValuePair)
        ensures
            r.value() == value@,
            r.attrs() == attrs@,
    {
        ValuePair { value, attrs }
    }

    /// The wire form of the pair.
    pub fn as_bytes(&self) -> (r: Vec<u8>)
        ensures
            r@ == pair_wire(self.attrs(), self.value()),
    {
        let mut out: Vec<u8> = Vec::new();
        if self.attrs.len() > 0 {
            crate::value::push_attributes(&self.attrs, &mut out);
        }
        self.value.encode_into(RespVersion::Resp3, &mut out);
        assert(out@ =~= pair_wire(self.attrs(), self.value()));
        out
    }

    /// The wire form of the pair as text. It is an error where the wire
    /// form is not UTF-8.
    pub fn to_resp_string(&self) -> (r: Result<String, ParseError>)
        ensures
            valid_utf8(pair_wire(self.attrs(), self.value())) ==> (r matches Ok(s) && encode_utf8(
                s@,
            ) == pair_wire(self.attrs(), self.value())),
            !valid_utf8(pair_wire(self.attrs(), self.value())) ==> (r matches Err(e)
                && e is InvalidArgument),
    {
        let bytes = self.as_bytes();
        match utf8_text(bytes.as_slice()) {
            Some(t) => Ok(t.to_owned()),
            None => Err(ParseError::InvalidArgument),
        }
    }
}

} // verus!
