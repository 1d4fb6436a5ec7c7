//! The streaming decoder: reads one frame at a time from the front of a
//! buffer of bytes.

use vstd::prelude::*;
use vstd::slice::slice_subrange;
use vstd::string::StringExecFns;
use vstd::utf8::encode_utf8;
use crate::decimal::{parse_i64, trim_range};
use crate::error::{DecodeError, ParseError};
use crate::grammar::{
    aggregate, big_number, blob, body, boolean, collect_entries, decode, decode_seq, double, frame,
    lemma_collect_prefix, lemma_frame_bounds, lemma_line_break, line_break, newline,
    null, number, number_line, simple_error, simple_string, text_line, used, MAX_DEPTH,
};
use crate::model::ValueModel;
use crate::scalar::{BigInteger, Float64};
use crate::text::utf8_text;
use crate::value::{models, Value, ValueMap};

verus! {

/// A line result moved `d` bytes to the right.
pub open spec fn shift_line(r: Result<(nat, nat), DecodeError>, d: nat) -> Result<
    (nat, nat),
    DecodeError,
> {
    match r {
        Ok((n, c)) => Ok((n + d, c + d)),
        Err(e) => Err(e),
    }
}

/// A run of frames with the frames `items`, which take up `k` bytes, put
/// before it.
pub open spec fn prepend(
    items: Seq<ValueModel>,
    k: nat,
    r: Result<(Seq<ValueModel>, nat), DecodeError>,
) -> Result<(Seq<ValueModel>, nat), DecodeError> {
    match r {
        Ok((rest, c)) => Ok((items + rest, k + c)),
        Err(e) => Err(e),
    }
}

/// A decoder over a buffer of bytes. More than one frame can be in the
/// buffer: each call of `parse_value` reads the next one.
pub struct Parser<'a> {
    input: &'a [u8],
    pos: usize,
}

impl<'a> Parser<'a> {
    #[verifier::type_invariant]
    spec fn well_formed(&self) -> bool {
        self.pos <= self.input@.len()
    }

    /// The bytes of the buffer.
    pub closed spec fn source(&self) -> Seq<u8> {
        self.input@
    }

    /// The number of bytes read so far.
    pub closed spec fn position(&self) -> int {
        self.pos as int
    }

    /// The bytes not read yet.
    pub open spec fn rest(&self) -> Seq<u8> {
        self.source().skip(self.position())
    }

    /// That a call has read `c` bytes and left the buffer as it was.
    pub open spec fn advanced(&self, before: &Self, c: int) -> bool {
        &&& self.source() == before.source()
        &&& self.position() == before.position() + c
        &&& self.position() <= self.source().len()
    }

    /// That a call has given what `expected` says: the value, with its
    /// bytes read, or an error of the kind.
    pub open spec fn reads(
        &self,
        before: &Self,
        expected: Result<(ValueModel, nat), DecodeError>,
        r: Result<Value, ParseError>,
    ) -> bool {
        match expected {
            Ok((m, c)) => r matches Ok(v) && v@ == m && self.advanced(before, c as int),
            Err(e) => r matches Err(pe) && pe.reports(e),
        }
    }

    /// A decoder at the front of `reader`.
    pub fn new(reader: &'a [u8]) -> (r: Parser<'a>)
        ensures
            r.source() == reader@,
            r.position() == 0,
    {
        Parser { input: reader, pos: 0 }
    }

    /// The number of bytes read so far.
    pub fn consumed(&self) -> (r: usize)
        ensures
            r == self.position(),
            r <= self.source().len(),
    {
        proof {
            use_type_invariant(self);
        }
        self.pos
    }

    /// Reads one frame. On success the bytes of the frame are read; on
    /// failure none is.
    pub fn parse_value(&mut self) -> (r: Result<Value, ParseError>)
        ensures
            final(self).reads(old(self), decode(old(self).rest()), r),
            r is Err ==> final(self).advanced(old(self), 0),
    {
        self.parse_frame(MAX_DEPTH)
    }

    /// Reads one frame whose aggregates are nested no more than `depth`
    /// deep. On success the bytes of the frame are read; on failure none
    /// is.
    fn parse_frame(&mut self, depth: usize) -> (r: Result<Value, ParseError>)
        ensures
            final(self).reads(old(self), frame(old(self).rest(), depth as nat), r),
            r is Err ==> final(self).advanced(old(self), 0),
        decreases old(self).source().len() - old(self).position(), 0nat,
    {
        proof {
            use_type_invariant(&*self);
            reveal(body);
        }
        let start: usize = self.pos;
        let tag: u8 = match self.read_byte() {
            Ok(b) => b,
            Err(e) => {
                return Err(e);
            },
        };
        assert(old(self).rest().skip(1) =~= self.rest());
        let r = if tag == 43 {
            self.parse_simple_string()
        } else if tag == 58 {
            self.parse_int()
        } else if tag == 36 {
            self.parse_blob()
        } else if tag == 42 {
            self.parse_array(depth)
        } else if tag == 45 {
            self.parse_error()
        } else if tag == 95 {
            self.parse_null()
        } else if tag == 37 {
            self.parse_map(depth)
        } else if tag == 126 {
            self.parse_set(depth)
        } else if tag == 40 {
            self.parse_bigint()
        } else if tag == 35 {
            self.parse_boolean()
        } else if tag == 44 {
            self.parse_double()
        } else {
            Err(ParseError::BadProtocol(String::from_str("unknown frame type")))
        };
        if r.is_err() {
            self.pos = start;
        }
        r
    }

    /// Reads the byte `refchar`.
    fn expect_char(&mut self, refchar: u8) -> (r: Result<(), ParseError>)
        ensures
            final(self).source() == old(self).source(),
            old(self).rest().len() == 0 ==> (r matches Err(pe) && pe is Incomplete),
            old(self).rest().len() > 0 && old(self).rest()[0] != refchar ==> (r matches Err(pe)
                && pe is BadProtocol),
            old(self).rest().len() > 0 && old(self).rest()[0] == refchar ==> r is Ok
                && final(self).advanced(old(self), 1),
    {
        match self.read_byte() {
            Ok(b) => if b == refchar {
                Ok(())
            } else {
                Err(ParseError::BadProtocol(String::from_str("expected a line feed")))
            },
            Err(e) => Err(e),
        }
    }

    /// Reads a line terminator: a line feed, alone or after a carriage
    /// return.
    fn expect_newline(&mut self) -> (r: Result<(), ParseError>)
        ensures
            final(self).source() == old(self).source(),
            match newline(old(self).rest()) {
                Ok(k) => r is Ok && final(self).advanced(old(self), k as int),
                Err(e) => r matches Err(pe) && pe.reports(e),
            },
    {
        match self.read_byte() {
            Ok(b) => if b == 10 {
                Ok(())
            } else if b == 13 {
                assert(old(self).rest().skip(1) =~= self.rest());
                self.expect_char(10)
            } else {
                Err(ParseError::BadProtocol(String::from_str("expected a line terminator")))
            },
            Err(e) => Err(e),
        }
    }

    /// Reads one byte.
    fn read_byte(&mut self) -> (r: Result<u8, ParseError>)
        ensures
            final(self).source() == old(self).source(),
            old(self).rest().len() == 0 ==> (r matches Err(pe) && pe is Incomplete
                && final(self).advanced(old(self), 0)),
            old(self).rest().len() > 0 ==> r == Ok::<u8, ParseError>(old(self).rest()[0])
                && final(self).advanced(old(self), 1),
    {
        proof {
            use_type_invariant(&*self);
        }
        if self.pos < self.input.len() {
            let b: u8 = self.input[self.pos];
            self.pos = self.pos + 1;
            Ok(b)
        } else {
            Err(ParseError::Incomplete)
        }
    }

    /// Reads a line and gives its text as a string.
    fn read_string_line(&mut self) -> (r: Result<String, ParseError>)
        ensures
            final(self).source() == old(self).source(),
            match text_line(old(self).rest()) {
                Ok((t, c)) => r matches Ok(s) && encode_utf8(s@) == t && final(self).advanced(
                    old(self),
                    c as int,
                ),
                Err(e) => r matches Err(pe) && pe.reports(e),
            },
    {
        match self.read_line() {
            Ok(bytes) => match utf8_text(bytes.as_slice()) {
                Some(t) => Ok(t.to_owned()),
                None => Err(ParseError::InvalidArgument),
            },
            Err(e) => Err(e),
        }
    }

    /// Reads a line and gives its text, without the terminator.
    fn read_line(&mut self) -> (r: Result<Vec<u8>, ParseError>)
        ensures
            final(self).source() == old(self).source(),
            match line_break(old(self).rest()) {
                Ok((n, c)) => r matches Ok(t) && t@ == old(self).rest().take(n as int)
                    && final(self).advanced(old(self), c as int),
                Err(e) => r matches Err(pe) && pe.reports(e),
            },
    {
        proof {
            use_type_invariant(&*self);
        }
        let start: usize = self.pos;
        let ghost whole = old(self).rest();
        let mut rv: Vec<u8> = Vec::new();
        assert(whole.take(0) =~= rv@);
        loop
            invariant
                self.source() == old(self).source(),
                start == old(self).position(),
                start <= self.position() <= self.source().len(),
                whole == old(self).rest(),
                rv@ == whole.take(self.position() - start),
                line_break(whole) == shift_line(
                    line_break(self.rest()),
                    (self.position() - start) as nat,
                ),
            decreases self.source().len() - self.position(),
        {
            let ghost here = self.rest();
            let ghost d = self.position() - start;
            let b: u8 = match self.read_byte() {
                Ok(b) => b,
                Err(e) => {
                    return Err(e);
                },
            };
            assert(here.skip(1) =~= self.rest());
            if b == 10 {
                return Ok(rv);
            } else if b == 13 {
                return match self.expect_char(10) {
                    Ok(()) => Ok(rv),
                    Err(e) => Err(e),
                };
            } else {
                rv.push(b);
                assert(rv@ =~= whole.take(d + 1));
            }
        }
    }

    /// Reads a line and gives the number that its text denotes.
    fn read_int_line(&mut self) -> (r: Result<i64, ParseError>)
        ensures
            final(self).source() == old(self).source(),
            match number_line(old(self).rest()) {
                Ok((v, c)) => r == Ok::<i64, ParseError>(v) && final(self).advanced(
                    old(self),
                    c as int,
                ),
                Err(e) => r matches Err(pe) && pe.reports(e),
            },
    {
        match self.read_line() {
            Ok(line) => match parse_i64(line.as_slice()) {
                Some(v) => Ok(v),
                None => Err(ParseError::BadProtocol(String::from_str("expected a number"))),
            },
            Err(e) => Err(e),
        }
    }

    /// Reads `bytes` bytes.
    fn read(&mut self, bytes: usize) -> (r: Result<Vec<u8>, ParseError>)
        ensures
            final(self).source() == old(self).source(),
            old(self).rest().len() < bytes ==> (r matches Err(pe) && pe is Incomplete),
            old(self).rest().len() >= bytes ==> (r matches Ok(v) && v@ == old(self).rest().take(
                bytes as int,
            ) && final(self).advanced(old(self), bytes as int)),
    {
        proof {
            use_type_invariant(&*self);
        }
        if self.input.len() - self.pos < bytes {
            return Err(ParseError::Incomplete);
        }
        let part = slice_subrange(self.input, self.pos, self.pos + bytes);
        let rv = vstd::slice::slice_to_vec(part);
        assert(rv@ =~= old(self).rest().take(bytes as int));
        self.pos = self.pos + bytes;
        Ok(rv)
    }
}

impl<'a> Parser<'a> {
    /// Reads `n` frames, one after the other, each with aggregates nested
    /// no more than `depth` deep.
    fn read_frames(&mut self, n: u64, depth: usize) -> (r: Result<Vec<Value>, ParseError>)
        ensures
            final(self).source() == old(self).source(),
            match decode_seq(old(self).rest(), n as nat, depth as nat) {
                Ok((items, k)) => r matches Ok(v) && models(v) == items && final(self).advanced(
                    old(self),
                    k as int,
                ),
                Err(e) => r matches Err(pe) && pe.reports(e),
            },
        decreases old(self).source().len() - old(self).position(), 1nat,
    {
        proof {
            use_type_invariant(&*self);
        }
        let ghost whole = old(self).rest();
        let ghost start = old(self).position();
        let mut rv: Vec<Value> = Vec::new();
        let mut i: u64 = 0;
        assert(models(rv) =~= Seq::<ValueModel>::empty());
        proof {
            if let Ok((rest, k)) = decode_seq(whole, n as nat, depth as nat) {
                assert(Seq::<ValueModel>::empty() + rest =~= rest);
            }
        }
        while i < n
            invariant
                i <= n,
                self.source() == old(self).source(),
                start == old(self).position(),
                whole == old(self).rest(),
                start <= self.position() <= self.source().len(),
                models(rv).len() == i,
                decode_seq(whole, n as nat, depth as nat) == prepend(
                    models(rv),
                    (self.position() - start) as nat,
                    decode_seq(self.rest(), (n - i) as nat, depth as nat),
                ),
            decreases n - i,
        {
            let ghost here = self.rest();
            let ghost before = models(rv);
            let ghost done = (self.position() - start) as nat;
            proof {
                lemma_frame_bounds(here, depth as nat);
            }
            match self.parse_frame(depth) {
                Ok(v) => {
                    proof {
                        let c = used(frame(here, depth as nat));
                        assert(here.skip(c as int) =~= self.rest());
                    }
                    let ghost m = v@;
                    rv.push(v);
                    proof {
                        assert(models(rv) =~= before + seq![m]);
                        let tail = decode_seq(self.rest(), (n - i - 1) as nat, depth as nat);
                        if let Ok((rest, k)) = tail {
                            assert(before + (seq![m] + rest) =~= models(rv) + rest);
                        }
                    }
                },
                Err(e) => {
                    return Err(e);
                },
            }
            i = i + 1;
        }
        assert(models(rv) + Seq::<ValueModel>::empty() =~= models(rv));
        Ok(rv)
    }

    /// Reads the count of an aggregate: a number that is not negative.
    fn read_count(&mut self) -> (r: Result<u64, ParseError>)
        ensures
            final(self).source() == old(self).source(),
            match number_line(old(self).rest()) {
                Ok((v, c)) => if v < 0 {
                    r matches Err(pe) && pe is BadProtocol
                } else {
                    r == Ok::<u64, ParseError>(v as u64) && 1 <= c && final(self).advanced(
                        old(self),
                        c as int,
                    )
                },
                Err(e) => r matches Err(pe) && pe.reports(e),
            },
    {
        proof {
            lemma_line_break(self.rest());
        }
        match self.read_int_line() {
            Ok(v) => if v < 0 {
                Err(ParseError::BadProtocol(String::from_str("negative length")))
            } else {
                Ok(v as u64)
            },
            Err(e) => Err(e),
        }
    }

    fn parse_blob(&mut self) -> (r: Result<Value, ParseError>)
        ensures
            final(self).source() == old(self).source(),
            final(self).reads(old(self), blob(old(self).rest()), r),
    {
        proof {
            reveal(blob);
        }
        proof {
            lemma_line_break(self.rest());
        }
        let ghost whole = self.rest();
        let length: i64 = match self.read_int_line() {
            Ok(v) => v,
            Err(e) => {
                return Err(e);
            },
        };
        if length == -1 {
            return Ok(Value::Null);
        }
        if length < 0 {
            return Err(ParseError::BadProtocol(String::from_str("negative length")));
        }
        proof {
            use_type_invariant(&*self);
        }
        let ghost c = used(number_line(whole));
        assert(whole.skip(c as int) =~= self.rest());
        let left: usize = self.input.len() - self.pos;
        if (left as u64) < (length as u64) {
            return Err(ParseError::Incomplete);
        }
        let buf = match self.read(length as usize) {
            Ok(b) => b,
            Err(e) => {
                return Err(e);
            },
        };
        assert(whole.skip(c + length) =~= self.rest());
        assert(buf@ =~= whole.subrange(c as int, c + length));
        match self.expect_newline() {
            Ok(()) => Ok(Value::Blob(buf)),
            Err(e) => Err(e),
        }
    }

    fn parse_int(&mut self) -> (r: Result<Value, ParseError>)
        ensures
            final(self).source() == old(self).source(),
            final(self).reads(old(self), number(old(self).rest()), r),
    {
        proof {
            reveal(number);
        }
        match self.read_int_line() {
            Ok(v) => Ok(Value::Number(v)),
            Err(e) => Err(e),
        }
    }

    fn parse_simple_string(&mut self) -> (r: Result<Value, ParseError>)
        ensures
            final(self).source() == old(self).source(),
            final(self).reads(old(self), simple_string(old(self).rest()), r),
    {
        proof {
            reveal(simple_string);
        }
        match self.read_line() {
            Ok(bytes) => match utf8_text(bytes.as_slice()) {
                Some(_) => Ok(Value::String(bytes)),
                None => Err(ParseError::InvalidArgument),
            },
            Err(e) => Err(e),
        }
    }

    fn parse_array(&mut self, depth: usize) -> (r: Result<Value, ParseError>)
        ensures
            final(self).source() == old(self).source(),
            final(self).reads(old(self), aggregate(old(self).rest(), 42, depth as nat), r),
        decreases old(self).source().len() - old(self).position(), 2nat,
    {
        if depth == 0 {
            return Err(ParseError::BadProtocol(String::from_str("nested too deep")));
        }
        let ghost whole = self.rest();
        let length: u64 = match self.read_count() {
            Ok(v) => v,
            Err(e) => {
                return Err(e);
            },
        };
        let ghost c = used(number_line(whole));
        assert(whole.skip(c as int) =~= self.rest());
        match self.read_frames(length, depth - 1) {
            Ok(rv) => Ok(Value::Array(rv)),
            Err(e) => Err(e),
        }
    }

    fn parse_set(&mut self, depth: usize) -> (r: Result<Value, ParseError>)
        ensures
            final(self).source() == old(self).source(),
            final(self).reads(old(self), aggregate(old(self).rest(), 126, depth as nat), r),
        decreases old(self).source().len() - old(self).position(), 2nat,
    {
        if depth == 0 {
            return Err(ParseError::BadProtocol(String::from_str("nested too deep")));
        }
        let ghost whole = self.rest();
        let length: u64 = match self.read_count() {
            Ok(v) => v,
            Err(e) => {
                return Err(e);
            },
        };
        let ghost c = used(number_line(whole));
        assert(whole.skip(c as int) =~= self.rest());
        match self.read_frames(length, depth - 1) {
            Ok(rv) => Ok(Value::SetOf(rv)),
            Err(e) => Err(e),
        }
    }

    fn parse_error(&mut self) -> (r: Result<Value, ParseError>)
        ensures
            final(self).source() == old(self).source(),
            final(self).reads(old(self), simple_error(old(self).rest()), r),
    {
        proof {
            reveal(simple_error);
        }
        match self.read_string_line() {
            Ok(s) => Ok(Value::Error(s)),
            Err(e) => Err(e),
        }
    }

    fn parse_null(&mut self) -> (r: Result<Value, ParseError>)
        ensures
            final(self).source() == old(self).source(),
            final(self).reads(old(self), null(old(self).rest()), r),
    {
        proof {
            reveal(null);
        }
        match self.expect_newline() {
            Ok(()) => Ok(Value::Null),
            Err(e) => Err(e),
        }
    }

    fn parse_bigint(&mut self) -> (r: Result<Value, ParseError>)
        ensures
            final(self).source() == old(self).source(),
            final(self).reads(old(self), big_number(old(self).rest()), r),
    {
        proof {
            reveal(big_number);
        }
        match self.read_line() {
            Ok(bytes) => match utf8_text(bytes.as_slice()) {
                Some(_) => match BigInteger::parse(bytes.as_slice()) {
                    Some(b) => Ok(Value::Bigint(b)),
                    None => Err(ParseError::BadProtocol(String::from_str("expected a big number"))),
                },
                None => Err(ParseError::InvalidArgument),
            },
            Err(e) => Err(e),
        }
    }

    fn parse_double(&mut self) -> (r: Result<Value, ParseError>)
        ensures
            final(self).source() == old(self).source(),
            final(self).reads(old(self), double(old(self).rest()), r),
    {
        proof {
            reveal(double);
        }
        match self.read_line() {
            Ok(bytes) => match utf8_text(bytes.as_slice()) {
                Some(_) => {
                    let (from, to) = trim_range(bytes.as_slice());
                    match Float64::from_text(slice_subrange(bytes.as_slice(), from, to)) {
                        Some(f) => Ok(Value::Double(f)),
                        None => Err(
                            ParseError::BadProtocol(String::from_str("expected a decimal number")),
                        ),
                    }
                },
                None => Err(ParseError::InvalidArgument),
            },
            Err(e) => Err(e),
        }
    }

    fn parse_boolean(&mut self) -> (r: Result<Value, ParseError>)
        ensures
            final(self).source() == old(self).source(),
            final(self).reads(old(self), boolean(old(self).rest()), r),
    {
        proof {
            reveal(boolean);
        }
        match self.read_line() {
            Ok(bytes) => match utf8_text(bytes.as_slice()) {
                Some(_) => {
                    if bytes.len() == 1 && bytes[0] == 116 {
                        assert(bytes@ =~= seq![116u8]);
                        Ok(Value::Boolean(true))
                    } else if bytes.len() == 1 && bytes[0] == 102 {
                        assert(bytes@ =~= seq![102u8]);
                        Ok(Value::Boolean(false))
                    } else {
                        assert(bytes@ != seq![116u8] && bytes@ != seq![102u8]) by {
                            if bytes@.len() == 1 {
                                assert(seq![116u8][0] == 116u8);
                                assert(seq![102u8][0] == 102u8);
                            }
                        }
                        Err(ParseError::BadProtocol(String::from_str("expected t or f")))
                    }
                },
                None => Err(ParseError::InvalidArgument),
            },
            Err(e) => Err(e),
        }
    }

    fn parse_map(&mut self, depth: usize) -> (r: Result<Value, ParseError>)
        ensures
            final(self).source() == old(self).source(),
            final(self).reads(old(self), aggregate(old(self).rest(), 37, depth as nat), r),
        decreases old(self).source().len() - old(self).position(), 2nat,
    {
        if depth == 0 {
            return Err(ParseError::BadProtocol(String::from_str("nested too deep")));
        }
        let inner: usize = depth - 1;
        let ghost whole = old(self).rest();
        let length: u64 = match self.read_count() {
            Ok(v) => v,
            Err(e) => {
                return Err(e);
            },
        };
        proof {
            use_type_invariant(&*self);
        }
        let ghost c = used(number_line(whole));
        let ghost base = self.rest();
        let ghost start = self.position();
        assert(whole.skip(c as int) =~= base);
        let mut map = ValueMap::new();
        let mut i: u64 = 0;
        let ghost mut items: Seq<ValueModel> = Seq::empty();
        proof {
            if let Ok((rest, k)) = decode_seq(base, (2 * length) as nat, inner as nat) {
                assert(items + rest =~= rest);
            }
        }
        while i < length
            invariant
                i <= length,
                self.source() == old(self).source(),
                start <= self.position() <= self.source().len(),
                start == old(self).position() + c,
                c >= 1,
                whole == old(self).rest(),
                number_line(whole) == Ok::<(i64, nat), DecodeError>((length as i64, c)),
                length <= i64::MAX,
                base == whole.skip(c as int),
                items.len() == 2 * i,
                map@ == collect_entries(items, i as nat),
                inner == depth - 1,
                decode_seq(base, (2 * length) as nat, inner as nat) == prepend(
                    items,
                    (self.position() - start) as nat,
                    decode_seq(self.rest(), (2 * (length - i)) as nat, inner as nat),
                ),
            decreases length - i,
        {
            let ghost here = self.rest();
            proof {
                lemma_frame_bounds(here, inner as nat);
            }
            let key = match self.parse_frame(inner) {
                Ok(v) => v,
                Err(e) => {
                    return Err(e);
                },
            };
            let ghost mid = self.rest();
            let ghost left = (2 * (length - i)) as nat;
            proof {
                let c1 = used(frame(here, inner as nat));
                assert(here.skip(c1 as int) =~= mid);
                lemma_frame_bounds(mid, inner as nat);
                assert(decode_seq(here, left, inner as nat) == prepend(
                    seq![key@],
                    c1,
                    decode_seq(mid, (left - 1) as nat, inner as nat),
                ));
                assert(frame(mid, inner as nat) is Err ==> decode_seq(
                    mid,
                    (left - 1) as nat,
                    inner as nat,
                ) is Err);
            }
            let value = match self.parse_frame(inner) {
                Ok(v) => v,
                Err(e) => {
                    return Err(e);
                },
            };
            proof {
                let c2 = used(frame(mid, inner as nat));
                assert(mid.skip(c2 as int) =~= self.rest());
                assert(decode_seq(mid, (left - 1) as nat, inner as nat) == prepend(
                    seq![value@],
                    c2,
                    decode_seq(self.rest(), (left - 2) as nat, inner as nat),
                ));
                let grown = items + seq![key@, value@];
                lemma_collect_prefix(items, grown, i as nat);
                let tail = decode_seq(self.rest(), (2 * (length - i - 1)) as nat, inner as nat);
                if let Ok((rest, k)) = tail {
                    assert(items + (seq![key@] + (seq![value@] + rest)) =~= grown + rest);
                }
                items = grown;
            }
            map.insert(key, value);
            i = i + 1;
        }
        assert(items + Seq::<ValueModel>::empty() =~= items);
        Ok(Value::MapOf(map))
    }
}

/// Reads the frame at the front of `stream`. Bytes after the frame are
/// left alone.
pub fn parse_redis_value(stream: &[u8]) -> (r: Result<Value, ParseError>)
    ensures
        match decode(stream@) {
            Ok((m, c)) => r matches Ok(v) && v@ == m,
            Err(e) => r matches Err(pe) && pe.reports(e),
        },
{
    let mut parser = Parser::new(stream);
    assert(parser.rest() =~= stream@);
    parser.parse_value()
}

} // verus!
