//! Commands: a wire buffer under construction, or one that was received,
//! and the spans of its arguments.

use vstd::prelude::*;
use vstd::slice::slice_subrange;
use vstd::utf8::{encode_utf8, valid_utf8};
use crate::decimal::{digits, push_digits};
use crate::error::ParseError;
use crate::error::DecodeError;
use crate::grammar::{decode, MAX_DEPTH};
use crate::laws::lemma_decode_wire;
use crate::model::{bulk, lemma_wire_all_push, line, wire, wire_all, RespVersion, ValueModel};
use crate::parse::parse_redis_value;
use crate::text::utf8_text;
use crate::value::Value;

verus! {

/// The place of one argument in a command's buffer: where its payload
/// starts and how long it is.
#[derive(Debug, Clone, Copy)]
pub struct Argument {
    pub pos: usize,
    pub len: usize,
}

/// A command: the bytes as they go over the wire, and the span of each
/// argument in them.
#[derive(Debug)]
pub struct Command {
    pos: usize,
    data: Vec<u8>,
    argv: Vec<Argument>,
}

impl Command {
    /// The bytes of the buffer.
    pub closed spec fn bytes(&self) -> Seq<u8> {
        self.data@
    }

    /// The spans of the arguments, in order.
    pub closed spec fn spans(&self) -> Seq<Argument> {
        self.argv@
    }

    /// The write cursor stands at the end of the buffer, and every span
    /// lies within the buffer.
    pub closed spec fn wf(&self) -> bool {
        &&& self.pos == self.data@.len()
        &&& self.spans_within()
    }

    /// Every span lies within the buffer.
    pub closed spec fn spans_within(&self) -> bool {
        forall|i: int|
            0 <= i < self.argv@.len() ==> (#[trigger] self.argv@[i]).pos + self.argv@[i].len
                <= self.data@.len()
    }

    /// The payload of the argument at `i`.
    pub open spec fn arg(&self, i: int) -> Seq<u8> {
        self.bytes().subrange(
            self.spans()[i].pos as int,
            self.spans()[i].pos + self.spans()[i].len,
        )
    }

    /// That the command is `before` with `more` appended to its bytes
    /// and its spans as `spans`.
    pub open spec fn extends(&self, before: &Command, more: Seq<u8>, spans: Seq<Argument>) -> bool {
        &&& self.wf()
        &&& self.bytes() == before.bytes() + more
        &&& self.spans() == spans
    }

    /// An empty command.
    pub fn cmd() -> (r: Command)
        ensures
            r.wf(),
            r.bytes() == Seq::<u8>::empty(),
            r.spans() == Seq::<Argument>::empty(),
    {
        Command { pos: 0, data: Vec::new(), argv: Vec::new() }
    }

    /// A command that was received: its bytes and the spans of its
    /// arguments in them.
    pub fn new(input: &[u8], argv: Vec<Argument>) -> (r: Command)
        requires
            forall|i: int|
                0 <= i < argv@.len() ==> (#[trigger] argv@[i]).pos + argv@[i].len <= input@.len(),
        ensures
            r.wf(),
            r.bytes() == input@,
            r.spans() == argv@,
    {
        Command { pos: input.len(), argv, data: vstd::slice::slice_to_vec(input) }
    }

    /// Records an argument of `len` bytes that ends at the cursor.
    fn add_argument_position(&mut self, len: usize) -> (r: &mut Self)
        requires
            old(self).wf(),
            len <= old(self).bytes().len(),
        ensures
            r.extends(
                old(self),
                Seq::empty(),
                old(self).spans().push(
                    Argument { pos: (old(self).bytes().len() - len) as usize, len: len },
                ),
            ),
            *final(self) == *final(r),
    {
        self.argv.push(Argument { pos: self.pos - len, len });
        assert(self.bytes() =~= old(self).bytes() + Seq::<u8>::empty());
        self
    }

    /// Moves the cursor to the end of the buffer.
    fn pos_add_offset(&mut self) -> (r: &mut Self)
        requires
            old(self).spans_within(),
        ensures
            r.wf(),
            r.bytes() == old(self).bytes(),
            r.spans() == old(self).spans(),
            *final(self) == *final(r),
    {
        self.pos = self.data.len();
        self
    }

    /// Appends the digits of a length, and a line terminator.
    fn extend_len_bytes(&mut self, n: usize) -> (r: &mut Self)
        requires
            old(self).wf(),
        ensures
            r.extends(old(self), digits(n as nat) + seq![13u8, 10u8], old(self).spans()),
            *final(self) == *final(r),
    {
        push_digits(n as u128, &mut self.data);
        let r = self.pos_add_offset().write_line();
        assert(r.bytes() =~= old(self).bytes() + (digits(n as nat) + seq![13u8, 10u8]));
        r
    }

    /// Appends the bytes of an argument and a line terminator, and
    /// records the argument's span.
    fn extend_from_bytes(&mut self, buf: &[u8]) -> (r: &mut Self)
        requires
            old(self).wf(),
        ensures
            r.extends(
                old(self),
                buf@ + seq![13u8, 10u8],
                old(self).spans().push(
                    Argument { pos: old(self).bytes().len() as usize, len: buf@.len() as usize },
                ),
            ),
            *final(self) == *final(r),
    {
        self.data.extend_from_slice(buf);
        let r = self.pos_add_offset().add_argument_position(buf.len()).write_line();
        assert(r.bytes() =~= old(self).bytes() + (buf@ + seq![13u8, 10u8]));
        r
    }

    /// Appends one byte.
    fn put_byte(&mut self, byte: u8) -> (r: &mut Self)
        requires
            old(self).wf(),
        ensures
            r.extends(old(self), seq![byte], old(self).spans()),
            *final(self) == *final(r),
    {
        self.data.push(byte);
        assert(self.data@ =~= old(self).bytes() + seq![byte]);
        self.pos_add_offset()
    }

    /// Appends a line terminator.
    fn write_line(&mut self) -> (r: &mut Self)
        requires
            old(self).wf(),
        ensures
            r.extends(old(self), seq![13u8, 10u8], old(self).spans()),
            *final(self) == *final(r),
    {
        self.data.push(13u8);
        self.data.push(10u8);
        assert(self.data@ =~= old(self).bytes() + seq![13u8, 10u8]);
        self.pos_add_offset()
    }

    /// Appends the header of an array of `n` elements: `*<n>\r\n`. The
    /// header is framing and adds no argument.
    pub fn write_arrs(&mut self, n: usize) -> (r: &mut Self)
        requires
            old(self).wf(),
        ensures
            r.extends(old(self), line(42, digits(n as nat)), old(self).spans()),
            *final(self) == *final(r),
    {
        let ghost before = self.bytes();
        let r = self.put_byte(42u8).extend_len_bytes(n);
        assert(r.bytes() =~= before + line(42, digits(n as nat)));
        r
    }

    /// Appends the simple string `+<val>\r\n`; its text is one more
    /// argument.
    pub fn write_simple(&mut self, val: &str) -> (r: &mut Self)
        requires
            old(self).wf(),
        ensures
            r.extends(
                old(self),
                line(43, encode_utf8(val@)),
                old(self).spans().push(
                    Argument {
                        pos: (old(self).bytes().len() + 1) as usize,
                        len: encode_utf8(val@).len() as usize,
                    },
                ),
            ),
            *final(self) == *final(r),
    {
        let ghost before = self.bytes();
        let r = self.put_byte(43u8).extend_from_bytes(val.as_bytes());
        assert(r.bytes() =~= before + line(43, encode_utf8(val@)));
        r
    }

    /// Appends the blob `$<len>\r\n<val>\r\n`; its payload is one more
    /// argument.
    pub fn write_blob(&mut self, val: &str) -> (r: &mut Self)
        requires
            old(self).wf(),
        ensures
            r.extends(
                old(self),
                bulk(36, encode_utf8(val@)),
                old(self).spans().push(
                    Argument {
                        pos: (old(self).bytes().len() + 1 + digits(encode_utf8(val@).len()).len()
                            + 2) as usize,
                        len: encode_utf8(val@).len() as usize,
                    },
                ),
            ),
            *final(self) == *final(r),
    {
        let ghost before = self.bytes();
        let r = self.put_byte(36u8).extend_len_bytes(val.len()).extend_from_bytes(val.as_bytes());
        assert(r.bytes() =~= before + bulk(36, encode_utf8(val@)));
        r
    }

    /// The payload of the argument at `pos`.
    pub fn get_slice(&self, pos: usize) -> (r: Result<&[u8], ParseError>)
        requires
            self.wf(),
        ensures
            pos < self.spans().len() ==> (r matches Ok(s) && s@ == self.arg(pos as int)),
            pos >= self.spans().len() ==> (r matches Err(e) && e is InvalidArgument),
    {
        if pos >= self.argv.len() {
            return Err(ParseError::InvalidArgument);
        }
        let arg = &self.argv[pos];
        Ok(slice_subrange(self.data.as_slice(), arg.pos, arg.pos + arg.len))
    }

    /// The payload of the argument at `pos`, as text.
    pub fn get_str(&self, pos: usize) -> (r: Result<&str, ParseError>)
        requires
            self.wf(),
        ensures
            pos < self.spans().len() && valid_utf8(self.arg(pos as int)) ==> (r matches Ok(t)
                && encode_utf8(t@) == self.arg(pos as int)),
            pos >= self.spans().len() || !valid_utf8(self.arg(pos as int)) ==> (r matches Err(e)
                && e is InvalidArgument),
    {
        match self.get_slice(pos) {
            Ok(data) => match utf8_text(data) {
                Some(t) => Ok(t),
                None => Err(ParseError::InvalidArgument),
            },
            Err(e) => Err(e),
        }
    }

    /// A copy of the payload of the argument at `pos`.
    pub fn get_vec(&self, pos: usize) -> (r: Result<Vec<u8>, ParseError>)
        requires
            self.wf(),
        ensures
            pos < self.spans().len() ==> (r matches Ok(v) && v@ == self.arg(pos as int)),
            pos >= self.spans().len() ==> (r matches Err(e) && e is InvalidArgument),
    {
        match self.get_slice(pos) {
            Ok(data) => Ok(vstd::slice::slice_to_vec(data)),
            Err(e) => Err(e),
        }
    }

    /// The whole buffer, as it goes over the wire.
    pub fn get_data(&self) -> (r: &[u8])
        ensures
            r@ == self.bytes(),
    {
        self.data.as_slice()
    }

    /// The frame at the front of the buffer, as a value.
    pub fn get_value(&self) -> (r: Result<Value, ParseError>)
        ensures
            match decode(self.bytes()) {
                Ok((m, c)) => r matches Ok(v) && v@ == m,
                Err(e) => r matches Err(pe) && pe.reports(e),
            },
    {
        parse_redis_value(self.data.as_slice())
    }
}

/// The blobs with the payloads `args`, in order.
pub open spec fn blobs(args: Seq<Seq<u8>>) -> Seq<ValueModel> {
    Seq::new(args.len(), |i: int| ValueModel::Blob(args[i]))
}

/// The bytes of a command that was built from the header of an array of
/// `n` elements and then a blob for each payload of `args` in turn.
pub open spec fn built_bytes(n: nat, args: Seq<Seq<u8>>) -> Seq<u8>
    decreases args.len(),
{
    if args.len() == 0 {
        line(42, digits(n))
    } else {
        built_bytes(n, args.drop_last()) + bulk(36, args.last())
    }
}

/// Where the payload of the blob at `i` starts in such a command.
pub open spec fn built_start(n: nat, args: Seq<Seq<u8>>, i: int) -> int {
    (built_bytes(n, args.take(i)).len() + 1 + digits(args[i].len()).len() + 2) as int
}

impl Command {
    /// That the command is what the builder makes of the header of an
    /// array of `n` elements and a blob for each payload of `args`.
    pub open spec fn built(&self, n: nat, args: Seq<Seq<u8>>) -> bool {
        &&& self.wf()
        &&& self.bytes() == built_bytes(n, args)
        &&& self.spans().len() == args.len()
        &&& forall|i: int|
            0 <= i < args.len() ==> (#[trigger] self.spans()[i]).pos == built_start(n, args, i)
                && self.spans()[i].len == args[i].len()
    }

    /// A command that holds an array header and nothing else is built
    /// from no blob.
    pub proof fn lemma_built_header(&self, before: &Command, n: nat)
        requires
            before.bytes().len() == 0,
            before.spans().len() == 0,
            self.extends(before, line(42, digits(n)), before.spans()),
        ensures
            self.built(n, Seq::empty()),
    {
        assert(self.bytes() =~= line(42, digits(n)));
    }

    /// One more blob written is one more payload built.
    pub proof fn lemma_built_blob(&self, before: &Command, n: nat, args: Seq<Seq<u8>>, a: Seq<u8>)
        requires
            before.built(n, args),
            self.extends(
                before,
                bulk(36, a),
                before.spans().push(
                    Argument {
                        pos: (before.bytes().len() + 1 + digits(a.len()).len() + 2) as usize,
                        len: a.len() as usize,
                    },
                ),
            ),
        ensures
            self.built(n, args.push(a)),
    {
        let more = args.push(a);
        assert(more.drop_last() =~= args);
        assert(more.take(args.len() as int) =~= args);
        assert(self.bytes().len() == before.bytes().len() + bulk(36, a).len());
        assert forall|i: int| 0 <= i < more.len() implies (#[trigger] self.spans()[i]).pos
            == built_start(n, more, i) && self.spans()[i].len == more[i].len() by {
            if i < args.len() {
                assert(more.take(i) =~= args.take(i));
                assert(self.spans()[i] == before.spans()[i]);
            }
        }
    }
}

/// The command's bytes up to the blob at `i` are the bytes of the
/// command built from the payloads before it.
pub proof fn lemma_built_prefix(n: nat, args: Seq<Seq<u8>>, i: int)
    requires
        0 <= i <= args.len(),
    ensures
        built_bytes(n, args.take(i)).len() <= built_bytes(n, args).len(),
        built_bytes(n, args).take(built_bytes(n, args.take(i)).len() as int) == built_bytes(
            n,
            args.take(i),
        ),
    decreases args.len() - i,
{
    if i == args.len() {
        assert(args.take(i) =~= args);
        assert(built_bytes(n, args).take(built_bytes(n, args).len() as int) =~= built_bytes(
            n,
            args,
        ));
    } else {
        let front = args.drop_last();
        lemma_built_prefix(n, front, i);
        assert(front.take(i) =~= args.take(i));
        let k = built_bytes(n, args.take(i)).len() as int;
        assert(built_bytes(n, args).take(k) =~= built_bytes(n, front).take(k));
    }
}

/// The bytes of a built command are an array header and the wire forms
/// of the blobs.
pub proof fn lemma_built_wire(n: nat, args: Seq<Seq<u8>>, version: RespVersion)
    ensures
        built_bytes(n, args) == line(42, digits(n)) + wire_all(blobs(args), version),
    decreases args.len(),
{
    if args.len() == 0 {
        assert(blobs(args) =~= Seq::<ValueModel>::empty());
        assert(line(42, digits(n)) + wire_all(blobs(args), version) =~= line(42, digits(n)));
    } else {
        let front = args.drop_last();
        lemma_built_wire(n, front, version);
        lemma_wire_all_push(blobs(front), ValueModel::Blob(args.last()), version);
        assert(blobs(front).push(ValueModel::Blob(args.last())) =~= blobs(args));
        assert(built_bytes(n, args) =~= line(42, digits(n)) + wire_all(blobs(args), version));
    }
}

/// After the header of an array of `n` elements and a blob for each of
/// `n` payloads have been written to an empty command, each argument of
/// the command is the payload that was written for it, and the
/// command's bytes are read as the array of the blobs.
pub proof fn law_command_consistency(c: &Command, n: nat, args: Seq<Seq<u8>>)
    requires
        c.built(n, args),
    ensures
        forall|i: int| 0 <= i < args.len() ==> #[trigger] c.arg(i) == args[i],
        n == args.len() && n <= i64::MAX && (forall|i: int|
            0 <= i < args.len() ==> (#[trigger] args[i]).len() <= i64::MAX) ==> decode(c.bytes())
            == Ok::<(ValueModel, nat), DecodeError>(
            (ValueModel::Array(blobs(args)), c.bytes().len()),
        ),
{
    assert forall|i: int| 0 <= i < args.len() implies #[trigger] c.arg(i) == args[i] by {
        let upto = built_bytes(n, args.take(i + 1));
        let front = built_bytes(n, args.take(i));
        lemma_built_prefix(n, args, i + 1);
        assert(args.take(i + 1).drop_last() =~= args.take(i));
        assert(args.take(i + 1).last() == args[i]);
        assert(upto == front + bulk(36, args[i]));
        let start = built_start(n, args, i);
        assert(upto.subrange(start, start + args[i].len()) =~= args[i]);
        assert(c.bytes().subrange(start, start + args[i].len()) =~= upto.subrange(
            start,
            start + args[i].len(),
        ));
    }
    if n == args.len() && n <= i64::MAX && (forall|i: int|
        0 <= i < args.len() ==> (#[trigger] args[i]).len() <= i64::MAX) {
        let version = RespVersion::Resp2;
        let m = ValueModel::Array(blobs(args));
        lemma_built_wire(n, args, version);
        assert(c.bytes() == wire(m, version));
        assert forall|i: int| 0 <= i < blobs(args).len() implies crate::laws::decodable(
            #[trigger] blobs(args)[i],
            version,
            (MAX_DEPTH - 1) as nat,
        ) by {
            assert(args[i].len() <= i64::MAX);
        }
        lemma_decode_wire(m, version, Seq::empty(), MAX_DEPTH as nat);
        assert(wire(m, version) + Seq::<u8>::empty() =~= wire(m, version));
    }
}

/// The payloads that the texts `argv` stand for.
pub open spec fn payloads(argv: Seq<&str>) -> Seq<Seq<u8>> {
    Seq::new(argv.len(), |i: int| encode_utf8(argv[i]@))
}

/// The command frame for the operator `op` and its arguments: an array
/// of blobs, the operator first. The frame is built as a command and
/// read back as a value.
pub fn write_array(op: &str, argv: &[&str]) -> (r: Value)
    requires
        argv@.len() < i64::MAX,
        argv@.len() < usize::MAX,
        encode_utf8(op@).len() <= i64::MAX,
        forall|i: int|
            0 <= i < argv@.len() ==> encode_utf8((#[trigger] argv@[i])@).len() <= i64::MAX,
    ensures
        r@ == ValueModel::Array(blobs(seq![encode_utf8(op@)] + payloads(argv@))),
{
    let count: usize = argv.len() + 1;
    let ghost n = count as nat;
    let ghost all = seq![encode_utf8(op@)] + payloads(argv@);
    let mut cmd = Command::cmd();
    let ghost c0 = cmd;
    cmd.write_arrs(count);
    let ghost c1 = cmd;
    proof {
        c1.lemma_built_header(&c0, n);
    }
    cmd.write_blob(op);
    proof {
        cmd.lemma_built_blob(&c1, n, Seq::empty(), encode_utf8(op@));
        assert(Seq::<Seq<u8>>::empty().push(encode_utf8(op@)) =~= all.take(1));
    }
    let mut i: usize = 0;
    while i < argv.len()
        invariant
            i <= argv@.len(),
            n == argv@.len() + 1,
            all == seq![encode_utf8(op@)] + payloads(argv@),
            cmd.built(n, all.take(i + 1)),
        decreases argv@.len() - i,
    {
        let ghost before = cmd;
        cmd.write_blob(argv[i]);
        proof {
            let a = encode_utf8(argv@[i as int]@);
            cmd.lemma_built_blob(&before, n, all.take(i + 1), a);
            assert(all.take(i + 1).push(a) =~= all.take(i + 2));
        }
        i = i + 1;
    }
    proof {
        assert(all.take(n as int) =~= all);
        assert forall|k: int| 0 <= k < all.len() implies (#[trigger] all[k]).len() <= i64::MAX by {
            if k > 0 {
                assert(all[k] == encode_utf8(argv@[k - 1]@));
            }
        }
        law_command_consistency(&cmd, n, all);
    }
    match cmd.get_value() {
        Ok(v) => v,
        Err(_) => vstd::pervasive::unreached(),
    }
}

/// The simple string with the text `content`.
pub fn write_simple(content: &str) -> (r: Value)
    ensures
        r@ == ValueModel::String(encode_utf8(content@)),
{
    Value::String(vstd::slice::slice_to_vec(content.as_bytes()))
}

} // verus!
