//! The fast path for commands: reads an array of blobs straight into a
//! command, without making a value of each element.

use vstd::prelude::*;
use vstd::string::StringExecFns;
use crate::command::{built_bytes, built_start, Argument, Command};
use crate::decimal::{
    digits, digits_value, is_digit, lemma_digits_shape, lemma_digits_value,
};
use crate::error::{DecodeError, ParseError};
use crate::model::{bulk, crlf, line};
use crate::scalar::{digits_end, lemma_digits_end, scan_digits};

verus! {

/// The most elements that a command may have.
pub const MAX_ELEMENTS: usize = 1048576;

/// The most bytes that one argument may have.
pub const MAX_BULK: usize = 536870912;

/// The index of the first carriage return of `s` at or after `from`; the
/// length of `s` where there is none.
pub open spec fn find_cr(s: Seq<u8>, from: int) -> int
    decreases s.len() - from,
{
    if 0 <= from < s.len() && s[from] != 13 {
        find_cr(s, from + 1)
    } else {
        from
    }
}

/// A length that starts at `from` in `s`: digits, then a carriage
/// return and a line feed. The result holds the length, or nothing
/// where there is no digit or where a minus sign comes first, and the
/// index after the line feed. A length above `limit` is refused.
pub open spec fn length_line(s: Seq<u8>, from: int, limit: nat) -> Result<
    (Option<nat>, int),
    DecodeError,
> {
    if from < 0 || from >= s.len() {
        Err(DecodeError::Incomplete)
    } else {
        let minus = s[from] == 45;
        let j = if minus {
            find_cr(s, from)
        } else {
            digits_end(s, from)
        };
        if j >= s.len() {
            Err(DecodeError::Incomplete)
        } else if s[j] != 13 {
            Err(DecodeError::BadProtocol)
        } else if j + 1 >= s.len() {
            Err(DecodeError::Incomplete)
        } else if s[j + 1] != 10 {
            Err(DecodeError::BadProtocol)
        } else if minus || j == from {
            Ok((None, j + 2))
        } else if digits_value(s.subrange(from, j)) > limit {
            Err(DecodeError::BadProtocol)
        } else {
            Ok((Some(digits_value(s.subrange(from, j))), j + 2))
        }
    }
}

/// The index after the empty lines that start at `from` in `s`.
pub open spec fn blank_lines(s: Seq<u8>, from: int) -> Result<int, DecodeError>
    decreases s.len() - from,
{
    if 0 <= from < s.len() && s[from] == 13 {
        if from + 1 >= s.len() {
            Err(DecodeError::Incomplete)
        } else if s[from + 1] != 10 {
            Err(DecodeError::BadProtocol)
        } else {
            blank_lines(s, from + 2)
        }
    } else {
        Ok(from)
    }
}

/// The spans of `n` blobs that start at `pos` in `s`, and where the
/// last of them ends. After each payload two bytes are passed over for
/// its terminator, whatever they are.
pub open spec fn bulk_spans(s: Seq<u8>, pos: int, n: nat) -> Result<
    (Seq<(int, int)>, int),
    DecodeError,
>
    decreases n,
{
    if n == 0 {
        Ok((Seq::empty(), pos))
    } else if pos < 0 || pos >= s.len() {
        Err(DecodeError::Incomplete)
    } else if s[pos] != 36 {
        Err(DecodeError::BadProtocol)
    } else {
        match length_line(s, pos + 1, MAX_BULK as nat) {
            Ok((Some(len), start)) => {
                let next = start + len + 2;
                if next > s.len() {
                    Err(DecodeError::Incomplete)
                } else {
                    match bulk_spans(s, next, (n - 1) as nat) {
                        Ok((rest, end)) => Ok((seq![(start, len as int)] + rest, end)),
                        Err(e) => Err(e),
                    }
                }
            },
            Ok((None, _)) => Err(DecodeError::BadProtocol),
            Err(e) => Err(e),
        }
    }
}

/// The command at the front of `s`: empty lines are passed over, then
/// comes `*`, the number of elements, and a blob for each element. The
/// result holds the span of each payload and the number of bytes that
/// the command takes up, the empty lines counted.
pub open spec fn multibulk(s: Seq<u8>) -> Result<(Seq<(int, int)>, int), DecodeError> {
    match blank_lines(s, 0) {
        Ok(p) => if p >= s.len() {
            Err(DecodeError::Incomplete)
        } else if s[p] != 42 {
            Err(DecodeError::BadProtocol)
        } else {
            match length_line(s, p + 1, MAX_ELEMENTS as nat) {
                Ok((count, q)) => bulk_spans(
                    s,
                    q,
                    match count {
                        Some(n) => n,
                        None => 0,
                    },
                ),
                Err(e) => Err(e),
            }
        },
        Err(e) => Err(e),
    }
}

/// The spans `done`, then what a result holds.
pub open spec fn after_spans(
    done: Seq<(int, int)>,
    r: Result<(Seq<(int, int)>, int), DecodeError>,
) -> Result<(Seq<(int, int)>, int), DecodeError> {
    match r {
        Ok((rest, end)) => Ok((done + rest, end)),
        Err(e) => Err(e),
    }
}

/// The spans as pairs of a start and a length.
pub open spec fn span_pairs(argv: Seq<Argument>) -> Seq<(int, int)> {
    Seq::new(argv.len(), |i: int| (argv[i].pos as int, argv[i].len as int))
}

/// Reads the length that starts at `from`, as `length_line` says. The
/// text `name` says in a protocol error what the length is of.
fn parse_int(input: &[u8], from: usize, limit: usize, name: &str) -> (r: Result<
    (Option<usize>, usize),
    ParseError,
>)
    requires
        from <= input@.len(),
        9 <= limit,
    ensures
        match length_line(input@, from as int, limit as nat) {
            Ok((v, next)) => r matches Ok((w, after)) && after == next && from < after
                <= input@.len() && match v {
                Some(n) => w == Some(n as usize) && n <= limit,
                None => w.is_none(),
            },
            Err(e) => r matches Err(pe) && pe.reports(e),
        },
{
    let n: usize = input.len();
    if from == n {
        return Err(ParseError::Incomplete);
    }
    let minus: bool = input[from] == 45;
    let j: usize = if minus {
        let mut i: usize = from;
        while i < n && input[i] != 13
            invariant
                from <= i <= n == input@.len(),
                find_cr(input@, from as int) == find_cr(input@, i as int),
            decreases n - i,
        {
            i = i + 1;
        }
        i
    } else {
        scan_digits(input, from)
    };
    if j >= n {
        return Err(ParseError::Incomplete);
    }
    if input[j] != 13 {
        return Err(
            ParseError::BadProtocol(
                String::from_str("invalid ").concat(name).concat(" length"),
            ),
        );
    }
    if j + 1 >= n {
        return Err(ParseError::Incomplete);
    }
    if input[j + 1] != 10 {
        return Err(ParseError::BadProtocol(String::from_str("expected \\r\\n separator")));
    }
    if minus || j == from {
        return Ok((None, j + 2));
    }
    proof {
        lemma_digits_end(input@, from as int);
        let run = input@.subrange(from as int, j as int);
        assert forall|k: int| 0 <= k < run.len() implies is_digit(#[trigger] run[k]) by {
            assert(run[k] == input@[from + k]);
        }
    }
    match crate::decimal::parse_magnitude(input, from, j, limit as u64) {
        Some(v) => Ok((Some(v as usize), j + 2)),
        None => Err(
            ParseError::BadProtocol(
                String::from_str("invalid ").concat(name).concat(" length"),
            ),
        ),
    }
}

/// Reads the command at the front of `input`. The command holds all of
/// `input` and the span of each argument; the number says how many
/// bytes the command takes up.
pub fn parse_array(input: &[u8]) -> (r: Result<(Command, usize), ParseError>)
    ensures
        match multibulk(input@) {
            Ok((spans, end)) => r matches Ok((cmd, used)) && used == end && used <= input@.len()
                && cmd.wf() && cmd.bytes() == input@ && span_pairs(cmd.spans()) == spans,
            Err(e) => r matches Err(pe) && pe.reports(e),
        },
{
    let len: usize = input.len();
    let mut pos: usize = 0;
    while pos < len && input[pos] == 13
        invariant
            pos <= len == input@.len(),
            blank_lines(input@, 0) == blank_lines(input@, pos as int),
        decreases len - pos,
    {
        if pos + 1 < len {
            if input[pos + 1] != 10 {
                return Err(ParseError::BadProtocol(String::from_str("expected \\r\\n separator")));
            }
            pos = pos + 2;
        } else {
            return Err(ParseError::Incomplete);
        }
    }
    if pos >= len {
        return Err(ParseError::Incomplete);
    }
    if input[pos] != 42 {
        return Err(ParseError::BadProtocol(String::from_str("expected '*'")));
    }
    pos = pos + 1;
    let (argco, after) = match parse_int(input, pos, MAX_ELEMENTS, "multibulk") {
        Ok(v) => v,
        Err(e) => {
            return Err(e);
        },
    };
    let argc: usize = match argco {
        Some(i) => i,
        None => 0,
    };
    pos = after;
    let ghost first = pos as int;
    let mut argv: Vec<Argument> = Vec::new();
    let mut i: usize = 0;
    proof {
        assert(span_pairs(argv@) =~= Seq::<(int, int)>::empty());
        if let Ok((rest, end)) = bulk_spans(input@, first, argc as nat) {
            assert(span_pairs(argv@) + rest =~= rest);
        }
    }
    while i < argc
        invariant
            i <= argc,
            len == input@.len(),
            pos <= len,
            multibulk(input@) == bulk_spans(input@, first, argc as nat),
            bulk_spans(input@, first, argc as nat) == after_spans(
                span_pairs(argv@),
                bulk_spans(input@, pos as int, (argc - i) as nat),
            ),
            forall|k: int|
                0 <= k < argv@.len() ==> (#[trigger] argv@[k]).pos + argv@[k].len <= len,
        decreases argc - i,
    {
        if len == pos {
            return Err(ParseError::Incomplete);
        }
        if input[pos] != 36 {
            return Err(ParseError::BadProtocol(String::from_str("expected '$'")));
        }
        let (argleno, start) = match parse_int(input, pos + 1, MAX_BULK, "bulk") {
            Ok(v) => v,
            Err(e) => {
                return Err(e);
            },
        };
        let arglen: usize = match argleno {
            Some(v) => v,
            None => {
                return Err(ParseError::BadProtocol(String::from_str("invalid bulk length")));
            },
        };
        if len - start < arglen || len - start - arglen < 2 {
            return Err(ParseError::Incomplete);
        }
        let ghost before = span_pairs(argv@);
        argv.push(Argument { pos: start, len: arglen });
        pos = start + arglen + 2;
        proof {
            assert(span_pairs(argv@) =~= before + seq![(start as int, arglen as int)]);
            if let Ok((rest, end)) = bulk_spans(input@, pos as int, (argc - i - 1) as nat) {
                assert(before + (seq![(start as int, arglen as int)] + rest) =~= span_pairs(argv@)
                    + rest);
            }
        }
        i = i + 1;
    }
    assert(span_pairs(argv@) + Seq::<(int, int)>::empty() =~= span_pairs(argv@));
    Ok((Command::new(input, argv), pos))
}

/// A run of digits that ends before a byte that is no digit is the
/// longest run.
pub proof fn lemma_digits_end_exact(s: Seq<u8>, from: int, len: nat)
    requires
        0 <= from,
        from + len < s.len(),
        forall|k: int| from <= k < from + len ==> is_digit(#[trigger] s[k]),
        !is_digit(s[from + len]),
    ensures
        digits_end(s, from) == from + len,
    decreases len,
{
    if len > 0 {
        lemma_digits_end_exact(s, from + 1, (len - 1) as nat);
    }
}

/// A length written in digits and ended by a carriage return and a line
/// feed is read as that length.
pub proof fn lemma_length_line_reads(s: Seq<u8>, from: int, v: nat, limit: nat)
    requires
        0 <= from,
        from + digits(v).len() + 2 <= s.len(),
        s.subrange(from, from + digits(v).len() + 2) == digits(v) + crlf(),
        v <= limit,
    ensures
        length_line(s, from, limit) == Ok::<(Option<nat>, int), DecodeError>(
            (Some(v), from + digits(v).len() + 2),
        ),
{
    let t = digits(v);
    let part = s.subrange(from, from + t.len() + 2);
    lemma_digits_shape(v);
    lemma_digits_value(v);
    assert forall|k: int| from <= k < from + t.len() implies is_digit(#[trigger] s[k]) by {
        assert(s[k] == part[k - from]);
        assert(part[k - from] == t[k - from]);
    }
    assert(s[from + t.len()] == part[t.len() as int]);
    assert(s[from + t.len() + 1] == part[(t.len() + 1) as int]);
    assert(s[from] == part[0]);
    assert(is_digit(s[from]));
    lemma_digits_end_exact(s, from, t.len());
    assert(s.subrange(from, from + t.len()) =~= t);
}

/// The blobs with the payloads `items`, one after the other.
pub open spec fn bulks(items: Seq<Seq<u8>>) -> Seq<u8>
    decreases items.len(),
{
    if items.len() == 0 {
        Seq::empty()
    } else {
        bulk(36, items[0]) + bulks(items.skip(1))
    }
}

/// The spans of the payloads of such blobs that start at `pos`.
pub open spec fn spans_from(pos: int, items: Seq<Seq<u8>>) -> Seq<(int, int)>
    decreases items.len(),
{
    if items.len() == 0 {
        Seq::empty()
    } else {
        seq![(pos + 1 + digits(items[0].len()).len() + 2, items[0].len() as int)] + spans_from(
            pos + bulk(36, items[0]).len(),
            items.skip(1),
        )
    }
}

/// Blobs one after the other, up to the end of the input, are read as
/// their spans.
pub proof fn lemma_bulk_spans_reads(s: Seq<u8>, pos: int, items: Seq<Seq<u8>>)
    requires
        0 <= pos <= s.len(),
        s.subrange(pos, s.len() as int) == bulks(items),
        forall|i: int| 0 <= i < items.len() ==> (#[trigger] items[i]).len() <= MAX_BULK,
    ensures
        bulk_spans(s, pos, items.len()) == Ok::<(Seq<(int, int)>, int), DecodeError>(
            (spans_from(pos, items), s.len() as int),
        ),
    decreases items.len(),
{
    if items.len() == 0 {
        assert(s.subrange(pos, s.len() as int).len() == 0);
    } else {
        let a = items[0];
        let t = digits(a.len());
        let first = bulk(36, a);
        let rest = items.skip(1);
        let tail = s.subrange(pos, s.len() as int);
        assert(tail == first + bulks(rest));
        assert(first =~= seq![36u8] + t + crlf() + a + crlf());
        assert(s[pos] == tail[0]);
        assert(s.subrange(pos + 1, pos + 1 + t.len() + 2) =~= t + crlf()) by {
            assert forall|k: int| 0 <= k < t.len() + 2 implies s[pos + 1 + k] == (t
                + crlf())[k] by {
                assert(s[pos + 1 + k] == tail[1 + k]);
                assert(tail[1 + k] == first[1 + k]);
            }
        }
        lemma_length_line_reads(s, pos + 1, a.len(), MAX_BULK as nat);
        let next = pos + first.len();
        assert(s.subrange(next, s.len() as int) =~= bulks(rest)) by {
            assert(tail.skip(first.len() as int) =~= bulks(rest));
            assert(s.subrange(next, s.len() as int) =~= tail.skip(first.len() as int));
        }
        assert forall|i: int| 0 <= i < rest.len() implies (#[trigger] rest[i]).len()
            <= MAX_BULK by {
            assert(rest[i] == items[i + 1]);
        }
        lemma_bulk_spans_reads(s, next, rest);
    }
}

/// The bytes of a built command are its header and then its blobs.
pub proof fn lemma_built_bulks(n: nat, args: Seq<Seq<u8>>)
    ensures
        built_bytes(n, args) == line(42, digits(n)) + bulks(args),
    decreases args.len(),
{
    if args.len() == 0 {
        assert(line(42, digits(n)) + bulks(args) =~= line(42, digits(n)));
    } else {
        let front = args.drop_last();
        lemma_built_bulks(n, front);
        lemma_bulks_push(front, args.last());
        assert(front.push(args.last()) =~= args);
        assert(built_bytes(n, args) =~= line(42, digits(n)) + bulks(args));
    }
}

/// One more payload is one more blob at the end.
pub proof fn lemma_bulks_push(items: Seq<Seq<u8>>, a: Seq<u8>)
    ensures
        bulks(items.push(a)) == bulks(items) + bulk(36, a),
    decreases items.len(),
{
    let more = items.push(a);
    if items.len() == 0 {
        assert(more.skip(1) =~= Seq::<Seq<u8>>::empty());
        assert(bulks(more.skip(1)) =~= Seq::<u8>::empty());
        assert(bulks(more) =~= bulk(36, a));
        assert(bulks(items) + bulk(36, a) =~= bulk(36, a));
    } else {
        lemma_bulks_push(items.skip(1), a);
        assert(more.skip(1) =~= items.skip(1).push(a));
        assert(bulks(more) =~= bulks(items) + bulk(36, a));
    }
}

/// Where each span of a run of blobs starts: after the blobs before it
/// and the line with its length.
pub proof fn lemma_spans_from_index(pos: int, items: Seq<Seq<u8>>, i: int)
    requires
        0 <= i < items.len(),
    ensures
        spans_from(pos, items).len() == items.len(),
        spans_from(pos, items)[i] == (
            pos + bulks(items.take(i)).len() + 1 + digits(items[i].len()).len() + 2,
            items[i].len() as int,
        ),
    decreases items.len(),
{
    lemma_spans_from_len(pos, items);
    let rest = items.skip(1);
    if i == 0 {
        assert(items.take(0) =~= Seq::<Seq<u8>>::empty());
    } else {
        let next = pos + bulk(36, items[0]).len();
        lemma_spans_from_index(next, rest, i - 1);
        assert(spans_from(pos, items)[i] == spans_from(next, rest)[i - 1]);
        assert(items.take(i).skip(1) =~= rest.take(i - 1));
        assert(items.take(i)[0] == items[0]);
        assert(rest[i - 1] == items[i]);
    }
}

/// A run of blobs has a span for each of them.
pub proof fn lemma_spans_from_len(pos: int, items: Seq<Seq<u8>>)
    ensures
        spans_from(pos, items).len() == items.len(),
    decreases items.len(),
{
    if items.len() > 0 {
        lemma_spans_from_len(pos + bulk(36, items[0]).len(), items.skip(1));
    }
}

/// The spans that the builder records for the payloads `args`.
pub open spec fn built_spans(n: nat, args: Seq<Seq<u8>>) -> Seq<(int, int)> {
    Seq::new(args.len(), |i: int| (built_start(n, args, i), args[i].len() as int))
}

/// The fast path reads a command as the builder made it: for the header
/// of an array of `n` elements and a blob for each of `n` payloads,
/// within the limits on the number of elements and on their lengths, it
/// gives the span that the builder recorded for each payload, and takes
/// all the bytes.
pub proof fn law_fast_path_reads_built(n: nat, args: Seq<Seq<u8>>)
    requires
        n == args.len(),
        n <= MAX_ELEMENTS,
        forall|i: int| 0 <= i < args.len() ==> (#[trigger] args[i]).len() <= MAX_BULK,
    ensures
        multibulk(built_bytes(n, args)) == Ok::<(Seq<(int, int)>, int), DecodeError>(
            (built_spans(n, args), built_bytes(n, args).len() as int),
        ),
{
    let s = built_bytes(n, args);
    let head = line(42, digits(n));
    let t = digits(n);
    lemma_built_bulks(n, args);
    assert(head =~= seq![42u8] + t + crlf());
    assert(s[0] == 42u8);
    assert(s.subrange(1, (1 + t.len() + 2) as int) =~= t + crlf());
    lemma_length_line_reads(s, 1, n, MAX_ELEMENTS as nat);
    let q = head.len() as int;
    assert(s.subrange(q, s.len() as int) =~= bulks(args));
    lemma_bulk_spans_reads(s, q, args);
    lemma_spans_from_len(q, args);
    assert forall|i: int| 0 <= i < args.len() implies spans_from(q, args)[i] == built_spans(
        n,
        args,
    )[i] by {
        lemma_spans_from_index(q, args, i);
        lemma_built_bulks(n, args.take(i));
    }
    assert(spans_from(q, args) =~= built_spans(n, args));
}

} // verus!
