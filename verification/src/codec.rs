//! The wire format: one message is a run of newline-terminated lines.
//!
//! ```text
//! <command>\n
//! <sequence>\n
//! <value-count>\n
//! <value 0>\n
//! ...
//! <value n-1>\n
//! ```
//!
//! Sequence and count are decimal text. There is no escaping: a command or a
//! value that holds a line break cannot be carried.

use crate::decimal::{
    format_i64, format_u64, int_text, is_digit, lemma_int_text_chars, lemma_parse_int_text,
    parse_i64, parsed,
};
use crate::error::FramingError;
use crate::message::{texts, Message, MessageView};
use crate::text::{lemma_single_line_bytes, newline_free, single_line, text_from_utf8, NEWLINE};
use vstd::prelude::*;
use vstd::slice::*;
use vstd::utf8::*;

verus! {

/// The bytes of one line: the text in UTF-8, then the terminator.
pub open spec fn line_bytes(t: Seq<char>) -> Seq<u8> {
    encode_utf8(t).push(NEWLINE)
}

/// The bytes of several lines, one after the other.
pub open spec fn lines_bytes(ts: Seq<Seq<char>>) -> Seq<u8>
    decreases ts.len(),
{
    if ts.len() == 0 {
        Seq::empty()
    } else {
        lines_bytes(ts.drop_last()) + line_bytes(ts.last())
    }
}

/// The frame of a message.
pub open spec fn encoded(m: MessageView) -> Seq<u8> {
    line_bytes(m.cmd) + line_bytes(int_text(m.seq)) + line_bytes(int_text(m.values.len() as int))
        + lines_bytes(m.values)
}

/// True when `end` is the position of the first terminator at or after
/// `from`.
pub open spec fn line_ends_at(bytes: Seq<u8>, from: int, end: int) -> bool {
    &&& 0 <= from <= end < bytes.len()
    &&& bytes[end] == NEWLINE
    &&& newline_free(bytes.subrange(from, end))
}

/// True when a complete line starts at `from`.
pub open spec fn has_line(bytes: Seq<u8>, from: int) -> bool {
    exists|end: int| line_ends_at(bytes, from, end)
}

/// The position of the terminator of the line that starts at `from`.
pub open spec fn line_end(bytes: Seq<u8>, from: int) -> int {
    choose|end: int| line_ends_at(bytes, from, end)
}

/// The line that starts at `from`, and the position after its terminator.
pub open spec fn line_at(bytes: Seq<u8>, from: int) -> Result<(Seq<char>, int), FramingError> {
    if !has_line(bytes, from) {
        Err(FramingError::Truncated)
    } else {
        let end = line_end(bytes, from);
        let raw = bytes.subrange(from, end);
        if valid_utf8(raw) {
            Ok((decode_utf8(raw), end + 1))
        } else {
            Err(FramingError::InvalidText)
        }
    }
}

/// The `n` lines that start at `from`, and the position after the last. The
/// first line that cannot be read decides the error.
pub open spec fn lines_at(bytes: Seq<u8>, from: int, n: nat) -> Result<
    (Seq<Seq<char>>, int),
    FramingError,
>
    decreases n,
{
    if n == 0 {
        Ok((Seq::empty(), from))
    } else {
        match lines_at(bytes, from, (n - 1) as nat) {
            Err(e) => Err(e),
            Ok((front, next)) => match line_at(bytes, next) {
                Err(e) => Err(e),
                Ok((last, after)) => Ok((front.push(last), after)),
            },
        }
    }
}

/// The number of value lines that a count line announces: a negative count
/// announces none.
pub open spec fn announced(count: i64) -> nat {
    if count > 0 {
        count as nat
    } else {
        0
    }
}

/// The message at the start of `bytes`, and the length of its frame.
///
/// The three header lines are read first, so a frame cut short inside its
/// header is `Truncated` whatever the lines before the cut hold. Then the
/// sequence is read, then the count, then the values.
pub open spec fn decoded(bytes: Seq<u8>) -> Result<(MessageView, int), FramingError> {
    match lines_at(bytes, 0, 3) {
        Err(e) => Err(e),
        Ok((header, body)) => match parsed(header[1]) {
            None => Err(FramingError::InvalidSequence),
            Some(seq) => match parsed(header[2]) {
                None => Err(FramingError::InvalidCount),
                Some(count) => match lines_at(bytes, body, announced(count)) {
                    Err(e) => Err(e),
                    Ok((values, after)) => Ok(
                        (MessageView { cmd: header[0], seq: seq as int, values }, after),
                    ),
                },
            },
        },
    }
}

/// True when `m` can be carried: no line break in the command or in a value,
/// a sequence of 64 bits, and a count that fits the count line.
pub open spec fn encodable(m: MessageView) -> bool {
    &&& single_line(m.cmd)
    &&& forall|i: int| 0 <= i < m.values.len() ==> single_line(#[trigger] m.values[i])
    &&& i64::MIN <= m.seq <= i64::MAX
    &&& m.values.len() <= i64::MAX
}

/// A line has one end only.
proof fn lemma_line_end_unique(bytes: Seq<u8>, from: int, e1: int, e2: int)
    requires
        line_ends_at(bytes, from, e1),
        line_ends_at(bytes, from, e2),
    ensures
        e1 == e2,
{
    if e1 < e2 {
        assert(bytes.subrange(from, e2)[e1 - from] == bytes[e1]);
    }
    if e2 < e1 {
        assert(bytes.subrange(from, e1)[e2 - from] == bytes[e2]);
    }
}

/// Once a line cannot be read, reading more lines fails in the same way.
proof fn lemma_lines_error_stays(bytes: Seq<u8>, from: int, k: nat, n: nat)
    requires
        k <= n,
        lines_at(bytes, from, k) is Err,
    ensures
        lines_at(bytes, from, n) == lines_at(bytes, from, k),
    decreases n,
{
    if k < n {
        lemma_lines_error_stays(bytes, from, k, (n - 1) as nat);
    }
}

/// Reading `n` lines gives `n` texts.
pub proof fn lemma_lines_count(bytes: Seq<u8>, from: int, n: nat)
    ensures
        lines_at(bytes, from, n) matches Ok((lines, _)) ==> lines.len() == n,
    decreases n,
{
    if n > 0 {
        lemma_lines_count(bytes, from, (n - 1) as nat);
    }
}

/// What [`read_line`] returned, as mathematical values.
pub open spec fn line_view(r: Result<(String, usize), FramingError>) -> Result<
    (Seq<char>, int),
    FramingError,
> {
    match r {
        Ok((s, next)) => Ok((s@, next as int)),
        Err(e) => Err(e),
    }
}

/// What [`read_lines`] returned, as mathematical values.
pub open spec fn lines_view(r: Result<(Vec<String>, usize), FramingError>) -> Result<
    (Seq<Seq<char>>, int),
    FramingError,
> {
    match r {
        Ok((v, next)) => Ok((texts(v@), next as int)),
        Err(e) => Err(e),
    }
}

/// What [`decode`] returned, as mathematical values.
pub open spec fn frame_view(r: Result<(Message, usize), FramingError>) -> Result<
    (MessageView, int),
    FramingError,
> {
    match r {
        Ok((m, next)) => Ok((m@, next as int)),
        Err(e) => Err(e),
    }
}

/// Reads the line that starts at `from`: the text before the next
/// terminator, and the position after it. Fails with `Truncated` when the
/// bytes end before a terminator, and with `InvalidText` when the line is not
/// UTF-8.
pub fn read_line(buf: &[u8], from: usize) -> (r: Result<(String, usize), FramingError>)
    ensures
        line_view(r) == line_at(buf@, from as int),
{
    let n = buf.len();
    if from > n {
        return Err(FramingError::Truncated);
    }
    let mut end = from;
    while end < n && buf[end] != NEWLINE
        invariant
            from <= end <= n,
            n == buf@.len(),
            newline_free(buf@.subrange(from as int, end as int)),
        decreases n - end,
    {
        assert forall|i: int| 0 <= i < end + 1 - from implies #[trigger] buf@.subrange(
            from as int,
            end + 1,
        )[i] != NEWLINE by {
            if i < end - from {
                assert(buf@.subrange(from as int, end as int)[i] == buf@[from + i]);
            }
        }
        end += 1;
    }
    if end == n {
        assert forall|e: int| !line_ends_at(buf@, from as int, e) by {
            if line_ends_at(buf@, from as int, e) {
                assert(buf@.subrange(from as int, n as int)[e - from] == buf@[e]);
            }
        }
        return Err(FramingError::Truncated);
    }
    proof {
        assert(line_ends_at(buf@, from as int, end as int));
        lemma_line_end_unique(buf@, from as int, end as int, line_end(buf@, from as int));
    }
    let raw = slice_to_vec(slice_subrange(buf, from, end));
    match text_from_utf8(raw) {
        Some(s) => Ok((s, end + 1)),
        None => Err(FramingError::InvalidText),
    }
}

/// Reads `n` lines, the first at `from`; none when `n` is not positive.
/// Fails as the first line that cannot be read does.
pub fn read_lines(buf: &[u8], from: usize, n: i64) -> (r: Result<
    (Vec<String>, usize),
    FramingError,
>)
    ensures
        lines_view(r) == lines_at(buf@, from as int, announced(n)),
{
    let mut lines: Vec<String> = Vec::new();
    let mut pos = from;
    let mut k: i64 = 0;
    assert(texts(lines@) =~= Seq::<Seq<char>>::empty());
    while k < n
        invariant
            0 <= k,
            k <= announced(n),
            lines_at(buf@, from as int, k as nat) == Ok::<_, FramingError>(
                (texts(lines@), pos as int),
            ),
        decreases n - k,
    {
        match read_line(buf, pos) {
            Err(e) => {
                proof {
                    lemma_lines_error_stays(buf@, from as int, (k + 1) as nat, announced(n));
                }
                return Err(e);
            },
            Ok((line, next)) => {
                assert(texts(lines@.push(line)) =~= texts(lines@).push(line@));
                lines.push(line);
                pos = next;
                k += 1;
            },
        }
    }
    Ok((lines, pos))
}

/// Reads the message at the start of `buf`, and says how many bytes its
/// frame takes.
///
/// `Truncated` means that `buf` ends inside the frame: with more bytes from
/// the same stream the frame may still be read. The other errors are final.
pub fn decode(buf: &[u8]) -> (r: Result<(Message, usize), FramingError>)
    ensures
        frame_view(r) == decoded(buf@),
{
    let (mut header, body) = match read_lines(buf, 0, 3) {
        Ok(read) => read,
        Err(e) => {
            return Err(e);
        },
    };
    proof {
        lemma_lines_count(buf@, 0, 3);
    }
    let ghost head = texts(header@);
    assert(head[0] == header@[0]@ && head[1] == header@[1]@ && head[2] == header@[2]@);
    let count_text = header.pop().unwrap();
    let seq_text = header.pop().unwrap();
    let cmd = header.pop().unwrap();
    let seq = match parse_i64(seq_text.as_str()) {
        Some(seq) => seq,
        None => {
            return Err(FramingError::InvalidSequence);
        },
    };
    let count = match parse_i64(count_text.as_str()) {
        Some(count) => count,
        None => {
            return Err(FramingError::InvalidCount);
        },
    };
    match read_lines(buf, body, count) {
        Ok((values, after)) => Ok((Message::new(cmd, seq, values), after)),
        Err(e) => Err(e),
    }
}

/// Appends one line to `out`.
fn put_line(out: &mut Vec<u8>, text: &str)
    ensures
        final(out)@ == old(out)@ + line_bytes(text@),
{
    let ghost before = out@;
    let bytes = text.as_bytes();
    let mut i: usize = 0;
    while i < bytes.len()
        invariant
            i <= bytes@.len(),
            out@ == before + bytes@.subrange(0, i as int),
        decreases bytes@.len() - i,
    {
        out.push(bytes[i]);
        assert(out@ =~= before + bytes@.subrange(0, i + 1));
        i += 1;
    }
    out.push(NEWLINE);
    assert(out@ =~= before + line_bytes(text@));
}

/// Writes the frame of `msg`.
pub fn encode(msg: &Message) -> (out: Vec<u8>)
    ensures
        out@ == encoded(msg@),
{
    let mut out: Vec<u8> = Vec::new();
    put_line(&mut out, msg.cmd.as_str());
    put_line(&mut out, format_i64(msg.seq).as_str());
    put_line(&mut out, format_u64(msg.values.len() as u64).as_str());
    let ghost header = out@;
    let ghost values = texts(msg.values@);
    assert(values.subrange(0, 0) =~= Seq::<Seq<char>>::empty());
    let mut i: usize = 0;
    while i < msg.values.len()
        invariant
            i <= msg.values@.len(),
            values == texts(msg.values@),
            out@ == header + lines_bytes(values.subrange(0, i as int)),
        decreases msg.values@.len() - i,
    {
        put_line(&mut out, msg.values[i].as_str());
        proof {
            let next = values.subrange(0, i + 1);
            assert(next.drop_last() =~= values.subrange(0, i as int));
            assert(next.last() == msg.values@[i as int]@);
            assert(out@ =~= header + lines_bytes(next));
        }
        i += 1;
    }
    assert(values.subrange(0, i as int) =~= values);
    assert(out@ =~= encoded(msg@));
    out
}

/// A line written after `pre` is read back from there, whatever follows it.
proof fn lemma_line_read_back(pre: Seq<u8>, t: Seq<char>, post: Seq<u8>)
    requires
        single_line(t),
    ensures
        line_at(pre + line_bytes(t) + post, pre.len() as int) == Ok::<_, FramingError>(
            (t, (pre.len() + line_bytes(t).len()) as int),
        ),
{
    let bytes = pre + line_bytes(t) + post;
    let from = pre.len() as int;
    let end = from + encode_utf8(t).len();
    lemma_single_line_bytes(t);
    assert(bytes.subrange(from, end) =~= encode_utf8(t));
    assert(bytes[end] == NEWLINE);
    assert(line_ends_at(bytes, from, end));
    lemma_line_end_unique(bytes, from, end, line_end(bytes, from));
    encode_utf8_valid_utf8(t);
    encode_utf8_decode_utf8(t);
}

/// Lines written after `pre` are read back from there, whatever follows them.
proof fn lemma_lines_read_back(pre: Seq<u8>, ts: Seq<Seq<char>>, post: Seq<u8>)
    requires
        forall|i: int| 0 <= i < ts.len() ==> single_line(#[trigger] ts[i]),
    ensures
        lines_at(pre + lines_bytes(ts) + post, pre.len() as int, ts.len()) == Ok::<
            _,
            FramingError,
        >((ts, (pre.len() + lines_bytes(ts).len()) as int)),
    decreases ts.len(),
{
    let bytes = pre + lines_bytes(ts) + post;
    if ts.len() == 0 {
        assert(ts =~= Seq::<Seq<char>>::empty());
    } else {
        let front = ts.drop_last();
        let last = ts.last();
        lemma_lines_read_back(pre, front, line_bytes(last) + post);
        assert(bytes =~= pre + lines_bytes(front) + (line_bytes(last) + post));
        lemma_line_read_back(pre + lines_bytes(front), last, post);
        assert(bytes =~= (pre + lines_bytes(front)) + line_bytes(last) + post);
        assert(front.push(last) =~= ts);
    }
}

/// The text of a number holds no line break.
proof fn lemma_int_text_single_line(x: int)
    ensures
        single_line(int_text(x)),
{
    lemma_int_text_chars(x);
    assert forall|i: int| 0 <= i < int_text(x).len() implies #[trigger] int_text(x)[i]
        != '\n' by {
        assert(is_digit(int_text(x)[i]) || int_text(x)[i] == '-');
    }
}

/// Decoding undoes encoding: the frame of a message that can be carried,
/// followed by any bytes at all, decodes to that message and to the length of
/// the frame.
pub proof fn lemma_decode_encoded(m: MessageView, rest: Seq<u8>)
    requires
        encodable(m),
    ensures
        decoded(encoded(m) + rest) == Ok::<_, FramingError>((m, encoded(m).len() as int)),
{
    let count = m.values.len() as int;
    let header = seq![m.cmd, int_text(m.seq), int_text(count)];
    let bytes = encoded(m) + rest;
    lemma_int_text_single_line(m.seq);
    lemma_int_text_single_line(count);
    lemma_parse_int_text(m.seq);
    lemma_parse_int_text(count);
    assert(lines_bytes(header) =~= line_bytes(m.cmd) + line_bytes(int_text(m.seq)) + line_bytes(
        int_text(count),
    )) by {
        let two = header.drop_last();
        let one = two.drop_last();
        assert(one.drop_last() =~= Seq::<Seq<char>>::empty());
        assert(lines_bytes(one.drop_last()) =~= Seq::<u8>::empty());
        assert(lines_bytes(one) =~= line_bytes(m.cmd));
        assert(lines_bytes(two) =~= line_bytes(m.cmd) + line_bytes(int_text(m.seq)));
    }
    let empty = Seq::<u8>::empty();
    lemma_lines_read_back(empty, header, lines_bytes(m.values) + rest);
    assert(bytes =~= empty + lines_bytes(header) + (lines_bytes(m.values) + rest));
    lemma_lines_read_back(lines_bytes(header), m.values, rest);
    assert(bytes =~= lines_bytes(header) + lines_bytes(m.values) + rest);
    assert(encoded(m) =~= lines_bytes(header) + lines_bytes(m.values));
}

/// Bytes that follow a complete line change nothing about it.
proof fn lemma_line_stable(bytes: Seq<u8>, more: Seq<u8>, from: int)
    requires
        line_at(bytes, from) != Err::<(Seq<char>, int), FramingError>(FramingError::Truncated),
    ensures
        line_at(bytes + more, from) == line_at(bytes, from),
{
    let end = line_end(bytes, from);
    let longer = bytes + more;
    assert(line_ends_at(bytes, from, end));
    assert(longer.subrange(from, end) =~= bytes.subrange(from, end));
    assert(line_ends_at(longer, from, end));
    lemma_line_end_unique(longer, from, end, line_end(longer, from));
}

/// Bytes that follow lines that were read, or that could not be read for
/// another reason than their end being missing, change nothing about them.
proof fn lemma_lines_stable(bytes: Seq<u8>, more: Seq<u8>, from: int, n: nat)
    requires
        lines_at(bytes, from, n) != Err::<(Seq<Seq<char>>, int), FramingError>(
            FramingError::Truncated,
        ),
    ensures
        lines_at(bytes + more, from, n) == lines_at(bytes, from, n),
    decreases n,
{
    if n > 0 {
        lemma_lines_stable(bytes, more, from, (n - 1) as nat);
        if let Ok((_, next)) = lines_at(bytes, from, (n - 1) as nat) {
            lemma_line_stable(bytes, more, next);
        }
    }
}

/// What was decided of a frame stays decided as more bytes arrive: a
/// message that was decoded is decoded again, with the same length, and an
/// error other than `Truncated` comes again.
pub proof fn lemma_decoded_stable(bytes: Seq<u8>, more: Seq<u8>)
    requires
        decoded(bytes) != Err::<(MessageView, int), FramingError>(FramingError::Truncated),
    ensures
        decoded(bytes + more) == decoded(bytes),
{
    lemma_lines_stable(bytes, more, 0, 3);
    if let Ok((header, body)) = lines_at(bytes, 0, 3) {
        if parsed(header[1]) is Some {
            if let Some(count) = parsed(header[2]) {
                lemma_lines_stable(bytes, more, body, announced(count));
            }
        }
    }
}

/// Lines that were read end inside the bytes.
proof fn lemma_lines_within(bytes: Seq<u8>, from: int, n: nat)
    requires
        0 <= from <= bytes.len(),
    ensures
        lines_at(bytes, from, n) matches Ok((_, after)) ==> from <= after <= bytes.len(),
    decreases n,
{
    if n > 0 {
        lemma_lines_within(bytes, from, (n - 1) as nat);
    }
}

/// A frame that was read ends inside the bytes.
pub proof fn lemma_decoded_within(bytes: Seq<u8>)
    ensures
        decoded(bytes) matches Ok((_, used)) ==> 0 <= used <= bytes.len(),
{
    lemma_lines_within(bytes, 0, 3);
    if let Ok((header, body)) = lines_at(bytes, 0, 3) {
        if let Some(count) = parsed(header[2]) {
            lemma_lines_within(bytes, body, announced(count));
        }
    }
}

} // verus!
