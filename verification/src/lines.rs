//! The quotation source: plain text, one quotation per line.
//!
//! A line ends at a line feed; a carriage return just before that line feed
//! belongs to the line's end. What follows the last line feed is a line of its
//! own if it is not empty. A line that is not valid UTF-8 holds no quotation.

use vstd::prelude::*;
use vstd::utf8::{decode_utf8, valid_utf8};

verus! {

pub const LINE_FEED: u8 = 10;

pub const CARRIAGE_RETURN: u8 = 13;

/// The index of the first line feed in `bytes`, or their length if there is
/// none.
pub open spec fn line_end(bytes: Seq<u8>) -> int
    decreases bytes.len(),
{
    if bytes.len() == 0 || bytes[0] == LINE_FEED {
        0
    } else {
        1 + line_end(bytes.skip(1))
    }
}

/// `line` without the carriage return at its end, if it has one.
pub open spec fn without_return(line: Seq<u8>) -> Seq<u8> {
    if line.len() > 0 && line.last() == CARRIAGE_RETURN {
        line.drop_last()
    } else {
        line
    }
}

/// The lines of a source text, without their line ends.
pub open spec fn lines_of(bytes: Seq<u8>) -> Seq<Seq<u8>>
    decreases bytes.len(),
{
    let end = line_end(bytes);
    if bytes.len() == 0 {
        Seq::empty()
    } else if 0 <= end < bytes.len() {
        seq![without_return(bytes.take(end))] + lines_of(bytes.skip(end + 1))
    } else {
        seq![bytes]
    }
}

/// The texts of the lines that are valid UTF-8, in their order.
pub open spec fn readable(lines: Seq<Seq<u8>>) -> Seq<Seq<char>> {
    lines.filter(|line: Seq<u8>| valid_utf8(line)).map_values(|line: Seq<u8>| decode_utf8(line))
}

/// The quotations that a source text holds.
pub open spec fn quotations_of(source: Seq<u8>) -> Seq<Seq<char>> {
    readable(lines_of(source))
}

/// The byte sequences of a list of lines.
pub open spec fn byte_lines(lines: Seq<Vec<u8>>) -> Seq<Seq<u8>> {
    lines.map_values(|line: Vec<u8>| line@)
}

/// Trusted: calls `std::str::from_utf8`, which the standard library documents
/// to return the bytes as a string slice if they are valid UTF-8, and an
/// error otherwise. The error is dropped.
#[verifier::external_body]
pub(crate) fn decode(line: &[u8]) -> (text: Option<&str>)
    ensures
        text is Some <==> valid_utf8(line@),
        text is Some ==> text->0@ == decode_utf8(line@),
{
    match std::str::from_utf8(line) {
        Ok(s) => Some(s),
        Err(_) => None,
    }
}

/// An index below which no line feed stands, and which holds one unless it is
/// the length, is the line's end.
pub proof fn lemma_line_end(bytes: Seq<u8>, end: int)
    requires
        0 <= end <= bytes.len(),
        forall|k: int| 0 <= k < end ==> bytes[k] != LINE_FEED,
        end < bytes.len() ==> bytes[end] == LINE_FEED,
    ensures
        line_end(bytes) == end,
    decreases end,
{
    if end > 0 {
        let rest = bytes.skip(1);
        assert forall|k: int| 0 <= k < end - 1 implies rest[k] != LINE_FEED by {
            assert(rest[k] == bytes[k + 1]);
        }
        lemma_line_end(rest, end - 1);
    }
}

/// One more line adds its text to the readable ones if it is valid UTF-8,
/// and nothing otherwise.
pub proof fn lemma_readable_push(lines: Seq<Seq<u8>>, line: Seq<u8>)
    ensures
        readable(lines.push(line)) == if valid_utf8(line) {
            readable(lines).push(decode_utf8(line))
        } else {
            readable(lines)
        },
{
    reveal(Seq::filter);
    assert(lines.push(line).drop_last() =~= lines);
    if valid_utf8(line) {
        assert(readable(lines.push(line)) =~= readable(lines).push(decode_utf8(line)));
    }
}

/// The readable texts of two lists of lines, one after the other.
pub proof fn lemma_readable_add(first: Seq<Seq<u8>>, second: Seq<Seq<u8>>)
    ensures
        readable(first + second) == readable(first) + readable(second),
{
    broadcast use Seq::filter_distributes_over_add;

    assert(readable(first + second) =~= readable(first) + readable(second));
}

/// Splits a source text into its lines.
pub fn split_lines(source: &[u8]) -> (lines: Vec<Vec<u8>>)
    ensures
        byte_lines(lines@) == lines_of(source@),
{
    let mut lines: Vec<Vec<u8>> = Vec::new();
    let mut start: usize = 0;
    assert(source@.skip(0) =~= source@);
    assert(byte_lines(lines@) + lines_of(source@) =~= lines_of(source@));
    while start < source.len()
        invariant
            start <= source.len(),
            byte_lines(lines@) + lines_of(source@.skip(start as int)) == lines_of(source@),
        decreases source.len() - start,
    {
        let mut line: Vec<u8> = Vec::new();
        let mut end: usize = start;
        while end < source.len() && source[end] != LINE_FEED
            invariant
                start <= end <= source.len(),
                line@ == source@.subrange(start as int, end as int),
                forall|k: int| start <= k < end ==> source@[k] != LINE_FEED,
            decreases source.len() - end,
        {
            line.push(source[end]);
            end += 1;
            assert(line@ =~= source@.subrange(start as int, end as int));
        }
        let ghost rest = source@.skip(start as int);
        let ghost done = byte_lines(lines@);
        proof {
            lemma_line_end(rest, end - start);
            assert(rest.take(end - start) =~= line@);
        }
        if end < source.len() {
            if line.len() > 0 && line[line.len() - 1] == CARRIAGE_RETURN {
                line.pop();
            }
            lines.push(line);
            start = end + 1;
            proof {
                assert(rest.skip(line_end(rest) + 1) =~= source@.skip(start as int));
                assert(byte_lines(lines@) =~= done.push(without_return(rest.take(line_end(rest)))));
                assert(byte_lines(lines@) + lines_of(source@.skip(start as int)) =~= done
                    + lines_of(rest));
            }
        } else {
            lines.push(line);
            start = end;
            proof {
                assert(rest =~= line@);
                assert(source@.skip(start as int) =~= Seq::<u8>::empty());
                assert(byte_lines(lines@) =~= done.push(rest));
                assert(byte_lines(lines@) + lines_of(source@.skip(start as int)) =~= done
                    + lines_of(rest));
            }
        }
    }
    assert(lines_of(source@.skip(start as int)) =~= Seq::<Seq<u8>>::empty());
    assert(byte_lines(lines@) + Seq::<Seq<u8>>::empty() =~= byte_lines(lines@));
    lines
}

} // verus!
