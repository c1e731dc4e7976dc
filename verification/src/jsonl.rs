//! The line format of the durable stores: one JSON record per line, appended in one
//! write and read back on open.
//!
//! This module frames encoded records and takes a file's bytes apart into lines; the
//! JSON of each line is read by whoever owns the record type. A crash in the middle of
//! an append leaves a last line without its newline. That fragment is dropped on the
//! next open; any other damage is an error.

use crate::model::{lemma_filter_push, lemma_filter_take, views};
use crate::storage::{damage, StorageError, StorageErrorKind};
use crate::text::{
    blank, chars_of, decimal, decimal_text, is_blank, law_blank_trims_to_nothing,
    law_stripping_undoes_prefixing, string_of, stripped, trimmed,
};
use vstd::prelude::*;
use vstd::utf8::{
    decode_utf8, decode_utf8_encode_utf8, encode_scalar, encode_utf8, encode_utf8_decode_utf8,
    encode_utf8_valid_utf8, is_ascii_chars_encode_utf8, last_continuation_byte,
    leading_byte_width_2, leading_byte_width_3, leading_byte_width_4, pop_first_scalar,
    second_last_continuation_byte, third_last_continuation_byte, valid_utf8,
};

verus! {

/// The bytes of one appended record: its encoding and a newline.
pub open spec fn framed(encoded: Seq<u8>) -> Seq<u8> {
    encoded.push(10u8)
}

/// The bytes of a file that holds the given records.
pub open spec fn framed_all(records: Seq<Seq<u8>>) -> Seq<u8>
    decreases records.len(),
{
    if records.len() == 0 {
        Seq::empty()
    } else {
        framed_all(records.drop_last()) + framed(records.last())
    }
}

/// Distance to the first newline, or to the end.
pub open spec fn line_length(text: Seq<char>) -> int
    decreases text.len(),
{
    if text.len() == 0 || text[0] == '\n' {
        0
    } else {
        1 + line_length(text.drop_first())
    }
}

/// A line without the carriage return before its newline.
pub open spec fn without_return(line: Seq<char>) -> Seq<char> {
    if line.len() > 0 && line.last() == '\r' {
        line.drop_last()
    } else {
        line
    }
}

/// The lines of a text. A line ends with a newline, or with a carriage return and a
/// newline; the last line may go without.
pub open spec fn lines_of(text: Seq<char>) -> Seq<Seq<char>>
    decreases text.len(),
{
    proof {
        lemma_line_length(text);
    }
    let n = line_length(text);
    if text.len() == 0 {
        Seq::empty()
    } else if n == text.len() {
        seq![text]
    } else {
        seq![without_return(text.take(n))] + lines_of(text.skip(n + 1))
    }
}

/// A line is no longer than the text that it starts.
pub proof fn lemma_line_length(text: Seq<char>)
    ensures
        0 <= line_length(text) <= text.len(),
    decreases text.len(),
{
    if text.len() > 0 && text[0] != '\n' {
        lemma_line_length(text.drop_first());
    }
}

/// A line with its number in the file, counted from 1.
pub struct LineView {
    pub number: int,
    pub text: Seq<char>,
}

/// The lines of a text with their numbers.
pub open spec fn numbered_lines(text: Seq<char>) -> Seq<LineView> {
    Seq::new(lines_of(text).len(), |i: int| LineView { number: i + 1, text: lines_of(text)[i] })
}

/// The lines that hold something.
pub open spec fn record_lines(text: Seq<char>) -> Seq<LineView> {
    numbered_lines(text).filter(|line: LineView| !is_blank(line.text))
}

/// Whether a file ends in the middle of a line.
pub open spec fn ends_open(bytes: Seq<u8>) -> bool {
    bytes.len() > 0 && bytes.last() != 10
}

/// How many bytes there are up to and with the last newline.
pub open spec fn closed_length(bytes: Seq<u8>) -> int
    decreases bytes.len(),
{
    if bytes.len() == 0 || bytes.last() == 10 {
        bytes.len() as int
    } else {
        closed_length(bytes.drop_last())
    }
}

/// What a file's bytes hold: the lines with something on them, and the number of the
/// last line when it has no newline.
pub struct ContentView {
    pub lines: Seq<LineView>,
    pub open_line: Option<int>,
}

/// What a file's bytes hold, unless they are not text. When only the line without a
/// newline is not text, it is a fragment cut inside a character, and is left out.
pub open spec fn content_of(bytes: Seq<u8>) -> Option<ContentView> {
    if valid_utf8(bytes) {
        let text = decode_utf8(bytes);
        Some(
            ContentView {
                lines: record_lines(text),
                open_line: if ends_open(bytes) {
                    Some(lines_of(text).len() as int)
                } else {
                    None
                },
            },
        )
    } else if ends_open(bytes) && valid_utf8(bytes.take(closed_length(bytes))) {
        Some(
            ContentView {
                lines: record_lines(decode_utf8(bytes.take(closed_length(bytes)))),
                open_line: None,
            },
        )
    } else {
        None
    }
}

/// The position of the first error.
pub open spec fn first_failure<T, E>(parsed: Seq<Result<T, E>>) -> int
    decreases parsed.len(),
{
    if parsed.len() == 0 || parsed[0] is Err {
        0
    } else {
        1 + first_failure(parsed.drop_first())
    }
}

/// The values of the first `n` results.
pub open spec fn parsed_values<T, E>(parsed: Seq<Result<T, E>>, n: int) -> Seq<T> {
    Seq::new(n as nat, |i: int| parsed[i]->Ok_0)
}

/// What is recovered from lines that were parsed one by one: every record, or, when the
/// only line that failed is an open last one, the records before it. Any other failure
/// gives the position of the first line that failed.
pub open spec fn recovered<T, E>(parsed: Seq<Result<T, E>>, last_is_open: bool) -> Result<
    Seq<T>,
    int,
> {
    let n = first_failure(parsed);
    if n >= parsed.len() || (n == parsed.len() - 1 && last_is_open) {
        Ok(parsed_values(parsed, n))
    } else {
        Err(n)
    }
}

/// Whether the last line with something on it is the one without a newline.
pub open spec fn last_is_open(content: ContentView) -> bool {
    content.lines.len() > 0 && content.open_line == Some(content.lines.last().number)
}

/// The text of std's error for bytes that are not UTF-8.
pub uninterp spec fn utf8_error(bytes: Seq<u8>) -> Seq<char>;

/// Read bytes as UTF-8: `std::str::from_utf8`. It gives the text that the bytes encode,
/// or, exactly for bytes that are not UTF-8, an error whose text is named by
/// `utf8_error`.
#[verifier::external_body]
fn utf8_text(bytes: &[u8]) -> (r: Result<&str, String>)
    ensures
        match r {
            Ok(text) => encode_utf8(text@) == bytes@,
            Err(error) => !valid_utf8(bytes@) && error@ == utf8_error(bytes@),
        },
{
    std::str::from_utf8(bytes).map_err(|error| error.to_string())
}

/// One line of a store's file.
pub struct StoredLine {
    /// The line's number in the file, counted from 1.
    pub number: usize,
    pub text: String,
}

impl View for StoredLine {
    type V = LineView;

    open spec fn view(&self) -> LineView {
        LineView { number: self.number as int, text: self.text@ }
    }
}

/// The lines of a store's file that hold something.
pub struct StoredContent {
    pub lines: Vec<StoredLine>,
    /// The number of the last line, when it has no newline.
    pub open_line: Option<usize>,
}

impl View for StoredContent {
    type V = ContentView;

    open spec fn view(&self) -> ContentView {
        ContentView {
            lines: views(self.lines@),
            open_line: match self.open_line {
                Some(number) => Some(number as int),
                None => None,
            },
        }
    }
}

/// The text between two positions.
spec fn between(chars: Seq<char>, range: (usize, usize)) -> Seq<char> {
    chars.subrange(range.0 as int, range.1 as int)
}

/// The texts of a list of ranges.
spec fn texts_between(chars: Seq<char>, ranges: Seq<(usize, usize)>) -> Seq<Seq<char>> {
    Seq::new(ranges.len(), |i: int| between(chars, ranges[i]))
}

/// Positions of the lines of a text.
fn line_ranges(chars: &Vec<char>) -> (r: Vec<(usize, usize)>)
    ensures
        texts_between(chars@, r@) == lines_of(chars@),
        forall|i: int|
            0 <= i < r@.len() ==> (#[trigger] r@[i]).0 <= r@[i].1 && r@[i].1 <= chars@.len(),
        r@.len() <= chars@.len(),
{
    let mut ranges: Vec<(usize, usize)> = Vec::new();
    let mut start: usize = 0;
    assert(texts_between(chars@, ranges@) + lines_of(chars@.skip(0)) =~= lines_of(chars@)) by {
        assert(chars@.skip(0) =~= chars@);
    }
    while start < chars.len()
        invariant
            start <= chars@.len(),
            texts_between(chars@, ranges@) + lines_of(chars@.skip(start as int)) == lines_of(
                chars@,
            ),
            forall|i: int|
                0 <= i < ranges@.len() ==> (#[trigger] ranges@[i]).0 <= ranges@[i].1
                    && ranges@[i].1 <= chars@.len(),
            ranges@.len() <= start,
        decreases chars@.len() - start,
    {
        let ghost rest = chars@.skip(start as int);
        proof {
            lemma_line_length(rest);
        }
        let mut end: usize = start;
        while end < chars.len() && chars[end] != '\n'
            invariant
                start <= end <= chars@.len(),
                rest == chars@.skip(start as int),
                line_length(rest) == (end - start) + line_length(chars@.skip(end as int)),
            decreases chars@.len() - end,
        {
            assert(chars@.skip(end as int).drop_first() =~= chars@.skip(end + 1));
            end += 1;
        }
        assert(line_length(rest) == end - start);
        let before = Ghost(ranges@);
        if end == chars.len() {
            ranges.push((start, end));
            assert(between(chars@, (start, end)) =~= rest);
            assert(texts_between(chars@, ranges@) =~= texts_between(chars@, before@).push(rest));
            assert(lines_of(rest) =~= seq![rest]);
            assert(chars@.skip(end as int) =~= Seq::<char>::empty());
            assert(texts_between(chars@, ranges@) + lines_of(chars@.skip(end as int)) =~= lines_of(
                chars@,
            ));
            start = end;
        } else {
            let ghost line = rest.take(end - start);
            let stop: usize = if end > start && chars[end - 1] == '\r' {
                end - 1
            } else {
                end
            };
            assert(between(chars@, (start, stop)) =~= without_return(line)) by {
                if end > start {
                    assert(line.last() == chars@[end - 1]);
                }
            }
            ranges.push((start, stop));
            assert(texts_between(chars@, ranges@) =~= texts_between(chars@, before@).push(
                without_return(line),
            ));
            assert(rest.skip(end - start + 1) =~= chars@.skip(end + 1));
            assert(lines_of(rest) =~= seq![without_return(line)] + lines_of(
                chars@.skip(end + 1),
            ));
            assert(texts_between(chars@, ranges@) + lines_of(chars@.skip(end + 1)) =~= lines_of(
                chars@,
            ));
            start = end + 1;
        }
    }
    assert(chars@.skip(start as int) =~= Seq::<char>::empty());
    assert(texts_between(chars@, ranges@) =~= lines_of(chars@));
    ranges
}

/// The lines of a text that hold something, and how many lines there are.
fn stored_lines(text: &str) -> (r: (Vec<StoredLine>, usize))
    ensures
        views(r.0@) == record_lines(text@),
        r.1 == lines_of(text@).len(),
{
    let chars = chars_of(text);
    let ranges = line_ranges(&chars);
    let ghost all = numbered_lines(text@);
    let ghost filled = |line: LineView| !is_blank(line.text);
    let mut lines: Vec<StoredLine> = Vec::new();
    let mut i: usize = 0;
    assert(views(lines@) =~= all.take(0).filter(filled)) by {
        reveal(Seq::filter);
    }
    while i < ranges.len()
        invariant
            i <= ranges@.len(),
            ranges@.len() <= chars@.len(),
            chars@ == text@,
            texts_between(chars@, ranges@) == lines_of(text@),
            forall|j: int|
                0 <= j < ranges@.len() ==> (#[trigger] ranges@[j]).0 <= ranges@[j].1
                    && ranges@[j].1 <= chars@.len(),
            all == numbered_lines(text@),
            filled == (|line: LineView| !is_blank(line.text)),
            views(lines@) == all.take(i as int).filter(filled),
        decreases ranges@.len() - i,
    {
        proof {
            lemma_filter_take(all, i as int, filled);
        }
        let range = ranges[i];
        assert(between(chars@, range) == texts_between(chars@, ranges@)[i as int]);
        let slice = vstd::slice::slice_subrange(chars.as_slice(), range.0, range.1);
        assert(slice@ == all[i as int].text);
        let before = Ghost(lines@);
        if !blank(slice) {
            lines.push(StoredLine { number: i + 1, text: string_of(slice) });
            assert(views(lines@) =~= views(before@).push(all[i as int]));
        }
        i += 1;
    }
    assert(texts_between(chars@, ranges@).len() == ranges@.len());
    assert(all.take(i as int) =~= all);
    (lines, ranges.len())
}

/// The end of the last complete line.
fn closed_end(bytes: &[u8]) -> (r: usize)
    ensures
        r == closed_length(bytes@),
        r <= bytes@.len(),
{
    let mut end: usize = bytes.len();
    assert(bytes@.take(end as int) =~= bytes@);
    while end > 0 && bytes[end - 1] != 10
        invariant
            end <= bytes@.len(),
            closed_length(bytes@) == closed_length(bytes@.take(end as int)),
        decreases end,
    {
        assert(bytes@.take(end as int).drop_last() =~= bytes@.take(end - 1));
        end -= 1;
    }
    end
}

/// Take a store's file apart into the lines that hold something. Bytes that are not
/// UTF-8 are an error, except in a last line that has no newline: that one was cut off
/// by a crash inside a character and is left out.
pub fn read_content(bytes: &[u8]) -> (r: Result<StoredContent, String>)
    ensures
        match r {
            Ok(content) => content_of(bytes@) == Some(content@),
            Err(error) => content_of(bytes@) is None && error@ == utf8_error(bytes@),
        },
{
    let open = bytes.len() > 0 && bytes[bytes.len() - 1] != 10;
    match utf8_text(bytes) {
        Ok(text) => {
            proof {
                encode_utf8_valid_utf8(text@);
                encode_utf8_decode_utf8(text@);
            }
            let found = stored_lines(text);
            let open_line = if open {
                Some(found.1)
            } else {
                None
            };
            Ok(StoredContent { lines: found.0, open_line })
        },
        Err(error) => {
            let end = closed_end(bytes);
            if !open {
                return Err(error);
            }
            let head = vstd::slice::slice_subrange(bytes, 0, end);
            assert(head@ =~= bytes@.take(end as int));
            match utf8_text(head) {
                Ok(text) => {
                    proof {
                        encode_utf8_valid_utf8(text@);
                        encode_utf8_decode_utf8(text@);
                    }
                    let found = stored_lines(text);
                    Ok(StoredContent { lines: found.0, open_line: None })
                },
                Err(_) => Err(error),
            }
        },
    }
}

/// The message for a line that is not a record.
pub open spec fn bad_line_text(path: Seq<char>, number: int, error: Seq<char>) -> Seq<char> {
    "invalid JSON in "@ + path + " on line "@ + decimal_text(number as nat) + ": "@ + error
}

/// The message for a file that is not text.
pub open spec fn bad_encoding_text(path: Seq<char>, error: Seq<char>) -> Seq<char> {
    "invalid UTF-8 in "@ + path + ": "@ + error
}

/// The error for a file that is not text.
pub fn encoding_error(path: &str, error: &str) -> (r: StorageError)
    ensures
        r@ == damage(bad_encoding_text(path@, error@)),
{
    let mut message = "invalid UTF-8 in ".to_owned();
    message.append(path);
    message.append(": ");
    message.append(error);
    StorageError { kind: StorageErrorKind::InvalidData, message }
}

/// The error for a line that is not a record.
pub fn line_error(path: &str, number: usize, error: &str) -> (r: StorageError)
    ensures
        r@ == damage(bad_line_text(path@, number as int, error@)),
{
    let mut message = "invalid JSON in ".to_owned();
    message.append(path);
    message.append(" on line ");
    message.append(decimal(number as u128).as_str());
    message.append(": ");
    message.append(error);
    StorageError { kind: StorageErrorKind::InvalidData, message }
}

/// The records of a store's file, given what parsing each of its lines gave. A last line
/// that has no newline and does not parse is what a crash in the middle of an append
/// leaves; it is dropped. Any other line that does not parse is an error that names it.
pub fn recover<T>(path: &str, content: &StoredContent, parsed: Vec<Result<T, String>>) -> (r:
    Result<Vec<T>, StorageError>)
    requires
        parsed@.len() == content.lines@.len(),
    ensures
        match recovered(parsed@, last_is_open(content@)) {
            Ok(records) => r is Ok && r->Ok_0@ == records,
            Err(at) => r is Err && r->Err_0@ == damage(
                bad_line_text(path@, content@.lines[at].number, parsed@[at]->Err_0@),
            ),
        },
{
    let count: usize = parsed.len();
    let last_open: bool = match content.open_line {
        Some(number) => count > 0 && content.lines[count - 1].number == number,
        None => false,
    };
    assert(last_open == last_is_open(content@)) by {
        if count > 0 {
            assert(content@.lines.last() == content.lines@[count - 1]@);
        }
    }
    let ghost all = parsed@;
    let mut records: Vec<T> = Vec::new();
    let mut rest = reversed(parsed);
    let mut at: usize = 0;
    assert(all.skip(0) =~= all);
    assert(parsed_values(all, 0) =~= records@);
    while at < count
        invariant
            at <= count,
            all == parsed@,
            count == all.len(),
            count == content.lines@.len(),
            last_open == last_is_open(content@),
            rest@ == all.skip(at as int).reverse(),
            records@ == parsed_values(all, at as int),
            first_failure(all) == at + first_failure(all.skip(at as int)),
        decreases count - at,
    {
        let ghost here = all.skip(at as int);
        assert(here[0] == all[at as int]);
        assert(here.drop_first() =~= all.skip(at + 1));
        assert(rest@.last() == here[0]);
        assert(rest@.drop_last() =~= all.skip(at + 1).reverse());
        match rest.pop().unwrap() {
            Ok(record) => {
                records.push(record);
                assert(records@ =~= parsed_values(all, at + 1));
            },
            Err(error) => {
                if at == count - 1 && last_open {
                    return Ok(records);
                }
                assert(content@.lines[at as int].number == content.lines@[at as int].number);
                return Err(line_error(path, content.lines[at].number, error.as_str()));
            },
        }
        at += 1;
    }
    assert(all.skip(at as int) =~= Seq::<Result<T, String>>::empty());
    Ok(records)
}

/// The items in the opposite order.
fn reversed<T>(items: Vec<T>) -> (r: Vec<T>)
    ensures
        r@ == items@.reverse(),
{
    let mut rest = items;
    let mut out: Vec<T> = Vec::with_capacity(rest.len());
    let ghost all = items@;
    while rest.len() > 0
        invariant
            rest@.len() <= all.len(),
            rest@ == all.take(rest@.len() as int),
            out@ == all.skip(rest@.len() as int).reverse(),
        decreases rest@.len(),
    {
        let ghost n = rest@.len();
        let item = rest.pop().unwrap();
        out.push(item);
        assert(rest@ =~= all.take(n - 1));
        assert(all.skip(n - 1) =~= seq![item] + all.skip(n as int));
        assert(out@ =~= all.skip(n - 1).reverse());
    }
    assert(all.skip(0) =~= all);
    out
}

/// The bytes to append for one encoded record: body and newline as one buffer, so that
/// they go out in one write.
pub fn frame(encoded: Vec<u8>) -> (r: Vec<u8>)
    ensures
        r@ == framed(encoded@),
{
    let mut out = encoded;
    out.push(10);
    out
}

/// The bytes of a whole file that holds the given encoded records.
pub fn frame_all(records: &Vec<Vec<u8>>) -> (r: Vec<u8>)
    ensures
        r@ == framed_all(views(records@)),
{
    let ghost all = views(records@);
    let mut out: Vec<u8> = Vec::new();
    let mut i: usize = 0;
    assert(framed_all(all.take(0)) =~= Seq::<u8>::empty());
    while i < records.len()
        invariant
            i <= records@.len(),
            all == views(records@),
            out@ == framed_all(all.take(i as int)),
        decreases records@.len() - i,
    {
        let ghost before = out@;
        out.extend_from_slice(records[i].as_slice());
        out.push(10);
        assert(out@ =~= before + framed(all[i as int]));
        assert(all.take(i + 1).drop_last() =~= all.take(i as int));
        i += 1;
    }
    assert(all.take(i as int) =~= all);
    out
}

/// What to do to a file before anything is appended to it: cut it to a length, and add an
/// ending.
pub struct Mend {
    pub length: usize,
    pub ending: Vec<u8>,
}

/// The bytes that end an open line. A carriage return at its end is part of the line, so
/// another one goes before the newline.
pub open spec fn line_ending(line: Seq<u8>) -> Seq<u8> {
    if line.len() > 0 && line.last() == 13 {
        seq![13u8, 10u8]
    } else {
        seq![10u8]
    }
}

/// The bytes of a file that is fit to be appended to: an open last line is ended when it
/// holds a record, and cut off when it does not.
pub open spec fn mended(bytes: Seq<u8>, tail_kept: bool) -> Seq<u8> {
    if !ends_open(bytes) {
        bytes
    } else if tail_kept {
        bytes + line_ending(bytes)
    } else {
        bytes.take(closed_length(bytes))
    }
}

/// Whether the open last line is among the records that were recovered.
pub open spec fn tail_kept(content: ContentView, recovered: int) -> bool {
    last_is_open(content) && recovered == content.lines.len()
}

/// How to mend a file, given its bytes, what they hold, and how many records were recovered
/// from them. Without this, the next record would be appended to the fragment that a crash
/// left, and be lost with it.
pub fn mend(bytes: &[u8], content: &StoredContent, recovered: usize) -> (r: Mend)
    ensures
        closed_length(bytes@) <= r.length <= bytes@.len(),
        r.length == if ends_open(bytes@) && !tail_kept(content@, recovered as int) {
            closed_length(bytes@)
        } else {
            bytes@.len() as int
        },
        r.ending@ == if ends_open(bytes@) && tail_kept(content@, recovered as int) {
            line_ending(bytes@)
        } else {
            Seq::empty()
        },
        bytes@.take(r.length as int) + r.ending@ == mended(
            bytes@,
            tail_kept(content@, recovered as int),
        ),
{
    proof {
        lemma_closed_prefix(bytes@);
    }
    let whole: usize = bytes.len();
    let none: Vec<u8> = Vec::new();
    assert(bytes@.take(whole as int) =~= bytes@);
    assert(bytes@ + none@ =~= bytes@);
    if whole == 0 || bytes[whole - 1] == 10 {
        return Mend { length: whole, ending: none };
    }
    let last_open = if content.lines.len() == 0 {
        false
    } else {
        let last: usize = content.lines[content.lines.len() - 1].number;
        assert(content@.lines.last() == content.lines@.last()@);
        content.open_line == Some(last)
    };
    if last_open && recovered == content.lines.len() {
        let mut ending: Vec<u8> = Vec::new();
        if bytes[whole - 1] == 13 {
            ending.push(13);
        }
        ending.push(10);
        assert(ending@ =~= line_ending(bytes@));
        Mend { length: whole, ending }
    } else {
        let length: usize = closed_end(bytes);
        assert(bytes@.take(length as int) + none@ =~= bytes@.take(length as int));
        Mend { length, ending: none }
    }
}

// ---------------------------------------------------------------------------------------
// Laws

/// The encodings of texts.
pub open spec fn encoded_all(lines: Seq<Seq<char>>) -> Seq<Seq<u8>> {
    Seq::new(lines.len(), |i: int| encode_utf8(lines[i]))
}

/// Whether a text can stand on a line of its own and be read back as it is: it is not
/// blank, has no newline in it, and does not end in a carriage return.
pub open spec fn is_record_text(line: Seq<char>) -> bool {
    &&& !line.contains('\n')
    &&& !is_blank(line)
    &&& line.last() != '\r'
}

/// What opening a file gives, when each line is read by `parse`: the records, or the
/// position of the line that is damaged, or `None` when the file is not text.
pub open spec fn reopened<T, E>(
    bytes: Seq<u8>,
    parse: spec_fn(Seq<char>) -> Result<T, E>,
) -> Option<Result<Seq<T>, int>> {
    match content_of(bytes) {
        Some(content) => Some(
            recovered(
                Seq::new(content.lines.len(), |i: int| parse(content.lines[i].text)),
                last_is_open(content),
            ),
        ),
        None => None,
    }
}

/// A file after it was opened with these records and mended.
pub open spec fn mended_for(bytes: Seq<u8>, records: int) -> Seq<u8> {
    mended(bytes, tail_kept(content_of(bytes)->0, records))
}

/// Whether a file holds these records and is fit to be appended to: it is text, does not
/// end in the middle of a line, and opens with the records.
pub open spec fn stores<T, E>(
    bytes: Seq<u8>,
    records: Seq<T>,
    parse: spec_fn(Seq<char>) -> Result<T, E>,
) -> bool {
    &&& valid_utf8(bytes)
    &&& !ends_open(bytes)
    &&& reopened(bytes, parse) == Some(Ok::<Seq<T>, int>(records))
}

/// A record that the tail of a file holds in full, with only its newline missing.
pub open spec fn complete_tail<T, E>(
    tail: Seq<u8>,
    parse: spec_fn(Seq<char>) -> Result<T, E>,
) -> Option<T> {
    if valid_utf8(tail) && !is_blank(decode_utf8(tail)) {
        match parse(decode_utf8(tail)) {
            Ok(record) => Some(record),
            Err(_) => None,
        }
    } else {
        None
    }
}

/// Reading back a write: a file with a record appended to it opens with the records from
/// before and that one at the end.
pub proof fn law_appended_record_is_read_back<T, E>(
    bytes: Seq<u8>,
    records: Seq<T>,
    line: Seq<char>,
    parse: spec_fn(Seq<char>) -> Result<T, E>,
)
    requires
        stores(bytes, records, parse),
        is_record_text(line),
        parse(line) is Ok,
    ensures
        stores(bytes + framed(encode_utf8(line)), records.push(parse(line)->Ok_0), parse),
{
    let text = decode_utf8(bytes);
    let none = Seq::<char>::empty();
    lemma_closed_text(bytes);
    lemma_closed_content(text);
    lemma_ended_line(line, none);
    assert((line + seq!['\n']) + none =~= line + seq!['\n']);
    assert(lines_of(none) =~= Seq::<Seq<char>>::empty());
    assert(seq![line] + lines_of(none) =~= seq![line]);
    let added = line + seq!['\n'];
    lemma_one_more_line(text, added, line);
    lemma_encode_concat(line, seq!['\n']);
    lemma_encode_newline();
    lemma_encode_concat(text, added);
    assert(encode_utf8(line) + seq![10u8] =~= framed(encode_utf8(line)));
    assert((text + added).last() == '\n');
    lemma_closed_content(text + added);
    let before = parsed_lines(text, parse);
    let after = parsed_lines(text + added, parse);
    assert(after =~= before.push(parse(line)));
    lemma_recovered(before, false);
    lemma_all_ok(after);
    assert(parsed_values(after, after.len() as int) =~= records.push(parse(line)->Ok_0));
}

/// A file of complete records opens with those records, in their order.
pub proof fn law_written_records_are_read_back<T, E>(
    lines: Seq<Seq<char>>,
    parse: spec_fn(Seq<char>) -> Result<T, E>,
)
    requires
        forall|i: int| 0 <= i < lines.len() ==> is_record_text(#[trigger] lines[i]),
        forall|i: int| 0 <= i < lines.len() ==> parse(#[trigger] lines[i]) is Ok,
    ensures
        stores(
            framed_all(encoded_all(lines)),
            Seq::new(lines.len(), |i: int| parse(lines[i])->Ok_0),
            parse,
        ),
    decreases lines.len(),
{
    let records = Seq::new(lines.len(), |i: int| parse(lines[i])->Ok_0);
    if lines.len() == 0 {
        let none = Seq::<char>::empty();
        assert(framed_all(encoded_all(lines)) =~= encode_utf8(none));
        lemma_closed_content(none);
        assert(lines_of(none) =~= Seq::<Seq<char>>::empty());
        assert(record_lines(none) =~= Seq::<LineView>::empty()) by {
            reveal(Seq::filter);
        }
        let parsed = parsed_lines(none, parse);
        lemma_all_ok(parsed);
        assert(parsed_values(parsed, 0) =~= records);
    } else {
        let shorter = lines.drop_last();
        assert forall|i: int| 0 <= i < shorter.len() implies is_record_text(#[trigger] shorter[i])
            && parse(shorter[i]) is Ok by {
            assert(shorter[i] == lines[i]);
        }
        law_written_records_are_read_back(shorter, parse);
        let last = lines[lines.len() - 1];
        let before = Seq::new(shorter.len(), |i: int| parse(shorter[i])->Ok_0);
        law_appended_record_is_read_back(framed_all(encoded_all(shorter)), before, last, parse);
        assert(encoded_all(lines).drop_last() =~= encoded_all(shorter));
        assert(before.push(parse(last)->Ok_0) =~= records);
    }
}

/// Every acknowledged record survives a crash in the middle of a later append. Whatever
/// part of the next record reached the file, the records written before it are read back,
/// each once and in append order. The next record itself is there only when all of it but
/// the newline was written; otherwise the fragment is dropped.
pub proof fn law_acknowledged_records_survive_a_torn_append<T, E>(
    bytes: Seq<u8>,
    records: Seq<T>,
    tail: Seq<u8>,
    parse: spec_fn(Seq<char>) -> Result<T, E>,
)
    requires
        stores(bytes, records, parse),
        !tail.contains(10),
    ensures
        reopened(bytes + tail, parse) == Some(
            match complete_tail(tail, parse) {
                Some(record) => Ok::<Seq<T>, int>(records.push(record)),
                None => Ok::<Seq<T>, int>(records),
            },
        ),
{
    let text = decode_utf8(bytes);
    lemma_closed_text(bytes);
    lemma_closed_content(text);
    let before = parsed_lines(text, parse);
    lemma_recovered(before, false);
    if valid_utf8(tail) {
        let rest = decode_utf8(tail);
        decode_utf8_encode_utf8(tail);
        lemma_newline_free(tail);
        if rest.len() == 0 {
            assert(encode_utf8(rest) =~= Seq::<u8>::empty());
            assert(bytes + tail =~= bytes);
            assert(is_blank(rest));
        } else {
            lemma_encode_concat(text, rest);
            lemma_open_content(text, rest);
            let after = parsed_lines(text + rest, parse);
            if is_blank(rest) {
                assert(after =~= before);
            } else {
                assert(after =~= before.push(parse(rest)));
                lemma_recovered_push(before, parse(rest));
            }
        }
    } else {
        assert(!valid_utf8(bytes + tail)) by {
            if valid_utf8(bytes + tail) {
                lemma_valid_suffix(bytes, tail);
            }
        }
        assert(tail.len() > 0) by {
            if tail.len() == 0 {
                assert(bytes + tail =~= bytes);
            }
        }
        assert((bytes + tail).last() == tail.last());
        assert(tail.contains(tail.last()));
        lemma_closed_length_of(bytes, tail);
        assert((bytes + tail).take(bytes.len() as int) =~= bytes);
    }
}

/// Opening a file loses nothing for good: whatever a crash left of it, once it is mended it
/// holds exactly the records that were recovered, and is fit to be appended to.
pub proof fn law_mended_file_holds_what_was_recovered<T, E>(
    bytes: Seq<u8>,
    records: Seq<T>,
    parse: spec_fn(Seq<char>) -> Result<T, E>,
)
    requires
        reopened(bytes, parse) == Some(Ok::<Seq<T>, int>(records)),
    ensures
        stores(mended_for(bytes, records.len() as int), records, parse),
{
    lemma_closed_prefix(bytes);
    if ends_open(bytes) && valid_utf8(bytes) {
        let whole = decode_utf8(bytes);
        decode_utf8_encode_utf8(bytes);
        let n = closed_chars(whole);
        lemma_closed_chars(whole);
        let text = whole.take(n);
        let rest = whole.skip(n);
        assert(text + rest =~= whole);
        assert(rest.len() > 0) by {
            if rest.len() == 0 {
                assert(text =~= whole);
                lemma_closed_content(text);
            }
        }
        lemma_open_content(text, rest);
        lemma_closed_content(text);
        let before = parsed_lines(text, parse);
        let after = parsed_lines(whole, parse);
        if is_blank(rest) {
            assert(after =~= before);
        } else {
            assert(after =~= before.push(parse(rest)));
            lemma_recovered(after, true);
            if parse(rest) is Ok {
                let none = Seq::<char>::empty();
                let end = if rest.last() == '\r' {
                    seq!['\r', '\n']
                } else {
                    seq!['\n']
                };
                lemma_last_byte_of(whole);
                assert(whole.last() == rest.last());
                lemma_ended_line(rest, none);
                assert((rest + end) + none =~= rest + end);
                assert(lines_of(none) =~= Seq::<Seq<char>>::empty());
                assert(seq![rest] + lines_of(none) =~= seq![rest]);
                lemma_one_more_line(text, rest + end, rest);
                lemma_encode_ending();
                lemma_encode_concat(whole, end);
                let closed = text + (rest + end);
                assert(closed =~= whole + end);
                assert(closed.last() == '\n');
                lemma_closed_content(closed);
                assert(parsed_lines(closed, parse) =~= after);
                lemma_all_ok(after);
            } else {
                assert(after[after.len() - 1] is Err);
                assert(records.len() == before.len());
                assert forall|i: int| 0 <= i < before.len() implies (
                #[trigger] before[i]) is Ok by {
                    assert(before[i] == after[i]);
                }
                lemma_all_ok(before);
                assert(parsed_values(before, before.len() as int) =~= parsed_values(
                    after,
                    before.len() as int,
                ));
            }
        }
    }
}

/// A record appended after a crash survives, too. A file that a crash cut off is mended when
/// it is opened, so what is acknowledged afterwards is read back behind the records that
/// were recovered.
pub proof fn law_append_after_recovery_is_read_back<T, E>(
    bytes: Seq<u8>,
    records: Seq<T>,
    next: Seq<char>,
    parse: spec_fn(Seq<char>) -> Result<T, E>,
)
    requires
        reopened(bytes, parse) == Some(Ok::<Seq<T>, int>(records)),
        is_record_text(next),
        parse(next) is Ok,
    ensures
        reopened(
            mended_for(bytes, records.len() as int) + framed(encode_utf8(next)),
            parse,
        ) == Some(Ok::<Seq<T>, int>(records.push(parse(next)->Ok_0))),
{
    law_mended_file_holds_what_was_recovered(bytes, records, parse);
    law_appended_record_is_read_back(
        mended_for(bytes, records.len() as int),
        records,
        next,
        parse,
    );
}

/// Damage is never passed over: when a line does not parse and it is not the last, or it
/// is the last and has its newline, the result is an error that names the first such line.
pub proof fn law_damaged_line_is_an_error<T, E>(
    parsed: Seq<Result<T, E>>,
    last_is_open: bool,
    at: int,
)
    requires
        0 <= at < parsed.len(),
        parsed[at] is Err,
        at < parsed.len() - 1 || !last_is_open,
    ensures
        recovered(parsed, last_is_open) is Err,
        ({
            let first = recovered(parsed, last_is_open)->Err_0;
            &&& 0 <= first <= at
            &&& parsed[first] is Err
            &&& forall|i: int| 0 <= i < first ==> (#[trigger] parsed[i]) is Ok
        }),
{
    lemma_first_failure(parsed);
}

// ---------------------------------------------------------------------------------------
// Results of parsing

/// Every record of a file that opens is what some line was parsed to.
pub(crate) proof fn lemma_recovered_records<T, E>(
    bytes: Seq<u8>,
    records: Seq<T>,
    parse: spec_fn(Seq<char>) -> Result<T, E>,
)
    requires
        reopened(bytes, parse) == Some(Ok::<Seq<T>, int>(records)),
    ensures
        forall|i: int|
            0 <= i < records.len() ==> exists|line: Seq<char>|
                #[trigger] parse(line) == Ok::<T, E>(#[trigger] records[i]),
{
    let content = content_of(bytes)->0;
    let parsed = Seq::new(content.lines.len(), |i: int| parse(content.lines[i].text));
    lemma_recovered(parsed, last_is_open(content));
    assert forall|i: int| 0 <= i < records.len() implies exists|line: Seq<char>|
        #[trigger] parse(line) == Ok::<T, E>(#[trigger] records[i]) by {
        assert(parsed[i] is Ok);
        assert(parse(content.lines[i].text) == Ok::<T, E>(records[i]));
    }
}

/// What parsing each line of a text with something on it gives.
spec fn parsed_lines<T, E>(text: Seq<char>, parse: spec_fn(Seq<char>) -> Result<T, E>) -> Seq<
    Result<T, E>,
> {
    Seq::new(record_lines(text).len(), |i: int| parse(record_lines(text)[i].text))
}

pub(crate) proof fn lemma_first_failure<T, E>(parsed: Seq<Result<T, E>>)
    ensures
        0 <= first_failure(parsed) <= parsed.len(),
        first_failure(parsed) < parsed.len() ==> parsed[first_failure(parsed)] is Err,
        forall|i: int| 0 <= i < first_failure(parsed) ==> (#[trigger] parsed[i]) is Ok,
    decreases parsed.len(),
{
    if parsed.len() > 0 && parsed[0] is Ok {
        let rest = parsed.drop_first();
        lemma_first_failure(rest);
        assert forall|i: int| 0 <= i < first_failure(parsed) implies (
        #[trigger] parsed[i]) is Ok by {
            if i > 0 {
                assert(parsed[i] == rest[i - 1]);
            }
        }
    }
}

proof fn lemma_all_ok<T, E>(parsed: Seq<Result<T, E>>)
    requires
        forall|i: int| 0 <= i < parsed.len() ==> (#[trigger] parsed[i]) is Ok,
    ensures
        first_failure(parsed) == parsed.len(),
{
    lemma_first_failure(parsed);
}

/// What a successful recovery says of the lines.
proof fn lemma_recovered<T, E>(parsed: Seq<Result<T, E>>, open: bool)
    requires
        recovered(parsed, open) is Ok,
    ensures
        ({
            let records = recovered(parsed, open)->Ok_0;
            let n = records.len();
            &&& n == parsed.len() || (open && n == parsed.len() - 1 && parsed[n as int] is Err)
            &&& records == parsed_values(parsed, n as int)
            &&& forall|i: int| 0 <= i < n ==> (#[trigger] parsed[i]) is Ok
        }),
{
    lemma_first_failure(parsed);
}

/// Recovery from complete lines and an open one.
proof fn lemma_recovered_push<T, E>(before: Seq<Result<T, E>>, last: Result<T, E>)
    requires
        recovered(before, false) is Ok,
    ensures
        recovered(before.push(last), true) == (match last {
            Ok(record) => Ok::<Seq<T>, int>(recovered(before, false)->Ok_0.push(record)),
            Err(_) => Ok::<Seq<T>, int>(recovered(before, false)->Ok_0),
        }),
{
    let after = before.push(last);
    lemma_recovered(before, false);
    assert forall|i: int| 0 <= i < before.len() implies (#[trigger] after[i]) is Ok by {
        assert(after[i] == before[i]);
    }
    lemma_first_failure(after);
    let records = recovered(before, false)->Ok_0;
    if last is Ok {
        lemma_all_ok(after);
        assert(parsed_values(after, after.len() as int) =~= records.push(last->Ok_0));
    } else {
        assert(after[before.len() as int] is Err);
        assert(first_failure(after) == before.len());
        assert(parsed_values(after, before.len() as int) =~= records);
    }
}

// ---------------------------------------------------------------------------------------
// Lines

/// Whether a text ends with its last line.
spec fn is_closed(text: Seq<char>) -> bool {
    text.len() == 0 || text.last() == '\n'
}

proof fn lemma_line_length_of(line: Seq<char>, rest: Seq<char>)
    requires
        !line.contains('\n'),
    ensures
        line_length(line.push('\n') + rest) == line.len(),
    decreases line.len(),
{
    let text = line.push('\n') + rest;
    if line.len() > 0 {
        assert(line.contains(line[0]));
        let shorter = line.drop_first();
        assert forall|c: char| shorter.contains(c) implies line.contains(c) by {
            let i = choose|i: int| 0 <= i < shorter.len() && shorter[i] == c;
            assert(line[i + 1] == c);
        }
        lemma_line_length_of(shorter, rest);
        assert(text.drop_first() =~= shorter.push('\n') + rest);
    }
}

proof fn lemma_line_length_open(rest: Seq<char>)
    requires
        !rest.contains('\n'),
    ensures
        line_length(rest) == rest.len(),
    decreases rest.len(),
{
    if rest.len() > 0 {
        assert(rest.contains(rest[0]));
        let shorter = rest.drop_first();
        assert forall|c: char| shorter.contains(c) implies rest.contains(c) by {
            let i = choose|i: int| 0 <= i < shorter.len() && shorter[i] == c;
            assert(rest[i + 1] == c);
        }
        lemma_line_length_open(shorter);
    }
}

/// The first line of a closed text is complete, whatever follows the text.
proof fn lemma_line_length_closed(text: Seq<char>, rest: Seq<char>)
    requires
        text.len() > 0,
        text.last() == '\n',
    ensures
        line_length(text) < text.len(),
        line_length(text + rest) == line_length(text),
    decreases text.len(),
{
    if text[0] != '\n' {
        lemma_line_length_closed(text.drop_first(), rest);
        assert((text + rest).drop_first() =~= text.drop_first() + rest);
    }
}

/// The lines of a closed text come first, whatever follows it.
proof fn lemma_lines_of_closed(text: Seq<char>, rest: Seq<char>)
    requires
        is_closed(text),
    ensures
        lines_of(text + rest) == lines_of(text) + lines_of(rest),
    decreases text.len(),
{
    if text.len() == 0 {
        assert(text + rest =~= rest);
        assert(lines_of(text) + lines_of(rest) =~= lines_of(rest));
    } else {
        lemma_line_length(text);
        lemma_line_length_closed(text, rest);
        let n = line_length(text);
        let whole = text + rest;
        let next = text.skip(n + 1);
        assert(whole.take(n) =~= text.take(n));
        assert(whole.skip(n + 1) =~= next + rest);
        assert(is_closed(next)) by {
            if next.len() > 0 {
                assert(next.last() == text.last());
            }
        }
        lemma_lines_of_closed(next, rest);
        let first = seq![without_return(text.take(n))];
        assert(first + (lines_of(next) + lines_of(rest)) =~= (first + lines_of(next)) + lines_of(
            rest,
        ));
    }
}

/// An open line with its ending is a line of its own.
proof fn lemma_ended_line(line: Seq<char>, rest: Seq<char>)
    requires
        line.len() > 0,
        !line.contains('\n'),
    ensures
        ({
            let end = if line.last() == '\r' {
                seq!['\r', '\n']
            } else {
                seq!['\n']
            };
            lines_of((line + end) + rest) == seq![line] + lines_of(rest)
        }),
{
    let raw = if line.last() == '\r' {
        line.push('\r')
    } else {
        line
    };
    let end = if line.last() == '\r' {
        seq!['\r', '\n']
    } else {
        seq!['\n']
    };
    let text = raw.push('\n') + rest;
    assert((line + end) + rest =~= text);
    assert(!raw.contains('\n')) by {
        if raw.contains('\n') {
            let i = choose|i: int| 0 <= i < raw.len() && raw[i] == '\n';
            assert(i < line.len());
            assert(line[i] == '\n');
        }
    }
    lemma_line_length_of(raw, rest);
    assert(text.take(raw.len() as int) =~= raw);
    assert(text.skip(raw.len() as int + 1) =~= rest);
    assert(without_return(raw) =~= line);
}

/// The lines with something on them after one more line.
proof fn lemma_one_more_line(text: Seq<char>, rest: Seq<char>, line: Seq<char>)
    requires
        is_closed(text),
        lines_of(rest) == seq![line],
    ensures
        lines_of(text + rest).len() == lines_of(text).len() + 1,
        record_lines(text + rest) == if is_blank(line) {
            record_lines(text)
        } else {
            record_lines(text).push(
                LineView { number: lines_of(text).len() as int + 1, text: line },
            )
        },
{
    lemma_lines_of_closed(text, rest);
    let added = LineView { number: lines_of(text).len() as int + 1, text: line };
    assert(numbered_lines(text + rest) =~= numbered_lines(text).push(added));
    lemma_filter_push(
        numbered_lines(text),
        added,
        |line: LineView| !is_blank(line.text),
    );
}

/// Lines are numbered up to their count.
proof fn lemma_line_numbers(text: Seq<char>, i: int)
    requires
        0 <= i < record_lines(text).len(),
    ensures
        1 <= record_lines(text)[i].number <= lines_of(text).len(),
{
    let all = numbered_lines(text);
    let filled = |line: LineView| !is_blank(line.text);
    assert(all.filter(filled).contains(record_lines(text)[i]));
    all.lemma_filter_contains_rev(filled, record_lines(text)[i]);
    let k = choose|k: int| 0 <= k < all.len() && all[k] == record_lines(text)[i];
    assert(all[k].number == k + 1);
}

/// How many characters there are up to and with the last newline.
spec fn closed_chars(text: Seq<char>) -> int
    decreases text.len(),
{
    if text.len() == 0 || text.last() == '\n' {
        text.len() as int
    } else {
        closed_chars(text.drop_last())
    }
}

proof fn lemma_closed_chars(text: Seq<char>)
    ensures
        0 <= closed_chars(text) <= text.len(),
        is_closed(text.take(closed_chars(text))),
        !text.skip(closed_chars(text)).contains('\n'),
    decreases text.len(),
{
    let n = closed_chars(text);
    if text.len() == 0 || text.last() == '\n' {
        assert(text.take(n) =~= text);
    } else {
        let shorter = text.drop_last();
        lemma_closed_chars(shorter);
        assert(text.take(n) =~= shorter.take(n));
        if text.skip(n).contains('\n') {
            let i = choose|i: int| 0 <= i < text.skip(n).len() && text.skip(n)[i] == '\n';
            assert(i < shorter.skip(n).len());
            assert(shorter.skip(n)[i] == '\n');
        }
    }
}

// ---------------------------------------------------------------------------------------
// Bytes

proof fn lemma_encode_concat(a: Seq<char>, b: Seq<char>)
    ensures
        encode_utf8(a + b) == encode_utf8(a) + encode_utf8(b),
    decreases a.len(),
{
    if a.len() == 0 {
        assert(a + b =~= b);
        assert(encode_utf8(a) =~= Seq::<u8>::empty());
        assert(encode_utf8(a) + encode_utf8(b) =~= encode_utf8(b));
    } else {
        lemma_encode_concat(a.drop_first(), b);
        assert((a + b).drop_first() =~= a.drop_first() + b);
        assert(encode_utf8(a + b) =~= encode_utf8(a) + encode_utf8(b));
    }
}

proof fn lemma_encode_newline()
    ensures
        encode_utf8(seq!['\n']) == seq![10u8],
{
    let newline = seq!['\n'];
    is_ascii_chars_encode_utf8(newline);
    assert(encode_utf8(newline)[0] == newline[0] as u8);
    assert(encode_utf8(newline) =~= seq![10u8]);
}

proof fn lemma_encode_ending()
    ensures
        encode_utf8(seq!['\r', '\n']) == seq![13u8, 10u8],
        encode_utf8(seq!['\n']) == seq![10u8],
{
    let ending = seq!['\r', '\n'];
    is_ascii_chars_encode_utf8(ending);
    assert(encode_utf8(ending)[0] == ending[0] as u8);
    assert(encode_utf8(ending)[1] == ending[1] as u8);
    assert(encode_utf8(ending) =~= seq![13u8, 10u8]);
    lemma_encode_newline();
}

proof fn lemma_valid_suffix(a: Seq<u8>, b: Seq<u8>)
    requires
        valid_utf8(a),
        valid_utf8(a + b),
    ensures
        valid_utf8(b),
        decode_utf8(a + b) == decode_utf8(a) + decode_utf8(b),
    decreases a.len(),
{
    if a.len() == 0 {
        assert(a + b =~= b);
        assert(decode_utf8(a) =~= Seq::<char>::empty());
        assert(decode_utf8(a) + decode_utf8(b) =~= decode_utf8(b));
    } else {
        assert(pop_first_scalar(a + b) =~= pop_first_scalar(a) + b);
        lemma_valid_suffix(pop_first_scalar(a), b);
        assert(decode_utf8(a + b) =~= decode_utf8(a) + decode_utf8(b));
    }
}

/// A character other than a newline has no newline byte, and its last byte is a carriage
/// return only when it is one.
proof fn lemma_char_bytes(c: char)
    ensures
        encode_utf8(seq![c]).len() > 0,
        encode_utf8(seq![c]).last() == 13 <==> c == '\r',
        encode_utf8(seq![c]).last() == 10 <==> c == '\n',
        encode_utf8(seq![c]).contains(10) <==> c == '\n',
{
    let only = seq![c];
    let code = c as u32;
    let bytes = encode_utf8(only);
    assert(bytes =~= encode_scalar(code)) by {
        assert(only.drop_first() =~= Seq::<char>::empty());
        assert(encode_utf8(only.drop_first()) =~= Seq::<u8>::empty());
    }
    if '\0' <= c <= '\u{7f}' {
        is_ascii_chars_encode_utf8(only);
        assert(bytes[0] == only[0] as u8);
        assert(bytes.contains(bytes[0]));
    } else {
        assert(leading_byte_width_2(code) >= 128) by (bit_vector);
        assert(leading_byte_width_3(code) >= 128) by (bit_vector);
        assert(leading_byte_width_4(code) >= 128) by (bit_vector);
        assert(last_continuation_byte(code) >= 128) by (bit_vector);
        assert(second_last_continuation_byte(code) >= 128) by (bit_vector);
        assert(third_last_continuation_byte(code) >= 128) by (bit_vector);
        assert(encode_scalar(code).last() == last_continuation_byte(code));
        assert(forall|i: int| 0 <= i < bytes.len() ==> #[trigger] bytes[i] >= 128);
    }
}

/// The last byte of a text tells a newline and a carriage return at its end.
proof fn lemma_last_byte_of(text: Seq<char>)
    requires
        text.len() > 0,
    ensures
        encode_utf8(text).len() > 0,
        encode_utf8(text).last() == 13 <==> text.last() == '\r',
        encode_utf8(text).last() == 10 <==> text.last() == '\n',
{
    let last = seq![text.last()];
    lemma_encode_concat(text.drop_last(), last);
    assert(text.drop_last() + last =~= text);
    lemma_char_bytes(text.last());
    assert(encode_utf8(text).last() == encode_utf8(last).last());
}

/// A text has a newline byte exactly when it has a newline.
proof fn lemma_newline_byte(text: Seq<char>)
    ensures
        encode_utf8(text).contains(10) <==> text.contains('\n'),
    decreases text.len(),
{
    if text.len() > 0 {
        let first = seq![text[0]];
        let rest = text.drop_first();
        lemma_encode_concat(first, rest);
        assert(first + rest =~= text);
        lemma_char_bytes(text[0]);
        lemma_newline_byte(rest);
        let a = encode_utf8(first);
        let b = encode_utf8(rest);
        if a.contains(10) {
            let k = choose|k: int| 0 <= k < a.len() && a[k] == 10;
            assert((a + b)[k] == 10);
            assert(text[0] == '\n');
        }
        if b.contains(10) {
            let k = choose|k: int| 0 <= k < b.len() && b[k] == 10;
            assert((a + b)[a.len() + k] == 10);
            let i = choose|i: int| 0 <= i < rest.len() && rest[i] == '\n';
            assert(text[i + 1] == '\n');
        }
        if (a + b).contains(10) {
            let k = choose|k: int| 0 <= k < (a + b).len() && (a + b)[k] == 10;
            if k < a.len() {
                assert(a[k] == 10);
            } else {
                assert(b[k - a.len()] == 10);
            }
        }
        if text.contains('\n') {
            let i = choose|i: int| 0 <= i < text.len() && text[i] == '\n';
            if i > 0 {
                assert(rest[i - 1] == '\n');
            }
        }
    }
}

proof fn lemma_newline_free(tail: Seq<u8>)
    requires
        valid_utf8(tail),
        !tail.contains(10),
    ensures
        !decode_utf8(tail).contains('\n'),
{
    decode_utf8_encode_utf8(tail);
    lemma_newline_byte(decode_utf8(tail));
}

/// The complete lines of a file end with a newline.
proof fn lemma_closed_prefix(bytes: Seq<u8>)
    ensures
        0 <= closed_length(bytes) <= bytes.len(),
        !ends_open(bytes.take(closed_length(bytes))),
    decreases bytes.len(),
{
    let n = closed_length(bytes);
    if bytes.len() == 0 || bytes.last() == 10 {
        assert(bytes.take(n) =~= bytes);
    } else {
        lemma_closed_prefix(bytes.drop_last());
        assert(bytes.take(n) =~= bytes.drop_last().take(n));
    }
}

proof fn lemma_closed_length_of(head: Seq<u8>, tail: Seq<u8>)
    requires
        !ends_open(head),
        !tail.contains(10),
    ensures
        closed_length(head + tail) == head.len(),
    decreases tail.len(),
{
    if tail.len() == 0 {
        assert(head + tail =~= head);
    } else {
        assert(tail.contains(tail.last()));
        assert((head + tail).drop_last() =~= head + tail.drop_last());
        assert forall|b: u8| tail.drop_last().contains(b) implies tail.contains(b) by {
            let i = choose|i: int| 0 <= i < tail.drop_last().len() && tail.drop_last()[i] == b;
            assert(tail[i] == b);
        }
        lemma_closed_length_of(head, tail.drop_last());
    }
}

/// The text of a file that does not end in the middle of a line.
proof fn lemma_closed_text(bytes: Seq<u8>)
    requires
        valid_utf8(bytes),
        !ends_open(bytes),
    ensures
        encode_utf8(decode_utf8(bytes)) == bytes,
        is_closed(decode_utf8(bytes)),
{
    decode_utf8_encode_utf8(bytes);
    if decode_utf8(bytes).len() > 0 {
        lemma_last_byte_of(decode_utf8(bytes));
    }
}

/// What the file of a closed text holds.
proof fn lemma_closed_content(text: Seq<char>)
    requires
        is_closed(text),
    ensures
        valid_utf8(encode_utf8(text)),
        !ends_open(encode_utf8(text)),
        content_of(encode_utf8(text)) == Some(
            ContentView { lines: record_lines(text), open_line: None },
        ),
{
    encode_utf8_valid_utf8(text);
    encode_utf8_decode_utf8(text);
    if text.len() > 0 {
        lemma_last_byte_of(text);
    } else {
        assert(encode_utf8(text) =~= Seq::<u8>::empty());
    }
}

/// What the file of a closed text and an open line holds.
proof fn lemma_open_content(text: Seq<char>, rest: Seq<char>)
    requires
        is_closed(text),
        rest.len() > 0,
        !rest.contains('\n'),
    ensures
        ({
            let bytes = encode_utf8(text + rest);
            let content = ContentView {
                lines: record_lines(text + rest),
                open_line: Some(lines_of(text).len() as int + 1),
            };
            &&& valid_utf8(bytes)
            &&& ends_open(bytes)
            &&& content_of(bytes) == Some(content)
            &&& last_is_open(content) == !is_blank(rest)
            &&& closed_length(bytes) == encode_utf8(text).len()
            &&& bytes.take(closed_length(bytes)) == encode_utf8(text)
        }),
        record_lines(text + rest) == if is_blank(rest) {
            record_lines(text)
        } else {
            record_lines(text).push(
                LineView { number: lines_of(text).len() as int + 1, text: rest },
            )
        },
{
    let whole = text + rest;
    encode_utf8_valid_utf8(whole);
    encode_utf8_decode_utf8(whole);
    lemma_closed_content(text);
    lemma_encode_concat(text, rest);
    lemma_newline_byte(rest);
    lemma_last_byte_of(whole);
    assert(whole.last() == rest.last());
    assert(rest.contains(rest.last()));
    lemma_closed_length_of(encode_utf8(text), encode_utf8(rest));
    assert(encode_utf8(whole).take(encode_utf8(text).len() as int) =~= encode_utf8(text));
    lemma_line_length_open(rest);
    assert(lines_of(rest) =~= seq![rest]);
    lemma_one_more_line(text, rest, rest);
    if is_blank(rest) && record_lines(text).len() > 0 {
        lemma_line_numbers(text, record_lines(text).len() - 1);
    }
}

// ---------------------------------------------------------------------------------------
// The format

/// A file is its records one behind the other, each with a newline at its end.
pub proof fn law_file_is_its_records_in_lines(records: Seq<Seq<u8>>, encoded: Seq<u8>)
    ensures
        framed(encoded) == encoded + seq![10u8],
        framed_all(Seq::empty()).len() == 0,
        framed_all(records.push(encoded)) == framed_all(records) + encoded + seq![10u8],
{
    assert(framed(encoded) =~= encoded + seq![10u8]);
    assert(records.push(encoded).drop_last() =~= records);
    assert(framed_all(records) + (encoded + seq![10u8]) =~= framed_all(records) + encoded
        + seq![10u8]);
}

/// A text is cut into lines at its newlines: what stands before the first one is the first
/// line, without the carriage return that it may end in, and the lines of the rest follow.
/// A text without a newline is one line as it is, and an empty one has none.
pub proof fn law_lines_end_at_newlines(line: Seq<char>, rest: Seq<char>)
    requires
        !line.contains('\n'),
    ensures
        lines_of(Seq::empty()).len() == 0,
        line.len() > 0 ==> lines_of(line) == seq![line],
        line.len() == 0 || line.last() != '\r' ==> lines_of(line + seq!['\n'] + rest) == seq![line]
            + lines_of(rest),
        lines_of(line + seq!['\r', '\n'] + rest) == seq![line] + lines_of(rest),
{
    lemma_first_line(line, rest);
    let returned = line.push('\r');
    assert forall|i: int| 0 <= i < returned.len() implies returned[i] != '\n' by {
        if i < line.len() {
            assert(line.contains(line[i]));
        }
    }
    lemma_first_line(returned, rest);
    assert(returned.push('\n') + rest =~= line + seq!['\r', '\n'] + rest);
    assert(without_return(returned) =~= line);
    assert(line.push('\n') + rest =~= line + seq!['\n'] + rest);
    lemma_whole_line(line);
}

proof fn lemma_first_line(line: Seq<char>, rest: Seq<char>)
    requires
        !line.contains('\n'),
    ensures
        lines_of(line.push('\n') + rest) == seq![without_return(line)] + lines_of(rest),
{
    let text = line.push('\n') + rest;
    lemma_line_length_of(line, rest);
    assert(text.take(line.len() as int) =~= line);
    assert(text.skip(line.len() as int + 1) =~= rest);
}

proof fn lemma_whole_line(line: Seq<char>)
    requires
        !line.contains('\n'),
    ensures
        line_length(line) == line.len(),
    decreases line.len(),
{
    if line.len() > 0 {
        assert(line.contains(line[0]));
        let shorter = line.drop_first();
        assert forall|i: int| 0 <= i < shorter.len() implies shorter[i] != '\n' by {
            assert(line.contains(line[i + 1]));
        }
        lemma_whole_line(shorter);
    }
}

/// The lines that count are those with something on them besides white space, each with its
/// number in the file, counted from 1, and in the order of the file.
pub proof fn law_record_lines_are_numbered_in_order(text: Seq<char>, line: LineView)
    ensures
        record_lines(text).contains(line) <==> {
            &&& 1 <= line.number <= lines_of(text).len()
            &&& line.text == lines_of(text)[line.number - 1]
            &&& trimmed(line.text).len() > 0
        },
        forall|i: int, j: int|
            0 <= i < j < record_lines(text).len() ==> (#[trigger] record_lines(text)[i]).number < (
            #[trigger] record_lines(text)[j]).number,
{
    broadcast use Seq::lemma_filter_pred, Seq::lemma_filter_contains;

    let all = numbered_lines(text);
    let full = |line: LineView| !is_blank(line.text);
    law_blank_trims_to_nothing(line.text);
    lemma_numbers_rise(all, full);
    if record_lines(text).contains(line) {
        all.lemma_filter_contains_rev(full, line);
        let k = choose|k: int| 0 <= k < all.filter(full).len() && all.filter(full)[k] == line;
        assert(full(all.filter(full)[k]));
    } else if 1 <= line.number <= lines_of(text).len() && line.text == lines_of(
        text,
    )[line.number - 1] && trimmed(line.text).len() > 0 {
        assert(all[line.number - 1] == line);
        assert(full(all[line.number - 1]));
    }
}

proof fn lemma_numbers_rise(lines: Seq<LineView>, keep: spec_fn(LineView) -> bool)
    requires
        forall|i: int| 0 <= i < lines.len() ==> (#[trigger] lines[i]).number == i + 1,
    ensures
        forall|i: int|
            0 <= i < lines.filter(keep).len() ==> (#[trigger] lines.filter(keep)[i]).number
                <= lines.len(),
        forall|i: int, j: int|
            0 <= i < j < lines.filter(keep).len() ==> (#[trigger] lines.filter(keep)[i]).number < (
            #[trigger] lines.filter(keep)[j]).number,
    decreases lines.len(),
{
    reveal(Seq::filter);
    if lines.len() > 0 {
        let rest = lines.drop_last();
        lemma_numbers_rise(rest, keep);
        assert(rest.push(lines.last()) =~= lines);
        lemma_filter_push(rest, lines.last(), keep);
    }
}

/// The closed part of a file reaches to its last newline: it ends with one, or is empty, and
/// there is none behind it.
pub proof fn law_closed_part_reaches_to_the_last_newline(bytes: Seq<u8>)
    ensures
        0 <= closed_length(bytes) <= bytes.len(),
        closed_length(bytes) > 0 ==> bytes[closed_length(bytes) - 1] == 10,
        forall|i: int| closed_length(bytes) <= i < bytes.len() ==> #[trigger] bytes[i] != 10,
        ends_open(bytes) <==> closed_length(bytes) < bytes.len(),
    decreases bytes.len(),
{
    lemma_closed_prefix(bytes);
    if ends_open(bytes) {
        let rest = bytes.drop_last();
        law_closed_part_reaches_to_the_last_newline(rest);
        lemma_closed_prefix(rest);
        assert forall|i: int| closed_length(bytes) <= i < bytes.len() implies #[trigger] bytes[i]
            != 10 by {
            if i < rest.len() {
                assert(rest[i] != 10);
            }
        }
    }
}

/// What a file holds, whole or cut off: the record lines of its text, and the number of the
/// last line where that has no newline. Where the file is no text, its part behind the last
/// newline is left out if only that part is to blame, and otherwise it holds nothing.
pub proof fn law_content_is_the_text_up_to_a_torn_character(head: Seq<u8>, tail: Seq<u8>)
    requires
        head.len() == 0 || head.last() == 10,
        !tail.contains(10),
    ensures
        ({
            let bytes = head + tail;
            &&& valid_utf8(bytes) ==> {
                &&& content_of(bytes) is Some
                &&& content_of(bytes)->0.lines == record_lines(decode_utf8(bytes))
                &&& tail.len() == 0 ==> content_of(bytes)->0.open_line is None
                &&& tail.len() > 0 ==> content_of(bytes)->0.open_line is Some
                    && content_of(bytes)->0.open_line->0 == lines_of(decode_utf8(bytes)).len()
            }
            &&& !valid_utf8(bytes) && valid_utf8(head) ==> {
                &&& content_of(bytes) is Some
                &&& content_of(bytes)->0.lines == record_lines(decode_utf8(head))
                &&& content_of(bytes)->0.open_line is None
            }
            &&& !valid_utf8(bytes) && !valid_utf8(head) ==> content_of(bytes) is None
        }),
{
    let bytes = head + tail;
    lemma_closed_length_of(head, tail);
    assert(bytes.take(head.len() as int) =~= head);
    if tail.len() == 0 {
        assert(bytes =~= head);
    } else {
        assert(bytes.last() == tail.last());
        assert(tail.contains(tail.last()));
    }
}

/// What is recovered: every record where every line parses, and every one but the last where
/// only the last line does not and has no newline.
pub proof fn law_every_record_that_parses_is_recovered<T, E>(
    parsed: Seq<Result<T, E>>,
    open: bool,
    n: int,
)
    requires
        0 <= n <= parsed.len(),
        n == parsed.len() || (n == parsed.len() - 1 && parsed[n] is Err && open),
        forall|i: int| 0 <= i < n ==> (#[trigger] parsed[i]) is Ok,
    ensures
        recovered(parsed, open) is Ok,
        recovered(parsed, open)->Ok_0.len() == n,
        forall|i: int|
            0 <= i < n ==> parsed[i] == Ok::<T, E>(#[trigger] recovered(parsed, open)->Ok_0[i]),
{
    lemma_first_failure(parsed);
}

/// The last record line is the open one exactly when the file's open line is that line.
pub proof fn law_open_record_is_the_last_line(content: ContentView)
    ensures
        last_is_open(content) <==> content.lines.len() > 0 && content.open_line is Some
            && content.open_line->0 == content.lines[content.lines.len() - 1].number,
{
}

/// A message about a damaged file names it and ends with the cause.
pub proof fn law_damage_names_the_file(path: Seq<char>, number: nat, error: Seq<char>)
    ensures
        stripped(
            bad_line_text(path, number as int, error),
            "invalid JSON in "@ + path + " on line "@ + decimal_text(number) + ": "@,
        ) == Some(error),
        stripped(bad_encoding_text(path, error), "invalid UTF-8 in "@ + path + ": "@) == Some(
            error,
        ),
{
    law_stripping_undoes_prefixing(
        error,
        "invalid JSON in "@ + path + " on line "@ + decimal_text(number) + ": "@,
    );
    law_stripping_undoes_prefixing(error, "invalid UTF-8 in "@ + path + ": "@);
}

/// Mending a file leaves everything up to its last newline as it is. An open last line that
/// holds a record is kept and ended, one that holds none goes, and a file without one is not
/// touched.
pub proof fn law_mending_keeps_the_closed_part(head: Seq<u8>, tail: Seq<u8>, kept: bool)
    requires
        head.len() == 0 || head.last() == 10,
        !tail.contains(10),
    ensures
        tail.len() == 0 ==> mended(head + tail, kept) == head,
        tail.len() > 0 && !kept ==> mended(head + tail, kept) == head,
        tail.len() > 0 && kept ==> mended(head + tail, kept) == head + tail + (if tail.last() == 13 {
            seq![13u8, 10u8]
        } else {
            seq![10u8]
        }),
{
    lemma_closed_length_of(head, tail);
    let bytes = head + tail;
    assert(bytes.take(head.len() as int) =~= head);
    if tail.len() == 0 {
        assert(bytes =~= head);
    } else {
        assert(bytes.last() == tail.last());
        assert(tail.contains(tail.last()));
    }
}

} // verus!
