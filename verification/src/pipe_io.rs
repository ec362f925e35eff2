//! The raw event ledger that the capture agent streams to its controller:
//! one record per line, a one-character tag, then blank-separated fields.
use crate::text::{
    all_words, copy_range, digits_of, from_chars, is_word, lemma_join_one_line,
    lemma_line_len_bounds, lemma_line_shape, lemma_line_len_closed, lemma_tokens_line,
    lemma_uint_roundtrip, line_end, line_len, line_of, join, parse_uint, push_chars, push_uint,
    split_whitespace, to_chars, tokens, uint_of, views,
};
use vstd::prelude::*;
use vstd::utf8::encode_utf8;

verus! {

pub const OPERATION_VERSION: char = 'v';

pub const OPERATION_EXEC: char = 'x';

pub const OPERATION_PAGE_INFO: char = 'X';

pub const OPERATION_IMAGE: char = 'I';

pub const OPERATION_TRACE: char = 't';

pub const OPERATION_ALLOC: char = '+';

pub const OPERATION_FREE: char = '-';

pub const OPERATION_DURATION: char = 'c';

pub const OPERATION_RSS: char = 'R';

/// Why a record could not be had.
#[derive(Debug, PartialEq, Eq)]
pub enum Error {
    /// The line is blank, lacks a field, or holds a field that is no number
    /// of the width its record asks for.
    InvalidFormat,
    /// The channel itself failed; the text says how.
    IOError(String),
}

/// One event of the raw ledger.
#[derive(Debug, PartialEq, Eq)]
pub enum Record {
    Version(u16),
    Exec(String),
    Image { name: String, start_address: usize, size: usize },
    PageInfo { size: usize, pages: usize },
    Trace { ip: usize, parent_idx: usize },
    Alloc { ptr: usize, size: usize, parent_idx: usize },
    Free { ptr: usize },
    Duration(u128),
    RSS(usize),
}

/// A record as a mathematical value: text is a sequence of characters.
pub enum RecordView {
    Version(u16),
    Exec(Seq<char>),
    Image { name: Seq<char>, start_address: usize, size: usize },
    PageInfo { size: usize, pages: usize },
    Trace { ip: usize, parent_idx: usize },
    Alloc { ptr: usize, size: usize, parent_idx: usize },
    Free { ptr: usize },
    Duration(u128),
    RSS(usize),
}

impl View for Record {
    type V = RecordView;

    open spec fn view(&self) -> RecordView {
        match *self {
            Record::Version(v) => RecordView::Version(v),
            Record::Exec(name) => RecordView::Exec(name@),
            Record::Image { name, start_address, size } => RecordView::Image {
                name: name@,
                start_address,
                size,
            },
            Record::PageInfo { size, pages } => RecordView::PageInfo { size, pages },
            Record::Trace { ip, parent_idx } => RecordView::Trace { ip, parent_idx },
            Record::Alloc { ptr, size, parent_idx } => RecordView::Alloc { ptr, size, parent_idx },
            Record::Free { ptr } => RecordView::Free { ptr },
            Record::Duration(d) => RecordView::Duration(d),
            Record::RSS(rss) => RecordView::RSS(rss),
        }
    }
}

pub open spec fn hex(n: nat) -> Seq<char> {
    digits_of(n, 16)
}

pub open spec fn dec(n: nat) -> Seq<char> {
    digits_of(n, 10)
}

/// The length that a path is announced with: the count of its UTF-8 bytes, as
/// a machine word.
pub open spec fn byte_len(name: Seq<char>) -> nat {
    encode_utf8(name).len() as usize as nat
}

/// The fields of the line that stands for `r`, tag first. Numbers are
/// hexadecimal but for the version and the duration, which are decimal. The
/// length that precedes an executable's path counts its UTF-8 bytes.
pub open spec fn fields(r: RecordView) -> Seq<Seq<char>> {
    match r {
        RecordView::Version(v) => seq![seq![OPERATION_VERSION], dec(v as nat)],
        RecordView::Exec(name) => seq![
            seq![OPERATION_EXEC],
            hex(byte_len(name)),
            name,
        ],
        RecordView::Image { name, start_address, size } => seq![
            seq![OPERATION_IMAGE],
            hex(start_address as nat),
            hex(size as nat),
            name,
        ],
        RecordView::PageInfo { size, pages } => seq![
            seq![OPERATION_PAGE_INFO],
            hex(size as nat),
            hex(pages as nat),
        ],
        RecordView::Trace { ip, parent_idx } => seq![
            seq![OPERATION_TRACE],
            hex(ip as nat),
            hex(parent_idx as nat),
        ],
        RecordView::Alloc { ptr, size, parent_idx } => seq![
            seq![OPERATION_ALLOC],
            hex(size as nat),
            hex(parent_idx as nat),
            hex(ptr as nat),
        ],
        RecordView::Free { ptr } => seq![seq![OPERATION_FREE], hex(ptr as nat)],
        RecordView::Duration(d) => seq![seq![OPERATION_DURATION], dec(d as nat)],
        RecordView::RSS(rss) => seq![seq![OPERATION_RSS], hex(rss as nat)],
    }
}

/// The line, line feed included, that stands for `r` in the ledger.
pub open spec fn encode(r: RecordView) -> Seq<char> {
    line_of(fields(r))
}

/// What one line of the ledger amounts to.
pub enum Parsed {
    Record(RecordView),
    /// A comment, or a tag that this version does not know: passed over.
    Skipped,
    Invalid,
}

/// The number in field `k`, read in `radix`, where there is such a field and
/// it holds a number of at most `max`.
pub open spec fn field(ts: Seq<Seq<char>>, k: int, radix: nat, max: nat) -> Option<nat> {
    if 0 <= k < ts.len() {
        uint_of(ts[k], radix, max)
    } else {
        None
    }
}

pub open spec fn word_field(ts: Seq<Seq<char>>, k: int) -> Option<usize> {
    match field(ts, k, 16, usize::MAX as nat) {
        Some(v) => Some(v as usize),
        None => None,
    }
}

pub open spec fn decode_version(ts: Seq<Seq<char>>) -> Parsed {
    match field(ts, 1, 10, u16::MAX as nat) {
        Some(v) => Parsed::Record(RecordView::Version(v as u16)),
        None => Parsed::Invalid,
    }
}

pub open spec fn decode_exec(ts: Seq<Seq<char>>) -> Parsed {
    if ts.len() >= 3 {
        Parsed::Record(RecordView::Exec(ts[2]))
    } else {
        Parsed::Invalid
    }
}

pub open spec fn decode_page_info(ts: Seq<Seq<char>>) -> Parsed {
    match (word_field(ts, 1), word_field(ts, 2)) {
        (Some(size), Some(pages)) => Parsed::Record(RecordView::PageInfo { size, pages }),
        _ => Parsed::Invalid,
    }
}

pub open spec fn decode_image(ts: Seq<Seq<char>>) -> Parsed {
    match (word_field(ts, 1), word_field(ts, 2)) {
        (Some(start_address), Some(size)) => if ts.len() >= 4 {
            Parsed::Record(RecordView::Image { name: ts[3], start_address, size })
        } else {
            Parsed::Invalid
        },
        _ => Parsed::Invalid,
    }
}

pub open spec fn decode_trace(ts: Seq<Seq<char>>) -> Parsed {
    match (word_field(ts, 1), word_field(ts, 2)) {
        (Some(ip), Some(parent_idx)) => Parsed::Record(RecordView::Trace { ip, parent_idx }),
        _ => Parsed::Invalid,
    }
}

pub open spec fn decode_alloc(ts: Seq<Seq<char>>) -> Parsed {
    match (word_field(ts, 1), word_field(ts, 2), word_field(ts, 3)) {
        (Some(size), Some(parent_idx), Some(ptr)) => Parsed::Record(
            RecordView::Alloc { ptr, size, parent_idx },
        ),
        _ => Parsed::Invalid,
    }
}

pub open spec fn decode_free(ts: Seq<Seq<char>>) -> Parsed {
    match word_field(ts, 1) {
        Some(ptr) => Parsed::Record(RecordView::Free { ptr }),
        None => Parsed::Invalid,
    }
}

pub open spec fn decode_duration(ts: Seq<Seq<char>>) -> Parsed {
    match field(ts, 1, 10, u128::MAX as nat) {
        Some(d) => Parsed::Record(RecordView::Duration(d as u128)),
        None => Parsed::Invalid,
    }
}

pub open spec fn decode_rss(ts: Seq<Seq<char>>) -> Parsed {
    match word_field(ts, 1) {
        Some(rss) => Parsed::Record(RecordView::RSS(rss)),
        None => Parsed::Invalid,
    }
}

/// The record that a line's tokens denote. The first character of the first
/// token is the tag; fields beyond those that the tag asks for are ignored.
pub open spec fn decode(ts: Seq<Seq<char>>) -> Parsed {
    if ts.len() == 0 || ts[0].len() == 0 {
        Parsed::Invalid
    } else {
        let tag = ts[0][0];
        if tag == OPERATION_VERSION {
            decode_version(ts)
        } else if tag == OPERATION_EXEC {
            decode_exec(ts)
        } else if tag == OPERATION_PAGE_INFO {
            decode_page_info(ts)
        } else if tag == OPERATION_IMAGE {
            decode_image(ts)
        } else if tag == OPERATION_TRACE {
            decode_trace(ts)
        } else if tag == OPERATION_ALLOC {
            decode_alloc(ts)
        } else if tag == OPERATION_FREE {
            decode_free(ts)
        } else if tag == OPERATION_DURATION {
            decode_duration(ts)
        } else if tag == OPERATION_RSS {
            decode_rss(ts)
        } else {
            Parsed::Skipped
        }
    }
}

/// What `line` amounts to once split at whitespace.
pub open spec fn parse_line(line: Seq<char>) -> Parsed {
    decode(tokens(line))
}

/// The first record of `input` and what is left behind it. Lines that are
/// skipped are consumed; an invalid line is consumed and reported.
pub open spec fn next_record(input: Seq<char>) -> (Option<Result<RecordView, ()>>, Seq<char>)
    decreases input.len(),
{
    if input.len() == 0 {
        (None, input)
    } else {
        proof {
            lemma_line_len_bounds(input);
        }
        let n = line_len(input) as int;
        match parse_line(input.take(n)) {
            Parsed::Record(r) => (Some(Ok(r)), input.skip(n)),
            Parsed::Invalid => (Some(Err(())), input.skip(n)),
            Parsed::Skipped => next_record(input.skip(n)),
        }
    }
}

/// Whether `out` is the outcome that `parsed` calls for.
pub open spec fn outcome_matches(out: Result<Option<Record>, Error>, parsed: Parsed) -> bool {
    match parsed {
        Parsed::Record(r) => out matches Ok(Some(rec)) && rec@ == r,
        Parsed::Skipped => out matches Ok(None),
        Parsed::Invalid => out matches Err(Error::InvalidFormat),
    }
}

fn number_at(toks: &Vec<Vec<char>>, k: usize, radix: u128, max: u128) -> (r: Option<u128>)
    requires
        radix == 10 || radix == 16,
    ensures
        match field(views(toks@), k as int, radix as nat, max as nat) {
            Some(v) => r == Some(v as u128),
            None => r is None,
        },
{
    if k < toks.len() {
        parse_uint(&toks[k], radix, max)
    } else {
        None
    }
}

fn word_at(toks: &Vec<Vec<char>>, k: usize) -> (r: Option<usize>)
    ensures
        r == word_field(views(toks@), k as int),
{
    match number_at(toks, k, 16, usize::MAX as u128) {
        Some(v) => Some(v as usize),
        None => None,
    }
}

/// Builds the record that the tokens of one line denote.
pub fn decode_tokens(toks: &Vec<Vec<char>>) -> (out: Result<Option<Record>, Error>)
    ensures
        outcome_matches(out, decode(views(toks@))),
{
    if toks.len() == 0 || toks[0].len() == 0 {
        return Err(Error::InvalidFormat);
    }
    let tag = toks[0][0];
    if tag == OPERATION_VERSION {
        match number_at(toks, 1, 10, u16::MAX as u128) {
            Some(v) => Ok(Some(Record::Version(v as u16))),
            None => Err(Error::InvalidFormat),
        }
    } else if tag == OPERATION_EXEC {
        if toks.len() >= 3 {
            Ok(Some(Record::Exec(from_chars(&toks[2]))))
        } else {
            Err(Error::InvalidFormat)
        }
    } else if tag == OPERATION_PAGE_INFO {
        match (word_at(toks, 1), word_at(toks, 2)) {
            (Some(size), Some(pages)) => Ok(Some(Record::PageInfo { size, pages })),
            _ => Err(Error::InvalidFormat),
        }
    } else if tag == OPERATION_IMAGE {
        match (word_at(toks, 1), word_at(toks, 2)) {
            (Some(start_address), Some(size)) => if toks.len() >= 4 {
                Ok(Some(Record::Image { name: from_chars(&toks[3]), start_address, size }))
            } else {
                Err(Error::InvalidFormat)
            },
            _ => Err(Error::InvalidFormat),
        }
    } else if tag == OPERATION_TRACE {
        match (word_at(toks, 1), word_at(toks, 2)) {
            (Some(ip), Some(parent_idx)) => Ok(Some(Record::Trace { ip, parent_idx })),
            _ => Err(Error::InvalidFormat),
        }
    } else if tag == OPERATION_ALLOC {
        match (word_at(toks, 1), word_at(toks, 2), word_at(toks, 3)) {
            (Some(size), Some(parent_idx), Some(ptr)) => Ok(
                Some(Record::Alloc { ptr, size, parent_idx }),
            ),
            _ => Err(Error::InvalidFormat),
        }
    } else if tag == OPERATION_FREE {
        match word_at(toks, 1) {
            Some(ptr) => Ok(Some(Record::Free { ptr })),
            None => Err(Error::InvalidFormat),
        }
    } else if tag == OPERATION_DURATION {
        match number_at(toks, 1, 10, u128::MAX) {
            Some(d) => Ok(Some(Record::Duration(d))),
            None => Err(Error::InvalidFormat),
        }
    } else if tag == OPERATION_RSS {
        match word_at(toks, 1) {
            Some(rss) => Ok(Some(Record::RSS(rss))),
            None => Err(Error::InvalidFormat),
        }
    } else {
        Ok(None)
    }
}

/// Reads one line of the ledger. `Ok(None)` says that the line is a comment
/// or carries a tag that is not known, and is to be passed over.
pub fn parse_record(line: &str) -> (out: Result<Option<Record>, Error>)
    ensures
        outcome_matches(out, parse_line(line@)),
{
    let chars = to_chars(line);
    let toks = split_whitespace(&chars);
    decode_tokens(&toks)
}

/// Names that survive the trip through the ledger: a single word.
pub open spec fn writable(r: RecordView) -> bool {
    match r {
        RecordView::Exec(name) => is_word(name),
        RecordView::Image { name, .. } => is_word(name),
        _ => true,
    }
}

#[verifier::rlimit(50)]
proof fn lemma_fields_are_words(r: RecordView)
    requires
        writable(r),
    ensures
        all_words(fields(r)),
{
    let fs = fields(r);
    assert(is_word(seq![OPERATION_VERSION]));
    assert(is_word(seq![OPERATION_EXEC]));
    assert(is_word(seq![OPERATION_PAGE_INFO]));
    assert(is_word(seq![OPERATION_IMAGE]));
    assert(is_word(seq![OPERATION_TRACE]));
    assert(is_word(seq![OPERATION_ALLOC]));
    assert(is_word(seq![OPERATION_FREE]));
    assert(is_word(seq![OPERATION_DURATION]));
    assert(is_word(seq![OPERATION_RSS]));
    let m = usize::MAX as nat;
    match r {
        RecordView::Version(v) => {
            lemma_uint_roundtrip(v as nat, 10, u16::MAX as nat);
        },
        RecordView::Exec(name) => {
            lemma_uint_roundtrip(byte_len(name), 16, byte_len(name));
        },
        RecordView::Image { name, start_address, size } => {
            lemma_uint_roundtrip(start_address as nat, 16, m);
            lemma_uint_roundtrip(size as nat, 16, m);
        },
        RecordView::PageInfo { size, pages } => {
            lemma_uint_roundtrip(size as nat, 16, m);
            lemma_uint_roundtrip(pages as nat, 16, m);
        },
        RecordView::Trace { ip, parent_idx } => {
            lemma_uint_roundtrip(ip as nat, 16, m);
            lemma_uint_roundtrip(parent_idx as nat, 16, m);
        },
        RecordView::Alloc { ptr, size, parent_idx } => {
            lemma_uint_roundtrip(ptr as nat, 16, m);
            lemma_uint_roundtrip(size as nat, 16, m);
            lemma_uint_roundtrip(parent_idx as nat, 16, m);
        },
        RecordView::Free { ptr } => {
            lemma_uint_roundtrip(ptr as nat, 16, m);
        },
        RecordView::Duration(d) => {
            lemma_uint_roundtrip(d as nat, 10, u128::MAX as nat);
        },
        RecordView::RSS(rss) => {
            lemma_uint_roundtrip(rss as nat, 16, m);
        },
    }
}

/// A number, written and read in one radix, is what `field` finds in its place.
pub proof fn lemma_field_reads(ts: Seq<Seq<char>>, k: int, n: nat, radix: nat, max: nat)
    requires
        0 <= k < ts.len(),
        radix == 10 || radix == 16,
        n <= max,
        ts[k] == digits_of(n, radix),
    ensures
        field(ts, k, radix, max) == Some(n),
{
    lemma_uint_roundtrip(n, radix, max);
}

proof fn lemma_decode_version(v: u16)
    ensures
        decode(fields(RecordView::Version(v))) == Parsed::Record(RecordView::Version(v)),
{
    let ts = fields(RecordView::Version(v));
    assert(ts[0] == seq![OPERATION_VERSION]);
    lemma_field_reads(ts, 1, v as nat, 10, u16::MAX as nat);
    assert(decode(ts) == decode_version(ts));
}

proof fn lemma_decode_exec(name: Seq<char>)
    ensures
        decode(fields(RecordView::Exec(name))) == Parsed::Record(RecordView::Exec(name)),
{
    let ts = fields(RecordView::Exec(name));
    assert(ts[0] == seq![OPERATION_EXEC]);
    assert(ts[2] == name);
    assert(decode(ts) == decode_exec(ts));
}

proof fn lemma_decode_image(name: Seq<char>, start_address: usize, size: usize)
    ensures
        decode(fields(RecordView::Image { name, start_address, size })) == Parsed::Record(
            RecordView::Image { name, start_address, size },
        ),
{
    let ts = fields(RecordView::Image { name, start_address, size });
    assert(ts[0] == seq![OPERATION_IMAGE]);
    lemma_field_reads(ts, 1, start_address as nat, 16, usize::MAX as nat);
    lemma_field_reads(ts, 2, size as nat, 16, usize::MAX as nat);
    assert(ts[3] == name);
    assert(decode(ts) == decode_image(ts));
}

proof fn lemma_decode_page_info(size: usize, pages: usize)
    ensures
        decode(fields(RecordView::PageInfo { size, pages })) == Parsed::Record(
            RecordView::PageInfo { size, pages },
        ),
{
    let ts = fields(RecordView::PageInfo { size, pages });
    assert(ts[0] == seq![OPERATION_PAGE_INFO]);
    lemma_field_reads(ts, 1, size as nat, 16, usize::MAX as nat);
    lemma_field_reads(ts, 2, pages as nat, 16, usize::MAX as nat);
    assert(decode(ts) == decode_page_info(ts));
}

proof fn lemma_decode_trace(ip: usize, parent_idx: usize)
    ensures
        decode(fields(RecordView::Trace { ip, parent_idx })) == Parsed::Record(
            RecordView::Trace { ip, parent_idx },
        ),
{
    let ts = fields(RecordView::Trace { ip, parent_idx });
    assert(ts[0] == seq![OPERATION_TRACE]);
    lemma_field_reads(ts, 1, ip as nat, 16, usize::MAX as nat);
    lemma_field_reads(ts, 2, parent_idx as nat, 16, usize::MAX as nat);
    assert(decode(ts) == decode_trace(ts));
}

proof fn lemma_decode_alloc(ptr: usize, size: usize, parent_idx: usize)
    ensures
        decode(fields(RecordView::Alloc { ptr, size, parent_idx })) == Parsed::Record(
            RecordView::Alloc { ptr, size, parent_idx },
        ),
{
    let ts = fields(RecordView::Alloc { ptr, size, parent_idx });
    assert(ts[0] == seq![OPERATION_ALLOC]);
    lemma_field_reads(ts, 1, size as nat, 16, usize::MAX as nat);
    lemma_field_reads(ts, 2, parent_idx as nat, 16, usize::MAX as nat);
    lemma_field_reads(ts, 3, ptr as nat, 16, usize::MAX as nat);
    assert(decode(ts) == decode_alloc(ts));
}

proof fn lemma_decode_free(ptr: usize)
    ensures
        decode(fields(RecordView::Free { ptr })) == Parsed::Record(RecordView::Free { ptr }),
{
    let ts = fields(RecordView::Free { ptr });
    assert(ts[0] == seq![OPERATION_FREE]);
    lemma_field_reads(ts, 1, ptr as nat, 16, usize::MAX as nat);
    assert(decode(ts) == decode_free(ts));
}

proof fn lemma_decode_duration(d: u128)
    ensures
        decode(fields(RecordView::Duration(d))) == Parsed::Record(RecordView::Duration(d)),
{
    let ts = fields(RecordView::Duration(d));
    assert(ts[0] == seq![OPERATION_DURATION]);
    lemma_field_reads(ts, 1, d as nat, 10, u128::MAX as nat);
    assert(decode(ts) == decode_duration(ts));
}

proof fn lemma_decode_rss(rss: usize)
    ensures
        decode(fields(RecordView::RSS(rss))) == Parsed::Record(RecordView::RSS(rss)),
{
    let ts = fields(RecordView::RSS(rss));
    assert(ts[0] == seq![OPERATION_RSS]);
    lemma_field_reads(ts, 1, rss as nat, 16, usize::MAX as nat);
    assert(decode(ts) == decode_rss(ts));
}

proof fn lemma_decode_fields(r: RecordView)
    ensures
        decode(fields(r)) == Parsed::Record(r),
{
    match r {
        RecordView::Version(v) => lemma_decode_version(v),
        RecordView::Exec(name) => lemma_decode_exec(name),
        RecordView::Image { name, start_address, size } => lemma_decode_image(
            name,
            start_address,
            size,
        ),
        RecordView::PageInfo { size, pages } => lemma_decode_page_info(size, pages),
        RecordView::Trace { ip, parent_idx } => lemma_decode_trace(ip, parent_idx),
        RecordView::Alloc { ptr, size, parent_idx } => lemma_decode_alloc(ptr, size, parent_idx),
        RecordView::Free { ptr } => lemma_decode_free(ptr),
        RecordView::Duration(d) => lemma_decode_duration(d),
        RecordView::RSS(rss) => lemma_decode_rss(rss),
    }
}

/// Round trip: the line written for a record reads back as that record. The
/// one condition is that a path or module name is a single word, since a
/// blank inside it would end the field.
pub proof fn lemma_round_trip(r: RecordView)
    requires
        writable(r),
    ensures
        parse_line(encode(r)) == Parsed::Record(r),
{
    lemma_fields_are_words(r);
    lemma_tokens_line(fields(r));
    lemma_decode_fields(r);
}

/// Round trip in a stream: a reader positioned at the line written for `r`
/// yields `r` and stands at what follows the line.
pub proof fn lemma_stream_round_trip(r: RecordView, rest: Seq<char>)
    requires
        writable(r),
    ensures
        next_record(encode(r) + rest) == (Some(Ok::<RecordView, ()>(r)), rest),
{
    lemma_fields_are_words(r);
    lemma_round_trip(r);
    lemma_join_one_line(fields(r));
    lemma_line_len_closed(join(fields(r)), rest);
    let input = encode(r) + rest;
    let n = line_len(input) as int;
    assert(input.take(n) == encode(r));
    assert(input.skip(n) == rest);
}

/// The reading end of the ledger: the text that has arrived and not yet been
/// turned into records.
pub struct PipeReader {
    input: Vec<char>,
    pos: usize,
}

impl PipeReader {
    pub closed spec fn wf(&self) -> bool {
        self.pos <= self.input@.len()
    }

    /// The text that is still to be read.
    pub closed spec fn remaining(&self) -> Seq<char> {
        self.input@.skip(self.pos as int)
    }

    pub fn new() -> (reader: Self)
        ensures
            reader.wf(),
            reader.remaining() == Seq::<char>::empty(),
    {
        PipeReader { input: Vec::new(), pos: 0 }
    }

    /// Hands the reader text that has arrived on the channel.
    pub fn feed(&mut self, text: &str)
        requires
            old(self).wf(),
        ensures
            final(self).wf(),
            final(self).remaining() == old(self).remaining() + text@,
    {
        if self.pos == self.input.len() {
            self.input = Vec::new();
            self.pos = 0;
        }
        let ghost before = self.input@;
        let mut chars = to_chars(text);
        self.input.append(&mut chars);
        proof {
            assert((before + text@).skip(self.pos as int) == before.skip(self.pos as int)
                + text@);
        }
    }

    /// The next record of the text at hand: `None` once the text is used up,
    /// an error for a line that is no record. Comments and lines with a tag
    /// that is not known are passed over.
    pub fn read_record(&mut self) -> (out: Option<Result<Record, Error>>)
        requires
            old(self).wf(),
        ensures
            final(self).wf(),
            final(self).remaining() == next_record(old(self).remaining()).1,
            match next_record(old(self).remaining()).0 {
                Some(Ok(r)) => out matches Some(Ok(rec)) && rec@ == r,
                Some(Err(_)) => out matches Some(Err(Error::InvalidFormat)),
                None => out is None,
            },
    {
        while self.pos < self.input.len()
            invariant
                self.wf(),
                next_record(self.remaining()) == next_record(old(self).remaining()),
            decreases self.input.len() - self.pos,
        {
            let ghost rem = self.remaining();
            let end = line_end(&self.input, self.pos);
            let line = copy_range(&self.input, self.pos, end);
            proof {
                lemma_line_len_bounds(rem);
                let n = line_len(rem) as int;
                assert(rem.take(n) == line@);
                assert(rem.skip(n) == self.input@.skip(end as int));
            }
            self.pos = end;
            let toks = split_whitespace(&line);
            match decode_tokens(&toks) {
                Ok(Some(record)) => {
                    return Some(Ok(record));
                },
                Ok(None) => {},
                Err(e) => {
                    return Some(Err(e));
                },
            }
        }
        proof {
            assert(self.remaining().len() == 0);
        }
        None
    }
}

/// The writing end of the ledger: records are encoded into a buffer of text
/// that the owner of the channel drains.
pub struct PipeWriter {
    buffer: String,
}

impl View for PipeWriter {
    type V = Seq<char>;

    /// The text written and not yet drained.
    closed spec fn view(&self) -> Seq<char> {
        self.buffer@
    }
}

fn push_field(out: &mut String, n: u128, radix: u128)
    requires
        radix == 10 || radix == 16,
    ensures
        final(out)@ == old(out)@.push(' ') + digits_of(n as nat, radix as nat),
{
    out.push(' ');
    push_uint(out, n, radix);
}

fn push_name(out: &mut String, name: &str)
    ensures
        final(out)@ == old(out)@.push(' ') + name@,
{
    out.push(' ');
    let chars = to_chars(name);
    push_chars(out, &chars);
}

impl PipeWriter {
    pub fn new() -> (writer: Self)
        ensures
            writer@ == Seq::<char>::empty(),
    {
        PipeWriter { buffer: String::new() }
    }

    pub fn write_version(&mut self, version: u16)
        ensures
            final(self)@ == old(self)@ + encode(RecordView::Version(version)),
    {
        self.buffer.push(OPERATION_VERSION);
        push_field(&mut self.buffer, version as u128, 10);
        self.buffer.push('\n');
        proof {
            let f = fields(RecordView::Version(version));
            lemma_line_shape(old(self).buffer@, f[0][0], f[1], f[1], f[1]);
        }
    }

    pub fn write_exec(&mut self, ex: &str)
        ensures
            final(self)@ == old(self)@ + encode(RecordView::Exec(ex@)),
    {
        self.buffer.push(OPERATION_EXEC);
        push_field(&mut self.buffer, ex.len() as u128, 16);
        push_name(&mut self.buffer, ex);
        self.buffer.push('\n');
        proof {
            let f = fields(RecordView::Exec(ex@));
            lemma_line_shape(old(self).buffer@, f[0][0], f[1], f[2], f[2]);
        }
    }

    pub fn write_image(&mut self, name: &str, start_address: usize, size: usize)
        ensures
            final(self)@ == old(self)@ + encode(
                RecordView::Image { name: name@, start_address, size },
            ),
    {
        self.buffer.push(OPERATION_IMAGE);
        push_field(&mut self.buffer, start_address as u128, 16);
        push_field(&mut self.buffer, size as u128, 16);
        push_name(&mut self.buffer, name);
        self.buffer.push('\n');
        proof {
            let f = fields(RecordView::Image { name: name@, start_address, size });
            lemma_line_shape(old(self).buffer@, f[0][0], f[1], f[2], f[3]);
        }
    }

    pub fn write_page_info(&mut self, page_size: usize, phys_pages: usize)
        ensures
            final(self)@ == old(self)@ + encode(
                RecordView::PageInfo { size: page_size, pages: phys_pages },
            ),
    {
        self.buffer.push(OPERATION_PAGE_INFO);
        push_field(&mut self.buffer, page_size as u128, 16);
        push_field(&mut self.buffer, phys_pages as u128, 16);
        self.buffer.push('\n');
        proof {
            let f = fields(RecordView::PageInfo { size: page_size, pages: phys_pages });
            lemma_line_shape(old(self).buffer@, f[0][0], f[1], f[2], f[2]);
        }
    }

    pub fn write_trace(&mut self, ip: usize, parent_idx: usize)
        ensures
            final(self)@ == old(self)@ + encode(RecordView::Trace { ip, parent_idx }),
    {
        self.buffer.push(OPERATION_TRACE);
        push_field(&mut self.buffer, ip as u128, 16);
        push_field(&mut self.buffer, parent_idx as u128, 16);
        self.buffer.push('\n');
        proof {
            let f = fields(RecordView::Trace { ip, parent_idx });
            lemma_line_shape(old(self).buffer@, f[0][0], f[1], f[2], f[2]);
        }
    }

    pub fn write_alloc(&mut self, size: usize, parent_idx: usize, ptr: usize)
        ensures
            final(self)@ == old(self)@ + encode(RecordView::Alloc { ptr, size, parent_idx }),
    {
        self.buffer.push(OPERATION_ALLOC);
        push_field(&mut self.buffer, size as u128, 16);
        push_field(&mut self.buffer, parent_idx as u128, 16);
        push_field(&mut self.buffer, ptr as u128, 16);
        self.buffer.push('\n');
        proof {
            let f = fields(RecordView::Alloc { ptr, size, parent_idx });
            lemma_line_shape(old(self).buffer@, f[0][0], f[1], f[2], f[3]);
        }
    }

    pub fn write_free(&mut self, ptr: usize)
        ensures
            final(self)@ == old(self)@ + encode(RecordView::Free { ptr }),
    {
        self.buffer.push(OPERATION_FREE);
        push_field(&mut self.buffer, ptr as u128, 16);
        self.buffer.push('\n');
        proof {
            let f = fields(RecordView::Free { ptr });
            lemma_line_shape(old(self).buffer@, f[0][0], f[1], f[1], f[1]);
        }
    }

    pub fn write_duration(&mut self, duration: u128)
        ensures
            final(self)@ == old(self)@ + encode(RecordView::Duration(duration)),
    {
        self.buffer.push(OPERATION_DURATION);
        push_field(&mut self.buffer, duration, 10);
        self.buffer.push('\n');
        proof {
            let f = fields(RecordView::Duration(duration));
            lemma_line_shape(old(self).buffer@, f[0][0], f[1], f[1], f[1]);
        }
    }

    pub fn write_rss(&mut self, rss: usize)
        ensures
            final(self)@ == old(self)@ + encode(RecordView::RSS(rss)),
    {
        self.buffer.push(OPERATION_RSS);
        push_field(&mut self.buffer, rss as u128, 16);
        self.buffer.push('\n');
        proof {
            let f = fields(RecordView::RSS(rss));
            lemma_line_shape(old(self).buffer@, f[0][0], f[1], f[1], f[1]);
        }
    }

    /// Hands out the text written so far and leaves the buffer empty.
    pub fn flush(&mut self) -> (text: String)
        ensures
            text@ == old(self)@,
            final(self)@ == Seq::<char>::empty(),
    {
        let mut text = String::new();
        std::mem::swap(&mut self.buffer, &mut text);
        text
    }
}

} // verus!
