//! The reader of the enriched ledger: it gathers strings, instructions and
//! stack nodes, and keeps per call site and in total how much was
//! allocated, how much is still held, and how often an allocation was
//! given back before any other was made.
use crate::output::{encode_event, event_fields, frame_fields, frames_fields, Event, Frame};
use crate::pipe_io::{byte_len, field, hex, lemma_field_reads, word_field};
use crate::text::{
    all_words, copy_range, from_chars, is_word, lemma_line_len_bounds, lemma_tokens_line,
    lemma_uint_roundtrip, line_end, line_len, parse_uint, split_whitespace, to_chars, tokens,
    views,
};
use indexmap::IndexMap;
use vstd::prelude::*;

verus! {

#[verifier::external_type_specification]
#[verifier::external_body]
#[verifier::reject_recursive_types(K)]
#[verifier::reject_recursive_types(V)]
#[verifier::reject_recursive_types(S)]
pub struct ExIndexMap<K, V, S>(IndexMap<K, V, S>);

/// What an `IndexMap` from stack index to site index holds: for each key the
/// value it was last inserted with.
pub uninterp spec fn index_map_entries(table: IndexMap<u64, u64>) -> Map<u64, u64>;

/// `IndexMap::with_capacity`: a map without entries.
#[verifier::external_body]
fn index_map_with_capacity(n: usize) -> (table: IndexMap<u64, u64>)
    requires
        n <= 0x10000,
    ensures
        forall|key: u64| !index_map_entries(table).contains_key(key),
{
    IndexMap::with_capacity(n)
}

/// `IndexMap::get`: the value stored for `key`, if the map has the key.
#[verifier::external_body]
fn index_map_get(table: &IndexMap<u64, u64>, key: u64) -> (value: Option<u64>)
    ensures
        value == if index_map_entries(*table).contains_key(key) {
            Some(index_map_entries(*table)[key])
        } else {
            None::<u64>
        },
{
    table.get(&key).copied()
}

/// `IndexMap::insert`: afterwards `key` has `value`, and every other key has
/// what it had.
#[verifier::external_body]
fn index_map_insert(table: &mut IndexMap<u64, u64>, key: u64, value: u64)
    ensures
        index_map_entries(*final(table)) == index_map_entries(*old(table)).insert(key, value),
{
    table.insert(key, value);
}

/// Why a ledger could not be read.
#[derive(Debug, PartialEq, Eq)]
pub enum Error {
    /// The file could not be read; the text says why.
    Io(String),
    /// A line lacks a field or holds one that is no number.
    InvalidFormat,
    /// The ledger contradicts itself; the text says how.
    Internal(String),
}

/// One node of the stack tree: the instruction it stands for and its parent.
#[derive(Clone, Copy, Debug, PartialEq, Eq)]
pub struct TraceLink {
    pub ip_idx: u64,
    pub parent_idx: u64,
}

/// One instruction pointer with the frames it resolved to.
#[derive(Debug, PartialEq, Eq)]
pub struct InstructionPointer {
    pub ip: u64,
    pub module_idx: usize,
    pub frame: Frame,
    pub inlined: Vec<Frame>,
}

pub struct InstructionView {
    pub ip: u64,
    pub module_idx: usize,
    pub frame: Frame,
    pub inlined: Seq<Frame>,
}

impl View for InstructionPointer {
    type V = InstructionView;

    open spec fn view(&self) -> InstructionView {
        InstructionView {
            ip: self.ip,
            module_idx: self.module_idx,
            frame: self.frame,
            inlined: self.inlined@,
        }
    }
}

/// The counters kept per call site and in total. `size` is the size that one
/// allocation of the site counts for; in the total it stays 0.
#[derive(Clone, Copy, Debug, PartialEq, Eq)]
pub struct AllocationData {
    pub allocations: u64,
    pub temporary: u64,
    pub leaked: u64,
    pub peak: u64,
    pub size: u64,
}

/// One call site: the stack it stands for and its counters.
#[derive(Clone, Copy, Debug, PartialEq, Eq)]
pub struct Allocation {
    pub trace_idx: u64,
    pub data: AllocationData,
}

/// Counters at zero, for a site of the given size.
pub open spec fn fresh(size: u64) -> AllocationData {
    AllocationData { allocations: 0, temporary: 0, leaked: 0, peak: 0, size }
}

impl Allocation {
    pub fn new(trace_idx: u64, size: u64) -> (allocation: Self)
        ensures
            allocation == (Allocation { trace_idx, data: fresh(size) }),
    {
        let data = AllocationData { allocations: 0, temporary: 0, leaked: 0, peak: 0, size };
        Allocation { trace_idx, data }
    }
}

/// All that was gathered from a ledger.
#[derive(Debug)]
pub struct AccumulatedData {
    pub strings: Vec<String>,
    pub traces: Vec<TraceLink>,
    pub instruction_pointers: Vec<InstructionPointer>,
    allocation_indices: IndexMap<u64, u64>,
    pub allocations: Vec<Allocation>,
    pub total: AllocationData,
    /// The run's wall time in milliseconds.
    pub duration: u64,
    pub peak_rss: u64,
    pub page_size: u64,
    pub pages: u64,
}

/// The gathered data as a mathematical value.
#[verifier::ext_equal]
pub struct DataView {
    pub strings: Seq<Seq<char>>,
    pub traces: Seq<TraceLink>,
    pub instruction_pointers: Seq<InstructionView>,
    /// For each stack index that has a site, the position of the site.
    pub allocation_indices: Map<u64, u64>,
    pub allocations: Seq<Allocation>,
    pub total: AllocationData,
    pub duration: u64,
    pub peak_rss: u64,
    pub page_size: u64,
    pub pages: u64,
}

impl View for AccumulatedData {
    type V = DataView;

    closed spec fn view(&self) -> DataView {
        DataView {
            strings: self.strings@.map_values(|s: String| s@),
            traces: self.traces@,
            instruction_pointers: self.instruction_pointers@.map_values(
                |p: InstructionPointer| p@,
            ),
            allocation_indices: index_map_entries(self.allocation_indices),
            allocations: self.allocations@,
            total: self.total,
            duration: self.duration,
            peak_rss: self.peak_rss,
            page_size: self.page_size,
            pages: self.pages,
        }
    }
}

pub open spec fn empty_data() -> DataView {
    DataView {
        strings: Seq::empty(),
        traces: Seq::empty(),
        instruction_pointers: Seq::empty(),
        allocation_indices: Map::empty(),
        allocations: Seq::empty(),
        total: fresh(0),
        duration: 0,
        peak_rss: 0,
        page_size: 0,
        pages: 0,
    }
}

impl AccumulatedData {
    pub fn new() -> (data: Self)
        ensures
            data@ == empty_data(),
    {
        let data = AccumulatedData {
            strings: Vec::with_capacity(4096),
            traces: Vec::with_capacity(65536),
            instruction_pointers: Vec::with_capacity(16384),
            allocation_indices: index_map_with_capacity(16384),
            allocations: Vec::with_capacity(16384),
            total: AllocationData { allocations: 0, temporary: 0, leaked: 0, peak: 0, size: 0 },
            duration: 0,
            peak_rss: 0,
            page_size: 0,
            pages: 0,
        };
        proof {
            assert(data@.allocation_indices =~= Map::<u64, u64>::empty());
            assert(data@.strings =~= Seq::<Seq<char>>::empty());
            assert(data@.instruction_pointers =~= Seq::<InstructionView>::empty());
            assert(data@ =~= empty_data());
        }
        data
    }
}

/// The reader's state as a mathematical value: the data, and the site of the
/// most recent allocation while nothing was freed since.
#[verifier::ext_equal]
pub struct ParserState {
    pub data: DataView,
    pub last_ptr: Option<u64>,
}

/// What a line does to the state.
#[verifier::ext_equal]
pub enum Outcome {
    Next(ParserState),
    InvalidFormat,
    Internal,
}

/// Every stack index that has a site names a site that exists and that
/// stands for that stack.
pub open spec fn state_wf(s: ParserState) -> bool {
    &&& s.data.allocations.len() <= usize::MAX
    &&& forall|k: u64| #[trigger]
        s.data.allocation_indices.contains_key(k) ==> {
            &&& s.data.allocation_indices[k] < s.data.allocations.len()
            &&& s.data.allocations[s.data.allocation_indices[k] as int].trace_idx == k
        }
}

pub open spec fn hex64(ts: Seq<Seq<char>>, k: int) -> Option<u64> {
    match field(ts, k, 16, u64::MAX as nat) {
        Some(v) => Some(v as u64),
        None => None,
    }
}

pub open spec fn dec16(ts: Seq<Seq<char>>, k: int) -> Option<u16> {
    match field(ts, k, 10, u16::MAX as nat) {
        Some(v) => Some(v as u16),
        None => None,
    }
}

/// The frame that starts at token `k` and the token behind it: `Some(None)`
/// where the tokens are used up, `None` where they do not make a frame. A
/// function id that ends the line is a frame of its own; otherwise a file id
/// and a line number have to follow.
pub open spec fn frame_at(ts: Seq<Seq<char>>, k: int) -> Option<Option<(Frame, int)>> {
    if k < 0 || k >= ts.len() {
        Some(None)
    } else {
        match word_field(ts, k) {
            None => None,
            Some(function_idx) => if k + 1 >= ts.len() {
                Some(Some((Frame::Single { function_idx }, k + 1)))
            } else {
                match (word_field(ts, k + 1), dec16(ts, k + 2)) {
                    (Some(file_idx), Some(line_number)) => Some(
                        Some((Frame::Multiple { function_idx, file_idx, line_number }, k + 3)),
                    ),
                    _ => None,
                }
            },
        }
    }
}

/// All frames from token `k` on; `None` where the tokens do not make frames.
pub open spec fn frames_from(ts: Seq<Seq<char>>, k: int) -> Option<Seq<Frame>>
    decreases ts.len() - k,
{
    match frame_at(ts, k) {
        None => None,
        Some(None) => Some(Seq::empty()),
        Some(Some((frame, next))) => if next <= k {
            None
        } else {
            match frames_from(ts, next) {
                None => None,
                Some(rest) => Some(seq![frame] + rest),
            }
        },
    }
}

/// `s <length> <text>`: one more string. The length is not looked at.
pub open spec fn apply_string(d: DataView, ts: Seq<Seq<char>>) -> Option<DataView> {
    if ts.len() >= 3 {
        Some(DataView { strings: d.strings.push(ts[2]), ..d })
    } else {
        None
    }
}

/// `t <instruction> <parent>`: one more stack node.
pub open spec fn apply_trace(d: DataView, ts: Seq<Seq<char>>) -> Option<DataView> {
    match (hex64(ts, 1), hex64(ts, 2)) {
        (Some(ip_idx), Some(parent_idx)) => Some(
            DataView { traces: d.traces.push(TraceLink { ip_idx, parent_idx }), ..d },
        ),
        _ => None,
    }
}

/// `i <ip> <module> <frame>...`: one more instruction, with at least one frame.
pub open spec fn apply_instruction(d: DataView, ts: Seq<Seq<char>>) -> Option<DataView> {
    match (hex64(ts, 1), word_field(ts, 2), frames_from(ts, 3)) {
        (Some(ip), Some(module_idx), Some(frames)) => if frames.len() >= 1 {
            Some(
                DataView {
                    instruction_pointers: d.instruction_pointers.push(
                        InstructionView {
                            ip,
                            module_idx,
                            frame: frames[0],
                            inlined: frames.skip(1),
                        },
                    ),
                    ..d
                },
            )
        } else {
            None
        },
        _ => None,
    }
}

/// `c <milliseconds>`: the run's wall time.
pub open spec fn apply_duration(d: DataView, ts: Seq<Seq<char>>) -> Option<DataView> {
    match hex64(ts, 1) {
        Some(duration) => Some(DataView { duration, ..d }),
        None => None,
    }
}

/// `R <bytes>`: a resident set size; the largest one is kept.
pub open spec fn apply_rss(d: DataView, ts: Seq<Seq<char>>) -> Option<DataView> {
    match hex64(ts, 1) {
        Some(rss) => Some(
            DataView {
                peak_rss: if rss > d.peak_rss {
                    rss
                } else {
                    d.peak_rss
                },
                ..d
            },
        ),
        None => None,
    }
}

/// `I <page size> <pages>`: the machine's memory.
pub open spec fn apply_page_info(d: DataView, ts: Seq<Seq<char>>) -> Option<DataView> {
    match (hex64(ts, 1), hex64(ts, 2)) {
        (Some(page_size), Some(pages)) => Some(DataView { page_size, pages, ..d }),
        _ => None,
    }
}

/// A site for stack `trace_idx` with `size`: a stack that has a site gets
/// `size` added to the size of its site, another stack gets a new site.
/// `None` where the size would no longer fit.
pub open spec fn add_allocation(d: DataView, trace_idx: u64, size: u64) -> Option<DataView> {
    if d.allocation_indices.contains_key(trace_idx) {
        let idx = d.allocation_indices[trace_idx] as int;
        if idx < d.allocations.len() && d.allocations[idx].data.size + size <= u64::MAX {
            let site = d.allocations[idx];
            let data = AllocationData { size: (site.data.size + size) as u64, ..site.data };
            Some(DataView { allocations: d.allocations.update(idx, Allocation { data, ..site }), ..d })
        } else {
            None
        }
    } else if d.allocations.len() <= u64::MAX {
        Some(
            DataView {
                allocation_indices: d.allocation_indices.insert(
                    trace_idx,
                    d.allocations.len() as u64,
                ),
                allocations: d.allocations.push(Allocation { trace_idx, data: fresh(size) }),
                ..d
            },
        )
    } else {
        None
    }
}

pub open spec fn larger(a: u64, b: u64) -> u64 {
    if a > b {
        a
    } else {
        b
    }
}

/// Counters after one more allocation of `size` bytes; `None` where a
/// counter would no longer fit.
pub open spec fn counted(c: AllocationData, size: u64) -> Option<AllocationData> {
    if c.leaked + size <= u64::MAX && c.allocations + 1 <= u64::MAX {
        let leaked = (c.leaked + size) as u64;
        Some(
            AllocationData {
                allocations: (c.allocations + 1) as u64,
                leaked,
                peak: larger(c.peak, leaked),
                ..c
            },
        )
    } else {
        None
    }
}

/// Counters after `size` bytes were given back, as a temporary allocation or
/// not; `None` where less than `size` is held or a counter would no longer fit.
pub open spec fn released(c: AllocationData, size: u64, temporary: bool) -> Option<
    AllocationData,
> {
    if c.leaked >= size && (temporary ==> c.temporary + 1 <= u64::MAX) {
        Some(
            AllocationData {
                leaked: (c.leaked - size) as u64,
                temporary: if temporary {
                    (c.temporary + 1) as u64
                } else {
                    c.temporary
                },
                ..c
            },
        )
    } else {
        None
    }
}

/// An allocation at site `idx`: the site and the total count one more
/// allocation of the site's size, and the site is remembered as the most
/// recent one.
pub open spec fn alloc_event(s: ParserState, idx: u64) -> Outcome {
    if idx >= s.data.allocations.len() {
        Outcome::Internal
    } else {
        let site = s.data.allocations[idx as int];
        match (counted(site.data, site.data.size), counted(s.data.total, site.data.size)) {
            (Some(data), Some(total)) => Outcome::Next(
                ParserState {
                    data: DataView {
                        allocations: s.data.allocations.update(
                            idx as int,
                            Allocation { data, ..site },
                        ),
                        total,
                        ..s.data
                    },
                    last_ptr: Some(idx),
                },
            ),
            _ => Outcome::Internal,
        }
    }
}

/// A free at site `idx`: the site and the total give back the site's size.
/// The allocation was temporary if the most recent allocation was made at
/// this site and nothing was freed since.
pub open spec fn free_event(s: ParserState, idx: u64) -> Outcome {
    if idx >= s.data.allocations.len() {
        Outcome::Internal
    } else {
        let site = s.data.allocations[idx as int];
        let temporary = s.last_ptr == Some(idx);
        match (
            released(site.data, site.data.size, temporary),
            released(s.data.total, site.data.size, temporary),
        ) {
            (Some(data), Some(total)) => Outcome::Next(
                ParserState {
                    data: DataView {
                        allocations: s.data.allocations.update(
                            idx as int,
                            Allocation { data, ..site },
                        ),
                        total,
                        ..s.data
                    },
                    last_ptr: None,
                },
            ),
            _ => Outcome::Internal,
        }
    }
}

pub open spec fn lift(s: ParserState, d: Option<DataView>) -> Outcome {
    match d {
        Some(data) => Outcome::Next(ParserState { data, ..s }),
        None => Outcome::InvalidFormat,
    }
}

/// `a <size> <stack>`: a site for the stack.
pub open spec fn apply_allocation(s: ParserState, ts: Seq<Seq<char>>) -> Outcome {
    match (hex64(ts, 1), hex64(ts, 2)) {
        (Some(size), Some(trace_idx)) => match add_allocation(s.data, trace_idx, size) {
            Some(data) => Outcome::Next(ParserState { data, ..s }),
            None => Outcome::Internal,
        },
        _ => Outcome::InvalidFormat,
    }
}

/// What the line with the tokens `ts` does to `s`. The first token, one
/// character long, is the tag; a blank line, a comment and a tag that is not
/// known change nothing.
pub open spec fn apply(s: ParserState, ts: Seq<Seq<char>>) -> Outcome {
    if ts.len() == 0 || ts[0].len() != 1 {
        Outcome::Next(s)
    } else {
        let tag = ts[0][0];
        if tag == 's' {
            lift(s, apply_string(s.data, ts))
        } else if tag == 't' {
            lift(s, apply_trace(s.data, ts))
        } else if tag == 'i' {
            lift(s, apply_instruction(s.data, ts))
        } else if tag == 'a' {
            apply_allocation(s, ts)
        } else if tag == '+' {
            match hex64(ts, 1) {
                Some(idx) => alloc_event(s, idx),
                None => Outcome::InvalidFormat,
            }
        } else if tag == '-' {
            match hex64(ts, 1) {
                Some(idx) => free_event(s, idx),
                None => Outcome::InvalidFormat,
            }
        } else if tag == 'c' {
            lift(s, apply_duration(s.data, ts))
        } else if tag == 'R' {
            lift(s, apply_rss(s.data, ts))
        } else if tag == 'I' {
            lift(s, apply_page_info(s.data, ts))
        } else {
            Outcome::Next(s)
        }
    }
}

/// What a whole text does to `s`, line by line, up to the first line that fails.
pub open spec fn run(s: ParserState, input: Seq<char>) -> Outcome
    decreases input.len(),
{
    if input.len() == 0 {
        Outcome::Next(s)
    } else {
        proof {
            lemma_line_len_bounds(input);
        }
        let n = line_len(input) as int;
        match apply(s, tokens(input.take(n))) {
            Outcome::Next(next) => run(next, input.skip(n)),
            Outcome::InvalidFormat => Outcome::InvalidFormat,
            Outcome::Internal => Outcome::Internal,
        }
    }
}

/// An allocation that is freed before anything else is allocated counts as
/// temporary, at its site and in the total.
pub proof fn lemma_immediate_free_is_temporary(s: ParserState, idx: u64)
    requires
        alloc_event(s, idx) is Next,
        free_event(alloc_event(s, idx)->Next_0, idx) is Next,
    ensures
        ({
            let after = free_event(alloc_event(s, idx)->Next_0, idx)->Next_0;
            &&& after.data.allocations[idx as int].data.temporary
                == s.data.allocations[idx as int].data.temporary + 1
            &&& after.data.total.temporary == s.data.total.temporary + 1
            &&& after.data.allocations[idx as int].data.leaked
                == s.data.allocations[idx as int].data.leaked
            &&& after.data.total.leaked == s.data.total.leaked
        }),
{
}

/// An allocation at another site in between disqualifies: the free then
/// counts as temporary nowhere.
pub proof fn lemma_intervening_alloc_is_not_temporary(s: ParserState, idx: u64, other: u64)
    requires
        idx != other,
        alloc_event(s, idx) is Next,
        alloc_event(alloc_event(s, idx)->Next_0, other) is Next,
        free_event(alloc_event(alloc_event(s, idx)->Next_0, other)->Next_0, idx) is Next,
    ensures
        ({
            let after = free_event(
                alloc_event(alloc_event(s, idx)->Next_0, other)->Next_0,
                idx,
            )->Next_0;
            &&& after.data.total.temporary == s.data.total.temporary
            &&& forall|i: int|
                0 <= i < s.data.allocations.len() ==> (#[trigger] after.data.allocations[i]).data.temporary
                    == s.data.allocations[i].data.temporary
        }),
{
}

/// A free that follows another free, with no allocation in between, is not
/// temporary either.
pub proof fn lemma_second_free_is_not_temporary(s: ParserState, first: u64, second: u64)
    requires
        free_event(s, first) is Next,
        free_event(free_event(s, first)->Next_0, second) is Next,
    ensures
        ({
            let middle = free_event(s, first)->Next_0;
            let after = free_event(middle, second)->Next_0;
            &&& after.data.total.temporary == middle.data.total.temporary
            &&& after.data.allocations[second as int].data.temporary
                == middle.data.allocations[second as int].data.temporary
        }),
{
}

pub struct Parser {
    data: AccumulatedData,
    last_ptr: Option<u64>,
}

impl View for Parser {
    type V = ParserState;

    closed spec fn view(&self) -> ParserState {
        ParserState { data: self.data@, last_ptr: self.last_ptr }
    }
}

fn hex64_at(toks: &Vec<Vec<char>>, k: usize) -> (r: Option<u64>)
    ensures
        r == hex64(views(toks@), k as int),
{
    if k < toks.len() {
        match parse_uint(&toks[k], 16, u64::MAX as u128) {
            Some(v) => Some(v as u64),
            None => None,
        }
    } else {
        None
    }
}

fn word_at(toks: &Vec<Vec<char>>, k: usize) -> (r: Option<usize>)
    ensures
        r == word_field(views(toks@), k as int),
{
    if k < toks.len() {
        match parse_uint(&toks[k], 16, usize::MAX as u128) {
            Some(v) => Some(v as usize),
            None => None,
        }
    } else {
        None
    }
}

fn dec16_at(toks: &Vec<Vec<char>>, k: usize) -> (r: Option<u16>)
    ensures
        r == dec16(views(toks@), k as int),
{
    if k < toks.len() {
        match parse_uint(&toks[k], 10, u16::MAX as u128) {
            Some(v) => Some(v as u16),
            None => None,
        }
    } else {
        None
    }
}

fn counted_exec(c: AllocationData, size: u64) -> (r: Option<AllocationData>)
    ensures
        r == counted(c, size),
{
    match (c.leaked.checked_add(size), c.allocations.checked_add(1)) {
        (Some(leaked), Some(allocations)) => {
            let peak = if c.peak > leaked {
                c.peak
            } else {
                leaked
            };
            Some(
                AllocationData {
                    allocations,
                    temporary: c.temporary,
                    leaked,
                    peak,
                    size: c.size,
                },
            )
        },
        _ => None,
    }
}

fn released_exec(c: AllocationData, size: u64, temporary: bool) -> (r: Option<AllocationData>)
    ensures
        r == released(c, size, temporary),
{
    if c.leaked < size {
        return None;
    }
    let count = if temporary {
        match c.temporary.checked_add(1) {
            Some(n) => n,
            None => {
                return None;
            },
        }
    } else {
        c.temporary
    };
    Some(
        AllocationData {
            allocations: c.allocations,
            temporary: count,
            leaked: c.leaked - size,
            peak: c.peak,
            size: c.size,
        },
    )
}

fn internal(text: &str) -> (e: Error)
    ensures
        e is Internal,
{
    Error::Internal(String::from_str(text))
}

/// Whether `r` is the result that `outcome` calls for.
pub open spec fn result_matches(r: Result<(), Error>, outcome: Outcome) -> bool {
    match outcome {
        Outcome::Next(_) => r is Ok,
        Outcome::InvalidFormat => r matches Err(Error::InvalidFormat),
        Outcome::Internal => r matches Err(Error::Internal(_)),
    }
}

/// The state that `outcome` leaves: the next one, or `s` where the line failed.
pub open spec fn state_after(s: ParserState, outcome: Outcome) -> ParserState {
    match outcome {
        Outcome::Next(next) => next,
        _ => s,
    }
}

impl Parser {
    pub open spec fn wf(&self) -> bool {
        state_wf(self@)
    }

    pub fn new() -> (parser: Self)
        ensures
            parser.wf(),
            parser@ == (ParserState { data: empty_data(), last_ptr: None }),
    {
        Parser { data: AccumulatedData::new(), last_ptr: None }
    }

    /// Reads the frame that starts at token `k`, and says where the next one starts.
    pub fn parse_frame(toks: &Vec<Vec<char>>, k: usize) -> (r: Result<Option<(Frame, usize)>, Error>)
        ensures
            match frame_at(views(toks@), k as int) {
                None => r matches Err(Error::InvalidFormat),
                Some(None) => r matches Ok(None),
                Some(Some((frame, next))) => r matches Ok(Some(found)) && found.0 == frame
                    && found.1 == next && k < next <= toks@.len(),
            },
    {
        if k >= toks.len() {
            return Ok(None);
        }
        let function_idx = match word_at(toks, k) {
            Some(v) => v,
            None => {
                return Err(Error::InvalidFormat);
            },
        };
        if k + 1 >= toks.len() {
            return Ok(Some((Frame::Single { function_idx }, k + 1)));
        }
        let file_idx = match word_at(toks, k + 1) {
            Some(v) => v,
            None => {
                return Err(Error::InvalidFormat);
            },
        };
        if k + 2 >= toks.len() {
            return Err(Error::InvalidFormat);
        }
        let line_number = match dec16_at(toks, k + 2) {
            Some(v) => v,
            None => {
                return Err(Error::InvalidFormat);
            },
        };
        Ok(Some((Frame::Multiple { function_idx, file_idx, line_number }, k + 3)))
    }

    fn parse_frames(toks: &Vec<Vec<char>>, from: usize) -> (r: Option<Vec<Frame>>)
        ensures
            match frames_from(views(toks@), from as int) {
                Some(frames) => r matches Some(v) && v@ == frames,
                None => r is None,
            },
    {
        let mut frames: Vec<Frame> = Vec::new();
        let mut k: usize = from;
        let ghost ts = views(toks@);
        loop
            invariant
                ts == views(toks@),
                match frames_from(ts, k as int) {
                    Some(rest) => frames_from(ts, from as int) == Some(frames@ + rest),
                    None => frames_from(ts, from as int) is None,
                },
            decreases toks@.len() + 1 - k,
        {
            match Self::parse_frame(toks, k) {
                Err(_) => {
                    return None;
                },
                Ok(None) => {
                    proof {
                        assert(frames@ + Seq::<Frame>::empty() == frames@);
                    }
                    return Some(frames);
                },
                Ok(Some((frame, next))) => {
                    proof {
                        match frames_from(ts, next as int) {
                            Some(rest) => {
                                assert(frames@ + (seq![frame] + rest) == frames@.push(frame)
                                    + rest);
                            },
                            None => {},
                        }
                    }
                    frames.push(frame);
                    k = next;
                },
            }
        }
    }

    fn on_string(&mut self, toks: &Vec<Vec<char>>) -> (r: Result<(), Error>)
        requires
            old(self).wf(),
        ensures
            final(self).wf(),
            result_matches(r, lift(old(self)@, apply_string(old(self)@.data, views(toks@)))),
            final(self)@ == state_after(
                old(self)@,
                lift(old(self)@, apply_string(old(self)@.data, views(toks@))),
            ),
    {
        if toks.len() < 3 {
            return Err(Error::InvalidFormat);
        }
        let text = from_chars(&toks[2]);
        self.data.strings.push(text);
        proof {
            assert(self@.data.strings =~= old(self)@.data.strings.push(views(toks@)[2]));
            assert(self@ =~= state_after(
                old(self)@,
                lift(old(self)@, apply_string(old(self)@.data, views(toks@))),
            ));
        }
        Ok(())
    }

    fn on_trace(&mut self, toks: &Vec<Vec<char>>) -> (r: Result<(), Error>)
        requires
            old(self).wf(),
        ensures
            final(self).wf(),
            result_matches(r, lift(old(self)@, apply_trace(old(self)@.data, views(toks@)))),
            final(self)@ == state_after(
                old(self)@,
                lift(old(self)@, apply_trace(old(self)@.data, views(toks@))),
            ),
    {
        match (hex64_at(toks, 1), hex64_at(toks, 2)) {
            (Some(ip_idx), Some(parent_idx)) => {
                self.data.traces.push(TraceLink { ip_idx, parent_idx });
                proof {
                    assert(self@ =~= state_after(
                        old(self)@,
                        lift(old(self)@, apply_trace(old(self)@.data, views(toks@))),
                    ));
                }
                Ok(())
            },
            _ => Err(Error::InvalidFormat),
        }
    }

    fn on_instruction(&mut self, toks: &Vec<Vec<char>>) -> (r: Result<(), Error>)
        requires
            old(self).wf(),
        ensures
            final(self).wf(),
            result_matches(r, lift(old(self)@, apply_instruction(old(self)@.data, views(toks@)))),
            final(self)@ == state_after(
                old(self)@,
                lift(old(self)@, apply_instruction(old(self)@.data, views(toks@))),
            ),
    {
        let (ip, module_idx) = match (hex64_at(toks, 1), word_at(toks, 2)) {
            (Some(ip), Some(module_idx)) => (ip, module_idx),
            _ => {
                return Err(Error::InvalidFormat);
            },
        };
        let mut frames = match Self::parse_frames(toks, 3) {
            Some(frames) => frames,
            None => {
                return Err(Error::InvalidFormat);
            },
        };
        if frames.len() == 0 {
            return Err(Error::InvalidFormat);
        }
        let ghost all = frames@;
        let frame = frames.remove(0);
        proof {
            assert(frames@ == all.skip(1));
        }
        self.data.instruction_pointers.push(
            InstructionPointer { ip, module_idx, frame, inlined: frames },
        );
        proof {
            let added = InstructionView { ip, module_idx, frame: all[0], inlined: all.skip(1) };
            assert(self@.data.instruction_pointers =~= old(self)@.data.instruction_pointers.push(
                added,
            ));
            assert(self@ =~= state_after(
                old(self)@,
                lift(old(self)@, apply_instruction(old(self)@.data, views(toks@))),
            ));
        }
        Ok(())
    }

    /// Gives stack `trace_idx` a site of `size` bytes, or adds `size` to the
    /// size of the site it has.
    fn add_allocation(&mut self, trace_idx: u64, size: u64) -> (r: Result<(), Error>)
        requires
            old(self).wf(),
        ensures
            final(self).wf(),
            match add_allocation(old(self)@.data, trace_idx, size) {
                Some(data) => r is Ok && final(self)@ == (ParserState { data, ..old(self)@ }),
                None => r matches Err(Error::Internal(_)) && final(self)@ == old(self)@,
            },
    {
        match index_map_get(&self.data.allocation_indices, trace_idx) {
            Some(idx) => {
                if idx >= self.data.allocations.len() as u64 {
                    return Err(internal("allocation not found"));
                }
                let mut site = self.data.allocations[idx as usize];
                match site.data.size.checked_add(size) {
                    Some(sum) => {
                        site.data.size = sum;
                        self.data.allocations[idx as usize] = site;
                        proof {
                            assert(self@ =~= (ParserState {
                                data: add_allocation(old(self)@.data, trace_idx, size)->0,
                                ..old(self)@
                            }));
                            lemma_update_keeps_wf(old(self)@, self@, idx as int);
                        }
                        Ok(())
                    },
                    None => Err(internal("allocation size out of range")),
                }
            },
            None => {
                let idx = self.data.allocations.len() as u64;
                index_map_insert(&mut self.data.allocation_indices, trace_idx, idx);
                self.data.allocations.push(Allocation::new(trace_idx, size));
                let sites = self.data.allocations.len();
                proof {
                    assert(self@.data.allocations.len() == sites);
                    assert(self@ =~= (ParserState {
                        data: add_allocation(old(self)@.data, trace_idx, size)->0,
                        ..old(self)@
                    }));
                    assert forall|k: u64| #[trigger]
                        self@.data.allocation_indices.contains_key(k) implies {
                        &&& self@.data.allocation_indices[k] < self@.data.allocations.len()
                        &&& self@.data.allocations[self@.data.allocation_indices[k] as int].trace_idx
                            == k
                    } by {
                        if k != trace_idx {
                            assert(old(self)@.data.allocation_indices.contains_key(k));
                        }
                    }
                }
                Ok(())
            },
        }
    }

    fn on_allocation(&mut self, toks: &Vec<Vec<char>>) -> (r: Result<(), Error>)
        requires
            old(self).wf(),
        ensures
            final(self).wf(),
            result_matches(r, apply_allocation(old(self)@, views(toks@))),
            final(self)@ == state_after(old(self)@, apply_allocation(old(self)@, views(toks@))),
    {
        match (hex64_at(toks, 1), hex64_at(toks, 2)) {
            (Some(size), Some(trace_idx)) => self.add_allocation(trace_idx, size),
            _ => Err(Error::InvalidFormat),
        }
    }

    /// An allocation at site `idx`.
    pub fn on_alloc_event(&mut self, idx: u64) -> (r: Result<(), Error>)
        requires
            old(self).wf(),
        ensures
            final(self).wf(),
            result_matches(r, alloc_event(old(self)@, idx)),
            final(self)@ == state_after(old(self)@, alloc_event(old(self)@, idx)),
    {
        if idx >= self.data.allocations.len() as u64 {
            return Err(internal("allocation not found"));
        }
        let mut site = self.data.allocations[idx as usize];
        match (counted_exec(site.data, site.data.size), counted_exec(self.data.total, site.data.size)) {
            (Some(data), Some(total)) => {
                site.data = data;
                self.data.allocations[idx as usize] = site;
                self.data.total = total;
                self.last_ptr = Some(idx);
                proof {
                    assert(self@ =~= state_after(old(self)@, alloc_event(old(self)@, idx)));
                    lemma_update_keeps_wf(old(self)@, self@, idx as int);
                }
                Ok(())
            },
            _ => Err(internal("counter out of range")),
        }
    }

    /// A free at site `idx`.
    pub fn on_free_event(&mut self, idx: u64) -> (r: Result<(), Error>)
        requires
            old(self).wf(),
        ensures
            final(self).wf(),
            result_matches(r, free_event(old(self)@, idx)),
            final(self)@ == state_after(old(self)@, free_event(old(self)@, idx)),
    {
        if idx >= self.data.allocations.len() as u64 {
            return Err(internal("allocation not found"));
        }
        let mut site = self.data.allocations[idx as usize];
        let temporary = match self.last_ptr {
            Some(last) => last == idx,
            None => false,
        };
        match (
            released_exec(site.data, site.data.size, temporary),
            released_exec(self.data.total, site.data.size, temporary),
        ) {
            (Some(data), Some(total)) => {
                site.data = data;
                self.data.allocations[idx as usize] = site;
                self.data.total = total;
                self.last_ptr = None;
                proof {
                    assert(self@ =~= state_after(old(self)@, free_event(old(self)@, idx)));
                    lemma_update_keeps_wf(old(self)@, self@, idx as int);
                }
                Ok(())
            },
            _ => Err(internal("more freed than allocated")),
        }
    }

    fn on_number(&mut self, toks: &Vec<Vec<char>>, tag: char) -> (r: Result<(), Error>)
        requires
            old(self).wf(),
            tag == 'c' || tag == 'R' || tag == 'I',
            toks@.len() > 0,
            views(toks@)[0].len() == 1,
            views(toks@)[0][0] == tag,
        ensures
            final(self).wf(),
            result_matches(r, apply(old(self)@, views(toks@))),
            final(self)@ == state_after(old(self)@, apply(old(self)@, views(toks@))),
    {
        if tag == 'c' {
            match hex64_at(toks, 1) {
                Some(duration) => {
                    self.data.duration = duration;
                },
                None => {
                    return Err(Error::InvalidFormat);
                },
            }
        } else if tag == 'R' {
            match hex64_at(toks, 1) {
                Some(rss) => {
                    if rss > self.data.peak_rss {
                        self.data.peak_rss = rss;
                    }
                },
                None => {
                    return Err(Error::InvalidFormat);
                },
            }
        } else {
            match (hex64_at(toks, 1), hex64_at(toks, 2)) {
                (Some(page_size), Some(pages)) => {
                    self.data.page_size = page_size;
                    self.data.pages = pages;
                },
                _ => {
                    return Err(Error::InvalidFormat);
                },
            }
        }
        proof {
            assert(self@ =~= state_after(old(self)@, apply(old(self)@, views(toks@))));
        }
        Ok(())
    }

    /// Takes in the tokens of one line.
    pub fn parse_tokens(&mut self, toks: &Vec<Vec<char>>) -> (r: Result<(), Error>)
        requires
            old(self).wf(),
        ensures
            final(self).wf(),
            result_matches(r, apply(old(self)@, views(toks@))),
            final(self)@ == state_after(old(self)@, apply(old(self)@, views(toks@))),
    {
        if toks.len() == 0 || toks[0].len() != 1 {
            return Ok(());
        }
        let tag = toks[0][0];
        if tag == 's' {
            self.on_string(toks)
        } else if tag == 't' {
            self.on_trace(toks)
        } else if tag == 'i' {
            self.on_instruction(toks)
        } else if tag == 'a' {
            self.on_allocation(toks)
        } else if tag == '+' {
            match hex64_at(toks, 1) {
                Some(idx) => self.on_alloc_event(idx),
                None => Err(Error::InvalidFormat),
            }
        } else if tag == '-' {
            match hex64_at(toks, 1) {
                Some(idx) => self.on_free_event(idx),
                None => Err(Error::InvalidFormat),
            }
        } else if tag == 'c' || tag == 'R' || tag == 'I' {
            self.on_number(toks, tag)
        } else {
            Ok(())
        }
    }

    /// Takes in one line of the ledger. On an error nothing is taken in.
    pub fn parse_line(&mut self, line: &str) -> (r: Result<(), Error>)
        requires
            old(self).wf(),
        ensures
            final(self).wf(),
            result_matches(r, apply(old(self)@, tokens(line@))),
            final(self)@ == state_after(old(self)@, apply(old(self)@, tokens(line@))),
    {
        let chars = to_chars(line);
        let toks = split_whitespace(&chars);
        self.parse_tokens(&toks)
    }

    /// Takes in a whole ledger and hands out what was gathered, or the error
    /// of the first line that fails.
    pub fn parse_file(self, text: &str) -> (r: Result<AccumulatedData, Error>)
        requires
            self.wf(),
        ensures
            match run(self@, text@) {
                Outcome::Next(s) => r matches Ok(data) && data@ == s.data,
                Outcome::InvalidFormat => r matches Err(Error::InvalidFormat),
                Outcome::Internal => r matches Err(Error::Internal(_)),
            },
    {
        let mut parser = self;
        let chars = to_chars(text);
        let mut pos: usize = 0;
        proof {
            assert(chars@.skip(0) == chars@);
        }
        while pos < chars.len()
            invariant
                parser.wf(),
                pos <= chars@.len(),
                chars@ == text@,
                run(parser@, chars@.skip(pos as int)) == run(self@, text@),
            decreases chars.len() - pos,
        {
            let ghost rem = chars@.skip(pos as int);
            let end = line_end(&chars, pos);
            let line = copy_range(&chars, pos, end);
            proof {
                lemma_line_len_bounds(rem);
                let n = line_len(rem) as int;
                assert(rem.take(n) == line@);
                assert(rem.skip(n) == chars@.skip(end as int));
            }
            let toks = split_whitespace(&line);
            match parser.parse_tokens(&toks) {
                Ok(()) => {},
                Err(e) => {
                    return Err(e);
                },
            }
            pos = end;
        }
        proof {
            assert(chars@.skip(pos as int).len() == 0);
        }
        Ok(parser.data)
    }
}

/// Counters of one site changed: the sites still stand for their stacks.
proof fn lemma_update_keeps_wf(before: ParserState, after: ParserState, idx: int)
    requires
        state_wf(before),
        0 <= idx < before.data.allocations.len(),
        after.data.allocation_indices == before.data.allocation_indices,
        after.data.allocations.len() == before.data.allocations.len(),
        forall|i: int|
            0 <= i < before.data.allocations.len() ==> (#[trigger] after.data.allocations[i]).trace_idx
                == before.data.allocations[i].trace_idx,
    ensures
        state_wf(after),
{
    assert forall|k: u64| #[trigger] after.data.allocation_indices.contains_key(k) implies {
        &&& after.data.allocation_indices[k] < after.data.allocations.len()
        &&& after.data.allocations[after.data.allocation_indices[k] as int].trace_idx == k
    } by {
        assert(before.data.allocation_indices.contains_key(k));
    }
}

/// What the line that the writer makes of `e` means to the reader: a
/// version and a command mean nothing, a free is the free event of its
/// site, and every other event is stored or counted as it stands.
pub open spec fn effect(s: ParserState, e: Event) -> Outcome {
    match e {
        Event::Version { version, file_version } => Outcome::Next(s),
        Event::Exec(command) => Outcome::Next(s),
        Event::Text(value) => Outcome::Next(
            ParserState { data: DataView { strings: s.data.strings.push(value), ..s.data }, ..s },
        ),
        Event::Instruction { ip, module_idx, frames } => Outcome::Next(
            ParserState {
                data: DataView {
                    instruction_pointers: s.data.instruction_pointers.push(
                        InstructionView {
                            ip,
                            module_idx,
                            frame: frames[0],
                            inlined: frames.skip(1),
                        },
                    ),
                    ..s.data
                },
                ..s
            },
        ),
        Event::Trace { ip_id, parent_idx } => Outcome::Next(
            ParserState {
                data: DataView {
                    traces: s.data.traces.push(TraceLink { ip_idx: ip_id as u64, parent_idx }),
                    ..s.data
                },
                ..s
            },
        ),
        Event::Alloc { size, idx } => match add_allocation(s.data, idx as u64, size) {
            Some(data) => Outcome::Next(ParserState { data, ..s }),
            None => Outcome::Internal,
        },
        Event::Free { idx } => free_event(s, idx as u64),
        Event::Duration(millis) => Outcome::Next(
            ParserState { data: DataView { duration: millis as u64, ..s.data }, ..s },
        ),
        Event::RSS(rss) => Outcome::Next(
            ParserState {
                data: DataView { peak_rss: larger(rss as u64, s.data.peak_rss), ..s.data },
                ..s
            },
        ),
        Event::PageInfo { page_size, pages } => Outcome::Next(
            ParserState {
                data: DataView { page_size: page_size as u64, pages: pages as u64, ..s.data },
                ..s
            },
        ),
    }
}

/// The frames can be told apart when read: only the last may be a function
/// alone.
pub open spec fn frames_readable(frames: Seq<Frame>) -> bool {
    forall|i: int| 0 <= i < frames.len() - 1 ==> #[trigger] frames[i] is Multiple
}

/// The events that read back as what they are: text is a single word, an
/// instruction has a frame and its frames can be told apart, and a duration
/// fits 64 bits.
pub open spec fn readable(e: Event) -> bool {
    match e {
        Event::Exec(command) => is_word(command),
        Event::Text(value) => is_word(value),
        Event::Instruction { ip, module_idx, frames } => frames.len() >= 1 && frames_readable(
            frames,
        ),
        Event::Duration(millis) => millis <= u64::MAX,
        _ => true,
    }
}

proof fn lemma_frames_fields_concat(first: Seq<Frame>, second: Seq<Frame>)
    ensures
        frames_fields(first + second) == frames_fields(first) + frames_fields(second),
    decreases second.len(),
{
    if second.len() == 0 {
        assert(first + second == first);
        assert(frames_fields(first) + Seq::<Seq<char>>::empty() == frames_fields(first));
    } else {
        lemma_frames_fields_concat(first, second.drop_last());
        assert((first + second).drop_last() == first + second.drop_last());
        assert((first + second).last() == second.last());
        assert((frames_fields(first) + frames_fields(second.drop_last())) + frame_fields(
            second.last(),
        ) == frames_fields(first) + (frames_fields(second.drop_last()) + frame_fields(
            second.last(),
        )));
    }
}

proof fn lemma_frame_fields_are_words(frame: Frame)
    ensures
        all_words(frame_fields(frame)),
{
    match frame {
        Frame::Single { function_idx } => {
            lemma_uint_roundtrip(function_idx as nat, 16, usize::MAX as nat);
        },
        Frame::Multiple { function_idx, file_idx, line_number } => {
            lemma_uint_roundtrip(function_idx as nat, 16, usize::MAX as nat);
            lemma_uint_roundtrip(file_idx as nat, 16, usize::MAX as nat);
            lemma_uint_roundtrip(line_number as nat, 10, u16::MAX as nat);
        },
    }
}

proof fn lemma_frames_fields_are_words(frames: Seq<Frame>)
    ensures
        all_words(frames_fields(frames)),
    decreases frames.len(),
{
    if frames.len() > 0 {
        lemma_frames_fields_are_words(frames.drop_last());
        lemma_frame_fields_are_words(frames.last());
        let init = frames_fields(frames.drop_last());
        let last = frame_fields(frames.last());
        assert forall|i: int| 0 <= i < (init + last).len() implies is_word(
            #[trigger] (init + last)[i],
        ) by {
            if i < init.len() {
                assert((init + last)[i] == init[i]);
            } else {
                assert((init + last)[i] == last[i - init.len()]);
            }
        }
    }
}

/// The frames written behind any tokens read back as they were written.
#[verifier::rlimit(50)]
proof fn lemma_frames_read_back(head: Seq<Seq<char>>, frames: Seq<Frame>)
    requires
        frames_readable(frames),
    ensures
        frames_from(head + frames_fields(frames), head.len() as int) == Some(frames),
    decreases frames.len(),
{
    let ts = head + frames_fields(frames);
    let k = head.len() as int;
    if frames.len() == 0 {
        assert(ts == head);
    } else {
        let first = frames[0];
        let rest = frames.skip(1);
        assert(seq![first] + rest == frames);
        lemma_frames_fields_concat(seq![first], rest);
        assert(seq![first].drop_last() == Seq::<Frame>::empty());
        assert(seq![first].last() == first);
        assert(frames_fields(Seq::<Frame>::empty()) == Seq::<Seq<char>>::empty());
        assert(frames_fields(seq![first]) == Seq::<Seq<char>>::empty() + frame_fields(first));
        assert(frames_fields(seq![first]) == frame_fields(first));
        let mine = frame_fields(first);
        assert(ts == (head + mine) + frames_fields(rest));
        assert(frames_readable(rest)) by {
            assert forall|i: int| 0 <= i < rest.len() - 1 implies #[trigger] rest[i] is Multiple by {
                assert(rest[i] == frames[i + 1]);
            }
        }
        lemma_frames_read_back(head + mine, rest);
        match first {
            Frame::Single { function_idx } => {
                assert(rest.len() == 0) by {
                    if rest.len() > 0 {
                        assert(frames[0] is Multiple);
                    }
                }
                assert(ts[k] == mine[0]);
                lemma_field_reads(ts, k, function_idx as nat, 16, usize::MAX as nat);
                assert(frames_from(ts, k + 1) == Some(Seq::<Frame>::empty()));
                assert(seq![first] + Seq::<Frame>::empty() == frames);
            },
            Frame::Multiple { function_idx, file_idx, line_number } => {
                assert(ts[k] == mine[0]);
                assert(ts[k + 1] == mine[1]);
                assert(ts[k + 2] == mine[2]);
                lemma_field_reads(ts, k, function_idx as nat, 16, usize::MAX as nat);
                lemma_field_reads(ts, k + 1, file_idx as nat, 16, usize::MAX as nat);
                lemma_field_reads(ts, k + 2, line_number as nat, 10, u16::MAX as nat);
                assert(frame_at(ts, k) == Some(Some((first, k + 3))));
            },
        }
    }
}

#[verifier::rlimit(50)]
proof fn lemma_event_fields_are_words(e: Event)
    requires
        readable(e),
    ensures
        all_words(event_fields(e)),
{
    let m = usize::MAX as nat;
    let fields = event_fields(e);
    assert(is_word(seq!['v']));
    assert(is_word(seq!['X']));
    assert(is_word(seq!['s']));
    assert(is_word(seq!['i']));
    assert(is_word(seq!['t']));
    assert(is_word(seq!['a']));
    assert(is_word(seq!['-']));
    assert(is_word(seq!['c']));
    assert(is_word(seq!['R']));
    assert(is_word(seq!['I']));
    match e {
        Event::Version { version, file_version } => {
            lemma_uint_roundtrip(version as nat, 16, m);
            lemma_uint_roundtrip(file_version as nat, 16, m);
        },
        Event::Exec(command) => {},
        Event::Text(value) => {
            lemma_uint_roundtrip(byte_len(value), 16, byte_len(value));
        },
        Event::Instruction { ip, module_idx, frames } => {
            lemma_uint_roundtrip(ip as nat, 16, u64::MAX as nat);
            lemma_uint_roundtrip(module_idx as nat, 16, m);
            lemma_frames_fields_are_words(frames);
            let head = seq![seq!['i'], hex(ip as nat), hex(module_idx as nat)];
            let tail = frames_fields(frames);
            assert forall|i: int| 0 <= i < fields.len() implies is_word(#[trigger] fields[i]) by {
                if i < 3 {
                    assert(fields[i] == head[i]);
                } else {
                    assert(fields[i] == tail[i - 3]);
                }
            }
        },
        Event::Trace { ip_id, parent_idx } => {
            lemma_uint_roundtrip(ip_id as nat, 16, m);
            lemma_uint_roundtrip(parent_idx as nat, 16, u64::MAX as nat);
        },
        Event::Alloc { size, idx } => {
            lemma_uint_roundtrip(size as nat, 16, u64::MAX as nat);
            lemma_uint_roundtrip(idx as nat, 16, m);
        },
        Event::Free { idx } => {
            lemma_uint_roundtrip(idx as nat, 16, m);
        },
        Event::Duration(millis) => {
            lemma_uint_roundtrip(millis as nat, 16, u128::MAX as nat);
        },
        Event::RSS(rss) => {
            lemma_uint_roundtrip(rss as nat, 16, m);
        },
        Event::PageInfo { page_size, pages } => {
            lemma_uint_roundtrip(page_size as nat, 16, m);
            lemma_uint_roundtrip(pages as nat, 16, m);
        },
    }
}

#[verifier::rlimit(50)]
proof fn lemma_apply_fields(s: ParserState, e: Event)
    requires
        readable(e),
    ensures
        apply(s, event_fields(e)) == effect(s, e),
{
    let ts = event_fields(e);
    let w = u64::MAX as nat;
    match e {
        Event::Version { version, file_version } => {
            assert(ts[0] == seq!['v']);
        },
        Event::Exec(command) => {
            assert(ts[0] == seq!['X']);
        },
        Event::Text(value) => {
            assert(ts[0] == seq!['s']);
            assert(ts[2] == value);
            assert(apply(s, ts) == lift(s, apply_string(s.data, ts)));
        },
        Event::Instruction { ip, module_idx, frames } => {
            let head = seq![seq!['i'], hex(ip as nat), hex(module_idx as nat)];
            assert(ts[0] == head[0]);
            assert(ts[1] == head[1]);
            assert(ts[2] == head[2]);
            lemma_field_reads(ts, 1, ip as nat, 16, w);
            lemma_field_reads(ts, 2, module_idx as nat, 16, usize::MAX as nat);
            lemma_frames_read_back(head, frames);
            assert(apply(s, ts) == lift(s, apply_instruction(s.data, ts)));
        },
        Event::Trace { ip_id, parent_idx } => {
            assert(ts[0] == seq!['t']);
            lemma_field_reads(ts, 1, ip_id as nat, 16, w);
            lemma_field_reads(ts, 2, parent_idx as nat, 16, w);
            assert(apply(s, ts) == lift(s, apply_trace(s.data, ts)));
        },
        Event::Alloc { size, idx } => {
            assert(ts[0] == seq!['a']);
            lemma_field_reads(ts, 1, size as nat, 16, w);
            lemma_field_reads(ts, 2, idx as nat, 16, w);
            assert(apply(s, ts) == apply_allocation(s, ts));
        },
        Event::Free { idx } => {
            assert(ts[0] == seq!['-']);
            lemma_field_reads(ts, 1, idx as nat, 16, w);
        },
        Event::Duration(millis) => {
            assert(ts[0] == seq!['c']);
            lemma_field_reads(ts, 1, millis as nat, 16, w);
            assert(apply(s, ts) == lift(s, apply_duration(s.data, ts)));
        },
        Event::RSS(rss) => {
            assert(ts[0] == seq!['R']);
            lemma_field_reads(ts, 1, rss as nat, 16, w);
            assert(apply(s, ts) == lift(s, apply_rss(s.data, ts)));
        },
        Event::PageInfo { page_size, pages } => {
            assert(ts[0] == seq!['I']);
            lemma_field_reads(ts, 1, page_size as nat, 16, w);
            lemma_field_reads(ts, 2, pages as nat, 16, w);
            assert(apply(s, ts) == lift(s, apply_page_info(s.data, ts)));
        },
    }
}

/// Round trip of the enriched ledger: the line that the writer makes of an
/// event does to the reader's state what the event means. The conditions
/// are those of `readable`: a blank inside a text would end the field, and
/// a function alone in front of another frame would be read as that
/// frame's beginning.
pub proof fn lemma_enriched_round_trip(s: ParserState, e: Event)
    requires
        readable(e),
    ensures
        apply(s, tokens(encode_event(e))) == effect(s, e),
{
    lemma_event_fields_are_words(e);
    lemma_tokens_line(event_fields(e));
    lemma_apply_fields(s, e);
}

} // verus!
