//! The interpreter: it takes the raw records of a run one by one, resolves
//! instruction pointers to function names, interns strings and frames, and
//! writes the enriched ledger. It is strict: a record that refers to
//! something the stream has not brought is an error.
use crate::output::{encode_events, Event, Frame, Output};
use crate::pipe_io::{Record, RecordView};
use crate::pool::{index_of, interned, lemma_interning_is_stable, FramePool, StringPool};
use crate::resolver::{is_resolved_name, Location, Resolver};
use addr2line::Loader;
use vstd::prelude::*;

verus! {

/// The version of the enriched ledger's format.
pub const FILE_VERSION: u16 = 3;

#[derive(Debug, PartialEq, Eq)]
pub enum Error {
    /// The run of the target failed.
    Exec(crate::executor::Error),
    /// The ledger could not be written; the text says why.
    Io(String),
    /// A module could not be registered.
    Resolver(crate::resolver::Error),
    /// The stream of records contradicts itself; the text says how.
    Custom(String),
}

/// Whether `r` is the failure to register a module for the reason `e`.
pub open spec fn failed_with(r: Result<(), Error>, e: crate::resolver::Error) -> bool {
    r matches Err(Error::Resolver(inner)) && inner == e
}

/// Whether `r` is the error of a stream that contradicts itself.
pub open spec fn is_custom<T>(r: Result<T, Error>) -> bool {
    r matches Err(Error::Custom(_))
}

/// How many strings a ledger has defined.
pub open spec fn strings_in(log: Seq<Event>) -> nat
    decreases log.len(),
{
    if log.len() == 0 {
        0
    } else {
        strings_in(log.drop_last()) + if log.last() is Text {
            1nat
        } else {
            0nat
        }
    }
}

/// How many instructions a ledger has defined.
pub open spec fn instructions_in(log: Seq<Event>) -> nat
    decreases log.len(),
{
    if log.len() == 0 {
        0
    } else {
        instructions_in(log.drop_last()) + if log.last() is Instruction {
            1nat
        } else {
            0nat
        }
    }
}

/// How many stack nodes a ledger has defined.
pub open spec fn traces_in(log: Seq<Event>) -> nat
    decreases log.len(),
{
    if log.len() == 0 {
        0
    } else {
        traces_in(log.drop_last()) + if log.last() is Trace {
            1nat
        } else {
            0nat
        }
    }
}

/// The strings that a ledger defines, in their order: the string at
/// position `k` is the one that goes by the id `k`.
pub open spec fn texts_of(log: Seq<Event>) -> Seq<Seq<char>>
    decreases log.len(),
{
    if log.len() == 0 {
        Seq::empty()
    } else {
        match log.last() {
            Event::Text(value) => texts_of(log.drop_last()).push(value),
            _ => texts_of(log.drop_last()),
        }
    }
}

/// The instruction pointers that a ledger defines, in their order: the
/// pointer at position `k` is the one that goes by the id `k`.
pub open spec fn pointers_of(log: Seq<Event>) -> Seq<u64>
    decreases log.len(),
{
    if log.len() == 0 {
        Seq::empty()
    } else {
        match log.last() {
            Event::Instruction { ip, module_idx, frames } => pointers_of(log.drop_last()).push(
                ip,
            ),
            _ => pointers_of(log.drop_last()),
        }
    }
}

/// There are as many defined strings and pointers as were counted.
pub proof fn lemma_counts(log: Seq<Event>)
    ensures
        texts_of(log).len() == strings_in(log),
        pointers_of(log).len() == instructions_in(log),
    decreases log.len(),
{
    if log.len() > 0 {
        lemma_counts(log.drop_last());
    }
}

/// Event `j` of `log` is the instruction that defines `ip` under the id `k`.
pub open spec fn defines_pointer(log: Seq<Event>, j: int, k: int, ip: u64) -> bool {
    &&& 0 <= j < log.len()
    &&& log[j] matches Event::Instruction { ip: defined, module_idx, frames }
    &&& defined == ip
    &&& instructions_in(log.take(j)) == k
}

/// Event `j` of `log` is the text that defines `value` under the id `k`.
pub open spec fn defines_string(log: Seq<Event>, j: int, k: int, value: Seq<char>) -> bool {
    &&& 0 <= j < log.len()
    &&& log[j] == Event::Text(value)
    &&& strings_in(log.take(j)) == k
}

/// Every pointer that a ledger defines has its instruction in the ledger,
/// behind exactly as many instructions as its id says.
pub proof fn lemma_pointer_is_defined(log: Seq<Event>, k: int)
    requires
        0 <= k < pointers_of(log).len(),
    ensures
        exists|j: int| defines_pointer(log, j, k, pointers_of(log)[k]),
    decreases log.len(),
{
    let init = log.drop_last();
    lemma_counts(init);
    if k < pointers_of(init).len() {
        lemma_pointer_is_defined(init, k);
        let j = choose|j: int| defines_pointer(init, j, k, pointers_of(init)[k]);
        assert(log[j] == init[j]);
        assert(log.take(j) == init.take(j));
        assert(defines_pointer(log, j, k, pointers_of(log)[k]));
    } else {
        let j = log.len() - 1;
        assert(log.take(j) == init);
        assert(defines_pointer(log, j, k, pointers_of(log)[k]));
    }
}

/// Every string that a ledger defines has its text in the ledger, behind
/// exactly as many texts as its id says.
pub proof fn lemma_string_is_defined(log: Seq<Event>, k: int)
    requires
        0 <= k < texts_of(log).len(),
    ensures
        exists|j: int| defines_string(log, j, k, texts_of(log)[k]),
    decreases log.len(),
{
    let init = log.drop_last();
    lemma_counts(init);
    if k < texts_of(init).len() {
        lemma_string_is_defined(init, k);
        let j = choose|j: int| defines_string(init, j, k, texts_of(init)[k]);
        assert(log[j] == init[j]);
        assert(log.take(j) == init.take(j));
        assert(defines_string(log, j, k, texts_of(log)[k]));
    } else {
        let j = log.len() - 1;
        assert(log.take(j) == init);
        assert(defines_string(log, j, k, texts_of(log)[k]));
    }
}

/// The strings that `frame` names are among the first `strings`.
pub open spec fn frame_ok(frame: Frame, strings: nat) -> bool {
    match frame {
        Frame::Single { function_idx } => function_idx < strings,
        Frame::Multiple { function_idx, file_idx, line_number } => function_idx < strings
            && file_idx < strings,
    }
}

/// Whether `e` may follow `before`: an instruction names strings that
/// `before` defines, a stack node names an instruction that `before`
/// defines and hangs below the root or a node of `before`, and an
/// allocation or a free names the root or a node of `before`. Strings and
/// instructions are numbered from 0, stack nodes from 1.
pub open spec fn refers_back(before: Seq<Event>, e: Event) -> bool {
    match e {
        Event::Instruction { ip, module_idx, frames } => {
            &&& module_idx < strings_in(before)
            &&& forall|i: int|
                0 <= i < frames.len() ==> frame_ok(#[trigger] frames[i], strings_in(before))
        },
        Event::Trace { ip_id, parent_idx } => ip_id < instructions_in(before) && parent_idx
            <= traces_in(before),
        Event::Alloc { size, idx } => idx <= traces_in(before),
        Event::Free { idx } => idx <= traces_in(before),
        _ => true,
    }
}

/// No event of the ledger refers to what is not defined before it.
pub open spec fn well_referenced(log: Seq<Event>) -> bool
    decreases log.len(),
{
    log.len() > 0 ==> well_referenced(log.drop_last()) && refers_back(
        log.drop_last(),
        log.last(),
    )
}

/// Referential integrity: in a ledger that is well referenced, every event
/// refers only to what the events before it define.
pub proof fn lemma_referential_integrity(log: Seq<Event>, k: int)
    requires
        well_referenced(log),
        0 <= k < log.len(),
    ensures
        refers_back(log.take(k), log[k]),
    decreases log.len(),
{
    if k == log.len() - 1 {
        assert(log.take(k) == log.drop_last());
    } else {
        lemma_referential_integrity(log.drop_last(), k);
        assert(log.drop_last().take(k) == log.take(k));
    }
}

/// One event more: the counts, the order and the text afterwards.
pub proof fn lemma_one_more(log: Seq<Event>, e: Event)
    ensures
        log.push(e) == log + seq![e],
        encode_events(seq![e]) == crate::output::encode_event(e),
        strings_in(log.push(e)) == strings_in(log) + if e is Text {
            1nat
        } else {
            0nat
        },
        instructions_in(log.push(e)) == instructions_in(log) + if e is Instruction {
            1nat
        } else {
            0nat
        },
        traces_in(log.push(e)) == traces_in(log) + if e is Trace {
            1nat
        } else {
            0nat
        },
        texts_of(log.push(e)) == match e {
            Event::Text(value) => texts_of(log).push(value),
            _ => texts_of(log),
        },
        pointers_of(log.push(e)) == match e {
            Event::Instruction { ip, module_idx, frames } => pointers_of(log).push(ip),
            _ => pointers_of(log),
        },
        well_referenced(log) && refers_back(log, e) ==> well_referenced(log.push(e)),
{
    assert(log.push(e).drop_last() == log);
    assert(seq![e].drop_last() == Seq::<Event>::empty());
    assert(encode_events(Seq::<Event>::empty()) == Seq::<char>::empty());
    assert(encode_events(seq![e]) == Seq::<char>::empty() + crate::output::encode_event(e));
}

pub proof fn lemma_encode_events_concat(first: Seq<Event>, second: Seq<Event>)
    ensures
        encode_events(first + second) == encode_events(first) + encode_events(second),
    decreases second.len(),
{
    if second.len() == 0 {
        assert(first + second == first);
    } else {
        lemma_encode_events_concat(first, second.drop_last());
        assert((first + second).drop_last() == first + second.drop_last());
        assert((first + second).last() == second.last());
    }
}

/// Two writes in a row are one write of both.
pub proof fn lemma_emitted_twice(
    log: Seq<Event>,
    out: Seq<char>,
    first: Seq<Event>,
    second: Seq<Event>,
)
    ensures
        (log + first) + second == log + (first + second),
        (out + encode_events(first)) + encode_events(second) == out + encode_events(
            first + second,
        ),
{
    lemma_encode_events_concat(first, second);
}

/// The events of interning `value`: its definition where it is new.
pub open spec fn string_events(strings: Seq<Seq<char>>, value: Seq<char>) -> Seq<Event> {
    if strings.contains(value) {
        Seq::empty()
    } else {
        seq![Event::Text(value)]
    }
}

/// The events of an instruction pointer that is new and resolved to the
/// function `name` of module `module_id`: the name's definition where the
/// name is new, then the instruction with its one frame.
pub open spec fn frame_events(
    strings: Seq<Seq<char>>,
    ip: u64,
    module_id: usize,
    name: Seq<char>,
) -> Seq<Event> {
    string_events(strings, name).push(
        Event::Instruction {
            ip,
            module_idx: module_id,
            frames: seq![Frame::Single { function_idx: index_of(strings, name) as usize }],
        },
    )
}

pub struct Interpreter {
    output: Output,
    strings: StringPool,
    frames: FramePool,
    resolver: Resolver,
    traces: usize,
    log: Ghost<Seq<Event>>,
}

impl Interpreter {
    /// All events written since the interpreter was made.
    pub closed spec fn log(&self) -> Seq<Event> {
        self.log@
    }

    /// The text written and not yet drained.
    pub closed spec fn output(&self) -> Seq<char> {
        self.output@
    }

    /// The strings interned so far; a string's position is its id.
    pub closed spec fn strings(&self) -> Seq<Seq<char>> {
        self.strings@
    }

    /// The instruction pointers interned so far; a pointer's position is
    /// its id.
    pub closed spec fn frames(&self) -> Seq<u64> {
        self.frames@
    }

    /// How many stack nodes the stream has brought.
    pub closed spec fn traces(&self) -> nat {
        self.traces as nat
    }

    /// For each address that a registered module occupies, the id of that
    /// module.
    pub closed spec fn modules(&self) -> Map<u64, usize> {
        self.resolver.modules()
    }

    /// The id of the module that occupies `ip`, if one is registered there.
    pub open spec fn module_at(&self, ip: u64) -> Option<usize> {
        if self.modules().contains_key(ip) {
            Some(self.modules()[ip])
        } else {
            None
        }
    }

    /// The ledger is well referenced, and defines exactly the strings, the
    /// instructions and the stack nodes that the interpreter has interned
    /// or counted, each under the id that the interpreter gave it; the id
    /// of every registered module is a string's id.
    pub closed spec fn wf(&self) -> bool {
        &&& self.strings.wf()
        &&& self.frames.wf()
        &&& self.resolver.wf()
        &&& well_referenced(self.log@)
        &&& texts_of(self.log@) == self.strings@
        &&& pointers_of(self.log@) == self.frames@
        &&& strings_in(self.log@) == self.strings@.len()
        &&& instructions_in(self.log@) == self.frames@.len()
        &&& traces_in(self.log@) == self.traces
        &&& forall|a: u64|
            self.resolver.modules().contains_key(a) ==> #[trigger] self.resolver.modules()[a]
                < self.strings@.len()
    }

    /// `later` is `self` with `events` written behind what was there.
    pub open spec fn emitted(&self, later: &Interpreter, events: Seq<Event>) -> bool {
        &&& later.log() == self.log() + events
        &&& later.output() == self.output() + encode_events(events)
    }

    /// Nothing but the ledger differs between `self` and `later`.
    pub open spec fn same_pools(&self, later: &Interpreter) -> bool {
        &&& later.strings() == self.strings()
        &&& later.frames() == self.frames()
        &&& later.traces() == self.traces()
        &&& later.modules() == self.modules()
    }

    /// `later` is `self` with some events written behind what was there.
    pub open spec fn grew(&self, later: &Interpreter) -> bool {
        &&& later.log().len() >= self.log().len()
        &&& self.emitted(later, later.log().skip(self.log().len() as int))
    }

    /// Referential integrity of what was written: at every moment the
    /// ledger is well referenced, the `k`-th string that it defines is the
    /// string with the id `k` and the `k`-th instruction that it defines
    /// is that of the pointer with the id `k`, it defines as many stack
    /// nodes as were counted, and every registered module goes by the id
    /// of a string.
    pub proof fn lemma_wf(&self)
        requires
            self.wf(),
        ensures
            well_referenced(self.log()),
            texts_of(self.log()) == self.strings(),
            pointers_of(self.log()) == self.frames(),
            strings_in(self.log()) == self.strings().len(),
            instructions_in(self.log()) == self.frames().len(),
            traces_in(self.log()) == self.traces(),
            forall|a: u64|
                self.modules().contains_key(a) ==> #[trigger] self.modules()[a]
                    < self.strings().len(),
    {
    }

    pub fn new() -> (interpreter: Self)
        ensures
            interpreter.wf(),
            interpreter.log() == Seq::<Event>::empty(),
            interpreter.output() == Seq::<char>::empty(),
            interpreter.strings() == Seq::<Seq<char>>::empty(),
            interpreter.frames() == Seq::<u64>::empty(),
            interpreter.traces() == 0,
            interpreter.modules() == Map::<u64, usize>::empty(),
    {
        Interpreter {
            output: Output::new(),
            strings: StringPool::new(),
            frames: FramePool::new(),
            resolver: Resolver::new(),
            traces: 0,
            log: Ghost(Seq::empty()),
        }
    }

    /// What interning `value` amounts to: the string is in the pool, its
    /// definition was written if it was new, and nothing else changed.
    pub open spec fn string_taken(&self, later: &Interpreter, value: Seq<char>) -> bool {
        &&& later.strings() == interned(self.strings(), value)
        &&& later.frames() == self.frames()
        &&& later.traces() == self.traces()
        &&& later.modules() == self.modules()
        &&& self.emitted(later, string_events(self.strings(), value))
    }

    /// What taking in the image of a module amounts to. The module's name
    /// is interned in any case. Without debug information the module is not
    /// found; with it, an empty interval or one beyond the address space is
    /// invalid; else the module takes over its interval under the id of its
    /// name. On an error the modules stay as they were.
    pub open spec fn image_taken(
        &self,
        later: &Interpreter,
        name: Seq<char>,
        start_address: usize,
        size: usize,
        loader_given: bool,
        r: Result<(), Error>,
    ) -> bool {
        &&& later.strings() == interned(self.strings(), name)
        &&& later.frames() == self.frames()
        &&& later.traces() == self.traces()
        &&& self.emitted(later, string_events(self.strings(), name))
        &&& !loader_given ==> failed_with(r, crate::resolver::Error::ModuleNotFound)
        &&& (loader_given && (size == 0 || start_address + size > u64::MAX)) ==> failed_with(
            r,
            crate::resolver::Error::InvalidRange,
        )
        &&& (loader_given && size > 0 && start_address + size <= u64::MAX) ==> r is Ok
        &&& r is Err ==> later.modules() == self.modules()
        &&& r is Ok ==> later.modules() == self.modules().union_prefer_right(
            Resolver::interval(
                start_address as int,
                start_address + size,
                index_of(self.strings(), name) as usize,
            ),
        )
    }

    /// What taking in a stack node amounts to. A parent that the stream
    /// has not brought is an error, and so is a pointer that is new and
    /// lies in no module; a pointer that is known never fails. On an error
    /// nothing changes. On success the node is counted and written last,
    /// with the pointer's id; for a pointer that is new, the definition of
    /// its function's name, where that is new, and its instruction are
    /// written before.
    pub open spec fn trace_taken(
        &self,
        later: &Interpreter,
        ip: usize,
        parent_idx: usize,
        r: Result<(), Error>,
    ) -> bool {
        &&& later.modules() == self.modules()
        &&& (parent_idx > self.traces() || self.traces() >= usize::MAX) ==> r is Err
        &&& (parent_idx <= self.traces() && self.traces() < usize::MAX && self.frames().contains(
            ip as u64,
        )) ==> r is Ok
        &&& (parent_idx <= self.traces() && self.traces() < usize::MAX && self.module_at(ip as u64)
            is None && !self.frames().contains(ip as u64)) ==> r is Err
        &&& r is Err ==> is_custom(r) && self.emitted(later, Seq::empty()) && self.same_pools(
            later,
        )
        &&& r is Ok ==> later.traces() == self.traces() + 1 && later.frames() == interned(
            self.frames(),
            ip as u64,
        )
        &&& (r is Ok && self.frames().contains(ip as u64)) ==> later.strings() == self.strings()
            && self.emitted(
            later,
            seq![
                Event::Trace {
                    ip_id: index_of(self.frames(), ip as u64) as usize,
                    parent_idx: parent_idx as u64,
                },
            ],
        )
        &&& (r is Ok && !self.frames().contains(ip as u64)) ==> exists|name: Seq<char>|
            is_resolved_name(name) && later.strings() == interned(self.strings(), name)
                && self.emitted(
                later,
                (#[trigger] frame_events(
                    self.strings(),
                    ip as u64,
                    self.module_at(ip as u64)->0,
                    name,
                )).push(
                    Event::Trace {
                        ip_id: self.frames().len() as usize,
                        parent_idx: parent_idx as u64,
                    },
                ),
            )
    }

    /// What taking in an allocation amounts to: it is written where its
    /// stack node is the root or one that the stream has brought, and is an
    /// error else. Nothing but the ledger changes.
    pub open spec fn alloc_taken(
        &self,
        later: &Interpreter,
        size: usize,
        stack_idx: usize,
        r: Result<(), Error>,
    ) -> bool {
        &&& self.same_pools(later)
        &&& stack_idx <= self.traces() ==> r is Ok && self.emitted(
            later,
            seq![Event::Alloc { size: size as u64, idx: stack_idx }],
        )
        &&& stack_idx > self.traces() ==> is_custom(r) && self.emitted(later, Seq::empty())
    }

    /// A pointer that was interned has its instruction in the ledger, behind
    /// as many instructions as its id says.
    pub proof fn lemma_known_pointer_is_defined(&self, ip: u64)
        requires
            self.wf(),
            self.frames().contains(ip),
        ensures
            exists|j: int| defines_pointer(self.log(), j, index_of(self.frames(), ip), ip),
    {
        let k = index_of(self.frames(), ip);
        lemma_interning_is_stable(self.frames@, ip, ip);
        assert(self.frames@[k] == ip);
        lemma_pointer_is_defined(self.log@, k);
        let j = choose|j: int| defines_pointer(self.log@, j, k, pointers_of(self.log@)[k]);
        assert(defines_pointer(self.log(), j, k, ip));
    }

    /// What grew by `events` grew.
    pub proof fn lemma_grew(&self, later: &Interpreter, events: Seq<Event>)
        requires
            self.emitted(later, events),
        ensures
            self.grew(later),
    {
        assert((self.log() + events).skip(self.log().len() as int) == events);
    }

    /// Interns `value` and returns its id; a string that is new is written
    /// to the ledger.
    pub fn write_string(&mut self, value: &str) -> (id: usize)
        requires
            old(self).wf(),
        ensures
            final(self).wf(),
            id == index_of(old(self).strings(), value@),
            id < final(self).strings().len(),
            old(self).string_taken(final(self), value@),
    {
        proof {
            lemma_interning_is_stable(self.strings@, value@, value@);
            assert(self.log@ + Seq::<Event>::empty() == self.log@);
            assert(self.output@ + encode_events(Seq::<Event>::empty()) == self.output@);
        }
        match self.strings.get_full(value) {
            Some(id) => id,
            None => {
                let ghost before = self.log@;
                let placed = self.strings.insert_full(value);
                self.output.write_string(value);
                self.log = Ghost(before.push(Event::Text(value@)));
                proof {
                    lemma_one_more(before, Event::Text(value@));
                }
                placed.0
            },
        }
    }

    /// Defines the instruction pointer `ip`, which is new, as the function
    /// that `location` names, and returns its id.
    #[verifier::rlimit(50)]
    pub fn emit_frame(&mut self, ip: u64, location: &Location) -> (id: usize)
        requires
            old(self).wf(),
            !old(self).frames().contains(ip),
            location.module_id < old(self).strings().len(),
        ensures
            final(self).wf(),
            id == old(self).frames().len(),
            final(self).frames() == old(self).frames().push(ip),
            final(self).strings() == interned(old(self).strings(), location.function_name@),
            final(self).traces() == old(self).traces(),
            final(self).modules() == old(self).modules(),
            old(self).emitted(
                final(self),
                frame_events(
                    old(self).strings(),
                    ip,
                    location.module_id,
                    location.function_name@,
                ),
            ),
    {
        let ghost log = self.log@;
        let ghost out = self.output@;
        let ghost texts = string_events(self.strings@, location.function_name@);
        let function_idx = self.write_string(location.function_name.as_str());
        let ghost before = self.log@;
        let placed = self.frames.insert_full(ip);
        let mut frames: Vec<Frame> = Vec::new();
        frames.push(Frame::Single { function_idx });
        self.output.write_instruction(ip, location.module_id, frames.as_slice());
        let ghost event = Event::Instruction {
            ip,
            module_idx: location.module_id,
            frames: frames@,
        };
        self.log = Ghost(before.push(event));
        proof {
            assert(frames@ == seq![Frame::Single { function_idx }]);
            assert(frame_ok(frames@[0], strings_in(before)));
            lemma_one_more(before, event);
            lemma_emitted_twice(log, out, texts, seq![event]);
            assert(texts + seq![event] == texts.push(event));
        }
        placed.0
    }

    /// The id of the instruction pointer `ip`. A pointer that is new is
    /// resolved and defined first; where it does not resolve, that is an
    /// error and nothing changes.
    #[verifier::rlimit(50)]
    pub fn add_frame(&mut self, ip: u64) -> (r: Result<usize, Error>)
        requires
            old(self).wf(),
        ensures
            final(self).wf(),
            final(self).traces() == old(self).traces(),
            final(self).modules() == old(self).modules(),
            old(self).frames().contains(ip) ==> r is Ok,
            old(self).module_at(ip) is None && !old(self).frames().contains(ip) ==> r is Err,
            r is Err ==> is_custom(r) && old(self).emitted(final(self), Seq::empty()) && old(
                self,
            ).same_pools(final(self)),
            r matches Ok(id) ==> id < final(self).frames().len() && final(self).frames()
                == interned(old(self).frames(), ip) && id == index_of(old(self).frames(), ip),
            (r is Ok && old(self).frames().contains(ip)) ==> old(self).emitted(
                final(self),
                Seq::empty(),
            ) && old(self).same_pools(final(self)),
            (r is Ok && !old(self).frames().contains(ip)) ==> exists|name: Seq<char>|
                is_resolved_name(name) && final(self).strings() == interned(old(self).strings(), name) && old(
                    self,
                ).emitted(
                    final(self),
                    #[trigger] frame_events(
                        old(self).strings(),
                        ip,
                        old(self).module_at(ip)->0,
                        name,
                    ),
                ),
    {
        proof {
            lemma_interning_is_stable(self.frames@, ip, ip);
            assert(self.log@ + Seq::<Event>::empty() == self.log@);
            assert(self.output@ + encode_events(Seq::<Event>::empty()) == self.output@);
        }
        match self.frames.get_full(ip) {
            Some(id) => Ok(id),
            None => {
                match self.resolver.lookup(ip) {
                    Some(location) => {
                        assert(self.resolver.modules().contains_key(ip));
                        assert(self.resolver.modules()[ip] < self.strings@.len());
                        let id = self.emit_frame(ip, &location);
                        proof {
                            let name = location.function_name@;
                            assert(is_resolved_name(name));
                            assert(self.strings() == interned(old(self).strings(), name));
                            assert(old(self).emitted(
                                self,
                                frame_events(
                                    old(self).strings(),
                                    ip,
                                    old(self).module_at(ip)->0,
                                    name,
                                ),
                            ));
                        }
                        Ok(id)
                    },
                    None => Err(Error::Custom(String::from_str("ip location not found"))),
                }
            },
        }
    }

    /// Notes an event that was just written and that defines nothing.
    fn emit(&mut self, Ghost(event): Ghost<Event>, Ghost(out): Ghost<Seq<char>>)
        requires
            old(self).wf(),
            refers_back(old(self).log(), event),
            !(event is Text),
            !(event is Instruction),
            !(event is Trace),
            old(self).output() == out + crate::output::encode_event(event),
        ensures
            final(self).wf(),
            old(self).same_pools(final(self)),
            final(self).log() == old(self).log() + seq![event],
            final(self).output() == out + encode_events(seq![event]),
    {
        let ghost before = self.log@;
        self.log = Ghost(before.push(event));
        proof {
            lemma_one_more(before, event);
        }
    }

    /// A stack node: `ip` is given its id, defined first where it is new,
    /// and the node is written with that id. A parent that the stream has
    /// not brought is an error, as is a pointer that does not resolve; then
    /// nothing changes.
    #[verifier::rlimit(50)]
    pub fn on_trace(&mut self, ip: usize, parent_idx: usize) -> (r: Result<(), Error>)
        requires
            old(self).wf(),
        ensures
            final(self).wf(),
            old(self).grew(final(self)),
            old(self).trace_taken(final(self), ip, parent_idx, r),
    {
        proof {
            assert(self.log@ + Seq::<Event>::empty() == self.log@);
            assert(self.output@ + encode_events(Seq::<Event>::empty()) == self.output@);
            lemma_interning_is_stable(self.frames@, ip as u64, ip as u64);
        }
        if parent_idx > self.traces || self.traces == usize::MAX {
            proof {
                old(self).lemma_grew(self, Seq::empty());
            }
            return Err(Error::Custom(String::from_str("trace parent not found")));
        }
        let ghost log = self.log@;
        let ghost out = self.output@;
        let ghost known = self.frames@.contains(ip as u64);
        let ghost strings = self.strings@;
        let ghost module = self.module_at(ip as u64);
        let ip_id = match self.add_frame(ip as u64) {
            Ok(id) => id,
            Err(e) => {
                proof {
                    old(self).lemma_grew(self, Seq::empty());
                }
                return Err(e);
            },
        };
        let ghost before = self.log@;
        let ghost middle = self.output@;
        let ghost event = Event::Trace { ip_id, parent_idx: parent_idx as u64 };
        self.output.write_trace(ip_id, parent_idx as u64);
        self.traces = self.traces + 1;
        self.log = Ghost(before.push(event));
        proof {
            lemma_one_more(before, event);
            if known {
                lemma_emitted_twice(log, out, Seq::empty(), seq![event]);
                assert(Seq::<Event>::empty() + seq![event] == seq![event]);
                old(self).lemma_grew(self, seq![event]);
            } else {
                let name = choose|name: Seq<char>|
                    is_resolved_name(name) && self.strings@ == interned(strings, name) && before == log + #[trigger] frame_events(
                        strings,
                        ip as u64,
                        module->0,
                        name,
                    ) && middle == out + encode_events(
                        frame_events(strings, ip as u64, module->0, name),
                    );
                let defined = frame_events(strings, ip as u64, module->0, name);
                lemma_emitted_twice(log, out, defined, seq![event]);
                assert(defined + seq![event] == defined.push(event));
                old(self).lemma_grew(self, defined.push(event));
            }
        }
        Ok(())
    }

    /// An allocation of `size` bytes at the stack node `stack_idx`. A node
    /// that the stream has not brought is an error.
    pub fn on_alloc(&mut self, size: usize, stack_idx: usize) -> (r: Result<(), Error>)
        requires
            old(self).wf(),
        ensures
            final(self).wf(),
            old(self).alloc_taken(final(self), size, stack_idx, r),
    {
        if stack_idx > self.traces {
            proof {
                assert(self.log@ + Seq::<Event>::empty() == self.log@);
                assert(self.output@ + encode_events(Seq::<Event>::empty()) == self.output@);
            }
            return Err(Error::Custom(String::from_str("allocation stack not found")));
        }
        let ghost out = self.output@;
        self.output.write_alloc(size as u64, stack_idx);
        self.emit(Ghost(Event::Alloc { size: size as u64, idx: stack_idx }), Ghost(out));
        Ok(())
    }

    /// A module was loaded: its name is interned, and the module is
    /// registered under the name's id with the debug information that was
    /// loaded for it.
    pub fn on_image(
        &mut self,
        name: &str,
        start_address: usize,
        size: usize,
        loader: Option<Loader>,
    ) -> (r: Result<(), Error>)
        requires
            old(self).wf(),
        ensures
            final(self).wf(),
            old(self).image_taken(final(self), name@, start_address, size, loader is Some, r),
    {
        let module_id = self.write_string(name);
        match self.resolver.add_module(module_id, name, start_address as u64, size as u64, loader) {
            Ok(()) => Ok(()),
            Err(e) => Err(Error::Resolver(e)),
        }
    }

    /// Takes in one raw record. `loader` is the debug information of the
    /// module that an image record names, where it could be loaded. What is
    /// written for each kind of record: the version with the format's
    /// version; the target's path as a string; a module's name as a
    /// string; the page info, the duration and the resident set size as
    /// they are; a stack node and an allocation as `on_trace` and
    /// `on_alloc` say; nothing for a free.
    #[verifier::rlimit(50)]
    pub fn handle_record(&mut self, record: Record, loader: Option<Loader>) -> (r: Result<
        (),
        Error,
    >)
        requires
            old(self).wf(),
        ensures
            final(self).wf(),
            old(self).grew(final(self)),
            match record@ {
                RecordView::Version(version) => r is Ok && old(self).same_pools(final(self))
                    && old(self).emitted(
                    final(self),
                    seq![Event::Version { version, file_version: FILE_VERSION }],
                ),
                RecordView::Exec(name) => r is Ok && old(self).string_taken(final(self), name),
                RecordView::Image { name, start_address, size } => old(self).image_taken(
                    final(self),
                    name,
                    start_address,
                    size,
                    loader is Some,
                    r,
                ),
                RecordView::PageInfo { size, pages } => r is Ok && old(self).same_pools(
                    final(self),
                ) && old(self).emitted(
                    final(self),
                    seq![Event::PageInfo { page_size: size, pages }],
                ),
                RecordView::Trace { ip, parent_idx } => old(self).trace_taken(
                    final(self),
                    ip,
                    parent_idx,
                    r,
                ),
                RecordView::Alloc { ptr, size, parent_idx } => old(self).alloc_taken(
                    final(self),
                    size,
                    parent_idx,
                    r,
                ),
                RecordView::Free { ptr } => r is Ok && old(self).same_pools(final(self)) && old(
                    self,
                ).emitted(final(self), Seq::empty()),
                RecordView::Duration(millis) => r is Ok && old(self).same_pools(final(self))
                    && old(self).emitted(final(self), seq![Event::Duration(millis)]),
                RecordView::RSS(rss) => r is Ok && old(self).same_pools(final(self)) && old(
                    self,
                ).emitted(final(self), seq![Event::RSS(rss)]),
            },
    {
        let ghost out = self.output@;
        let ghost log = self.log@;
        proof {
            assert(self.log@ + Seq::<Event>::empty() == self.log@);
            assert(self.output@ + encode_events(Seq::<Event>::empty()) == self.output@);
        }
        match record {
            Record::Version(version) => {
                self.output.write_version(version, FILE_VERSION);
                self.emit(
                    Ghost(Event::Version { version, file_version: FILE_VERSION }),
                    Ghost(out),
                );
                proof {
                    old(self).lemma_grew(
                        self,
                        seq![Event::Version { version, file_version: FILE_VERSION }],
                    );
                }
                Ok(())
            },
            Record::Exec(cmd) => {
                self.write_string(cmd.as_str());
                proof {
                    old(self).lemma_grew(self, string_events(old(self).strings(), cmd@));
                }
                Ok(())
            },
            Record::Image { name, start_address, size } => {
                let r = self.on_image(name.as_str(), start_address, size, loader);
                proof {
                    old(self).lemma_grew(self, string_events(old(self).strings(), name@));
                }
                r
            },
            Record::PageInfo { size, pages } => {
                self.output.write_page_info(size, pages);
                self.emit(Ghost(Event::PageInfo { page_size: size, pages }), Ghost(out));
                proof {
                    old(self).lemma_grew(self, seq![Event::PageInfo { page_size: size, pages }]);
                }
                Ok(())
            },
            Record::Trace { ip, parent_idx } => self.on_trace(ip, parent_idx),
            Record::Alloc { ptr, size, parent_idx } => {
                let r = self.on_alloc(size, parent_idx);
                proof {
                    if parent_idx <= old(self).traces() {
                        old(self).lemma_grew(
                            self,
                            seq![Event::Alloc { size: size as u64, idx: parent_idx }],
                        );
                    } else {
                        old(self).lemma_grew(self, Seq::empty());
                    }
                }
                r
            },
            Record::Free { ptr } => {
                proof {
                    old(self).lemma_grew(self, Seq::empty());
                }
                Ok(())
            },
            Record::Duration(millis) => {
                self.output.write_duration(millis);
                self.emit(Ghost(Event::Duration(millis)), Ghost(out));
                proof {
                    old(self).lemma_grew(self, seq![Event::Duration(millis)]);
                }
                Ok(())
            },
            Record::RSS(rss) => {
                self.output.write_rss(rss);
                self.emit(Ghost(Event::RSS(rss)), Ghost(out));
                proof {
                    old(self).lemma_grew(self, seq![Event::RSS(rss)]);
                }
                Ok(())
            },
        }
    }

    /// Hands out the text written so far, for the file, and leaves the
    /// buffer empty.
    pub fn take_output(&mut self) -> (text: String)
        requires
            old(self).wf(),
        ensures
            final(self).wf(),
            text@ == old(self).output(),
            final(self).output() == Seq::<char>::empty(),
            final(self).log() == old(self).log(),
            old(self).same_pools(final(self)),
    {
        self.output.take()
    }
}

} // verus!
