//! The capture agent's bookkeeping: every allocator event becomes records of
//! the raw ledger, with the stack it came from interned first, so that a
//! record never names a stack node that the stream has not announced.
use crate::dylib::Image;
use crate::pipe_io::{encode, PipeWriter, Record, RecordView};
use crate::trace::Trace;
use crate::trace_tree::{
    created, extends, intern, lemma_interned_stack_is_known, path, tree_wf, Nodes, TraceTree,
};
use vstd::prelude::*;

verus! {

/// The protocol version that the agent announces.
pub const VERSION: u16 = 100;

/// How many stack nodes a stream has announced.
pub open spec fn traces_in(log: Seq<RecordView>) -> nat
    decreases log.len(),
{
    if log.len() == 0 {
        0
    } else {
        traces_in(log.drop_last()) + if log.last() is Trace {
            1nat
        } else {
            0nat
        }
    }
}

/// Whether `r` may follow `before`: a stack node hangs below the root or a
/// node announced in `before`, and an allocation names the root or such a
/// node. The node announced by the `k`-th trace record has index `k`.
pub open spec fn refers_back(before: Seq<RecordView>, r: RecordView) -> bool {
    match r {
        RecordView::Trace { ip, parent_idx } => parent_idx <= traces_in(before),
        RecordView::Alloc { ptr, size, parent_idx } => parent_idx <= traces_in(before),
        _ => true,
    }
}

/// No record of the stream refers forward.
pub open spec fn stream_ok(log: Seq<RecordView>) -> bool
    decreases log.len(),
{
    log.len() > 0 ==> stream_ok(log.drop_last()) && refers_back(log.drop_last(), log.last())
}

/// The lines of `records`, one after the other.
pub open spec fn encode_all(records: Seq<RecordView>) -> Seq<char>
    decreases records.len(),
{
    if records.len() == 0 {
        Seq::empty()
    } else {
        encode_all(records.drop_last()) + encode(records.last())
    }
}

/// The trace records that announce `nodes`, in their order.
pub open spec fn trace_records(nodes: Nodes) -> Seq<RecordView> {
    nodes.map_values(|n: (usize, usize)| RecordView::Trace { ip: n.0, parent_idx: n.1 })
}

/// The image records of `images`, in their order.
pub open spec fn image_records(images: Seq<Image>) -> Seq<RecordView> {
    images.map_values(
        |image: Image|
            RecordView::Image {
                name: image.name@,
                start_address: image.start_address,
                size: image.size,
            },
    )
}

pub proof fn lemma_encode_all_concat(first: Seq<RecordView>, second: Seq<RecordView>)
    ensures
        encode_all(first + second) == encode_all(first) + encode_all(second),
    decreases second.len(),
{
    if second.len() == 0 {
        assert(first + second == first);
    } else {
        lemma_encode_all_concat(first, second.drop_last());
        assert((first + second).drop_last() == first + second.drop_last());
        assert((first + second).last() == second.last());
    }
}

/// Parent before child, in the stream: a trace record with parent index `p`
/// stands behind at least `p` trace records, so that the node with index
/// `p` was announced before it; and an allocation stands behind the trace
/// records of every node on its stack.
pub proof fn lemma_no_forward_reference(log: Seq<RecordView>, k: int)
    requires
        stream_ok(log),
        0 <= k < log.len(),
    ensures
        refers_back(log.take(k), log[k]),
    decreases log.len(),
{
    if k == log.len() - 1 {
        assert(log.take(k) == log.drop_last());
    } else {
        lemma_no_forward_reference(log.drop_last(), k);
        assert(log.drop_last().take(k) == log.take(k));
    }
}

/// One record more: the stream stays in order where the record refers
/// back, and the text grows by the record's line.
pub proof fn lemma_one_more(log: Seq<RecordView>, r: RecordView)
    ensures
        log.push(r) == log + seq![r],
        encode_all(seq![r]) == encode(r),
        encode_all(log.push(r)) == encode_all(log) + encode(r),
        traces_in(log.push(r)) == traces_in(log) + if r is Trace {
            1nat
        } else {
            0nat
        },
        stream_ok(log) && refers_back(log, r) ==> stream_ok(log.push(r)),
{
    assert(log.push(r).drop_last() == log);
    assert(seq![r].drop_last() == Seq::<RecordView>::empty());
    assert(encode_all(Seq::<RecordView>::empty()) == Seq::<char>::empty());
    assert(encode_all(seq![r]) == Seq::<char>::empty() + encode(r));
}

/// Two writes in a row are one write of both.
pub proof fn lemma_wrote_twice(
    log: Seq<RecordView>,
    out: Seq<char>,
    first: Seq<RecordView>,
    second: Seq<RecordView>,
)
    ensures
        (log + first) + second == log + (first + second),
        (out + encode_all(first)) + encode_all(second) == out + encode_all(first + second),
{
    lemma_encode_all_concat(first, second);
}

pub struct Tracker {
    writer: PipeWriter,
    trace_tree: TraceTree,
    log: Ghost<Seq<RecordView>>,
}

impl Tracker {
    /// All records written since the tracker was made.
    pub closed spec fn log(&self) -> Seq<RecordView> {
        self.log@
    }

    /// The text written and not yet drained.
    pub closed spec fn output(&self) -> Seq<char> {
        self.writer@
    }

    /// The stack tree.
    pub closed spec fn tree(&self) -> Nodes {
        self.trace_tree@
    }

    /// The stream refers only backwards, and has announced every node of
    /// the tree but the root.
    pub closed spec fn wf(&self) -> bool {
        &&& self.trace_tree.wf()
        &&& stream_ok(self.log@)
        &&& traces_in(self.log@) + 1 == self.trace_tree@.len()
    }

    /// `later` is `self` with `records` written behind what was there, and
    /// the tree as it was.
    pub open spec fn wrote(&self, later: &Tracker, records: Seq<RecordView>) -> bool {
        &&& later.log() == self.log() + records
        &&& later.output() == self.output() + encode_all(records)
    }

    /// Parent before child, at every moment: the stream written so far
    /// refers only backwards, and it has announced exactly the nodes of the
    /// tree, the root aside.
    pub proof fn lemma_wf(&self)
        requires
            self.wf(),
        ensures
            tree_wf(self.tree()),
            stream_ok(self.log()),
            traces_in(self.log()) + 1 == self.tree().len(),
    {
        self.trace_tree.lemma_wf_is_tree();
    }

    pub fn new() -> (tracker: Self)
        ensures
            tracker.wf(),
            tracker.log() == Seq::<RecordView>::empty(),
            tracker.output() == Seq::<char>::empty(),
            tracker.tree() == seq![(0usize, 0usize)],
    {
        Tracker { writer: PipeWriter::new(), trace_tree: TraceTree::new(), log: Ghost(Seq::empty()) }
    }

    /// Writes one record.
    fn put(&mut self, record: &Record)
        requires
            old(self).wf(),
            refers_back(old(self).log(), record@),
            !(record@ is Trace),
        ensures
            final(self).wf(),
            final(self).tree() == old(self).tree(),
            old(self).wrote(final(self), seq![record@]),
    {
        let ghost before = self.log@;
        let ghost r = record@;
        match record {
            Record::Version(version) => self.writer.write_version(*version),
            Record::Exec(name) => self.writer.write_exec(name.as_str()),
            Record::Image { name, start_address, size } => self.writer.write_image(
                name.as_str(),
                *start_address,
                *size,
            ),
            Record::PageInfo { size, pages } => self.writer.write_page_info(*size, *pages),
            Record::Trace { ip, parent_idx } => self.writer.write_trace(*ip, *parent_idx),
            Record::Alloc { ptr, size, parent_idx } => self.writer.write_alloc(
                *size,
                *parent_idx,
                *ptr,
            ),
            Record::Free { ptr } => self.writer.write_free(*ptr),
            Record::Duration(duration) => self.writer.write_duration(*duration),
            Record::RSS(rss) => self.writer.write_rss(*rss),
        }
        self.log = Ghost(before.push(r));
        proof {
            lemma_one_more(before, r);
        }
    }

    /// Interns the stack of `trace` and announces the nodes that are new.
    #[verifier::rlimit(50)]
    fn intern_stack(&mut self, trace: Trace) -> (idx: usize)
        requires
            old(self).wf(),
        ensures
            final(self).wf(),
            final(self).tree() == intern(old(self).tree(), 0, trace.stack()).0,
            idx == intern(old(self).tree(), 0, trace.stack()).1,
            idx <= traces_in(final(self).log()),
            extends(final(self).tree(), old(self).tree()),
            path(final(self).tree(), idx as int) == trace.stack(),
            old(self).wrote(
                final(self),
                trace_records(created(old(self).tree(), final(self).tree())),
            ),
    {
        let mut fresh: Vec<(usize, usize)> = Vec::new();
        let idx = self.trace_tree.index(trace, &mut fresh);
        let ghost nodes = self.trace_tree@;
        let ghost new = created(old(self).tree(), nodes);
        let ghost base = old(self).tree().len() as int;
        proof {
            self.trace_tree.lemma_wf_is_tree();
            assert(fresh@ == new);
            assert(new.take(0) == Seq::<(usize, usize)>::empty());
            assert(trace_records(new.take(0)) == Seq::<RecordView>::empty());
            assert(old(self).log@ + trace_records(new.take(0)) == old(self).log@);
        }
        let mut k: usize = 0;
        while k < fresh.len()
            invariant
                k <= fresh@.len(),
                fresh@ == new,
                new == created(old(self).tree(), nodes),
                base == old(self).tree().len(),
                base + new.len() == nodes.len(),
                self.trace_tree@ == nodes,
                self.trace_tree.wf(),
                tree_wf(nodes),
                stream_ok(self.log@),
                traces_in(self.log@) + 1 == base + k,
                self.log@ == old(self).log@ + trace_records(new.take(k as int)),
                self.writer@ == old(self).writer@ + encode_all(trace_records(new.take(k as int))),
            decreases fresh.len() - k,
        {
            let (ip, parent_idx) = fresh[k];
            let ghost before = self.log@;
            let ghost record = RecordView::Trace { ip, parent_idx };
            self.writer.write_trace(ip, parent_idx);
            self.log = Ghost(self.log@.push(record));
            proof {
                assert(new[k as int] == nodes[base + k]);
                assert(nodes[base + k].1 < base + k);
                assert(self.log@.drop_last() == before);
                let done = trace_records(new.take(k as int));
                let more = trace_records(new.take(k + 1));
                assert(more == done.push(record));
                assert(more.drop_last() == done);
                assert(old(self).log@ + more == (old(self).log@ + done).push(record));
            }
            k += 1;
        }
        proof {
            assert(new.take(new.len() as int) == new);
        }
        idx
    }

    /// The agent's opening: the protocol version, the target's path, one
    /// image record per loaded module, and the machine's memory.
    #[verifier::rlimit(50)]
    pub fn init(&mut self, exec_path: &str, images: &Vec<Image>, page_size: usize, phys_pages: usize)
        requires
            old(self).wf(),
        ensures
            final(self).wf(),
            final(self).tree() == old(self).tree(),
            old(self).wrote(
                final(self),
                seq![RecordView::Version(VERSION), RecordView::Exec(exec_path@)] + image_records(
                    images@,
                ) + seq![RecordView::PageInfo { size: page_size, pages: phys_pages }],
            ),
    {
        let ghost log = self.log();
        let ghost out = self.output();
        let ghost version = seq![RecordView::Version(VERSION)];
        let ghost exec = seq![RecordView::Exec(exec_path@)];
        let ghost head = seq![RecordView::Version(VERSION), RecordView::Exec(exec_path@)];
        self.put(&Record::Version(VERSION));
        self.put(&Record::Exec(String::from_str(exec_path)));
        proof {
            lemma_wrote_twice(log, out, version, exec);
            assert(version + exec == head);
            assert(image_records(images@.take(0)) == Seq::<RecordView>::empty());
            assert(head + image_records(images@.take(0)) == head);
        }
        let mut k: usize = 0;
        while k < images.len()
            invariant
                k <= images@.len(),
                self.wf(),
                self.tree() == old(self).tree(),
                self.log() == log + (head + image_records(images@.take(k as int))),
                self.output() == out + encode_all(head + image_records(images@.take(k as int))),
            decreases images.len() - k,
        {
            let ghost done = head + image_records(images@.take(k as int));
            let image = &images[k];
            let record = Record::Image {
                name: image.name.clone(),
                start_address: image.start_address,
                size: image.size,
            };
            self.put(&record);
            proof {
                lemma_wrote_twice(log, out, done, seq![record@]);
                assert(image_records(images@.take(k + 1)) == image_records(
                    images@.take(k as int),
                ).push(record@));
                assert(done + seq![record@] == head + image_records(images@.take(k + 1)));
            }
            k += 1;
        }
        let ghost done = head + image_records(images@);
        let ghost last = seq![RecordView::PageInfo { size: page_size, pages: phys_pages }];
        proof {
            assert(images@.take(images@.len() as int) == images@);
        }
        self.put(&Record::PageInfo { size: page_size, pages: phys_pages });
        proof {
            lemma_wrote_twice(log, out, done, last);
        }
    }

    /// An allocation of `size` bytes at `ptr`, made at the stack of `trace`.
    /// The nodes of the stack that are new are announced, then the
    /// allocation is written with the index of the stack's last node. A
    /// null pointer is an allocation that failed, and leaves no record.
    pub fn on_malloc(&mut self, size: usize, ptr: usize, trace: Trace)
        requires
            old(self).wf(),
        ensures
            final(self).wf(),
            extends(final(self).tree(), old(self).tree()),
            ptr != 0 ==> path(
                final(self).tree(),
                intern(old(self).tree(), 0, trace.stack()).1,
            ) == trace.stack(),
            ptr == 0 ==> final(self).tree() == old(self).tree() && old(self).wrote(
                final(self),
                Seq::empty(),
            ),
            ptr != 0 ==> final(self).tree() == intern(old(self).tree(), 0, trace.stack()).0
                && old(self).wrote(
                final(self),
                trace_records(created(old(self).tree(), final(self).tree())).push(
                    RecordView::Alloc {
                        ptr,
                        size,
                        parent_idx: intern(old(self).tree(), 0, trace.stack()).1 as usize,
                    },
                ),
            ),
    {
        if ptr == 0 {
            proof {
                assert(self.log() + Seq::<RecordView>::empty() == self.log());
                assert(self.output() + encode_all(Seq::<RecordView>::empty()) == self.output());
                assert(self.tree().subrange(0, self.tree().len() as int) == self.tree());
            }
            return ;
        }
        let ghost log = self.log();
        let ghost out = self.output();
        let idx = self.intern_stack(trace);
        let ghost traces = trace_records(created(old(self).tree(), self.tree()));
        let record = Record::Alloc { ptr, size, parent_idx: idx };
        self.put(&record);
        proof {
            lemma_wrote_twice(log, out, traces, seq![record@]);
            assert(traces + seq![record@] == traces.push(record@));
        }
    }

    /// As `on_malloc`, for `num` items of `size` bytes each.
    pub fn on_calloc(&mut self, num: usize, size: usize, ptr: usize, trace: Trace)
        requires
            old(self).wf(),
            num * size <= usize::MAX,
        ensures
            final(self).wf(),
            extends(final(self).tree(), old(self).tree()),
            ptr != 0 ==> path(
                final(self).tree(),
                intern(old(self).tree(), 0, trace.stack()).1,
            ) == trace.stack(),
            ptr == 0 ==> final(self).tree() == old(self).tree() && old(self).wrote(
                final(self),
                Seq::empty(),
            ),
            ptr != 0 ==> final(self).tree() == intern(old(self).tree(), 0, trace.stack()).0
                && old(self).wrote(
                final(self),
                trace_records(created(old(self).tree(), final(self).tree())).push(
                    RecordView::Alloc {
                        ptr,
                        size: (num * size) as usize,
                        parent_idx: intern(old(self).tree(), 0, trace.stack()).1 as usize,
                    },
                ),
            ),
    {
        self.on_malloc(num * size, ptr, trace)
    }

    /// The block at `ptr` was freed. A null pointer frees nothing and leaves
    /// no record.
    pub fn on_free(&mut self, ptr: usize)
        requires
            old(self).wf(),
        ensures
            final(self).wf(),
            final(self).tree() == old(self).tree(),
            old(self).wrote(
                final(self),
                if ptr == 0 {
                    Seq::empty()
                } else {
                    seq![RecordView::Free { ptr }]
                },
            ),
    {
        if ptr == 0 {
            proof {
                assert(self.log() + Seq::<RecordView>::empty() == self.log());
                assert(self.output() + encode_all(Seq::<RecordView>::empty()) == self.output());
            }
            return ;
        }
        self.put(&Record::Free { ptr });
    }

    /// The block at `ptr_in` was reallocated to `size` bytes at `ptr_out`:
    /// a free of the old block, where there was one, then an allocation of
    /// the new one, where there is one, both at the stack of `trace`.
    pub fn on_realloc(&mut self, size: usize, ptr_in: usize, ptr_out: usize, trace: Trace)
        requires
            old(self).wf(),
        ensures
            final(self).wf(),
            extends(final(self).tree(), old(self).tree()),
            ptr_out != 0 ==> path(
                final(self).tree(),
                intern(old(self).tree(), 0, trace.stack()).1,
            ) == trace.stack(),
            ptr_out == 0 ==> final(self).tree() == old(self).tree(),
            ptr_out != 0 ==> final(self).tree() == intern(old(self).tree(), 0, trace.stack()).0,
            old(self).wrote(
                final(self),
                realloc_records(
                    old(self).tree(),
                    final(self).tree(),
                    size,
                    ptr_in,
                    ptr_out,
                    trace.stack(),
                ),
            ),
    {
        let ghost freed = if ptr_in == 0 {
            Seq::<RecordView>::empty()
        } else {
            seq![RecordView::Free { ptr: ptr_in }]
        };
        let ghost log = self.log();
        let ghost out = self.output();
        self.on_free(ptr_in);
        self.on_malloc(size, ptr_out, trace);
        proof {
            let made = alloc_records(old(self).tree(), self.tree(), size, ptr_out, trace.stack());
            lemma_wrote_twice(log, out, freed, made);
        }
    }

    /// The agent's closing: the wall time since it started, in
    /// milliseconds, and the resident set size.
    pub fn on_exit(&mut self, elapsed_ms: u128, rss: usize)
        requires
            old(self).wf(),
        ensures
            final(self).wf(),
            final(self).tree() == old(self).tree(),
            old(self).wrote(
                final(self),
                seq![RecordView::Duration(elapsed_ms), RecordView::RSS(rss)],
            ),
    {
        let ghost log = self.log();
        let ghost out = self.output();
        self.put(&Record::Duration(elapsed_ms));
        self.put(&Record::RSS(rss));
        proof {
            let first = seq![RecordView::Duration(elapsed_ms)];
            let second = seq![RecordView::RSS(rss)];
            lemma_wrote_twice(log, out, first, second);
            assert(first + second == seq![
                RecordView::Duration(elapsed_ms),
                RecordView::RSS(rss),
            ]);
        }
    }

    /// Hands out the text written so far, for the pipe, and leaves the
    /// buffer empty.
    pub fn flush(&mut self) -> (text: String)
        requires
            old(self).wf(),
        ensures
            final(self).wf(),
            text@ == old(self).output(),
            final(self).output() == Seq::<char>::empty(),
            final(self).log() == old(self).log(),
            final(self).tree() == old(self).tree(),
    {
        self.writer.flush()
    }
}

/// A second allocation at a site adds one line: where a tree holds the node
/// that an earlier allocation interned a stack at, an allocation from the
/// same stack leaves the tree as it is and writes one record, the
/// allocation with that node, and no trace record.
pub proof fn lemma_known_site_writes_one_record(
    earlier: Nodes,
    tree: Nodes,
    leaf: int,
    stack: Seq<usize>,
    size: usize,
    ptr: usize,
)
    requires
        tree_wf(tree),
        extends(tree, earlier),
        0 <= leaf < earlier.len(),
        path(earlier, leaf) == stack,
        ptr != 0,
    ensures
        intern(tree, 0, stack) == (tree, leaf),
        alloc_records(tree, intern(tree, 0, stack).0, size, ptr, stack) == seq![
            RecordView::Alloc { ptr, size, parent_idx: leaf as usize },
        ],
{
    lemma_interned_stack_is_known(earlier, tree, leaf, stack);
    assert(trace_records(Seq::<(usize, usize)>::empty()) == Seq::<RecordView>::empty());
}

/// The mark that a thread carries while it is inside a hook, so that a hook
/// that is entered from within a hook records nothing.
pub struct HookGuard {
    inside: bool,
}

impl HookGuard {
    /// Whether the thread is inside a hook.
    pub closed spec fn inside(&self) -> bool {
        self.inside
    }

    pub fn new() -> (guard: Self)
        ensures
            !guard.inside(),
    {
        HookGuard { inside: false }
    }

    /// Enters a hook. `false` says that the thread is inside one already:
    /// the caller is to pass the call on and record nothing, and not to
    /// call `leave`.
    pub fn enter(&mut self) -> (entered: bool)
        ensures
            entered == !old(self).inside(),
            final(self).inside(),
    {
        let entered = !self.inside;
        self.inside = true;
        entered
    }

    /// Leaves the hook that `enter` let in.
    pub fn leave(&mut self)
        ensures
            !final(self).inside(),
    {
        self.inside = false;
    }
}

/// The records of an allocation at `ptr`: none for a null pointer, else the
/// trace records of the new nodes and the allocation itself.
pub open spec fn alloc_records(
    before: Nodes,
    after: Nodes,
    size: usize,
    ptr: usize,
    stack: Seq<usize>,
) -> Seq<RecordView> {
    if ptr == 0 {
        Seq::empty()
    } else {
        trace_records(created(before, after)).push(
            RecordView::Alloc { ptr, size, parent_idx: intern(before, 0, stack).1 as usize },
        )
    }
}

/// The records of a reallocation: the free of the old block, where there
/// was one, then the records of the allocation of the new one.
pub open spec fn realloc_records(
    before: Nodes,
    after: Nodes,
    size: usize,
    ptr_in: usize,
    ptr_out: usize,
    stack: Seq<usize>,
) -> Seq<RecordView> {
    (if ptr_in == 0 {
        Seq::<RecordView>::empty()
    } else {
        seq![RecordView::Free { ptr: ptr_in }]
    }) + alloc_records(before, after, size, ptr_out, stack)
}

} // verus!

