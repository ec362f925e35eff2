//! The enriched ledger that the interpreter writes: the raw events with
//! strings and frames interned, one record per line.
use crate::pipe_io::{byte_len, hex};
use crate::text::{
    digits_of, join, lemma_join_push, lemma_line_shape, line_of, push_chars, push_uint, to_chars,
};
use vstd::prelude::*;

verus! {

/// One frame of an instruction: the function alone, or the function with
/// the file and line it was inlined from.
#[derive(Clone, Copy, Debug, PartialEq, Eq)]
pub enum Frame {
    Single { function_idx: usize },
    Multiple { function_idx: usize, file_idx: usize, line_number: u16 },
}

/// One event of the enriched ledger, as a mathematical value.
pub enum Event {
    Version { version: u16, file_version: u16 },
    Exec(Seq<char>),
    Text(Seq<char>),
    Instruction { ip: u64, module_idx: usize, frames: Seq<Frame> },
    Trace { ip_id: usize, parent_idx: u64 },
    Alloc { size: u64, idx: usize },
    Free { idx: usize },
    Duration(u128),
    RSS(usize),
    PageInfo { page_size: usize, pages: usize },
}

/// The fields that one frame is written as: ids in hexadecimal, the line
/// number in decimal.
pub open spec fn frame_fields(frame: Frame) -> Seq<Seq<char>> {
    match frame {
        Frame::Single { function_idx } => seq![hex(function_idx as nat)],
        Frame::Multiple { function_idx, file_idx, line_number } => seq![
            hex(function_idx as nat),
            hex(file_idx as nat),
            digits_of(line_number as nat, 10),
        ],
    }
}

pub open spec fn frames_fields(frames: Seq<Frame>) -> Seq<Seq<char>>
    decreases frames.len(),
{
    if frames.len() == 0 {
        Seq::empty()
    } else {
        frames_fields(frames.drop_last()) + frame_fields(frames.last())
    }
}

/// The fields of the line that stands for `e`, tag first. All numbers are
/// hexadecimal but the line number of a frame.
pub open spec fn event_fields(e: Event) -> Seq<Seq<char>> {
    match e {
        Event::Version { version, file_version } => seq![
            seq!['v'],
            hex(version as nat),
            hex(file_version as nat),
        ],
        Event::Exec(command) => seq![seq!['X'], command],
        Event::Text(value) => seq![seq!['s'], hex(byte_len(value)), value],
        Event::Instruction { ip, module_idx, frames } => seq![
            seq!['i'],
            hex(ip as nat),
            hex(module_idx as nat),
        ] + frames_fields(frames),
        Event::Trace { ip_id, parent_idx } => seq![
            seq!['t'],
            hex(ip_id as nat),
            hex(parent_idx as nat),
        ],
        Event::Alloc { size, idx } => seq![seq!['a'], hex(size as nat), hex(idx as nat)],
        Event::Free { idx } => seq![seq!['-'], hex(idx as nat)],
        Event::Duration(millis) => seq![seq!['c'], hex(millis as nat)],
        Event::RSS(rss) => seq![seq!['R'], hex(rss as nat)],
        Event::PageInfo { page_size, pages } => seq![
            seq!['I'],
            hex(page_size as nat),
            hex(pages as nat),
        ],
    }
}

/// The line, line feed included, that stands for `e`.
pub open spec fn encode_event(e: Event) -> Seq<char> {
    line_of(event_fields(e))
}

/// The lines of `events`, one after the other.
pub open spec fn encode_events(events: Seq<Event>) -> Seq<char>
    decreases events.len(),
{
    if events.len() == 0 {
        Seq::empty()
    } else {
        encode_events(events.drop_last()) + encode_event(events.last())
    }
}

/// The writer of the enriched ledger: lines are encoded into a buffer of text
/// that the owner of the file drains.
pub struct Output {
    buffer: String,
}

impl View for Output {
    type V = Seq<char>;

    /// The text written and not yet drained.
    closed spec fn view(&self) -> Seq<char> {
        self.buffer@
    }
}

fn push_field(out: &mut String, n: u128, radix: u128)
    requires
        radix == 10 || radix == 16,
    ensures
        final(out)@ == old(out)@.push(' ') + digits_of(n as nat, radix as nat),
{
    out.push(' ');
    push_uint(out, n, radix);
}

fn push_name(out: &mut String, name: &str)
    ensures
        final(out)@ == old(out)@.push(' ') + name@,
{
    out.push(' ');
    let chars = to_chars(name);
    push_chars(out, &chars);
}

/// Appends the fields of `frame`, each behind a blank.
fn push_frame(out: &mut String, frame: Frame, Ghost(base): Ghost<Seq<char>>, Ghost(ws): Ghost<Seq<Seq<char>>>)
    requires
        ws.len() > 0,
        old(out)@ == base + join(ws),
    ensures
        final(out)@ == base + join(ws + frame_fields(frame)),
{
    match frame {
        Frame::Single { function_idx } => {
            push_field(out, function_idx as u128, 16);
            proof {
                let f = hex(function_idx as nat);
                lemma_join_push(ws, f);
                assert(ws + frame_fields(frame) == ws.push(f));
                assert((base + join(ws)).push(' ') + f == base + (join(ws).push(' ') + f));
            }
        },
        Frame::Multiple { function_idx, file_idx, line_number } => {
            push_field(out, function_idx as u128, 16);
            push_field(out, file_idx as u128, 16);
            push_field(out, line_number as u128, 10);
            proof {
                let f = hex(function_idx as nat);
                let g = hex(file_idx as nat);
                let h = digits_of(line_number as nat, 10);
                lemma_join_push(ws, f);
                lemma_join_push(ws.push(f), g);
                lemma_join_push(ws.push(f).push(g), h);
                assert(ws + frame_fields(frame) == ws.push(f).push(g).push(h));
                assert((((base + join(ws)).push(' ') + f).push(' ') + g).push(' ') + h == base + (((
                join(ws).push(' ') + f).push(' ') + g).push(' ') + h));
            }
        },
    }
}

impl Output {
    pub fn new() -> (out: Self)
        ensures
            out@ == Seq::<char>::empty(),
    {
        Output { buffer: String::new() }
    }

    pub fn write_version(&mut self, version: u16, file_version: u16)
        ensures
            final(self)@ == old(self)@ + encode_event(Event::Version { version, file_version }),
    {
        self.buffer.push('v');
        push_field(&mut self.buffer, version as u128, 16);
        push_field(&mut self.buffer, file_version as u128, 16);
        self.buffer.push('\n');
        proof {
            let f = event_fields(Event::Version { version, file_version });
            lemma_line_shape(old(self).buffer@, f[0][0], f[1], f[2], f[2]);
        }
    }

    pub fn write_exec(&mut self, command: &str)
        ensures
            final(self)@ == old(self)@ + encode_event(Event::Exec(command@)),
    {
        self.buffer.push('X');
        push_name(&mut self.buffer, command);
        self.buffer.push('\n');
        proof {
            let f = event_fields(Event::Exec(command@));
            lemma_line_shape(old(self).buffer@, f[0][0], f[1], f[1], f[1]);
        }
    }

    pub fn write_string(&mut self, value: &str)
        ensures
            final(self)@ == old(self)@ + encode_event(Event::Text(value@)),
    {
        self.buffer.push('s');
        push_field(&mut self.buffer, value.len() as u128, 16);
        push_name(&mut self.buffer, value);
        self.buffer.push('\n');
        proof {
            let f = event_fields(Event::Text(value@));
            lemma_line_shape(old(self).buffer@, f[0][0], f[1], f[2], f[2]);
        }
    }

    pub fn write_instruction(&mut self, ip: u64, module_idx: usize, frames: &[Frame])
        ensures
            final(self)@ == old(self)@ + encode_event(
                Event::Instruction { ip, module_idx, frames: frames@ },
            ),
    {
        let ghost base = self.buffer@;
        let ghost head = seq![seq!['i'], hex(ip as nat), hex(module_idx as nat)];
        self.buffer.push('i');
        push_field(&mut self.buffer, ip as u128, 16);
        push_field(&mut self.buffer, module_idx as u128, 16);
        proof {
            crate::text::lemma_join_unfold(head[0], head[1], head[2], head[2]);
            assert(head == seq![head[0], head[1], head[2]]);
            assert(self.buffer@ == base + join(head));
            assert(frames@.take(0) == Seq::<Frame>::empty());
            assert(head + frames_fields(frames@.take(0)) == head);
        }
        let mut k: usize = 0;
        while k < frames.len()
            invariant
                k <= frames@.len(),
                head.len() == 3,
                self.buffer@ == base + join(head + frames_fields(frames@.take(k as int))),
            decreases frames.len() - k,
        {
            let ghost ws = head + frames_fields(frames@.take(k as int));
            push_frame(&mut self.buffer, frames[k], Ghost(base), Ghost(ws));
            proof {
                assert(frames@.take(k + 1).drop_last() == frames@.take(k as int));
                assert(frames@.take(k + 1).last() == frames@[k as int]);
                assert(ws + frame_fields(frames@[k as int]) == head + frames_fields(
                    frames@.take(k + 1),
                ));
            }
            k += 1;
        }
        self.buffer.push('\n');
        proof {
            assert(frames@.take(frames@.len() as int) == frames@);
            let all = head + frames_fields(frames@);
            assert((base + join(all)).push('\n') == base + line_of(all));
        }
    }

    pub fn write_trace(&mut self, ip_id: usize, parent_idx: u64)
        ensures
            final(self)@ == old(self)@ + encode_event(Event::Trace { ip_id, parent_idx }),
    {
        self.buffer.push('t');
        push_field(&mut self.buffer, ip_id as u128, 16);
        push_field(&mut self.buffer, parent_idx as u128, 16);
        self.buffer.push('\n');
        proof {
            let f = event_fields(Event::Trace { ip_id, parent_idx });
            lemma_line_shape(old(self).buffer@, f[0][0], f[1], f[2], f[2]);
        }
    }

    pub fn write_alloc(&mut self, size: u64, idx: usize)
        ensures
            final(self)@ == old(self)@ + encode_event(Event::Alloc { size, idx }),
    {
        self.buffer.push('a');
        push_field(&mut self.buffer, size as u128, 16);
        push_field(&mut self.buffer, idx as u128, 16);
        self.buffer.push('\n');
        proof {
            let f = event_fields(Event::Alloc { size, idx });
            lemma_line_shape(old(self).buffer@, f[0][0], f[1], f[2], f[2]);
        }
    }

    pub fn write_free(&mut self, idx: usize)
        ensures
            final(self)@ == old(self)@ + encode_event(Event::Free { idx }),
    {
        self.buffer.push('-');
        push_field(&mut self.buffer, idx as u128, 16);
        self.buffer.push('\n');
        proof {
            let f = event_fields(Event::Free { idx });
            lemma_line_shape(old(self).buffer@, f[0][0], f[1], f[1], f[1]);
        }
    }

    /// Writes the run's wall time, in milliseconds.
    pub fn write_duration(&mut self, millis: u128)
        ensures
            final(self)@ == old(self)@ + encode_event(Event::Duration(millis)),
    {
        self.buffer.push('c');
        push_field(&mut self.buffer, millis, 16);
        self.buffer.push('\n');
        proof {
            let f = event_fields(Event::Duration(millis));
            lemma_line_shape(old(self).buffer@, f[0][0], f[1], f[1], f[1]);
        }
    }

    pub fn write_rss(&mut self, rss: usize)
        ensures
            final(self)@ == old(self)@ + encode_event(Event::RSS(rss)),
    {
        self.buffer.push('R');
        push_field(&mut self.buffer, rss as u128, 16);
        self.buffer.push('\n');
        proof {
            let f = event_fields(Event::RSS(rss));
            lemma_line_shape(old(self).buffer@, f[0][0], f[1], f[1], f[1]);
        }
    }

    pub fn write_page_info(&mut self, page_size: usize, pages: usize)
        ensures
            final(self)@ == old(self)@ + encode_event(Event::PageInfo { page_size, pages }),
    {
        self.buffer.push('I');
        push_field(&mut self.buffer, page_size as u128, 16);
        push_field(&mut self.buffer, pages as u128, 16);
        self.buffer.push('\n');
        proof {
            let f = event_fields(Event::PageInfo { page_size, pages });
            lemma_line_shape(old(self).buffer@, f[0][0], f[1], f[2], f[2]);
        }
    }

    /// Hands out the text written so far and leaves the buffer empty.
    pub fn take(&mut self) -> (text: String)
        ensures
            text@ == old(self)@,
            final(self)@ == Seq::<char>::empty(),
    {
        let mut text = String::new();
        std::mem::swap(&mut self.buffer, &mut text);
        text
    }
}

} // verus!
