use memtrack::trace::{Trace, BACKTRACE_TAIL_DEBUG, BACKTRACE_TAIL_RELEASE, MAX_SIZE};
use memtrack::trace_tree::{TraceNode, TraceTree};
use memtrack::tracer::Tracer;

fn capture_of(stack: &[usize]) -> Trace {
    let mut buffer = [0usize; MAX_SIZE];
    buffer[0] = 0xdead;
    for (k, ip) in stack.iter().rev().enumerate() {
        buffer[k + 1] = *ip;
    }
    buffer[stack.len() + 1] = 0xbeef;
    Trace::new(buffer, stack.len() + 2, BACKTRACE_TAIL_RELEASE)
}

fn numbered() -> [usize; MAX_SIZE] {
    let mut buffer = [0usize; MAX_SIZE];
    for k in 0..MAX_SIZE {
        buffer[k] = 100 + k;
    }
    buffer
}

#[test]
fn trace_drops_its_own_frame_and_the_tail() {
    assert_eq!(MAX_SIZE, 64);
    assert_eq!(BACKTRACE_TAIL_DEBUG, 4);
    assert_eq!(BACKTRACE_TAIL_RELEASE, 1);
    let trace = Trace::new(numbered(), 10, BACKTRACE_TAIL_RELEASE);
    assert_eq!(trace.as_slice(), &[101, 102, 103, 104, 105, 106, 107, 108]);
    let trace = Trace::new(numbered(), 10, BACKTRACE_TAIL_DEBUG);
    assert_eq!(trace.as_slice(), &[101, 102, 103, 104, 105]);
}

#[test]
fn trace_of_a_short_capture_is_empty() {
    for captured in 0..=2 {
        let trace = Trace::new(numbered(), captured, BACKTRACE_TAIL_RELEASE);
        assert_eq!(trace.as_slice(), &[] as &[usize]);
    }
    let trace = Trace::new(numbered(), 5, BACKTRACE_TAIL_DEBUG);
    assert_eq!(trace.as_slice(), &[] as &[usize]);
    let trace = Trace::new(numbered(), 6, BACKTRACE_TAIL_DEBUG);
    assert_eq!(trace.as_slice(), &[101]);
    let trace = Trace::new(numbered(), 3, usize::MAX);
    assert_eq!(trace.as_slice(), &[] as &[usize]);
}

#[test]
fn trace_holds_at_most_the_buffer() {
    let trace = Trace::new(numbered(), 64, 1);
    assert_eq!(trace.as_slice().len(), 62);
    assert_eq!(trace.as_slice()[61], 162);
    let trace = Trace::new(numbered(), 1000, 1);
    assert_eq!(trace.as_slice().len(), 62);
    let trace = Trace::new(numbered(), usize::MAX, 0);
    assert_eq!(trace.as_slice().len(), 63);
    assert_eq!(trace.as_slice()[62], 163);
}

#[test]
fn tracer_gathers_frames_in_order() {
    let mut tracer = Tracer::new();
    assert_eq!(tracer.as_slice(), &[] as &[u64]);
    tracer.push(7);
    tracer.push(0);
    tracer.on_frame(9);
    tracer.on_frame(0);
    tracer.on_frame(11);
    assert_eq!(tracer.as_slice(), &[7, 0, 9, 11]);
}

#[test]
fn tracer_drops_what_does_not_fit() {
    let mut tracer = Tracer::new();
    for k in 0..100u64 {
        tracer.on_frame(k + 1);
    }
    assert_eq!(tracer.as_slice().len(), 64);
    assert_eq!(tracer.as_slice()[0], 1);
    assert_eq!(tracer.as_slice()[63], 64);
    tracer.push(5);
    assert_eq!(tracer.as_slice().len(), 64);
}

#[test]
fn node_constructor_keeps_its_arguments() {
    let _node: TraceNode = TraceNode::new(3, 0x1000);
}

#[test]
fn empty_stack_is_the_root() {
    let mut tree = TraceTree::new();
    assert_eq!(tree.len(), 1);
    let mut fresh = Vec::new();
    assert_eq!(tree.index(capture_of(&[]), &mut fresh), 0);
    assert_eq!(fresh, vec![]);
    assert_eq!(tree.len(), 1);
}

#[test]
fn single_stack_makes_one_path() {
    let mut tree = TraceTree::new();
    let mut fresh = Vec::new();
    let leaf = tree.index(capture_of(&[0xa, 0xb, 0xc]), &mut fresh);
    assert_eq!(leaf, 3);
    assert_eq!(fresh, vec![(0xa, 0), (0xb, 1), (0xc, 2)]);
    assert_eq!(tree.len(), 4);
}

#[test]
fn same_stack_same_index() {
    let mut tree = TraceTree::new();
    let mut fresh = Vec::new();
    let first = tree.index(capture_of(&[0xa, 0xb, 0xc]), &mut fresh);
    assert_eq!(fresh.len(), 3);
    let second = tree.index(capture_of(&[0xa, 0xb, 0xc]), &mut fresh);
    assert_eq!(first, second);
    assert_eq!(fresh.len(), 3);
    assert_eq!(tree.len(), 4);
}

#[test]
fn sibling_stacks_share_their_prefix() {
    let mut tree = TraceTree::new();
    let mut fresh = Vec::new();
    let first = tree.index(capture_of(&[1, 2, 3, 4]), &mut fresh);
    assert_eq!(first, 4);
    assert_eq!(fresh.len(), 4);
    let second = tree.index(capture_of(&[1, 2, 9, 8, 7]), &mut fresh);
    assert_eq!(second, 7);
    assert_eq!(fresh.len(), 4 + 3);
    assert_eq!(&fresh[4..], &[(9, 2), (8, 5), (7, 6)]);
    let prefix = tree.index(capture_of(&[1, 2]), &mut fresh);
    assert_eq!(prefix, 2);
    assert_eq!(fresh.len(), 7);
}

#[test]
fn interning_is_a_function_of_the_stack() {
    let stacks: Vec<Vec<usize>> = vec![
        vec![], vec![1], vec![2], vec![1, 2], vec![2, 1], vec![1, 1], vec![1, 2, 3], vec![1, 2],
        vec![3, 2, 1], vec![1], vec![], vec![1, 2, 3, 4, 5], vec![1, 2, 3], vec![5, 5, 5],
    ];
    let mut tree = TraceTree::new();
    let mut fresh = Vec::new();
    let mut indices = Vec::new();
    for stack in &stacks {
        indices.push(tree.index(capture_of(stack), &mut fresh));
    }
    for i in 0..stacks.len() {
        for j in 0..stacks.len() {
            assert_eq!(stacks[i] == stacks[j], indices[i] == indices[j], "{} {}", i, j);
        }
    }
}

#[test]
fn parents_are_announced_before_children() {
    let mut tree = TraceTree::new();
    let mut fresh = Vec::new();
    for stack in [vec![1, 2, 3], vec![1, 4], vec![1, 2, 5, 6], vec![7], vec![7, 1, 2, 3]] {
        tree.index(capture_of(&stack), &mut fresh);
    }
    assert_eq!(fresh.len() + 1, tree.len());
    for (k, (_ip, parent)) in fresh.iter().enumerate() {
        let index = k + 1;
        assert!(*parent < index);
    }
}

#[test]
fn same_ip_below_different_parents_is_different() {
    let mut tree = TraceTree::new();
    let mut fresh = Vec::new();
    let a = tree.index(capture_of(&[1, 5]), &mut fresh);
    let b = tree.index(capture_of(&[2, 5]), &mut fresh);
    assert_ne!(a, b);
    assert_eq!(fresh, vec![(1, 0), (5, 1), (2, 0), (5, 3)]);
}
