use memtrack::dylib::{get_images, image_size, Image, RawImage, Segment};
use memtrack::pipe_io::{PipeReader, Record};
use memtrack::trace::{Trace, BACKTRACE_TAIL_RELEASE, MAX_SIZE};
use memtrack::tracker::{HookGuard, Tracker, VERSION};

fn stack_capture(stack: &[usize]) -> Trace {
    let mut buffer = [0usize; MAX_SIZE];
    for (k, ip) in stack.iter().rev().enumerate() {
        buffer[k + 1] = *ip;
    }
    Trace::new(buffer, stack.len() + 2, BACKTRACE_TAIL_RELEASE)
}

fn records_of(text: &str) -> Vec<Record> {
    let mut reader = PipeReader::new();
    reader.feed(text);
    let mut records = Vec::new();
    while let Some(item) = reader.read_record() {
        records.push(item.unwrap());
    }
    records
}

fn count_tag(text: &str, tag: char) -> usize {
    text.lines().filter(|line| line.starts_with(tag)).count()
}

#[test]
fn empty_target_writes_the_frame_of_the_ledger() {
    let images = vec![
        Image { name: "/bin/target".to_string(), start_address: 0x400000, size: 0x2000 },
        Image { name: "/lib/libc.so".to_string(), start_address: 0x7f0000, size: 0x180000 },
    ];
    let mut tracker = Tracker::new();
    tracker.init("/bin/target", &images, 4096, 262144);
    tracker.on_exit(12, 0x300000);
    let text = tracker.flush();
    assert_eq!(
        text,
        "v 100\nx b /bin/target\nI 400000 2000 /bin/target\nI 7f0000 180000 /lib/libc.so\nX 1000 40000\nc 12\nR 300000\n"
    );
    assert_eq!(VERSION, 100);
    assert_eq!(count_tag(&text, 't'), 0);
    assert_eq!(count_tag(&text, '+'), 0);
    assert_eq!(count_tag(&text, 'X'), 1);
    assert_eq!(tracker.flush(), "");
}

#[test]
fn single_allocation_announces_its_stack_first() {
    let mut tracker = Tracker::new();
    tracker.on_malloc(128, 0x600000, stack_capture(&[0x10, 0x20, 0x30]));
    tracker.on_free(0x600000);
    assert_eq!(tracker.flush(), "t 10 0\nt 20 1\nt 30 2\n+ 80 3 600000\n- 600000\n");
}

#[test]
fn second_allocation_at_the_same_site_adds_one_line() {
    let mut tracker = Tracker::new();
    tracker.on_malloc(128, 0x600000, stack_capture(&[0x10, 0x20, 0x30]));
    let first = tracker.flush();
    assert_eq!(count_tag(&first, 't'), 3);
    tracker.on_malloc(64, 0x600100, stack_capture(&[0x10, 0x20, 0x30]));
    assert_eq!(tracker.flush(), "+ 40 3 600100\n");
}

#[test]
fn sibling_sites_announce_only_what_is_new() {
    let mut tracker = Tracker::new();
    tracker.on_malloc(8, 0x1000, stack_capture(&[1, 2, 3, 4]));
    assert_eq!(count_tag(&tracker.flush(), 't'), 4);
    tracker.on_malloc(8, 0x2000, stack_capture(&[1, 2, 7, 8, 9]));
    assert_eq!(tracker.flush(), "t 7 2\nt 8 5\nt 9 6\n+ 8 7 2000\n");
}

#[test]
fn realloc_is_a_free_then_an_allocation() {
    let mut tracker = Tracker::new();
    tracker.on_malloc(16, 0x1000, stack_capture(&[1, 2]));
    tracker.flush();
    tracker.on_realloc(32, 0x1000, 0x2000, stack_capture(&[1, 3]));
    assert_eq!(tracker.flush(), "- 1000\nt 3 1\n+ 20 3 2000\n");
}

#[test]
fn realloc_of_null_is_an_allocation() {
    let mut tracker = Tracker::new();
    tracker.on_realloc(32, 0, 0x2000, stack_capture(&[1]));
    assert_eq!(tracker.flush(), "t 1 0\n+ 20 1 2000\n");
}

#[test]
fn realloc_to_null_is_a_free() {
    let mut tracker = Tracker::new();
    tracker.on_realloc(0, 0x1000, 0, stack_capture(&[1]));
    assert_eq!(tracker.flush(), "- 1000\n");
}

#[test]
fn null_pointers_leave_no_record() {
    let mut tracker = Tracker::new();
    tracker.on_malloc(128, 0, stack_capture(&[1, 2]));
    tracker.on_free(0);
    tracker.on_calloc(4, 8, 0, stack_capture(&[1, 2]));
    assert_eq!(tracker.flush(), "");
    tracker.on_malloc(1, 0x10, stack_capture(&[1, 2]));
    assert_eq!(tracker.flush(), "t 1 0\nt 2 1\n+ 1 2 10\n");
}

#[test]
fn calloc_counts_items_times_size() {
    let mut tracker = Tracker::new();
    tracker.on_calloc(16, 8, 0x5000, stack_capture(&[1]));
    assert_eq!(tracker.flush(), "t 1 0\n+ 80 1 5000\n");
}

#[test]
fn allocation_with_an_empty_stack_names_the_root() {
    let mut tracker = Tracker::new();
    tracker.on_malloc(1, 0x10, stack_capture(&[]));
    assert_eq!(tracker.flush(), "+ 1 0 10\n");
}

#[test]
fn stream_never_refers_forward() {
    let mut tracker = Tracker::new();
    tracker.init("/bin/t", &Vec::new(), 4096, 10);
    let stacks: Vec<Vec<usize>> =
        vec![vec![1, 2, 3], vec![1, 2], vec![4], vec![1, 2, 3, 5], vec![4, 1], vec![], vec![1, 2, 3]];
    for (k, stack) in stacks.iter().enumerate() {
        tracker.on_malloc(8 * (k + 1), 0x1000 + k, stack_capture(stack));
        if k % 2 == 0 {
            tracker.on_free(0x1000 + k);
        } else {
            tracker.on_realloc(4, 0x1000 + k, 0x9000 + k, stack_capture(&[9, k]));
        }
    }
    tracker.on_exit(5, 6);
    let mut announced = 0;
    for record in records_of(&tracker.flush()) {
        match record {
            Record::Trace { parent_idx, .. } => {
                assert!(parent_idx <= announced);
                announced += 1;
            }
            Record::Alloc { parent_idx, .. } => assert!(parent_idx <= announced),
            _ => {}
        }
    }
    assert!(announced > 0);
}

#[test]
fn image_size_sums_the_mapped_segments() {
    let commands = vec![
        Segment { loadable: true, vmsize: 0x1000 },
        Segment { loadable: false, vmsize: 0x999 },
        Segment { loadable: true, vmsize: 0x3000 },
    ];
    assert_eq!(image_size(&commands), 0x4000);
    assert_eq!(image_size(&Vec::new()), 0);
    let huge = vec![
        Segment { loadable: true, vmsize: u64::MAX },
        Segment { loadable: true, vmsize: 5 },
    ];
    assert_eq!(image_size(&huge), usize::MAX);
}

#[test]
fn images_follow_the_loaders_list() {
    let raw = vec![
        RawImage {
            name: Some("/bin/target".to_string()),
            header: 0x400000,
            commands: vec![Segment { loadable: true, vmsize: 0x2000 }],
        },
        RawImage { name: None, header: 0x7f0000, commands: vec![] },
    ];
    assert_eq!(
        get_images(raw),
        vec![
            Image { name: "/bin/target".to_string(), start_address: 0x400000, size: 0x2000 },
            Image { name: "<unknown>".to_string(), start_address: 0x7f0000, size: 0 },
        ]
    );
    assert_eq!(get_images(Vec::new()), vec![]);
}

#[test]
fn hook_entered_from_a_hook_is_turned_away() {
    let mut guard = HookGuard::new();
    assert!(guard.enter());
    assert!(!guard.enter());
    assert!(!guard.enter());
    guard.leave();
    assert!(guard.enter());
    guard.leave();
    guard.leave();
    assert!(guard.enter());
}
