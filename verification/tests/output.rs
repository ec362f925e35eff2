use memtrack::output::{Frame, Output};
use memtrack::pool::{FramePool, StringPool};

#[test]
fn output_writes_the_exact_lines() {
    let mut out = Output::new();
    out.write_version(100, 3);
    assert_eq!(out.take(), "v 64 3\n");
    out.write_exec("/bin/cat");
    assert_eq!(out.take(), "X /bin/cat\n");
    out.write_string("main");
    assert_eq!(out.take(), "s 4 main\n");
    out.write_string("alloc::vec::Vec<T>::push");
    assert_eq!(out.take(), "s 18 alloc::vec::Vec<T>::push\n");
    out.write_trace(1, 0);
    assert_eq!(out.take(), "t 1 0\n");
    out.write_trace(0x1f, 0x2e);
    assert_eq!(out.take(), "t 1f 2e\n");
    out.write_alloc(128, 3);
    assert_eq!(out.take(), "a 80 3\n");
    out.write_free(3);
    assert_eq!(out.take(), "- 3\n");
    out.write_duration(1500);
    assert_eq!(out.take(), "c 5dc\n");
    out.write_rss(0x200000);
    assert_eq!(out.take(), "R 200000\n");
    out.write_page_info(4096, 10);
    assert_eq!(out.take(), "I 1000 a\n");
    assert_eq!(out.take(), "");
}

#[test]
fn instruction_lists_its_frames() {
    let mut out = Output::new();
    out.write_instruction(0x1000, 2, &[Frame::Single { function_idx: 5 }]);
    assert_eq!(out.take(), "i 1000 2 5\n");
    out.write_instruction(0x1000, 2, &[]);
    assert_eq!(out.take(), "i 1000 2\n");
    out.write_instruction(
        0xabcdef,
        0x10,
        &[
            Frame::Multiple { function_idx: 0x1a, file_idx: 0x1b, line_number: 42 },
            Frame::Multiple { function_idx: 1, file_idx: 2, line_number: 65535 },
            Frame::Single { function_idx: 0xff },
        ],
    );
    assert_eq!(out.take(), "i abcdef 10 1a 1b 42 1 2 65535 ff\n");
}

#[test]
fn output_appends_until_taken() {
    let mut out = Output::new();
    out.write_string("a");
    out.write_trace(0, 0);
    out.write_alloc(1, 1);
    assert_eq!(out.take(), "s 1 a\nt 0 0\na 1 1\n");
}

#[test]
fn string_pool_gives_stable_indices() {
    let mut pool = StringPool::new();
    assert_eq!(pool.len(), 0);
    assert_eq!(pool.get_full("main"), None);
    assert_eq!(pool.insert_full("main"), (0, true));
    assert_eq!(pool.insert_full("free"), (1, true));
    assert_eq!(pool.insert_full("main"), (0, false));
    assert_eq!(pool.insert_full("main"), (0, false));
    assert_eq!(pool.insert_full(""), (2, true));
    assert_eq!(pool.get_full("free"), Some(1));
    assert_eq!(pool.get_full("main"), Some(0));
    assert_eq!(pool.get_full(""), Some(2));
    assert_eq!(pool.get_full("Main"), None);
    assert_eq!(pool.len(), 3);
}

#[test]
fn frame_pool_gives_stable_indices() {
    let mut pool = FramePool::new();
    assert_eq!(pool.get_full(0x1000), None);
    assert_eq!(pool.insert_full(0x1000), (0, true));
    assert_eq!(pool.insert_full(0), (1, true));
    assert_eq!(pool.insert_full(u64::MAX), (2, true));
    assert_eq!(pool.insert_full(0x1000), (0, false));
    assert_eq!(pool.get_full(0), Some(1));
    assert_eq!(pool.get_full(u64::MAX), Some(2));
    assert_eq!(pool.get_full(1), None);
    assert_eq!(pool.len(), 3);
}
