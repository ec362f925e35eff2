use memtrack::pipe_io::{parse_record, Error, PipeReader, PipeWriter, Record};

fn one_line(record: &Record) -> String {
    let mut writer = PipeWriter::new();
    match record {
        Record::Version(v) => writer.write_version(*v),
        Record::Exec(name) => writer.write_exec(name),
        Record::Image { name, start_address, size } => writer.write_image(name, *start_address, *size),
        Record::PageInfo { size, pages } => writer.write_page_info(*size, *pages),
        Record::Trace { ip, parent_idx } => writer.write_trace(*ip, *parent_idx),
        Record::Alloc { ptr, size, parent_idx } => writer.write_alloc(*size, *parent_idx, *ptr),
        Record::Free { ptr } => writer.write_free(*ptr),
        Record::Duration(d) => writer.write_duration(*d),
        Record::RSS(rss) => writer.write_rss(*rss),
    }
    writer.flush()
}

fn samples() -> Vec<(Record, &'static str)> {
    vec![
        (Record::Version(100), "v 100\n"),
        (Record::Version(0), "v 0\n"),
        (Record::Version(u16::MAX), "v 65535\n"),
        (Record::Exec("/bin/cat".to_string()), "x 8 /bin/cat\n"),
        (Record::Exec("/opt/é".to_string()), "x 7 /opt/é\n"),
        (
            Record::Image { name: "/usr/lib/libfoo.dylib".to_string(), start_address: 0x10000000, size: 0x4000 },
            "I 10000000 4000 /usr/lib/libfoo.dylib\n",
        ),
        (Record::PageInfo { size: 4096, pages: 1000000 }, "X 1000 f4240\n"),
        (Record::Trace { ip: 0x7fff5fbf, parent_idx: 0 }, "t 7fff5fbf 0\n"),
        (Record::Trace { ip: 0xabc, parent_idx: 17 }, "t abc 11\n"),
        (Record::Alloc { ptr: 0x600000, size: 128, parent_idx: 3 }, "+ 80 3 600000\n"),
        (Record::Free { ptr: 0x600000 }, "- 600000\n"),
        (Record::Duration(1500), "c 1500\n"),
        (Record::Duration(u128::MAX), "c 340282366920938463463374607431768211455\n"),
        (Record::RSS(0x200000), "R 200000\n"),
        (Record::RSS(usize::MAX), if usize::MAX as u128 == u64::MAX as u128 { "R ffffffffffffffff\n" } else { "R ffffffff\n" }),
    ]
}

#[test]
fn writer_writes_the_exact_lines() {
    for (record, line) in samples() {
        assert_eq!(one_line(&record), line);
    }
}

#[test]
fn parser_reads_the_exact_records() {
    for (record, line) in samples() {
        assert_eq!(parse_record(line), Ok(Some(record)));
    }
}

#[test]
fn codec_round_trip() {
    for (record, _) in samples() {
        let line = one_line(&record);
        assert_eq!(parse_record(&line), Ok(Some(record)));
    }
}

#[test]
fn name_with_a_blank_does_not_round_trip() {
    let record = Record::Exec("/my dir/app".to_string());
    let line = one_line(&record);
    assert_eq!(line, "x b /my dir/app\n");
    assert_eq!(parse_record(&line), Ok(Some(Record::Exec("/my".to_string()))));
}

#[test]
fn alloc_fields_are_size_stack_pointer() {
    assert_eq!(
        parse_record("+ 80 2a 7f00\n"),
        Ok(Some(Record::Alloc { ptr: 0x7f00, size: 0x80, parent_idx: 0x2a }))
    );
}

#[test]
fn version_and_duration_are_decimal() {
    assert_eq!(parse_record("v 10"), Ok(Some(Record::Version(10))));
    assert_eq!(parse_record("c 10"), Ok(Some(Record::Duration(10))));
    assert_eq!(parse_record("R 10"), Ok(Some(Record::RSS(16))));
    assert_eq!(parse_record("v ff"), Err(Error::InvalidFormat));
    assert_eq!(parse_record("c ff"), Err(Error::InvalidFormat));
}

#[test]
fn exec_length_is_not_looked_at() {
    assert_eq!(parse_record("x 0 /bin/true"), Ok(Some(Record::Exec("/bin/true".to_string()))));
    assert_eq!(parse_record("x zz /bin/true"), Ok(Some(Record::Exec("/bin/true".to_string()))));
    assert_eq!(parse_record("x 9"), Err(Error::InvalidFormat));
    assert_eq!(parse_record("x"), Err(Error::InvalidFormat));
}

#[test]
fn the_tag_is_the_first_character() {
    assert_eq!(parse_record("trace 1 2"), Ok(Some(Record::Trace { ip: 1, parent_idx: 2 })));
    assert_eq!(parse_record("   t   1   2   9 9 9  "), Ok(Some(Record::Trace { ip: 1, parent_idx: 2 })));
}

#[test]
fn malformed_lines_are_invalid() {
    for line in ["", "\n", "   ", "t", "t 1", "t zz 0", "t 1 zz", "+ 80 3", "+ 80 3 -1", "-", "- 0x10",
        "v", "v 65536", "v -1", "X 1000", "I 1000 2000", "I zz 2000 name", "c", "R", "R g"]
    {
        assert_eq!(parse_record(line), Err(Error::InvalidFormat), "{:?}", line);
    }
}

#[test]
fn numbers_beyond_the_machine_word_are_invalid() {
    assert_eq!(parse_record("t 100000000000000000 0"), Err(Error::InvalidFormat));
    assert_eq!(parse_record("c 340282366920938463463374607431768211456"), Err(Error::InvalidFormat));
}

#[test]
fn comments_and_unknown_tags_are_skipped() {
    assert_eq!(parse_record("# a comment\n"), Ok(None));
    assert_eq!(parse_record("#comment"), Ok(None));
    assert_eq!(parse_record("Z 1 2 3\n"), Ok(None));
    assert_eq!(parse_record("a 80 3\n"), Ok(None));
    assert_eq!(parse_record("?\n"), Ok(None));
}

#[test]
fn test_read_record() {
    let mut reader = PipeReader::new();
    reader.feed("v 100\nx 8 /bin/cat\nX 1000 f4240\n");
    assert_eq!(reader.read_record(), Some(Ok(Record::Version(100))));
    assert_eq!(reader.read_record(), Some(Ok(Record::Exec("/bin/cat".to_string()))));
    assert_eq!(reader.read_record(), Some(Ok(Record::PageInfo { size: 4096, pages: 1000000 })));
    assert_eq!(reader.read_record(), None);
}

#[test]
fn reader_passes_over_what_is_skipped() {
    let mut reader = PipeReader::new();
    reader.feed("# header\nt 1 0\nQ unknown\n# more\n+ 80 1 7f00\n");
    assert_eq!(reader.read_record(), Some(Ok(Record::Trace { ip: 1, parent_idx: 0 })));
    assert_eq!(reader.read_record(), Some(Ok(Record::Alloc { ptr: 0x7f00, size: 128, parent_idx: 1 })));
    assert_eq!(reader.read_record(), None);
    assert_eq!(reader.read_record(), None);
}

#[test]
fn reader_reports_a_bad_line_and_goes_on() {
    let mut reader = PipeReader::new();
    reader.feed("t 1 0\nt oops\n\n- 7f00");
    assert_eq!(reader.read_record(), Some(Ok(Record::Trace { ip: 1, parent_idx: 0 })));
    assert_eq!(reader.read_record(), Some(Err(Error::InvalidFormat)));
    assert_eq!(reader.read_record(), Some(Err(Error::InvalidFormat)));
    assert_eq!(reader.read_record(), Some(Ok(Record::Free { ptr: 0x7f00 })));
    assert_eq!(reader.read_record(), None);
}

#[test]
fn reader_takes_text_as_it_arrives() {
    let mut reader = PipeReader::new();
    assert_eq!(reader.read_record(), None);
    reader.feed("t 1 0\n");
    assert_eq!(reader.read_record(), Some(Ok(Record::Trace { ip: 1, parent_idx: 0 })));
    assert_eq!(reader.read_record(), None);
    reader.feed("# only a comment\n");
    assert_eq!(reader.read_record(), None);
    reader.feed("t 2 1\n");
    reader.feed("t 3 2\n");
    assert_eq!(reader.read_record(), Some(Ok(Record::Trace { ip: 2, parent_idx: 1 })));
    assert_eq!(reader.read_record(), Some(Ok(Record::Trace { ip: 3, parent_idx: 2 })));
    assert_eq!(reader.read_record(), None);
}

#[test]
fn stream_round_trip() {
    let mut writer = PipeWriter::new();
    for (record, _) in samples() {
        match &record {
            Record::Version(v) => writer.write_version(*v),
            Record::Exec(name) => writer.write_exec(name),
            Record::Image { name, start_address, size } => writer.write_image(name, *start_address, *size),
            Record::PageInfo { size, pages } => writer.write_page_info(*size, *pages),
            Record::Trace { ip, parent_idx } => writer.write_trace(*ip, *parent_idx),
            Record::Alloc { ptr, size, parent_idx } => writer.write_alloc(*size, *parent_idx, *ptr),
            Record::Free { ptr } => writer.write_free(*ptr),
            Record::Duration(d) => writer.write_duration(*d),
            Record::RSS(rss) => writer.write_rss(*rss),
        }
    }
    let text = writer.flush();
    assert_eq!(writer.flush(), "");
    let mut reader = PipeReader::new();
    reader.feed(&text);
    for (record, _) in samples() {
        assert_eq!(reader.read_record(), Some(Ok(record)));
    }
    assert_eq!(reader.read_record(), None);
}
