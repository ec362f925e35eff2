use memtrack::interpret::{Error, Interpreter, FILE_VERSION};
use memtrack::pipe_io::Record;
use memtrack::resolver::{Location, Module, Resolver};

const BASE: usize = 0x1000_0000;
const SPAN: usize = 0x1000_0000;
const SELF_PATH: &str = "/proc/self/exe";

fn own_loader() -> addr2line::Loader {
    addr2line::Loader::new(SELF_PATH).unwrap()
}

fn symbol_from(loader: &addr2line::Loader, start: u64, unlike: &str) -> (u64, String) {
    let mut probe = start;
    while probe < SPAN as u64 {
        if let Some(name) = loader.find_symbol(probe) {
            if name != unlike {
                return (probe, name.to_string());
            }
        }
        probe += 0x10;
    }
    panic!("no symbol found");
}

fn readable(symbol: &str) -> String {
    rustc_demangle::demangle(symbol).to_string()
}

fn image_record() -> Record {
    Record::Image { name: SELF_PATH.to_string(), start_address: BASE, size: SPAN }
}

#[test]
fn location_is_the_demangled_symbol() {
    assert_eq!(
        Location::from_symbol("_ZN3foo3barE", 4),
        Location { function_name: "foo::bar".to_string(), module_id: 4 }
    );
    assert_eq!(Location::from_symbol("_ZN4testE", 0).function_name, "test");
    assert_eq!(Location::from_symbol("malloc", 1).function_name, "malloc");
    assert_eq!(
        Location::from_symbol("_ZN4core3fmt5write17h0123456789abcdefE", 0).function_name,
        "core::fmt::write::h0123456789abcdef"
    );
    let location = Location::from_symbol("_RNvCs1234_7mycrate3foo", 2);
    assert_eq!(location.function_name, readable("_RNvCs1234_7mycrate3foo"));
    assert_ne!(location.function_name, "_RNvCs1234_7mycrate3foo");
    assert_eq!(location.duplicate(), location);
}

#[test]
fn module_new_spans_its_size() {
    let module = Module::new("/bin/cat".to_string(), 0x1000, 0x200);
    assert_eq!(
        module,
        Module { start_address: 0x1000, end_address: 0x1200, path: "/bin/cat".to_string(), module_id: 0 }
    );
    let module = Module::new(String::new(), u64::MAX, 0);
    assert_eq!((module.start_address, module.end_address), (u64::MAX, u64::MAX));
}

#[test]
fn module_lookup_stays_inside_the_module() {
    let loader = own_loader();
    let (probe, symbol) = symbol_from(&loader, 0x1000, "");
    let mut module = Module::new(SELF_PATH.to_string(), BASE as u64, SPAN as u64);
    module.module_id = 9;
    assert_eq!(
        module.lookup(BASE as u64 + probe, &loader),
        Some(Location { function_name: readable(&symbol), module_id: 9 })
    );
    assert_eq!(module.lookup(BASE as u64 - 1, &loader), None);
    assert_eq!(module.lookup((BASE + SPAN) as u64, &loader), None);
    assert_eq!(module.lookup(probe, &loader), None);
}

#[test]
fn test_lookup() {
    let loader = own_loader();
    let (probe, symbol) = symbol_from(&loader, 0x1000, "");
    let mut resolver = Resolver::new();
    assert_eq!(resolver.lookup(BASE as u64 + probe), None);
    assert_eq!(resolver.add_module(3, SELF_PATH, BASE as u64, SPAN as u64, Some(own_loader())), Ok(()));
    let expected = Location { function_name: readable(&symbol), module_id: 3 };
    assert_eq!(resolver.lookup(BASE as u64 + probe), Some(expected.duplicate()));
    assert_eq!(resolver.lookup(BASE as u64 + probe), Some(expected));
    assert_eq!(resolver.lookup(BASE as u64 - 1), None);
    assert_eq!(resolver.lookup((BASE + SPAN) as u64), None);
    assert_eq!(resolver.lookup(0), None);
}

#[test]
fn modules_that_cannot_be_registered() {
    let mut resolver = Resolver::new();
    assert_eq!(
        resolver.add_module(0, SELF_PATH, 0x1000, 0x1000, None),
        Err(memtrack::resolver::Error::ModuleNotFound)
    );
    assert_eq!(
        resolver.add_module(0, SELF_PATH, 0x1000, 0, Some(own_loader())),
        Err(memtrack::resolver::Error::InvalidRange)
    );
    assert_eq!(
        resolver.add_module(0, SELF_PATH, u64::MAX, 1, Some(own_loader())),
        Err(memtrack::resolver::Error::InvalidRange)
    );
    assert_eq!(
        resolver.add_module(0, SELF_PATH, 0x1000, 0, None),
        Err(memtrack::resolver::Error::ModuleNotFound)
    );
    assert_eq!(
        resolver.add_module(0, SELF_PATH, u64::MAX, 2, None),
        Err(memtrack::resolver::Error::ModuleNotFound)
    );
    assert_eq!(resolver.lookup(0x1800), None);
    assert_eq!(resolver.add_module(0, SELF_PATH, u64::MAX - 1, 1, Some(own_loader())), Ok(()));
}

#[test]
fn a_later_module_takes_over_the_addresses_it_covers() {
    let loader = own_loader();
    let (probe, _) = symbol_from(&loader, 0x1000, "");
    let ip = BASE as u64 + probe;
    let mut resolver = Resolver::new();
    assert_eq!(resolver.add_module(1, SELF_PATH, BASE as u64, SPAN as u64, Some(own_loader())), Ok(()));
    assert_eq!(resolver.lookup(ip).map(|l| l.module_id), Some(1));
    assert_eq!(resolver.add_module(2, SELF_PATH, BASE as u64, SPAN as u64, Some(own_loader())), Ok(()));
    assert_eq!(resolver.lookup(ip).map(|l| l.module_id), Some(2));
    assert_eq!(resolver.add_module(5, SELF_PATH, 0x10, 0x20, Some(own_loader())), Ok(()));
    assert_eq!(resolver.lookup(ip).map(|l| l.module_id), Some(2));
}

#[test]
fn empty_target_yields_version_and_strings_only() {
    let mut interpreter = Interpreter::new();
    assert_eq!(FILE_VERSION, 3);
    assert_eq!(interpreter.handle_record(Record::Version(100), None), Ok(()));
    assert_eq!(interpreter.handle_record(Record::Exec("/bin/target".to_string()), None), Ok(()));
    assert_eq!(interpreter.handle_record(Record::PageInfo { size: 4096, pages: 16 }, None), Ok(()));
    assert_eq!(interpreter.handle_record(image_record(), Some(own_loader())), Ok(()));
    assert_eq!(
        interpreter.handle_record(
            Record::Image { name: "/lib/other.so".to_string(), start_address: 0x100, size: 0x100 },
            Some(own_loader())
        ),
        Ok(())
    );
    assert_eq!(interpreter.handle_record(Record::Duration(12), None), Ok(()));
    assert_eq!(interpreter.handle_record(Record::RSS(0x300000), None), Ok(()));
    assert_eq!(
        interpreter.take_output(),
        "v 64 3\ns b /bin/target\nI 1000 10\ns e /proc/self/exe\ns d /lib/other.so\nc c\nR 300000\n"
    );
    assert_eq!(interpreter.take_output(), "");
}

#[test]
fn strings_are_written_once() {
    let mut interpreter = Interpreter::new();
    assert_eq!(interpreter.write_string("main"), 0);
    assert_eq!(interpreter.write_string("free"), 1);
    assert_eq!(interpreter.write_string("main"), 0);
    assert_eq!(interpreter.handle_record(Record::Exec("free".to_string()), None), Ok(()));
    assert_eq!(interpreter.handle_record(Record::Exec("exec".to_string()), None), Ok(()));
    assert_eq!(interpreter.take_output(), "s 4 main\ns 4 free\ns 4 exec\n");
}

#[test]
fn single_allocation_is_enriched() {
    let loader = own_loader();
    let (first, first_symbol) = symbol_from(&loader, 0x1000, "");
    let (second, second_symbol) = symbol_from(&loader, first, &first_symbol);
    let mut interpreter = Interpreter::new();
    assert_eq!(interpreter.handle_record(Record::Exec("/bin/target".to_string()), None), Ok(()));
    assert_eq!(interpreter.handle_record(image_record(), Some(own_loader())), Ok(()));
    interpreter.take_output();
    assert_eq!(interpreter.handle_record(Record::Trace { ip: BASE + first as usize, parent_idx: 0 }, None), Ok(()));
    assert_eq!(interpreter.handle_record(Record::Trace { ip: BASE + second as usize, parent_idx: 1 }, None), Ok(()));
    assert_eq!(
        interpreter.handle_record(Record::Alloc { ptr: 0x600000, size: 128, parent_idx: 2 }, None),
        Ok(())
    );
    assert_eq!(interpreter.handle_record(Record::Free { ptr: 0x600000 }, None), Ok(()));
    let first_name = readable(&first_symbol);
    let second_name = readable(&second_symbol);
    let expected = format!(
        "s {:x} {}\ni {:x} 1 2\nt 0 0\ns {:x} {}\ni {:x} 1 3\nt 1 1\na 80 2\n",
        first_name.len(),
        first_name,
        BASE + first as usize,
        second_name.len(),
        second_name,
        BASE + second as usize,
    );
    assert_eq!(interpreter.take_output(), expected);
}

#[test]
fn known_pointers_and_names_are_reused() {
    let loader = own_loader();
    let (probe, symbol) = symbol_from(&loader, 0x1000, "");
    let ip = BASE + probe as usize;
    let mut interpreter = Interpreter::new();
    assert_eq!(interpreter.handle_record(image_record(), Some(own_loader())), Ok(()));
    assert_eq!(interpreter.write_string(&readable(&symbol)), 1);
    interpreter.take_output();
    assert_eq!(interpreter.handle_record(Record::Trace { ip, parent_idx: 0 }, None), Ok(()));
    assert_eq!(interpreter.take_output(), format!("i {:x} 0 1\nt 0 0\n", ip));
    assert_eq!(interpreter.handle_record(Record::Trace { ip, parent_idx: 1 }, None), Ok(()));
    assert_eq!(interpreter.take_output(), "t 0 1\n");
    assert_eq!(interpreter.add_frame(ip as u64), Ok(0));
    assert_eq!(interpreter.take_output(), "");
}

#[test]
fn records_that_refer_forward_are_refused() {
    let loader = own_loader();
    let (probe, _) = symbol_from(&loader, 0x1000, "");
    let ip = BASE + probe as usize;
    let mut interpreter = Interpreter::new();
    assert_eq!(interpreter.handle_record(image_record(), Some(own_loader())), Ok(()));
    interpreter.take_output();
    assert!(matches!(
        interpreter.handle_record(Record::Trace { ip, parent_idx: 1 }, None),
        Err(Error::Custom(_))
    ));
    assert!(matches!(
        interpreter.handle_record(Record::Alloc { ptr: 1, size: 1, parent_idx: 1 }, None),
        Err(Error::Custom(_))
    ));
    assert_eq!(interpreter.take_output(), "");
    assert_eq!(interpreter.handle_record(Record::Alloc { ptr: 1, size: 1, parent_idx: 0 }, None), Ok(()));
    assert_eq!(interpreter.take_output(), "a 1 0\n");
    assert_eq!(interpreter.handle_record(Record::Trace { ip, parent_idx: 0 }, None), Ok(()));
    assert_eq!(interpreter.handle_record(Record::Alloc { ptr: 1, size: 1, parent_idx: 1 }, None), Ok(()));
    assert!(matches!(interpreter.on_alloc(1, 2), Err(Error::Custom(_))));
    assert!(matches!(interpreter.on_trace(ip, 2), Err(Error::Custom(_))));
}

#[test]
fn pointer_outside_every_module_is_an_error() {
    let mut interpreter = Interpreter::new();
    assert!(matches!(
        interpreter.handle_record(Record::Trace { ip: 0x1234, parent_idx: 0 }, None),
        Err(Error::Custom(_))
    ));
    assert_eq!(interpreter.handle_record(image_record(), Some(own_loader())), Ok(()));
    assert!(matches!(
        interpreter.handle_record(Record::Trace { ip: BASE - 1, parent_idx: 0 }, None),
        Err(Error::Custom(_))
    ));
    assert!(matches!(interpreter.add_frame((BASE + SPAN) as u64), Err(Error::Custom(_))));
    assert_eq!(interpreter.take_output(), "s e /proc/self/exe\n");
}

#[test]
fn image_that_cannot_be_registered_is_an_error() {
    let mut interpreter = Interpreter::new();
    assert_eq!(
        interpreter.handle_record(image_record(), None),
        Err(Error::Resolver(memtrack::resolver::Error::ModuleNotFound))
    );
    assert_eq!(
        interpreter.handle_record(
            Record::Image { name: "/lib/empty.so".to_string(), start_address: 0x100, size: 0 },
            Some(own_loader())
        ),
        Err(Error::Resolver(memtrack::resolver::Error::InvalidRange))
    );
    assert_eq!(
        interpreter.handle_record(
            Record::Image { name: "/lib/gone.so".to_string(), start_address: 0x100, size: 0 },
            None
        ),
        Err(Error::Resolver(memtrack::resolver::Error::ModuleNotFound))
    );
    assert_eq!(interpreter.take_output(), "s e /proc/self/exe\ns d /lib/empty.so\ns c /lib/gone.so\n");
}

#[test]
fn enriched_ledger_refers_only_backwards() {
    let loader = own_loader();
    let mut ips = Vec::new();
    let mut start = 0x1000;
    let mut last = String::new();
    for _ in 0..4 {
        let (probe, symbol) = symbol_from(&loader, start, &last);
        ips.push(BASE + probe as usize);
        start = probe;
        last = symbol;
    }
    let mut interpreter = Interpreter::new();
    interpreter.handle_record(Record::Version(100), None).unwrap();
    interpreter.handle_record(Record::Exec("/bin/target".to_string()), None).unwrap();
    interpreter.handle_record(image_record(), Some(own_loader())).unwrap();
    let stream = [(0, 0), (1, 1), (2, 2), (1, 0), (3, 4), (0, 5), (2, 1)];
    for (k, (ip, parent_idx)) in stream.iter().enumerate() {
        interpreter.handle_record(Record::Trace { ip: ips[*ip], parent_idx: *parent_idx }, None).unwrap();
        interpreter.handle_record(Record::Alloc { ptr: 0x10 * k, size: 8, parent_idx: k + 1 }, None).unwrap();
        interpreter.handle_record(Record::Free { ptr: 0x10 * k }, None).unwrap();
    }
    let (mut strings, mut instructions, mut traces) = (0usize, 0usize, 0usize);
    let text = interpreter.take_output();
    for line in text.lines() {
        let fields: Vec<&str> = line.split(' ').collect();
        let number = |k: usize| usize::from_str_radix(fields[k], 16).unwrap();
        match fields[0] {
            "s" => strings += 1,
            "i" => {
                assert!(number(2) < strings);
                assert!(number(3) < strings);
                instructions += 1;
            }
            "t" => {
                assert!(number(1) < instructions);
                assert!(number(2) <= traces);
                traces += 1;
            }
            "a" => assert!(number(2) <= traces && number(2) >= 1),
            "v" => {}
            other => panic!("unexpected line {:?}", other),
        }
    }
    assert_eq!(traces, 7);
    assert_eq!(instructions, 4);
    assert_eq!(strings, 2 + 4);
}

#[test]
fn module_asks_for_the_distance_from_its_start() {
    let module = Module::new("/bin/cat".to_string(), 0x1000, 0x200);
    assert_eq!(module.probe(0x1000), Some(0));
    assert_eq!(module.probe(0x1034), Some(0x34));
    assert_eq!(module.probe(0x11ff), Some(0x1ff));
    assert_eq!(module.probe(0x1200), None);
    assert_eq!(module.probe(0xfff), None);
    assert_eq!(module.probe(0), None);
    assert_eq!(Module::new(String::new(), 5, 0).probe(5), None);
}

#[test]
fn module_locates_what_the_symbol_names() {
    let mut module = Module::new("/bin/cat".to_string(), 0x1000, 0x200);
    module.module_id = 6;
    assert_eq!(module.locate(None), None);
    assert_eq!(
        module.locate(Some("_ZN3foo3barE".to_string())),
        Some(Location { function_name: "foo::bar".to_string(), module_id: 6 })
    );
    assert_eq!(
        module.locate(Some("main".to_string())),
        Some(Location { function_name: "main".to_string(), module_id: 6 })
    );
}

#[test]
fn resolver_asks_the_loader_of_the_module_that_occupies_the_address() {
    let mut resolver = Resolver::new();
    assert!(resolver.loader_at(0x1800).is_none());
    assert_eq!(resolver.add_module(4, "/lib/a.so", 0x1000, 0x1000, Some(own_loader())), Ok(()));
    assert_eq!(resolver.add_module(5, "/lib/b.so", 0x4000, 0x100, Some(own_loader())), Ok(()));
    let (module, _loader) = resolver.loader_at(0x1800).unwrap();
    assert_eq!(
        module,
        &Module { start_address: 0x1000, end_address: 0x2000, path: "/lib/a.so".to_string(), module_id: 4 }
    );
    let (module, _loader) = resolver.loader_at(0x40ff).unwrap();
    assert_eq!((module.start_address, module.module_id), (0x4000, 5));
    assert!(resolver.loader_at(0x2000).is_none());
    assert!(resolver.loader_at(0xfff).is_none());
    assert!(resolver.loader_at(0x4100).is_none());
}
