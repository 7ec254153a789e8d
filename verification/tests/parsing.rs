use gdb_command::frame::StacktraceEntry;
use gdb_command::maps::{File, MappedFiles, MappedFilesExt};
use gdb_command::trace::{Stacktrace, StacktraceExt};
use gdb_command::Error;

// ---------------------------------------------------------------------
// Memory-map table
// ---------------------------------------------------------------------

#[test]
fn map_scenario_resolution() {
    let text = "process 1234\nStart Addr   End Addr     Size     Offset   Perms  Path\n0x00400000   0x00401000   0x1000   0x0000   /bin/app\n";
    let files = MappedFiles::from_gdb(text).unwrap();
    assert_eq!(files.len(), 1);
    assert_eq!(files[0].start, 0x400000);
    assert_eq!(files[0].end, 0x401000);
    assert_eq!(files[0].offset, 0x0);
    assert_eq!(files[0].name, "/bin/app");
    let hit = files.find(0x400500).unwrap();
    assert_eq!(hit.name, "/bin/app");
    assert_eq!(0x400500 - hit.start + hit.offset, 0x500);
}

#[test]
fn map_fourth_column_must_be_hex() {
    // A row whose fourth column holds permissions instead of the file
    // offset is refused: the offset is read from the fourth token.
    let text = "Start Addr   End Addr       Offset  Perms  Path\n0x00400000   0x00401000     0x0000  r-xp   /bin/app\n";
    match MappedFiles::from_gdb(text) {
        Err(Error::NumberParse(tok)) => assert_eq!(tok, "r-xp"),
        other => panic!("expected a numeric-token error, got {:?}", other.is_ok()),
    }
}

#[test]
fn map_missing_header_is_an_error() {
    match MappedFiles::from_gdb("0x1 0x2 0x3 0x4\n") {
        Err(Error::MappedFilesParse(_)) => {},
        _ => panic!("expected a mapping-parse error"),
    }
}

#[test]
fn map_short_line_is_an_error() {
    match MappedFiles::from_gdb("Start Addr\n0x1 0x2 0x3\n") {
        Err(Error::MappedFilesParse(l)) => assert_eq!(l, "0x1 0x2 0x3"),
        _ => panic!("expected a mapping-parse error"),
    }
}

#[test]
fn map_four_columns_give_empty_path() {
    let files = MappedFiles::from_gdb("Start Addr\n0x10 0x20 0x0 0x8\n").unwrap();
    assert_eq!(files.len(), 1);
    assert_eq!(files[0].start, 0x10);
    assert_eq!(files[0].end, 0x20);
    assert_eq!(files[0].offset, 0x8);
    assert_eq!(files[0].name, "");
}

#[test]
fn map_empty_lines_are_skipped() {
    let files = MappedFiles::from_gdb("Start Addr\n\n0x10 0x20 0x0 0x8 /a\n\n").unwrap();
    assert_eq!(files.len(), 1);
}

#[test]
fn find_boundaries() {
    let files: MappedFiles = vec![File::new(0x10, 0x20, 0x0, "/a")];
    assert!(files.find(0x0f).is_none());
    assert!(files.find(0x10).is_some());
    assert!(files.find(0x1f).is_some());
    assert!(files.find(0x20).is_none());
}

#[test]
fn find_first_of_overlapping_regions() {
    let files: MappedFiles = vec![
        File::new(0x10, 0x30, 0x0, "/first"),
        File::new(0x20, 0x40, 0x0, "/second"),
    ];
    assert_eq!(files.find(0x25).unwrap().name, "/first");
}

// ---------------------------------------------------------------------
// Stack-frame line grammars, round trips with concrete values
// ---------------------------------------------------------------------

#[test]
fn grammar_module_offset_with_function() {
    let e = StacktraceEntry::new("#2 0xdeadbeef in handler (libx.so+0xff)").unwrap();
    assert_eq!(e.address, 0xdeadbeef);
    assert_eq!(e.function, "handler");
    assert_eq!(e.module, "libx.so");
    assert_eq!(e.offset, 0xff);
    assert_eq!(e.debug.file, "");
}

#[test]
fn grammar_module_offset_without_function() {
    let e = StacktraceEntry::new("#9 0x7f0a52047542 (/lib/x86_64-linux-gnu/libc.so.6+0x29542)")
        .unwrap();
    assert_eq!(e.address, 0x7f0a52047542);
    assert_eq!(e.function, "");
    assert_eq!(e.module, "/lib/x86_64-linux-gnu/libc.so.6");
    assert_eq!(e.offset, 0x29542);
}

#[test]
fn grammar_debugger_line_and_column() {
    let e = StacktraceEntry::new("#0 0x401136 in do_work at /src/main.c:12:7").unwrap();
    assert_eq!(e.address, 0x401136);
    assert_eq!(e.function, "do_work");
    assert_eq!(e.debug.file, "/src/main.c");
    assert_eq!(e.debug.line, 12);
    assert_eq!(e.debug.column, 7);
    assert_eq!(e.module, "");
    assert_eq!(e.offset, 0);
}

#[test]
fn grammar_debugger_line_scenario() {
    let e = StacktraceEntry::new("#0 0x0000000000401136 in main () at main.c:5").unwrap();
    assert_eq!(e.address, 0x401136);
    assert_eq!(e.function, "main ()");
    assert_eq!(e.debug.file, "main.c");
    assert_eq!(e.debug.line, 5);
    assert_eq!(e.debug.column, 0);
}

#[test]
fn grammar_debugger_source_only_with_spaces() {
    let e = StacktraceEntry::new("#3 helper at some file.c").unwrap();
    assert_eq!(e.address, 0);
    assert_eq!(e.function, "helper");
    assert_eq!(e.debug.file, "some file.c");
    assert_eq!(e.debug.line, 0);
    assert_eq!(e.debug.column, 0);
}

#[test]
fn grammar_sanitizer_line_and_column() {
    let e = StacktraceEntry::new("#0 0x4011a0 in LLVMFuzzerTestOneInput /fuzz/target.cc:34:5")
        .unwrap();
    assert_eq!(e.address, 0x4011a0);
    assert_eq!(e.function, "LLVMFuzzerTestOneInput");
    assert_eq!(e.debug.file, "/fuzz/target.cc");
    assert_eq!(e.debug.line, 34);
    assert_eq!(e.debug.column, 5);
}

#[test]
fn grammar_sanitizer_function_with_arguments() {
    let e = StacktraceEntry::new("#1 0x400 in func(int, char) /a/b.cc:1:2").unwrap();
    assert_eq!(e.function, "func(int, char)");
    assert_eq!(e.debug.file, "/a/b.cc");
    assert_eq!(e.debug.line, 1);
    assert_eq!(e.debug.column, 2);
}

#[test]
fn grammar_sanitizer_line_only() {
    let e = StacktraceEntry::new("#2 0x55ebfc4b4c88 in main /src/app.c:100").unwrap();
    assert_eq!(e.address, 0x55ebfc4b4c88);
    assert_eq!(e.function, "main");
    assert_eq!(e.debug.file, "/src/app.c");
    assert_eq!(e.debug.line, 100);
    assert_eq!(e.debug.column, 0);
}

#[test]
fn grammar_sanitizer_source_only() {
    let e = StacktraceEntry::new("#3 0x123 in start libc_start.S").unwrap();
    assert_eq!(e.address, 0x123);
    assert_eq!(e.function, "start");
    assert_eq!(e.debug.file, "libc_start.S");
    assert_eq!(e.debug.line, 0);
}

#[test]
fn grammar_no_source_with_address() {
    let e = StacktraceEntry::new("#1 0x00007ffff7dd5b95 in __libc_start_main (argc=1)").unwrap();
    assert_eq!(e.address, 0x7ffff7dd5b95);
    assert_eq!(e.function, "__libc_start_main (argc=1)");
    assert_eq!(e.module, "");
    assert_eq!(e.debug.file, "");
}

#[test]
fn grammar_no_source_without_address_with_module() {
    let e = StacktraceEntry::new("#5 __libc_csu_init () from /lib/libc.so.6").unwrap();
    assert_eq!(e.address, 0);
    assert_eq!(e.function, "__libc_csu_init ()");
    assert_eq!(e.module, "/lib/libc.so.6");
    assert_eq!(e.offset, 0);
}

#[test]
fn grammar_cascade_order_source_rule_shadows_from_clause() {
    // With an address present, the sanitizer source-only rule matches
    // before the no-source rule, so the trailing text lands in the
    // source-file field.
    let e = StacktraceEntry::new("#2 0x7ffff7dd5b95 in __libc_start_main () from /lib/libc.so.6")
        .unwrap();
    assert_eq!(e.function, "__libc_start_main ()");
    assert_eq!(e.debug.file, "from /lib/libc.so.6");
    assert_eq!(e.module, "");
}

#[test]
fn grammar_module_offset_scenario() {
    let e = StacktraceEntry::new("#1 0x00000000004011a0 in foo (libfoo.so+0x1a0)").unwrap();
    assert_eq!(e.address, 0x4011a0);
    assert_eq!(e.module, "libfoo.so");
    assert_eq!(e.offset, 0x1a0);
    // The optional function between `in` and the module group is kept.
    assert_eq!(e.function, "foo");
}

#[test]
fn unparseable_line_is_an_error() {
    match StacktraceEntry::new("not a frame at all") {
        Err(Error::StacktraceParse(l)) => assert_eq!(l, "not a frame at all"),
        _ => panic!("expected a stack-trace parse error"),
    }
}

#[test]
fn oversized_address_is_an_error() {
    match StacktraceEntry::new("#0 0xffffffffffffffffff (m+0x1)") {
        Err(Error::NumberParse(_)) => {},
        _ => panic!("expected a numeric-conversion error"),
    }
}

// ---------------------------------------------------------------------
// Whole traces and address resolution
// ---------------------------------------------------------------------

#[test]
fn trace_parses_lines_in_order() {
    let text = "#0 0x401136 in main () at main.c:5\n\n#1 0x7f0a52047542 (/lib/libc.so.6+0x29542)\n";
    let trace = Stacktrace::from_gdb(text).unwrap();
    assert_eq!(trace.len(), 2);
    assert_eq!(trace[0].debug.file, "main.c");
    assert_eq!(trace[1].module, "/lib/libc.so.6");
}

#[test]
fn trace_empty_text_gives_empty_trace() {
    assert_eq!(Stacktrace::from_gdb("").unwrap().len(), 0);
    assert_eq!(Stacktrace::from_gdb("\n \n").unwrap().len(), 0);
}

#[test]
fn trace_first_bad_line_aborts() {
    let text = "#0 0x401136 in main () at main.c:5\njunk\n";
    match Stacktrace::from_gdb(text) {
        Err(Error::StacktraceParse(l)) => assert_eq!(l, "junk"),
        _ => panic!("expected a stack-trace parse error"),
    }
}

#[test]
fn resolution_fills_module_and_offset() {
    let mut trace = Stacktrace::from_gdb("#0 0x0000000000400500 in main ()").unwrap();
    assert_eq!(trace[0].address, 0x400500);
    let files: MappedFiles = vec![File::new(0x400000, 0x401000, 0x0, "/bin/app")];
    trace.compute_module_offsets(&files);
    assert_eq!(trace[0].module, "/bin/app");
    assert_eq!(trace[0].offset, 0x500);
}

#[test]
fn resolution_leaves_unmapped_frames_alone() {
    let mut trace = Stacktrace::from_gdb("#0 0x10 in f ()").unwrap();
    let files: MappedFiles = vec![File::new(0x400000, 0x401000, 0x0, "/bin/app")];
    trace.compute_module_offsets(&files);
    assert_eq!(trace[0].module, "");
    assert_eq!(trace[0].offset, 0);
}

// ---------------------------------------------------------------------
// Frame identity
// ---------------------------------------------------------------------

fn with_debug(file: &str, line: u64, column: u64, address: u64) -> StacktraceEntry {
    let mut e = StacktraceEntry::default();
    e.debug.file = file.to_string();
    e.debug.line = line;
    e.debug.column = column;
    e.address = address;
    e
}

fn with_modoff(module: &str, offset: u64, address: u64) -> StacktraceEntry {
    let mut e = StacktraceEntry::default();
    e.module = module.to_string();
    e.offset = offset;
    e.address = address;
    e
}

#[test]
fn equality_prefers_debug_location() {
    let a = with_debug("a.c", 3, 1, 0x10);
    let b = with_debug("a.c", 3, 1, 0x20);
    let c = with_debug("a.c", 4, 1, 0x10);
    assert!(a == b);
    assert!(a != c);
    assert_eq!(a.hash_value(), b.hash_value());
}

#[test]
fn equality_by_module_and_offset() {
    let a = with_modoff("/lib/x.so", 0x10, 0x1000);
    let b = with_modoff("/lib/x.so", 0x10, 0x2000);
    let c = with_modoff("/lib/x.so", 0x11, 0x1000);
    assert!(a == b);
    assert!(a != c);
    assert_eq!(a.hash_value(), b.hash_value());
}

#[test]
fn equality_falls_back_to_address() {
    let mut a = StacktraceEntry::default();
    let mut b = StacktraceEntry::default();
    a.address = 0x42;
    b.address = 0x42;
    assert!(a == b);
    assert_eq!(a.hash_value(), b.hash_value());
    b.address = 0x43;
    assert!(a != b);
}

#[test]
fn equality_is_symmetric_and_reflexive() {
    let a = with_debug("a.c", 3, 1, 0x10);
    let b = with_modoff("/lib/x.so", 0x10, 0x10);
    assert!(a == a);
    assert!(b == b);
    // One side without a debug location falls back past the debug tier.
    assert_eq!(a == b, b == a);
}
