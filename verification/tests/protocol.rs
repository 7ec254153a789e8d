use gdb_command::session::{ExecType, GdbCommand};

#[test]
fn registering_a_command_wraps_it_in_sentinels() {
    let mut g = GdbCommand::new(ExecType::Remote("42".to_string()));
    g.ex("bt");
    assert_eq!(
        g.args,
        vec![
            "-ex".to_string(),
            "p \"gdb-command-start-0\"".to_string(),
            "-ex".to_string(),
            "bt".to_string(),
            "-ex".to_string(),
            "p \"gdb-command-end-0\"".to_string(),
        ]
    );
    assert_eq!(g.commands_cnt, 1);
    g.ex("i r");
    assert_eq!(g.commands_cnt, 2);
    assert_eq!(g.args[7], "p \"gdb-command-start-1\"");
    assert_eq!(g.args[11], "p \"gdb-command-end-1\"");
}

#[test]
fn run_command_uses_configured_stdin() {
    let mut g = GdbCommand::new(ExecType::Local(vec!["/bin/app".to_string()]));
    g.stdin(Some("/tmp/input"));
    g.r();
    assert_eq!(g.args, vec!["-ex".to_string(), "r < /tmp/input".to_string()]);
    let mut h = GdbCommand::new(ExecType::Local(vec!["/bin/app".to_string()]));
    h.r();
    assert_eq!(h.args, vec!["-ex".to_string(), "r".to_string()]);
}

#[test]
fn helper_commands_register_their_text() {
    let mut g = GdbCommand::new(ExecType::Remote("1".to_string()));
    g.bt();
    g.disassembly();
    g.regs();
    g.mappings();
    g.cmdline();
    g.env();
    g.status();
    g.sources();
    g.list(None);
    g.list(Some("main.c:1"));
    assert_eq!(g.commands_cnt, 10);
    assert_eq!(g.args[3], "bt");
    assert_eq!(g.args[9], "x/16i $pc");
    assert_eq!(g.args[15], "i r");
    assert_eq!(g.args[21], "info proc mappings");
    assert_eq!(g.args[27], "info proc cmdline");
    assert_eq!(g.args[33], "show environment");
    assert_eq!(g.args[39], "info proc status");
    assert_eq!(g.args[45], "info sources");
    assert_eq!(g.args[51], "list");
    assert_eq!(g.args[57], "list main.c:1");
}

#[test]
fn build_args_local() {
    let mut g = GdbCommand::new(ExecType::Local(vec![
        "/bin/app".to_string(),
        "arg1".to_string(),
    ]));
    g.c();
    let args = g.build_args();
    assert_eq!(
        args,
        vec![
            "--batch".to_string(),
            "-ex".to_string(),
            "set backtrace limit 2000".to_string(),
            "-ex".to_string(),
            "set disassembly-flavor intel".to_string(),
            "-ex".to_string(),
            "set filename-display absolute".to_string(),
            "-ex".to_string(),
            "c".to_string(),
            "--args".to_string(),
            "/bin/app".to_string(),
            "arg1".to_string(),
        ]
    );
}

#[test]
fn build_args_remote_and_core() {
    let g = GdbCommand::new(ExecType::Remote("512".to_string()));
    let args = g.build_args();
    assert_eq!(args[7], "-p");
    assert_eq!(args[8], "512");
    let g = GdbCommand::new(ExecType::Core {
        target: "/bin/app".to_string(),
        core: "/tmp/core".to_string(),
    });
    let args = g.build_args();
    assert_eq!(args[args.len() - 2], "/bin/app");
    assert_eq!(args[args.len() - 1], "/tmp/core");
}

fn session_with(n: usize) -> GdbCommand {
    let mut g = GdbCommand::new(ExecType::Remote("1".to_string()));
    for _ in 0..n {
        g.ex("bt");
    }
    g
}

#[test]
fn demultiplex_recovers_each_body() {
    let g = session_with(3);
    let output = "GNU gdb banner\n$1 = \"gdb-command-start-0\"\nalpha\nbeta\n$2 = \"gdb-command-end-0\"\n$3 = \"gdb-command-start-1\"\n$4 = \"gdb-command-end-1\"\n$5 = \"gdb-command-start-2\"\ngamma\n$6 = \"gdb-command-end-2\"\ntrailing noise\n";
    let results = g.demultiplex(output);
    assert_eq!(results.len(), 3);
    assert_eq!(results[0], "alpha\nbeta");
    assert_eq!(results[1], "");
    assert_eq!(results[2], "gamma");
    for r in &results {
        assert!(!r.contains("gdb-command-start"));
        assert!(!r.contains("gdb-command-end"));
    }
}

#[test]
fn demultiplex_missing_end_gives_empty_result() {
    let g = session_with(4);
    let output = "$1 = \"gdb-command-start-0\"\na\n$2 = \"gdb-command-end-0\"\n$3 = \"gdb-command-start-1\"\nb\n$4 = \"gdb-command-end-1\"\n$5 = \"gdb-command-start-2\"\nc\n$6 = \"gdb-command-start-3\"\nd\n$7 = \"gdb-command-end-3\"\n";
    let results = g.demultiplex(output);
    assert_eq!(results.len(), 4);
    assert_eq!(results[0], "a");
    assert_eq!(results[1], "b");
    assert_eq!(results[2], "");
    assert_eq!(results[3], "d");
}

#[test]
fn demultiplex_ignores_mismatched_end() {
    let g = session_with(2);
    // An end sentinel whose index does not match the open start index
    // is ignored and corrupts nothing.
    let output = "$1 = \"gdb-command-start-0\"\nx\n$2 = \"gdb-command-end-1\"\ny\n$3 = \"gdb-command-end-0\"\n";
    let results = g.demultiplex(output);
    assert_eq!(results[0], "x\n$2 = \"gdb-command-end-1\"\ny");
    assert_eq!(results[1], "");
}

#[test]
fn demultiplex_out_of_range_index_is_ignored() {
    let g = session_with(1);
    let output = "$1 = \"gdb-command-start-7\"\nz\n$2 = \"gdb-command-end-7\"\n";
    let results = g.demultiplex(output);
    assert_eq!(results.len(), 1);
    assert_eq!(results[0], "");
}

#[test]
fn demultiplex_empty_output() {
    let g = session_with(2);
    let results = g.demultiplex("");
    assert_eq!(results, vec!["".to_string(), "".to_string()]);
}

#[test]
fn demultiplex_unanchored_marker_text_is_not_a_sentinel() {
    let g = session_with(1);
    // Program output that merely contains the marker as a substring
    // must not open or close a command.
    let output = "$1 = \"gdb-command-start-0\"\nsaw $2 = \"gdb-command-end-0\" in a log\n$3 = \"gdb-command-end-0\"\n";
    let results = g.demultiplex(output);
    assert_eq!(results[0], "saw $2 = \"gdb-command-end-0\" in a log");
}
