//! One debugger session: assembling the batch-mode argument list, with
//! each registered command wrapped in printed sentinel lines, and
//! splitting the combined output back into per-command results.

use vstd::prelude::*;

use crate::text::{
    dec_end, dec_str, dec_val, fmt_u64, join_lines, join_lines_x, lemma_scan_chars,
    lit_at, lit_at_x, parse_dec_u64, skip_ws, skip_ws_x, split_lines, split_lines_x, to_chars,
    dec_end_x,
};

verus! {

/// How the debugger is pointed at its target: a fresh local run, an
/// attach to a running process, or a core dump.
pub enum ExecType {
    /// Run the target with these arguments, the program first.
    Local(Vec<String>),
    /// Attach to the process with this identifier.
    Remote(String),
    /// Open a core dump of the target.
    Core { target: String, core: String },
}

/// A debugger invocation under construction: the accumulated `-ex`
/// argument list and the count of registered logical commands.
pub struct GdbCommand {
    /// How the debugger reaches its target.
    pub exec_type: ExecType,
    /// The accumulated `-ex` parameters.
    pub args: Vec<String>,
    /// Redirected standard input for the target, if any.
    pub stdin: Option<String>,
    /// How many logical commands were registered.
    pub commands_cnt: usize,
}

/// The sentinel command printed around a registered command: it makes
/// the debugger echo a unique line embedding the command's index.
pub open spec fn sentinel_cmd(idx: nat, start: bool) -> Seq<char> {
    (if start {
        "p \"gdb-command-start-"@
    } else {
        "p \"gdb-command-end-"@
    }) + dec_str(idx) + "\""@
}

/// The argument-list growth one registered command causes.
pub open spec fn ex_args(idx: nat, cmd: Seq<char>) -> Seq<Seq<char>> {
    seq!["-ex"@, sentinel_cmd(idx, true), "-ex"@, cmd, "-ex"@, sentinel_cmd(idx, false)]
}

impl GdbCommand {
    /// A fresh invocation with no commands registered.
    pub fn new(exec_type: ExecType) -> (r: GdbCommand)
        ensures
            r.exec_type == exec_type,
            r.args@.len() == 0,
            r.stdin is None,
            r.commands_cnt == 0,
    {
        GdbCommand { exec_type, args: Vec::new(), stdin: None, commands_cnt: 0 }
    }

    /// Set or clear the file the target reads as standard input; call
    /// before [`GdbCommand::r`].
    pub fn stdin(&mut self, file: Option<&str>)
        ensures
            final(self).exec_type == old(self).exec_type,
            final(self).args == old(self).args,
            final(self).commands_cnt == old(self).commands_cnt,
            match file {
                Some(f) => final(self).stdin matches Some(s) && s@ == f@,
                None => final(self).stdin is None,
            },
    {
        self.stdin = match file {
            Some(f) => Some(f.to_owned()),
            None => None,
        };
    }

    /// Register one debugger command, wrapped in its two sentinel
    /// prints; indices count up from zero in registration order.
    pub fn ex(&mut self, cmd: &str)
        requires
            old(self).commands_cnt < usize::MAX,
        ensures
            final(self).exec_type == old(self).exec_type,
            final(self).stdin == old(self).stdin,
            final(self).commands_cnt == old(self).commands_cnt + 1,
            final(self).args.deep_view() == old(self).args.deep_view() + ex_args(
                old(self).commands_cnt as nat,
                cmd@,
            ),
    {
        let ghost before = self.args.deep_view();
        let idx = self.commands_cnt;
        let start_cmd = String::from_str("p \"gdb-command-start-").concat(
            fmt_u64(idx as u64).as_str(),
        ).concat("\"");
        let end_cmd = String::from_str("p \"gdb-command-end-").concat(
            fmt_u64(idx as u64).as_str(),
        ).concat("\"");
        self.args.push(String::from_str("-ex"));
        self.args.push(start_cmd);
        self.args.push(String::from_str("-ex"));
        self.args.push(cmd.to_owned());
        self.args.push(String::from_str("-ex"));
        self.args.push(end_cmd);
        self.commands_cnt = idx + 1;
        proof {
            assert(self.args.deep_view() =~= before + ex_args(idx as nat, cmd@));
        }
    }

    /// Register the command that runs the target, reading standard
    /// input from the configured file when one is set.
    pub fn r(&mut self)
        ensures
            final(self).exec_type == old(self).exec_type,
            final(self).stdin == old(self).stdin,
            final(self).commands_cnt == old(self).commands_cnt,
            final(self).args.deep_view() == old(self).args.deep_view() + seq![
                "-ex"@,
                match old(self).stdin {
                    Some(f) => "r < "@ + f@,
                    None => "r"@,
                },
            ],
    {
        let ghost before = self.args.deep_view();
        self.args.push(String::from_str("-ex"));
        let run_cmd = match &self.stdin {
            Some(f) => String::from_str("r < ").concat(f.as_str()),
            None => String::from_str("r"),
        };
        self.args.push(run_cmd);
        proof {
            assert(self.args.deep_view() =~= before + seq![
                "-ex"@,
                match old(self).stdin {
                    Some(f) => "r < "@ + f@,
                    None => "r"@,
                },
            ]);
        }
    }

    /// Register the command that continues execution.
    pub fn c(&mut self)
        ensures
            final(self).exec_type == old(self).exec_type,
            final(self).stdin == old(self).stdin,
            final(self).commands_cnt == old(self).commands_cnt,
            final(self).args.deep_view() == old(self).args.deep_view() + seq!["-ex"@, "c"@],
    {
        let ghost before = self.args.deep_view();
        self.args.push(String::from_str("-ex"));
        self.args.push(String::from_str("c"));
        proof {
            assert(self.args.deep_view() =~= before + seq!["-ex"@, "c"@]);
        }
    }

    /// Register a breakpoint on the program's entry function.
    pub fn bmain(&mut self)
        ensures
            final(self).exec_type == old(self).exec_type,
            final(self).stdin == old(self).stdin,
            final(self).commands_cnt == old(self).commands_cnt,
            final(self).args.deep_view() == old(self).args.deep_view() + seq!["-ex"@, "b main"@],
    {
        let ghost before = self.args.deep_view();
        self.args.push(String::from_str("-ex"));
        self.args.push(String::from_str("b main"));
        proof {
            assert(self.args.deep_view() =~= before + seq!["-ex"@, "b main"@]);
        }
    }

    /// Register the backtrace command.
    pub fn bt(&mut self)
        requires
            old(self).commands_cnt < usize::MAX,
        ensures
            final(self).exec_type == old(self).exec_type,
            final(self).stdin == old(self).stdin,
            final(self).commands_cnt == old(self).commands_cnt + 1,
            final(self).args.deep_view() == old(self).args.deep_view() + ex_args(
                old(self).commands_cnt as nat,
                "bt"@,
            ),
    {
        self.ex("bt");
    }

    /// Register the command that disassembles around the program counter.
    pub fn disassembly(&mut self)
        requires
            old(self).commands_cnt < usize::MAX,
        ensures
            final(self).exec_type == old(self).exec_type,
            final(self).stdin == old(self).stdin,
            final(self).commands_cnt == old(self).commands_cnt + 1,
            final(self).args.deep_view() == old(self).args.deep_view() + ex_args(
                old(self).commands_cnt as nat,
                "x/16i $pc"@,
            ),
    {
        self.ex("x/16i $pc");
    }

    /// Register the command that prints the registers.
    pub fn regs(&mut self)
        requires
            old(self).commands_cnt < usize::MAX,
        ensures
            final(self).exec_type == old(self).exec_type,
            final(self).stdin == old(self).stdin,
            final(self).commands_cnt == old(self).commands_cnt + 1,
            final(self).args.deep_view() == old(self).args.deep_view() + ex_args(
                old(self).commands_cnt as nat,
                "i r"@,
            ),
    {
        self.ex("i r");
    }

    /// Register the command that prints the process memory mappings.
    pub fn mappings(&mut self)
        requires
            old(self).commands_cnt < usize::MAX,
        ensures
            final(self).exec_type == old(self).exec_type,
            final(self).stdin == old(self).stdin,
            final(self).commands_cnt == old(self).commands_cnt + 1,
            final(self).args.deep_view() == old(self).args.deep_view() + ex_args(
                old(self).commands_cnt as nat,
                "info proc mappings"@,
            ),
    {
        self.ex("info proc mappings");
    }

    /// Register the command that prints the process command line.
    pub fn cmdline(&mut self)
        requires
            old(self).commands_cnt < usize::MAX,
        ensures
            final(self).exec_type == old(self).exec_type,
            final(self).stdin == old(self).stdin,
            final(self).commands_cnt == old(self).commands_cnt + 1,
            final(self).args.deep_view() == old(self).args.deep_view() + ex_args(
                old(self).commands_cnt as nat,
                "info proc cmdline"@,
            ),
    {
        self.ex("info proc cmdline");
    }

    /// Register the command that prints the environment.
    pub fn env(&mut self)
        requires
            old(self).commands_cnt < usize::MAX,
        ensures
            final(self).exec_type == old(self).exec_type,
            final(self).stdin == old(self).stdin,
            final(self).commands_cnt == old(self).commands_cnt + 1,
            final(self).args.deep_view() == old(self).args.deep_view() + ex_args(
                old(self).commands_cnt as nat,
                "show environment"@,
            ),
    {
        self.ex("show environment");
    }

    /// Register the command that prints the process status.
    pub fn status(&mut self)
        requires
            old(self).commands_cnt < usize::MAX,
        ensures
            final(self).exec_type == old(self).exec_type,
            final(self).stdin == old(self).stdin,
            final(self).commands_cnt == old(self).commands_cnt + 1,
            final(self).args.deep_view() == old(self).args.deep_view() + ex_args(
                old(self).commands_cnt as nat,
                "info proc status"@,
            ),
    {
        self.ex("info proc status");
    }

    /// Register the command that lists the known source files.
    pub fn sources(&mut self)
        requires
            old(self).commands_cnt < usize::MAX,
        ensures
            final(self).exec_type == old(self).exec_type,
            final(self).stdin == old(self).stdin,
            final(self).commands_cnt == old(self).commands_cnt + 1,
            final(self).args.deep_view() == old(self).args.deep_view() + ex_args(
                old(self).commands_cnt as nat,
                "info sources"@,
            ),
    {
        self.ex("info sources");
    }

    /// Register the command that lists source lines, around the given
    /// location or around the current line.
    pub fn list(&mut self, location: Option<&str>)
        requires
            old(self).commands_cnt < usize::MAX,
        ensures
            final(self).exec_type == old(self).exec_type,
            final(self).stdin == old(self).stdin,
            final(self).commands_cnt == old(self).commands_cnt + 1,
            final(self).args.deep_view() == old(self).args.deep_view() + ex_args(
                old(self).commands_cnt as nat,
                match location {
                    Some(loc) => "list "@ + loc@,
                    None => "list"@,
                },
            ),
    {
        match location {
            Some(loc) => {
                let cmd = String::from_str("list ").concat(loc);
                self.ex(cmd.as_str());
            },
            None => {
                self.ex("list");
            },
        }
    }
}

// ---------------------------------------------------------------------
// The assembled invocation
// ---------------------------------------------------------------------

/// The fixed arguments every invocation begins with.
pub open spec fn base_args() -> Seq<Seq<char>> {
    seq![
        "--batch"@,
        "-ex"@,
        "set backtrace limit 2000"@,
        "-ex"@,
        "set disassembly-flavor intel"@,
        "-ex"@,
        "set filename-display absolute"@,
    ]
}

/// The full debugger argument list for an invocation.
pub open spec fn invocation_args(g: GdbCommand) -> Seq<Seq<char>> {
    match g.exec_type {
        ExecType::Local(t) => base_args() + g.args.deep_view() + seq!["--args"@] + t.deep_view(),
        ExecType::Remote(pid) => base_args() + seq!["-p"@, pid@] + g.args.deep_view(),
        ExecType::Core { target, core } => base_args() + g.args.deep_view() + seq![
            target@,
            core@,
        ],
    }
}

/// Append copies of all of `src` to `dst`.
fn append_clones(dst: &mut Vec<String>, src: &Vec<String>)
    ensures
        final(dst).deep_view() == old(dst).deep_view() + src.deep_view(),
{
    let n = src.len();
    let mut i: usize = 0;
    proof {
        assert(dst.deep_view() =~= old(dst).deep_view() + src.deep_view().subrange(0, 0));
    }
    while i < n
        invariant
            i <= n == src@.len(),
            dst.deep_view() == old(dst).deep_view() + src.deep_view().subrange(0, i as int),
        decreases n - i,
    {
        let ghost before = dst.deep_view();
        dst.push(src[i].clone());
        proof {
            assert(src.deep_view()[i as int] == src@[i as int]@);
            assert(dst.deep_view() =~= before.push(src@[i as int]@));
            assert(dst.deep_view() =~= old(dst).deep_view() + src.deep_view().subrange(
                0,
                i as int + 1,
            ));
        }
        i += 1;
    }
    proof {
        assert(src.deep_view().subrange(0, n as int) =~= src.deep_view());
    }
}

impl GdbCommand {
    /// The complete debugger argument list this invocation runs with:
    /// the fixed batch-mode setup, the registered `-ex` parameters, and
    /// the target selection.
    pub fn build_args(&self) -> (r: Vec<String>)
        ensures
            r.deep_view() == invocation_args(*self),
    {
        let mut out: Vec<String> = Vec::new();
        out.push(String::from_str("--batch"));
        out.push(String::from_str("-ex"));
        out.push(String::from_str("set backtrace limit 2000"));
        out.push(String::from_str("-ex"));
        out.push(String::from_str("set disassembly-flavor intel"));
        out.push(String::from_str("-ex"));
        out.push(String::from_str("set filename-display absolute"));
        proof {
            assert(out.deep_view() =~= base_args());
        }
        match &self.exec_type {
            ExecType::Local(t) => {
                append_clones(&mut out, &self.args);
                out.push(String::from_str("--args"));
                let ghost mid = out.deep_view();
                append_clones(&mut out, t);
                proof {
                    assert(out.deep_view() =~= invocation_args(*self));
                }
            },
            ExecType::Remote(pid) => {
                out.push(String::from_str("-p"));
                out.push(pid.clone());
                append_clones(&mut out, &self.args);
                proof {
                    assert(out.deep_view() =~= invocation_args(*self));
                }
            },
            ExecType::Core { target, core } => {
                append_clones(&mut out, &self.args);
                out.push(target.clone());
                out.push(core.clone());
                proof {
                    assert(out.deep_view() =~= invocation_args(*self));
                }
            },
        }
        out
    }
}

// ---------------------------------------------------------------------
// Demultiplexing
// ---------------------------------------------------------------------

/// The literal that opens a start-sentinel line's quoted part.
pub open spec fn start_marker() -> Seq<char> {
    "\"gdb-command-start-"@
}

/// The literal that opens an end-sentinel line's quoted part.
pub open spec fn end_marker() -> Seq<char> {
    "\"gdb-command-end-"@
}

/// The line is a sentinel line, anchored at both ends: `$`, digits,
/// `=`, the quoted marker with an embedded index, and nothing after.
pub open spec fn sentinel_ok(l: Seq<char>, start: bool) -> bool {
    let pat = if start {
        start_marker()
    } else {
        end_marker()
    };
    &&& l.len() > 0
    &&& l[0] == '$'
    &&& dec_end(l, 1) > 1
    &&& {
        let w1 = skip_ws(l, dec_end(l, 1));
        &&& w1 < l.len()
        &&& l[w1] == '='
        &&& {
            let w2 = skip_ws(l, w1 + 1);
            &&& lit_at(l, w2, pat)
            &&& {
                let ds = w2 + pat.len();
                let de = dec_end(l, ds);
                de > ds && de < l.len() && l[de] == '"' && de + 1 == l.len()
            }
        }
    }
}

/// The index a sentinel line embeds.
pub open spec fn sentinel_val(l: Seq<char>, start: bool) -> nat {
    let pat = if start {
        start_marker()
    } else {
        end_marker()
    };
    let w1 = skip_ws(l, dec_end(l, 1));
    let w2 = skip_ws(l, w1 + 1);
    let ds = w2 + pat.len();
    dec_val(l.subrange(ds, dec_end(l, ds)))
}

/// Executable sentinel-line parse; the embedded index is reported
/// saturated at the integer width, which the range guard later rejects.
fn sentinel_x(lcs: &Vec<char>, pat: &Vec<char>, start: bool) -> (r: Option<u64>)
    requires
        pat@ == if start {
            start_marker()
        } else {
            end_marker()
        },
    ensures
        match r {
            Some(v) => sentinel_ok(lcs@, start) && (if sentinel_val(lcs@, start) <= u64::MAX {
                v as nat == sentinel_val(lcs@, start)
            } else {
                v == u64::MAX
            }),
            None => !sentinel_ok(lcs@, start),
        },
{
    let n = lcs.len();
    if n == 0 || lcs[0] != '$' {
        return None;
    }
    let d0 = dec_end_x(lcs, 1);
    if d0 <= 1 {
        return None;
    }
    let w1 = skip_ws_x(lcs, d0);
    if w1 >= n || lcs[w1] != '=' {
        return None;
    }
    let w2 = skip_ws_x(lcs, w1 + 1);
    if !lit_at_x(lcs, w2, pat) {
        return None;
    }
    let ds = w2 + pat.len();
    let de = dec_end_x(lcs, ds);
    if !(de > ds && de < n && lcs[de] == '"' && de + 1 == n) {
        return None;
    }
    proof {
        lemma_scan_chars(lcs@, ds as int);
    }
    match parse_dec_u64(lcs, ds, de) {
        Some(v) => Some(v),
        None => Some(u64::MAX),
    }
}

/// One pass of the demultiplexing scan, from line `i` on, with the
/// position of the last start sentinel, its index, and the results so
/// far. A result is written when an end sentinel matches the open
/// index, the index is in range, and lines lie strictly between the
/// pair.
pub open spec fn demux_step(
    lines: Seq<Seq<char>>,
    cnt: nat,
    i: int,
    start: int,
    cur: nat,
    acc: Seq<Seq<char>>,
) -> Seq<Seq<char>>
    decreases lines.len() - i,
{
    if i < 0 || i >= lines.len() {
        acc
    } else {
        let l = lines[i];
        let st2 = if sentinel_ok(l, true) {
            i
        } else {
            start
        };
        let c2 = if sentinel_ok(l, true) {
            sentinel_val(l, true)
        } else {
            cur
        };
        let acc2 = if sentinel_ok(l, false) && sentinel_val(l, false) == c2 && c2 < cnt && st2
            < i {
            acc.update(c2 as int, join_lines(lines.subrange(st2 + 1, i)))
        } else {
            acc
        };
        demux_step(lines, cnt, i + 1, st2, c2, acc2)
    }
}

/// The per-command results recovered from combined output split into
/// `lines`: each unclosed index keeps its empty result.
pub open spec fn demux_spec(lines: Seq<Seq<char>>, cnt: nat) -> Seq<Seq<char>> {
    demux_step(lines, cnt, 0, 0, 0, Seq::new(cnt, |k: int| Seq::<char>::empty()))
}

/// A line that neither sentinel grammar matches.
pub open spec fn plain_line(l: Seq<char>) -> bool {
    !sentinel_ok(l, true) && !sentinel_ok(l, false)
}

/// No line is both a start and an end sentinel: the two quoted markers
/// differ where one says `start` and the other `end`.
pub proof fn lemma_sentinel_distinct(l: Seq<char>)
    ensures
        !(sentinel_ok(l, true) && sentinel_ok(l, false)),
{
    if sentinel_ok(l, true) && sentinel_ok(l, false) {
        reveal_strlit("\"gdb-command-start-");
        reveal_strlit("\"gdb-command-end-");
        let w1 = skip_ws(l, dec_end(l, 1));
        let w2 = skip_ws(l, w1 + 1);
        assert(l[w2 + 13] == start_marker()[13]);
        assert(l[w2 + 13] == end_marker()[13]);
        assert(false);
    }
}

/// Plain lines change nothing: the scan carries its state across them.
pub proof fn lemma_demux_plain(
    lines: Seq<Seq<char>>,
    cnt: nat,
    i: int,
    start: int,
    cur: nat,
    acc: Seq<Seq<char>>,
    j: int,
)
    requires
        0 <= i <= j <= lines.len(),
        forall|m: int| i <= m < j ==> plain_line(#[trigger] lines[m]),
    ensures
        demux_step(lines, cnt, i, start, cur, acc) == demux_step(lines, cnt, j, start, cur, acc),
    decreases j - i,
{
    if i < j {
        assert(plain_line(lines[i]));
        lemma_demux_plain(lines, cnt, i + 1, start, cur, acc, j);
    }
}

/// Later blocks lie wholly after an earlier block's end sentinel.
proof fn lemma_block_order(sidx: Seq<int>, eidx: Seq<int>, cnt: nat, j: int, k: int)
    requires
        sidx.len() == cnt,
        eidx.len() == cnt,
        0 <= j <= k < cnt,
        forall|m: int| j <= m < cnt ==> #[trigger] sidx[m] < eidx[m],
        forall|m: int| j <= m < cnt && m + 1 < cnt ==> #[trigger] eidx[m] < sidx[m + 1],
    ensures
        k > j ==> sidx[k] > eidx[j],
    decreases k - j,
{
    if k > j + 1 {
        lemma_block_order(sidx, eidx, cnt, j, k - 1);
        assert(eidx[k - 1] < sidx[k]);
    } else if k == j + 1 {
        assert(eidx[j] < sidx[j + 1]);
    }
}

/// Demultiplexing a session whose output holds every command's start
/// and end sentinel pair, in order, with only sentinel-free lines
/// elsewhere, recovers for each command exactly the lines between its
/// pair; results already written for earlier commands stay. `sidx` and
/// `eidx` give each remaining command's sentinel line positions.
pub proof fn lemma_demux_complete(
    lines: Seq<Seq<char>>,
    cnt: nat,
    j: int,
    i: int,
    start: int,
    cur: nat,
    acc: Seq<Seq<char>>,
    sidx: Seq<int>,
    eidx: Seq<int>,
)
    requires
        acc.len() == cnt,
        0 <= j <= cnt,
        0 <= i <= lines.len(),
        sidx.len() == cnt,
        eidx.len() == cnt,
        forall|k: int| j <= k < cnt ==> i <= #[trigger] sidx[k] < eidx[k] < lines.len(),
        forall|k: int| j <= k < cnt && k + 1 < cnt ==> #[trigger] eidx[k] < sidx[k + 1],
        forall|k: int| j <= k < cnt ==> sentinel_ok(#[trigger] lines[sidx[k]], true)
            && sentinel_val(lines[sidx[k]], true) == k,
        forall|k: int| j <= k < cnt ==> sentinel_ok(#[trigger] lines[eidx[k]], false)
            && sentinel_val(lines[eidx[k]], false) == k,
        forall|m: int| i <= m < lines.len() && (forall|k: int|
            j <= k < cnt ==> m != #[trigger] sidx[k] && m != eidx[k]) ==> plain_line(
            #[trigger] lines[m],
        ),
    ensures
        demux_step(lines, cnt, i, start, cur, acc).len() == cnt,
        forall|k: int| j <= k < cnt ==> #[trigger] demux_step(lines, cnt, i, start, cur, acc)[k]
            == join_lines(lines.subrange(sidx[k] + 1, eidx[k])),
        forall|k: int| 0 <= k < j ==> #[trigger] demux_step(lines, cnt, i, start, cur, acc)[k]
            == acc[k],
    decreases cnt - j,
{
    if j == cnt {
        assert forall|m: int| i <= m < lines.len() implies plain_line(#[trigger] lines[m]) by {
            assert(forall|k: int| j <= k < cnt ==> m != #[trigger] sidx[k] && m != eidx[k]);
        }
        lemma_demux_plain(lines, cnt, i, start, cur, acc, lines.len() as int);
    } else {
        let s0 = sidx[j];
        let e0 = eidx[j];
        // Up to the start sentinel everything is plain.
        assert forall|m: int| i <= m < s0 implies plain_line(#[trigger] lines[m]) by {
            assert forall|k: int| j <= k < cnt implies m != #[trigger] sidx[k] && m != eidx[k] by {
                if k > j {
                    lemma_block_order(sidx, eidx, cnt, j, k);
                }
            }
        }
        lemma_demux_plain(lines, cnt, i, start, cur, acc, s0);
        // The start sentinel opens command j and writes nothing.
        lemma_sentinel_distinct(lines[s0]);
        assert(demux_step(lines, cnt, s0, start, cur, acc) == demux_step(
            lines,
            cnt,
            s0 + 1,
            s0,
            j as nat,
            acc,
        ));
        // Between the pair everything is plain.
        assert forall|m: int| s0 + 1 <= m < e0 implies plain_line(#[trigger] lines[m]) by {
            assert forall|k: int| j <= k < cnt implies m != #[trigger] sidx[k] && m != eidx[k] by {
                if k > j {
                    lemma_block_order(sidx, eidx, cnt, j, k);
                }
            }
        }
        lemma_demux_plain(lines, cnt, s0 + 1, s0, j as nat, acc, e0);
        // The end sentinel closes command j and records its body.
        lemma_sentinel_distinct(lines[e0]);
        let acc2 = acc.update(j, join_lines(lines.subrange(s0 + 1, e0)));
        assert(demux_step(lines, cnt, e0, s0, j as nat, acc) == demux_step(
            lines,
            cnt,
            e0 + 1,
            s0,
            j as nat,
            acc2,
        ));
        assert forall|m: int| e0 + 1 <= m < lines.len() && (forall|k: int|
            j + 1 <= k < cnt ==> m != #[trigger] sidx[k] && m != eidx[k]) implies plain_line(
            #[trigger] lines[m],
        ) by {
            assert(m != sidx[j] && m != eidx[j]);
        }
        assert forall|k: int| j + 1 <= k < cnt implies e0 + 1 <= #[trigger] sidx[k] by {
            lemma_block_order(sidx, eidx, cnt, j, k);
        }
        lemma_demux_complete(lines, cnt, j + 1, e0 + 1, s0, j as nat, acc2, sidx, eidx);
    }
}

impl GdbCommand {
    /// Split combined session output back into one result per
    /// registered command, by scanning for the sentinel lines; an index
    /// never closed keeps an empty result, never an error.
    pub fn demultiplex(&self, output: &str) -> (r: Vec<String>)
        ensures
            r.deep_view() == demux_spec(split_lines(output@), self.commands_cnt as nat),
            r@.len() == self.commands_cnt,
    {
        let ocs = to_chars(output);
        let lines = split_lines_x(output, &ocs);
        let cnt = self.commands_cnt;
        let start_pat = to_chars("\"gdb-command-start-");
        let end_pat = to_chars("\"gdb-command-end-");
        let mut results: Vec<String> = Vec::new();
        let mut k: usize = 0;
        while k < cnt
            invariant
                k <= cnt,
                results@.len() == k,
                results.deep_view() =~= Seq::new(k as nat, |m: int| Seq::<char>::empty()),
            decreases cnt - k,
        {
            let ghost before = results.deep_view();
            let empty = String::new();
            proof {
                assert(empty@ =~= Seq::<char>::empty());
            }
            results.push(empty);
            proof {
                assert(results.deep_view() =~= before.push(Seq::<char>::empty()));
                assert(results.deep_view() =~= Seq::new(
                    k as nat + 1,
                    |m: int| Seq::<char>::empty(),
                ));
            }
            k += 1;
        }
        let n = lines.len();
        let mut i: usize = 0;
        let mut start: usize = 0;
        let mut cur: u64 = 0;
        let ghost mut m_cur: nat = 0nat;
        loop
            invariant
                i <= n == lines@.len(),
                start <= i,
                start <= n,
                lines.deep_view() == split_lines(output@),
                start_pat@ == start_marker(),
                end_pat@ == end_marker(),
                results@.len() == cnt == self.commands_cnt,
                cur as nat == m_cur || (cur == u64::MAX && m_cur >= u64::MAX),
                demux_spec(split_lines(output@), cnt as nat) == demux_step(
                    lines.deep_view(),
                    cnt as nat,
                    i as int,
                    start as int,
                    m_cur,
                    results.deep_view(),
                ),
            decreases n - i,
        {
            if i == n {
                return results;
            }
            let ghost l = lines.deep_view()[i as int];
            let ghost old_start = start as int;
            let ghost old_mcur = m_cur;
            let ghost old_acc = results.deep_view();
            let lcs = to_chars(lines[i].as_str());
            proof {
                assert(lines.deep_view()[i as int] == lines@[i as int]@);
            }
            match sentinel_x(&lcs, &start_pat, true) {
                Some(v) => {
                    start = i;
                    cur = v;
                    proof {
                        m_cur = sentinel_val(l, true);
                    }
                },
                None => {},
            }
            let ghost st2 = if sentinel_ok(l, true) {
                i as int
            } else {
                old_start
            };
            let ghost c2 = if sentinel_ok(l, true) {
                sentinel_val(l, true)
            } else {
                old_mcur
            };
            proof {
                assert(start as int == st2);
                assert(cur as nat == c2 || (cur == u64::MAX && c2 >= u64::MAX));
            }
            match sentinel_x(&lcs, &end_pat, false) {
                Some(v) => {
                    if v == cur && v < cnt as u64 && start < i {
                        let joined = join_lines_x(&lines, start + 1, i);
                        proof {
                            assert(v < cnt as u64);
                            assert(v as nat == sentinel_val(l, false));
                            assert(c2 == v as nat);
                        }
                        results.set(v as usize, joined);
                        proof {
                            assert(results.deep_view() =~= old_acc.update(
                                c2 as int,
                                join_lines(lines.deep_view().subrange(st2 + 1, i as int)),
                            ));
                        }
                    } else {
                        proof {
                            if sentinel_val(l, false) == c2 && c2 < cnt as nat && st2 < i {
                                // The guard would then have passed: the
                                // index is below the count, so it is not
                                // saturated and the comparisons agree.
                                assert(c2 < cnt as nat);
                                assert(sentinel_val(l, false) <= u64::MAX);
                                assert(v as nat == sentinel_val(l, false));
                                assert(cur as nat == c2);
                                assert(false);
                            }
                        }
                    }
                },
                None => {},
            }
            i += 1;
        }
    }
}

} // verus!
