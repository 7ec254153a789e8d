//! One parsed line of a stack trace: the frame data type and the
//! ordered cascade of line grammars that reads it.

use vstd::prelude::*;

use crate::error::Error;
use crate::text::{
    dec_end, dec_str, dec_val, extract_trimmed, hex_end, hex_str, hex_val, is_dec, is_hex, is_ws,
    last_where, lemma_dec_end_run, lemma_dec_str_digits, lemma_hex_end_run, lemma_hex_str_digits,
    lemma_last_where_found, lemma_last_where_none, lemma_name_end_run, lemma_paren_end_run,
    lemma_scan_chars, name_end, paren_end,
    paren_end_x, parse_dec_u64, parse_hex_u64, skip_sp, skip_sp_x, to_chars, trim_hi, trim_lo,
    trimmed, dec_end_x, hex_end_x, name_end_x,
};

verus! {

/// Source position attached to a frame when debug symbols are present.
/// An empty file, a zero line or a zero column each mean "absent".
#[derive(Clone, Debug, Default)]
pub struct DebugInfo {
    /// Source file, empty when unknown.
    pub file: String,
    /// Source line, zero when unknown.
    pub line: u64,
    /// Source column, zero when unknown.
    pub column: u64,
}

/// One parsed stack-trace line.
#[derive(Clone, Debug, Default)]
pub struct StacktraceEntry {
    /// Instruction address, zero when unknown.
    pub address: u64,
    /// Function name, possibly empty.
    pub function: String,
    /// Module path, possibly empty.
    pub module: String,
    /// Offset inside the module, zero when unset.
    pub offset: u64,
    /// Optional source position.
    pub debug: DebugInfo,
}

/// Mathematical view of one frame, with the source position inlined.
#[verifier::ext_equal]
pub struct FrameV {
    pub address: nat,
    pub function: Seq<char>,
    pub module: Seq<char>,
    pub offset: nat,
    pub file: Seq<char>,
    pub line: nat,
    pub column: nat,
}

impl View for StacktraceEntry {
    type V = FrameV;

    open spec fn view(&self) -> FrameV {
        FrameV {
            address: self.address as nat,
            function: self.function@,
            module: self.module@,
            offset: self.offset as nat,
            file: self.debug.file@,
            line: self.debug.line as nat,
            column: self.debug.column as nat,
        }
    }
}

/// All numeric fields of `f` fit the frame's integer width.
pub open spec fn frame_fits(f: FrameV) -> bool {
    f.address <= u64::MAX && f.offset <= u64::MAX && f.line <= u64::MAX && f.column <= u64::MAX
}

// ---------------------------------------------------------------------
// Shared grammar prefix
// ---------------------------------------------------------------------

/// Position after `spaces '#' digits spaces`, the prefix every line
/// grammar demands; `-1` when the line does not begin so.
pub open spec fn after_frameno(s: Seq<char>) -> int {
    let i = skip_sp(s, 0);
    if i < s.len() && s[i] == '#' {
        let d = dec_end(s, i + 1);
        if d > i + 1 {
            skip_sp(s, d)
        } else {
            -1
        }
    } else {
        -1
    }
}

/// Executable [`after_frameno`].
fn frameno_x(cs: &Vec<char>) -> (r: Option<usize>)
    ensures
        match r {
            Some(p) => after_frameno(cs@) == p as int && p <= cs@.len(),
            None => after_frameno(cs@) < 0,
        },
{
    let i = skip_sp_x(cs, 0);
    if i < cs.len() && cs[i] == '#' {
        let d = dec_end_x(cs, i + 1);
        if d > i + 1 {
            Some(skip_sp_x(cs, d))
        } else {
            None
        }
    } else {
        None
    }
}

// ---------------------------------------------------------------------
// Grammar 1: sanitizer module+offset
// `#N 0xADDR [in FUNC] (MODULE+0xOFFSET)`
// ---------------------------------------------------------------------

/// `+0x`, hexadecimal digits, and a closing parenthesis stand at `c`.
pub open spec fn plus0x_at(s: Seq<char>, c: int) -> bool {
    &&& 0 <= c
    &&& c + 3 <= s.len()
    &&& s[c] == '+'
    &&& s[c + 1] == '0'
    &&& s[c + 2] == 'x'
    &&& hex_end(s, c + 3) > c + 3
    &&& hex_end(s, c + 3) < s.len()
    &&& s[hex_end(s, c + 3)] == ')'
}

/// [`plus0x_at`] as a predicate on the position.
pub open spec fn plus0x_pred(s: Seq<char>) -> spec_fn(int) -> bool {
    |c: int| plus0x_at(s, c)
}

/// The rightmost `+0x...)` after the opening parenthesis `b`.
pub open spec fn g1_c(s: Seq<char>, b: int) -> int {
    last_where(b + 1, s.len() - 1, plus0x_pred(s))
}

/// An opening parenthesis at `b` whose inside ends in `+0x...)`.
pub open spec fn g1_open_at(s: Seq<char>, b: int) -> bool {
    0 <= b < s.len() && s[b] == '(' && g1_c(s, b) >= 0
}

/// [`g1_open_at`] as a predicate on the position.
pub open spec fn g1_open_pred(s: Seq<char>) -> spec_fn(int) -> bool {
    |b: int| g1_open_at(s, b)
}

/// The grammar matches when, after the prefix, a hexadecimal address and
/// then either `in FUNC (` or directly `(` lead to a `+0x...)` tail; the
/// function part is greedy, so the parenthesis is the rightmost workable
/// one.
pub open spec fn g1_ok(s: Seq<char>) -> bool {
    let p = after_frameno(s);
    &&& p >= 0
    &&& p + 2 <= s.len()
    &&& s[p] == '0'
    &&& s[p + 1] == 'x'
    &&& hex_end(s, p + 2) > p + 2
    &&& {
        let he = hex_end(s, p + 2);
        let q = skip_sp(s, he);
        if q + 2 <= s.len() && s[q] == 'i' && s[q + 1] == 'n' {
            last_where(q + 3, s.len() - 1, g1_open_pred(s)) >= 0
        } else {
            g1_open_at(s, q)
        }
    }
}

/// The fields the grammar extracts.
pub open spec fn g1_val(s: Seq<char>) -> FrameV
    recommends
        g1_ok(s),
{
    let p = after_frameno(s);
    let he = hex_end(s, p + 2);
    let q = skip_sp(s, he);
    let in_case = q + 2 <= s.len() && s[q] == 'i' && s[q + 1] == 'n';
    let b = if in_case {
        last_where(q + 3, s.len() - 1, g1_open_pred(s))
    } else {
        q
    };
    let c = g1_c(s, b);
    let he3 = hex_end(s, c + 3);
    FrameV {
        address: hex_val(s.subrange(p + 2, he)),
        function: if in_case {
            trimmed(s, q + 2, b)
        } else {
            Seq::empty()
        },
        module: trimmed(s, b + 1, c),
        offset: hex_val(s.subrange(c + 3, he3)),
        file: Seq::empty(),
        line: 0,
        column: 0,
    }
}

/// Executable [`plus0x_at`].
fn plus0x_at_x(cs: &Vec<char>, c: usize) -> (r: bool)
    requires
        c <= cs@.len(),
    ensures
        r == plus0x_at(cs@, c as int),
{
    let n = cs.len();
    if n - c < 3 {
        return false;
    }
    if cs[c] != '+' || cs[c + 1] != '0' || cs[c + 2] != 'x' {
        return false;
    }
    let he3 = hex_end_x(cs, c + 3);
    he3 > c + 3 && he3 < n && cs[he3] == ')'
}

/// Executable [`g1_c`]: the rightmost `+0x...)` strictly after `b`.
fn g1_c_x(cs: &Vec<char>, b: usize) -> (r: Option<usize>)
    requires
        b <= cs@.len(),
    ensures
        match r {
            Some(c) => g1_c(cs@, b as int) == c as int && b < c && (c as int) + 3 <= cs@.len()
                && plus0x_at(cs@, c as int),
            None => g1_c(cs@, b as int) < 0,
        },
{
    let n = cs.len();
    let ghost pred = plus0x_pred(cs@);
    let mut j: usize = n;
    while j > b && j - b > 1
        invariant
            b <= j <= n == cs@.len() || (j == n && n <= b),
            forall|m: int| j <= m <= n - 1 ==> !#[trigger] pred(m),
            pred == plus0x_pred(cs@),
        decreases j,
    {
        let c = j - 1;
        if plus0x_at_x(cs, c) {
            proof {
                lemma_last_where_found(b as int + 1, n as int - 1, c as int, pred);
            }
            return Some(c);
        }
        proof {
            assert(!pred(c as int));
        }
        j = c;
    }
    proof {
        lemma_last_where_none(b as int + 1, n as int - 1, pred);
    }
    None
}

/// The rightmost workable opening parenthesis at or after `lo`.
fn g1_b_x(cs: &Vec<char>, lo: usize) -> (r: Option<usize>)
    requires
        lo <= cs@.len() + 3,
    ensures
        match r {
            Some(c) => last_where(lo as int, cs@.len() - 1, g1_open_pred(cs@)) == c as int && lo
                <= c < cs@.len() && g1_open_at(cs@, c as int),
            None => last_where(lo as int, cs@.len() - 1, g1_open_pred(cs@)) < 0,
        },
{
    let n = cs.len();
    let ghost pred = g1_open_pred(cs@);
    let mut j: usize = n;
    while j > lo
        invariant
            lo <= j <= n == cs@.len() || (j == n && n <= lo),
            forall|m: int| j <= m <= n - 1 ==> !#[trigger] pred(m),
            pred == g1_open_pred(cs@),
        decreases j,
    {
        let c = j - 1;
        if g1_open_at_x(cs, c) {
            proof {
                lemma_last_where_found(lo as int, n as int - 1, c as int, pred);
            }
            return Some(c);
        }
        proof {
            assert(!pred(c as int));
        }
        j = c;
    }
    proof {
        lemma_last_where_none(lo as int, n as int - 1, pred);
    }
    None
}

/// Executable [`g1_open_at`].
fn g1_open_at_x(cs: &Vec<char>, b: usize) -> (r: bool)
    requires
        b <= cs@.len(),
    ensures
        r == g1_open_at(cs@, b as int),
{
    if b >= cs.len() || cs[b] != '(' {
        return false;
    }
    g1_c_x(cs, b).is_some()
}

// ---------------------------------------------------------------------
// Grammars 2-4: debugger source formats
// `#N [0xADDR in] FUNC at FILE[:LINE[:COLUMN]]`
// ---------------------------------------------------------------------

/// The optional `0xADDR in` prefix stands at `p`: hexadecimal digits,
/// at least one space, then `in`.
pub open spec fn addr_in_has(s: Seq<char>, p: int) -> bool {
    &&& 0 <= p
    &&& p + 2 <= s.len()
    &&& s[p] == '0'
    &&& s[p + 1] == 'x'
    &&& hex_end(s, p + 2) > p + 2
    &&& {
        let he = hex_end(s, p + 2);
        &&& he < s.len()
        &&& s[he] == ' '
        &&& {
            let q = skip_sp(s, he);
            q + 2 <= s.len() && s[q] == 'i' && s[q + 1] == 'n'
        }
    }
}

/// The address carried by the prefix.
pub open spec fn addr_in_val(s: Seq<char>, p: int) -> nat {
    hex_val(s.subrange(p + 2, hex_end(s, p + 2)))
}

/// Where the rest of the grammar goes on: after the prefix and the
/// spaces behind it, or at `p` itself when the prefix is absent.
pub open spec fn addr_in_next(s: Seq<char>, p: int) -> int {
    if addr_in_has(s, p) {
        skip_sp(s, skip_sp(s, hex_end(s, p + 2)) + 2)
    } else {
        p
    }
}

/// Executable [`addr_in_has`] / [`addr_in_next`].
fn addr_in_x(cs: &Vec<char>, p: usize) -> (r: (bool, usize))
    requires
        p <= cs@.len(),
    ensures
        r.0 == addr_in_has(cs@, p as int),
        r.1 as int == addr_in_next(cs@, p as int),
        p <= r.1 <= cs@.len(),
{
    let n = cs.len();
    if n - p >= 2 && cs[p] == '0' && cs[p + 1] == 'x' {
        let he = hex_end_x(cs, p + 2);
        if he > p + 2 && he < n && cs[he] == ' ' {
            let q = skip_sp_x(cs, he);
            if n - q >= 2 && cs[q] == 'i' && cs[q + 1] == 'n' {
                let r1 = skip_sp_x(cs, q + 2);
                return (true, r1);
            }
        }
    }
    (false, p)
}

/// A colon followed by at least one decimal digit stands at `c`.
pub open spec fn colon1_at(s: Seq<char>, c: int) -> bool {
    0 <= c < s.len() && s[c] == ':' && dec_end(s, c + 1) > c + 1
}

/// A colon, digits, a colon and digits again stand at `c`.
pub open spec fn colon2_at(s: Seq<char>, c: int) -> bool {
    &&& 0 <= c < s.len()
    &&& s[c] == ':'
    &&& {
        let d1 = dec_end(s, c + 1);
        d1 > c + 1 && d1 < s.len() && s[d1] == ':' && dec_end(s, d1 + 1) > d1 + 1
    }
}

/// [`colon1_at`] as a predicate on the position.
pub open spec fn colon1_pred(s: Seq<char>) -> spec_fn(int) -> bool {
    |c: int| colon1_at(s, c)
}

/// [`colon2_at`] as a predicate on the position.
pub open spec fn colon2_pred(s: Seq<char>) -> spec_fn(int) -> bool {
    |c: int| colon2_at(s, c)
}

/// Executable [`colon1_at`].
fn colon1_at_x(cs: &Vec<char>, c: usize) -> (r: bool)
    requires
        c <= cs@.len(),
    ensures
        r == colon1_at(cs@, c as int),
{
    let n = cs.len();
    if c >= n || cs[c] != ':' {
        return false;
    }
    let d1 = dec_end_x(cs, c + 1);
    d1 > c + 1
}

/// Executable [`colon2_at`].
fn colon2_at_x(cs: &Vec<char>, c: usize) -> (r: bool)
    requires
        c <= cs@.len(),
    ensures
        r == colon2_at(cs@, c as int),
{
    let n = cs.len();
    if c >= n || cs[c] != ':' {
        return false;
    }
    let d1 = dec_end_x(cs, c + 1);
    if !(d1 > c + 1 && d1 < n && cs[d1] == ':') {
        return false;
    }
    let d2 = dec_end_x(cs, d1 + 1);
    d2 > d1 + 1
}

/// The rightmost colon group strictly after `b`; `two` asks for the
/// line-and-column form.
fn colon_scan_x(cs: &Vec<char>, b: usize, two: bool) -> (r: Option<usize>)
    requires
        b <= cs@.len(),
    ensures
        ({
            let pred = if two {
                colon2_pred(cs@)
            } else {
                colon1_pred(cs@)
            };
            match r {
                Some(c) => last_where(b as int + 1, cs@.len() - 1, pred) == c as int && b < c < cs@.len()
                    && pred(c as int),
                None => last_where(b as int + 1, cs@.len() - 1, pred) < 0,
            }
        }),
{
    let n = cs.len();
    let ghost pred = if two {
        colon2_pred(cs@)
    } else {
        colon1_pred(cs@)
    };
    let mut j: usize = n;
    while j > b && j - b > 1
        invariant
            b <= j <= n == cs@.len() || (j == n && n <= b),
            forall|m: int| j <= m <= n - 1 ==> !#[trigger] pred(m),
            pred == if two {
                colon2_pred(cs@)
            } else {
                colon1_pred(cs@)
            },
        decreases j,
    {
        let c = j - 1;
        let hit = if two {
            colon2_at_x(cs, c)
        } else {
            colon1_at_x(cs, c)
        };
        if hit {
            proof {
                lemma_last_where_found(b as int + 1, n as int - 1, c as int, pred);
            }
            return Some(c);
        }
        proof {
            assert(!pred(c as int));
        }
        j = c;
    }
    proof {
        lemma_last_where_none(b as int + 1, n as int - 1, pred);
    }
    None
}

/// A greedy function/`at` split point for grammar `mode` stands at `j`:
/// a space, then `at`, a space, and the grammar's file tail.
pub open spec fn gsrc_split_at(s: Seq<char>, r0: int, j: int, mode: int) -> bool {
    &&& r0 < j < s.len()
    &&& s[j] == ' '
    &&& {
        let ja = skip_sp(s, j);
        &&& ja + 3 <= s.len()
        &&& s[ja] == 'a'
        &&& s[ja + 1] == 't'
        &&& s[ja + 2] == ' '
        &&& {
            let t0 = ja + 3;
            if mode == 2 {
                last_where(t0 + 1, s.len() - 1, colon2_pred(s)) >= 0
            } else if mode == 3 {
                last_where(t0 + 1, s.len() - 1, colon1_pred(s)) >= 0
            } else {
                s.len() > t0
            }
        }
    }
}

/// [`gsrc_split_at`] as a predicate on the split position.
pub open spec fn gsrc_split_pred(s: Seq<char>, r0: int, mode: int) -> spec_fn(int) -> bool {
    |j: int| gsrc_split_at(s, r0, j, mode)
}

/// Executable [`gsrc_split_at`].
fn gsrc_split_at_x(cs: &Vec<char>, r0: usize, j: usize, mode: usize) -> (r: bool)
    requires
        j < cs@.len(),
    ensures
        r == gsrc_split_at(cs@, r0 as int, j as int, mode as int),
{
    let n = cs.len();
    if j <= r0 || cs[j] != ' ' {
        return false;
    }
    let ja = skip_sp_x(cs, j);
    if n - ja < 3 || cs[ja] != 'a' || cs[ja + 1] != 't' || cs[ja + 2] != ' ' {
        return false;
    }
    let t0 = ja + 3;
    if mode == 2 {
        colon_scan_x(cs, t0, true).is_some()
    } else if mode == 3 {
        colon_scan_x(cs, t0, false).is_some()
    } else {
        n > t0
    }
}

/// The rightmost split point strictly after `r0` for grammar `mode`.
fn gsrc_jf_x(cs: &Vec<char>, r0: usize, mode: usize) -> (r: Option<usize>)
    requires
        r0 <= cs@.len(),
    ensures
        ({
            let pred = gsrc_split_pred(cs@, r0 as int, mode as int);
            match r {
                Some(j) => last_where(r0 as int + 1, cs@.len() - 1, pred) == j as int && r0 < j
                    < cs@.len() && pred(j as int),
                None => last_where(r0 as int + 1, cs@.len() - 1, pred) < 0,
            }
        }),
{
    let n = cs.len();
    let ghost pred = gsrc_split_pred(cs@, r0 as int, mode as int);
    let mut j: usize = n;
    while j > r0 && j - r0 > 1
        invariant
            r0 <= j <= n == cs@.len() || (j == n && n <= r0),
            forall|m: int| j <= m <= n - 1 ==> !#[trigger] pred(m),
            pred == gsrc_split_pred(cs@, r0 as int, mode as int),
        decreases j,
    {
        let c = j - 1;
        if gsrc_split_at_x(cs, r0, c, mode) {
            proof {
                lemma_last_where_found(r0 as int + 1, n as int - 1, c as int, pred);
            }
            return Some(c);
        }
        proof {
            assert(!pred(c as int));
        }
        j = c;
    }
    proof {
        lemma_last_where_none(r0 as int + 1, n as int - 1, pred);
    }
    None
}

/// The debugger source grammar for `mode` matches.
pub open spec fn gsrc_ok(s: Seq<char>, mode: int) -> bool {
    let p = after_frameno(s);
    &&& p >= 0
    &&& {
        let r0 = addr_in_next(s, p);
        last_where(r0 + 1, s.len() - 1, gsrc_split_pred(s, r0, mode)) >= 0
    }
}

/// The fields the debugger source grammar for `mode` extracts.
pub open spec fn gsrc_val(s: Seq<char>, mode: int) -> FrameV
    recommends
        gsrc_ok(s, mode),
{
    let p = after_frameno(s);
    let r0 = addr_in_next(s, p);
    let jf = last_where(r0 + 1, s.len() - 1, gsrc_split_pred(s, r0, mode));
    let ja = skip_sp(s, jf);
    let t0 = ja + 3;
    let address = if addr_in_has(s, p) {
        addr_in_val(s, p)
    } else {
        0
    };
    let function = trimmed(s, r0, jf);
    if mode == 2 {
        let c1 = last_where(t0 + 1, s.len() - 1, colon2_pred(s));
        let d1 = dec_end(s, c1 + 1);
        let d2 = dec_end(s, d1 + 1);
        FrameV {
            address,
            function,
            module: Seq::empty(),
            offset: 0,
            file: trimmed(s, t0, c1),
            line: dec_val(s.subrange(c1 + 1, d1)),
            column: dec_val(s.subrange(d1 + 1, d2)),
        }
    } else if mode == 3 {
        let c1 = last_where(t0 + 1, s.len() - 1, colon1_pred(s));
        let d1 = dec_end(s, c1 + 1);
        FrameV {
            address,
            function,
            module: Seq::empty(),
            offset: 0,
            file: trimmed(s, t0, c1),
            line: dec_val(s.subrange(c1 + 1, d1)),
            column: 0,
        }
    } else {
        FrameV {
            address,
            function,
            module: Seq::empty(),
            offset: 0,
            file: trimmed(s, t0, s.len() as int),
            line: 0,
            column: 0,
        }
    }
}

/// Try one of the three debugger source grammars.
fn try_gsrc(s: &str, cs: &Vec<char>, mode: usize) -> (r: Result<Option<StacktraceEntry>, Error>)
    requires
        cs@ == s@,
        mode == 2 || mode == 3 || mode == 4,
    ensures
        match r {
            Ok(Some(e)) => gsrc_ok(cs@, mode as int) && frame_fits(gsrc_val(cs@, mode as int))
                && e@ == gsrc_val(cs@, mode as int),
            Ok(None) => !gsrc_ok(cs@, mode as int),
            Err(e) => gsrc_ok(cs@, mode as int) && !frame_fits(gsrc_val(cs@, mode as int))
                && match e {
                Error::NumberParse(m) => m@ == s@,
                _ => false,
            },
        },
{
    let n = cs.len();
    let p = match frameno_x(cs) {
        Some(p) => p,
        None => {
            return Ok(None);
        },
    };
    let (has, r0) = addr_in_x(cs, p);
    let jf = match gsrc_jf_x(cs, r0, mode) {
        Some(j) => j,
        None => {
            return Ok(None);
        },
    };
    proof {
        assert(gsrc_ok(cs@, mode as int));
    }
    let ja = skip_sp_x(cs, jf);
    let t0 = ja + 3;
    let address: u64 = if has {
        let he = hex_end_x(cs, p + 2);
        proof {
            lemma_scan_chars(cs@, p as int + 2);
        }
        match parse_hex_u64(cs, p + 2, he) {
            Some(v) => v,
            None => {
                return Err(Error::NumberParse(s.to_owned()));
            },
        }
    } else {
        0
    };
    let function = extract_trimmed(s, cs, r0, jf);
    let debug: DebugInfo;
    let file: String;
    if mode == 2 {
        let c1 = match colon_scan_x(cs, t0, true) {
            Some(c) => c,
            None => {
                proof {
                    assert(false);
                }
                return Ok(None);
            },
        };
        let d1 = dec_end_x(cs, c1 + 1);
        let d2 = dec_end_x(cs, d1 + 1);
        proof {
            lemma_scan_chars(cs@, c1 as int + 1);
            lemma_scan_chars(cs@, d1 as int + 1);
        }
        let line = match parse_dec_u64(cs, c1 + 1, d1) {
            Some(v) => v,
            None => {
                return Err(Error::NumberParse(s.to_owned()));
            },
        };
        let column = match parse_dec_u64(cs, d1 + 1, d2) {
            Some(v) => v,
            None => {
                return Err(Error::NumberParse(s.to_owned()));
            },
        };
        file = extract_trimmed(s, cs, t0, c1);
        debug = DebugInfo { file, line, column };
    } else if mode == 3 {
        let c1 = match colon_scan_x(cs, t0, false) {
            Some(c) => c,
            None => {
                proof {
                    assert(false);
                }
                return Ok(None);
            },
        };
        let d1 = dec_end_x(cs, c1 + 1);
        proof {
            lemma_scan_chars(cs@, c1 as int + 1);
        }
        let line = match parse_dec_u64(cs, c1 + 1, d1) {
            Some(v) => v,
            None => {
                return Err(Error::NumberParse(s.to_owned()));
            },
        };
        file = extract_trimmed(s, cs, t0, c1);
        debug = DebugInfo { file, line, column: 0 };
    } else {
        file = extract_trimmed(s, cs, t0, n);
        debug = DebugInfo { file, line: 0, column: 0 };
    }
    let e = StacktraceEntry {
        address,
        function,
        module: String::new(),
        offset: 0,
        debug,
    };
    proof {
        assert(e@ =~= gsrc_val(cs@, mode as int));
    }
    Ok(Some(e))
}

// ---------------------------------------------------------------------
// Grammars 5-7: sanitizer source formats
// `#N 0xADDR in FUNC[(ARGS)] FILE[:LINE[:COLUMN]]`
// ---------------------------------------------------------------------

/// The file part of a sanitizer source grammar starts at `m0`: for mode
/// 5 a rightmost line-and-column colon group with no parenthesis before
/// it, for mode 6 the same with a line only, for mode 7 a non-empty
/// parenthesis-free rest of the line.
pub open spec fn g5_colon_pred(s: Seq<char>, m0: int, mode: int) -> spec_fn(int) -> bool {
    |c: int|
        (if mode == 5 {
            colon2_at(s, c)
        } else {
            colon1_at(s, c)
        }) && paren_end(s, m0) >= c
}

/// The grammar's file tail matches from `m0` on.
pub open spec fn tail57_ok(s: Seq<char>, m0: int, mode: int) -> bool {
    if mode == 7 {
        s.len() > m0 && paren_end(s, m0) == s.len()
    } else {
        last_where(m0 + 1, s.len() - 1, g5_colon_pred(s, m0, mode)) >= 0
    }
}

/// A closing parenthesis at `c` after which the file tail matches: the
/// end of the function's greedy argument list.
pub open spec fn g5_cp_pred(s: Seq<char>, mode: int) -> spec_fn(int) -> bool {
    |c: int| 0 <= c < s.len() && s[c] == ')' && tail57_ok(s, c + 1, mode)
}

/// The sanitizer source grammar for `mode` matches: address, `in`, a
/// bare function name with an optional parenthesized argument list, and
/// the mode's file tail.
pub open spec fn g567_ok(s: Seq<char>, mode: int) -> bool {
    let p = after_frameno(s);
    &&& p >= 0
    &&& p + 2 <= s.len()
    &&& s[p] == '0'
    &&& s[p + 1] == 'x'
    &&& hex_end(s, p + 2) > p + 2
    &&& {
        let he = hex_end(s, p + 2);
        let q = skip_sp(s, he);
        &&& q + 2 <= s.len()
        &&& s[q] == 'i'
        &&& s[q + 1] == 'n'
        &&& {
            let r = skip_sp(s, q + 2);
            &&& r < s.len()
            &&& s[r] != '('
            &&& s[r] != ')'
            &&& {
                let e1 = name_end(s, r);
                let k = skip_sp(s, e1);
                if k < s.len() && s[k] == '(' {
                    last_where(k + 1, s.len() - 1, g5_cp_pred(s, mode)) >= 0
                } else {
                    tail57_ok(s, e1, mode)
                }
            }
        }
    }
}

/// The fields the sanitizer source grammar for `mode` extracts.
pub open spec fn g567_val(s: Seq<char>, mode: int) -> FrameV
    recommends
        g567_ok(s, mode),
{
    let p = after_frameno(s);
    let he = hex_end(s, p + 2);
    let q = skip_sp(s, he);
    let r = skip_sp(s, q + 2);
    let e1 = name_end(s, r);
    let k = skip_sp(s, e1);
    let with_args = k < s.len() && s[k] == '(';
    let fend = if with_args {
        last_where(k + 1, s.len() - 1, g5_cp_pred(s, mode)) + 1
    } else {
        e1
    };
    let m0 = fend;
    let address = hex_val(s.subrange(p + 2, he));
    let function = trimmed(s, r, fend);
    if mode == 7 {
        FrameV {
            address,
            function,
            module: Seq::empty(),
            offset: 0,
            file: trimmed(s, m0, s.len() as int),
            line: 0,
            column: 0,
        }
    } else {
        let c1 = last_where(m0 + 1, s.len() - 1, g5_colon_pred(s, m0, mode));
        let d1 = dec_end(s, c1 + 1);
        let d2 = dec_end(s, d1 + 1);
        FrameV {
            address,
            function,
            module: Seq::empty(),
            offset: 0,
            file: trimmed(s, m0, c1),
            line: dec_val(s.subrange(c1 + 1, d1)),
            column: if mode == 5 {
                dec_val(s.subrange(d1 + 1, d2))
            } else {
                0
            },
        }
    }
}

/// Executable test of [`g5_colon_pred`] at one position.
fn g5_colon_at_x(cs: &Vec<char>, m0: usize, c: usize, mode: usize) -> (r: bool)
    requires
        m0 <= cs@.len(),
        c <= cs@.len(),
        mode == 5 || mode == 6,
    ensures
        r == g5_colon_pred(cs@, m0 as int, mode as int)(c as int),
{
    let hit = if mode == 5 {
        colon2_at_x(cs, c)
    } else {
        colon1_at_x(cs, c)
    };
    hit && paren_end_x(cs, m0) >= c
}

/// Executable [`tail57_ok`].
fn tail57_ok_x(cs: &Vec<char>, m0: usize, mode: usize) -> (r: bool)
    requires
        m0 <= cs@.len(),
        mode == 5 || mode == 6 || mode == 7,
    ensures
        r == tail57_ok(cs@, m0 as int, mode as int),
{
    let n = cs.len();
    if mode == 7 {
        return n > m0 && paren_end_x(cs, m0) == n;
    }
    let ghost pred = g5_colon_pred(cs@, m0 as int, mode as int);
    let mut j: usize = n;
    while j > m0 && j - m0 > 1
        invariant
            m0 <= j <= n == cs@.len() || (j == n && n <= m0),
            mode == 5 || mode == 6,
            forall|m: int| j <= m <= n - 1 ==> !#[trigger] pred(m),
            pred == g5_colon_pred(cs@, m0 as int, mode as int),
        decreases j,
    {
        let c = j - 1;
        if g5_colon_at_x(cs, m0, c, mode) {
            proof {
                lemma_last_where_found(m0 as int + 1, n as int - 1, c as int, pred);
            }
            return true;
        }
        proof {
            assert(!pred(c as int));
        }
        j = c;
    }
    proof {
        lemma_last_where_none(m0 as int + 1, n as int - 1, pred);
    }
    false
}

/// The rightmost colon group for the matched tail, to extract from.
fn g5_c1_x(cs: &Vec<char>, m0: usize, mode: usize) -> (r: Option<usize>)
    requires
        m0 <= cs@.len(),
        mode == 5 || mode == 6,
    ensures
        ({
            let pred = g5_colon_pred(cs@, m0 as int, mode as int);
            match r {
                Some(c) => last_where(m0 as int + 1, cs@.len() - 1, pred) == c as int && m0 < c
                    < cs@.len() && pred(c as int),
                None => last_where(m0 as int + 1, cs@.len() - 1, pred) < 0,
            }
        }),
{
    let n = cs.len();
    let ghost pred = g5_colon_pred(cs@, m0 as int, mode as int);
    let mut j: usize = n;
    while j > m0 && j - m0 > 1
        invariant
            m0 <= j <= n == cs@.len() || (j == n && n <= m0),
            mode == 5 || mode == 6,
            forall|m: int| j <= m <= n - 1 ==> !#[trigger] pred(m),
            pred == g5_colon_pred(cs@, m0 as int, mode as int),
        decreases j,
    {
        let c = j - 1;
        if g5_colon_at_x(cs, m0, c, mode) {
            proof {
                lemma_last_where_found(m0 as int + 1, n as int - 1, c as int, pred);
            }
            return Some(c);
        }
        proof {
            assert(!pred(c as int));
        }
        j = c;
    }
    proof {
        lemma_last_where_none(m0 as int + 1, n as int - 1, pred);
    }
    None
}

/// The rightmost closing parenthesis whose tail matches, strictly after `k`.
fn g5_cp_x(cs: &Vec<char>, k: usize, mode: usize) -> (r: Option<usize>)
    requires
        k <= cs@.len(),
        mode == 5 || mode == 6 || mode == 7,
    ensures
        ({
            let pred = g5_cp_pred(cs@, mode as int);
            match r {
                Some(c) => last_where(k as int + 1, cs@.len() - 1, pred) == c as int && k < c
                    < cs@.len() && pred(c as int),
                None => last_where(k as int + 1, cs@.len() - 1, pred) < 0,
            }
        }),
{
    let n = cs.len();
    let ghost pred = g5_cp_pred(cs@, mode as int);
    let mut j: usize = n;
    while j > k && j - k > 1
        invariant
            k <= j <= n == cs@.len() || (j == n && n <= k),
            mode == 5 || mode == 6 || mode == 7,
            forall|m: int| j <= m <= n - 1 ==> !#[trigger] pred(m),
            pred == g5_cp_pred(cs@, mode as int),
        decreases j,
    {
        let c = j - 1;
        if cs[c] == ')' && tail57_ok_x(cs, c + 1, mode) {
            proof {
                lemma_last_where_found(k as int + 1, n as int - 1, c as int, pred);
            }
            return Some(c);
        }
        proof {
            assert(!pred(c as int));
        }
        j = c;
    }
    proof {
        lemma_last_where_none(k as int + 1, n as int - 1, pred);
    }
    None
}

/// Try one of the three sanitizer source grammars.
fn try_g567(s: &str, cs: &Vec<char>, mode: usize) -> (r: Result<Option<StacktraceEntry>, Error>)
    requires
        cs@ == s@,
        mode == 5 || mode == 6 || mode == 7,
    ensures
        match r {
            Ok(Some(e)) => g567_ok(cs@, mode as int) && frame_fits(g567_val(cs@, mode as int))
                && e@ == g567_val(cs@, mode as int),
            Ok(None) => !g567_ok(cs@, mode as int),
            Err(e) => g567_ok(cs@, mode as int) && !frame_fits(g567_val(cs@, mode as int))
                && match e {
                Error::NumberParse(m) => m@ == s@,
                _ => false,
            },
        },
{
    let n = cs.len();
    let p = match frameno_x(cs) {
        Some(p) => p,
        None => {
            return Ok(None);
        },
    };
    if n - p < 2 || cs[p] != '0' || cs[p + 1] != 'x' {
        return Ok(None);
    }
    let he = hex_end_x(cs, p + 2);
    if he == p + 2 {
        return Ok(None);
    }
    let q = skip_sp_x(cs, he);
    if n - q < 2 || cs[q] != 'i' || cs[q + 1] != 'n' {
        return Ok(None);
    }
    let r0 = skip_sp_x(cs, q + 2);
    if r0 >= n || cs[r0] == '(' || cs[r0] == ')' {
        return Ok(None);
    }
    let e1 = name_end_x(cs, r0);
    let k = skip_sp_x(cs, e1);
    let with_args = k < n && cs[k] == '(';
    let fend: usize;
    if with_args {
        match g5_cp_x(cs, k, mode) {
            Some(c) => {
                fend = c + 1;
            },
            None => {
                return Ok(None);
            },
        }
    } else {
        if !tail57_ok_x(cs, e1, mode) {
            return Ok(None);
        }
        fend = e1;
    }
    proof {
        assert(g567_ok(cs@, mode as int));
    }
    let m0 = fend;
    proof {
        lemma_scan_chars(cs@, p as int + 2);
    }
    let address = match parse_hex_u64(cs, p + 2, he) {
        Some(v) => v,
        None => {
            return Err(Error::NumberParse(s.to_owned()));
        },
    };
    let function = extract_trimmed(s, cs, r0, fend);
    let debug: DebugInfo;
    if mode == 7 {
        let file = extract_trimmed(s, cs, m0, n);
        debug = DebugInfo { file, line: 0, column: 0 };
    } else {
        let c1 = match g5_c1_x(cs, m0, mode) {
            Some(c) => c,
            None => {
                proof {
                    assert(false);
                }
                return Ok(None);
            },
        };
        let d1 = dec_end_x(cs, c1 + 1);
        proof {
            lemma_scan_chars(cs@, c1 as int + 1);
        }
        let line = match parse_dec_u64(cs, c1 + 1, d1) {
            Some(v) => v,
            None => {
                return Err(Error::NumberParse(s.to_owned()));
            },
        };
        let column: u64;
        if mode == 5 {
            let d2 = dec_end_x(cs, d1 + 1);
            proof {
                lemma_scan_chars(cs@, d1 as int + 1);
            }
            column = match parse_dec_u64(cs, d1 + 1, d2) {
                Some(v) => v,
                None => {
                    return Err(Error::NumberParse(s.to_owned()));
                },
            };
        } else {
            column = 0;
        }
        let file = extract_trimmed(s, cs, m0, c1);
        debug = DebugInfo { file, line, column };
    }
    let e = StacktraceEntry {
        address,
        function,
        module: String::new(),
        offset: 0,
        debug,
    };
    proof {
        assert(e@ =~= g567_val(cs@, mode as int));
    }
    Ok(Some(e))
}

// ---------------------------------------------------------------------
// Grammar 8: debugger no-source
// `#N [0xADDR in] FUNC(ARGS) [from MODULE]`
// ---------------------------------------------------------------------

/// A closing parenthesis stands at `c`.
pub open spec fn rparen_pred(s: Seq<char>) -> spec_fn(int) -> bool {
    |c: int| 0 <= c < s.len() && s[c] == ')'
}

/// The no-source grammar matches: an optional address, a bare function
/// name, and a parenthesized argument list closed by the rightmost `)`.
pub open spec fn g8_ok(s: Seq<char>) -> bool {
    let p = after_frameno(s);
    &&& p >= 0
    &&& {
        let r = addr_in_next(s, p);
        &&& r < s.len()
        &&& s[r] != '('
        &&& s[r] != ')'
        &&& {
            let e1 = name_end(s, r);
            let k = skip_sp(s, e1);
            k < s.len() && s[k] == '(' && last_where(k + 1, s.len() - 1, rparen_pred(s)) >= 0
        }
    }
}

/// A `from MODULE` clause follows position `cp`.
pub open spec fn g8_from_ok(s: Seq<char>, cp: int) -> bool {
    &&& cp + 1 < s.len()
    &&& s[cp + 1] == ' '
    &&& {
        let fm = skip_sp(s, cp + 1);
        &&& fm + 4 < s.len()
        &&& s[fm] == 'f'
        &&& s[fm + 1] == 'r'
        &&& s[fm + 2] == 'o'
        &&& s[fm + 3] == 'm'
        &&& s[fm + 4] == ' '
        &&& s.len() > fm + 5
    }
}

/// The fields the no-source grammar extracts.
pub open spec fn g8_val(s: Seq<char>) -> FrameV
    recommends
        g8_ok(s),
{
    let p = after_frameno(s);
    let r = addr_in_next(s, p);
    let e1 = name_end(s, r);
    let k = skip_sp(s, e1);
    let cp = last_where(k + 1, s.len() as int - 1, rparen_pred(s));
    let address = if addr_in_has(s, p) {
        addr_in_val(s, p)
    } else {
        0
    };
    let module = if g8_from_ok(s, cp) {
        trimmed(s, skip_sp(s, cp + 1) + 5, s.len() as int)
    } else {
        Seq::empty()
    };
    FrameV {
        address,
        function: trimmed(s, r, cp + 1),
        module,
        offset: 0,
        file: Seq::empty(),
        line: 0,
        column: 0,
    }
}

/// The rightmost closing parenthesis strictly after `k`.
fn rparen_x(cs: &Vec<char>, k: usize) -> (r: Option<usize>)
    requires
        k <= cs@.len(),
    ensures
        ({
            let pred = rparen_pred(cs@);
            match r {
                Some(c) => last_where(k as int + 1, cs@.len() - 1, pred) == c as int && k < c
                    < cs@.len() && pred(c as int),
                None => last_where(k as int + 1, cs@.len() - 1, pred) < 0,
            }
        }),
{
    let n = cs.len();
    let ghost pred = rparen_pred(cs@);
    let mut j: usize = n;
    while j > k && j - k > 1
        invariant
            k <= j <= n == cs@.len() || (j == n && n <= k),
            forall|m: int| j <= m <= n - 1 ==> !#[trigger] pred(m),
            pred == rparen_pred(cs@),
        decreases j,
    {
        let c = j - 1;
        if cs[c] == ')' {
            proof {
                lemma_last_where_found(k as int + 1, n as int - 1, c as int, pred);
            }
            return Some(c);
        }
        proof {
            assert(!pred(c as int));
        }
        j = c;
    }
    proof {
        lemma_last_where_none(k as int + 1, n as int - 1, pred);
    }
    None
}

/// Try the debugger no-source grammar.
fn try_g8(s: &str, cs: &Vec<char>) -> (r: Result<Option<StacktraceEntry>, Error>)
    requires
        cs@ == s@,
    ensures
        match r {
            Ok(Some(e)) => g8_ok(cs@) && frame_fits(g8_val(cs@)) && e@ == g8_val(cs@),
            Ok(None) => !g8_ok(cs@),
            Err(e) => g8_ok(cs@) && !frame_fits(g8_val(cs@)) && match e {
                Error::NumberParse(m) => m@ == s@,
                _ => false,
            },
        },
{
    let n = cs.len();
    let p = match frameno_x(cs) {
        Some(p) => p,
        None => {
            return Ok(None);
        },
    };
    let (has, r0) = addr_in_x(cs, p);
    if r0 >= n || cs[r0] == '(' || cs[r0] == ')' {
        return Ok(None);
    }
    let e1 = name_end_x(cs, r0);
    let k = skip_sp_x(cs, e1);
    if k >= n || cs[k] != '(' {
        return Ok(None);
    }
    let cp = match rparen_x(cs, k) {
        Some(c) => c,
        None => {
            return Ok(None);
        },
    };
    proof {
        assert(g8_ok(cs@));
    }
    let address: u64 = if has {
        let he = hex_end_x(cs, p + 2);
        proof {
            lemma_scan_chars(cs@, p as int + 2);
        }
        match parse_hex_u64(cs, p + 2, he) {
            Some(v) => v,
            None => {
                return Err(Error::NumberParse(s.to_owned()));
            },
        }
    } else {
        0
    };
    let function = extract_trimmed(s, cs, r0, cp + 1);
    // The optional `from MODULE` clause.
    let mut module = String::new();
    if cp + 1 < n && cs[cp + 1] == ' ' {
        let fm = skip_sp_x(cs, cp + 1);
        if n - fm > 5 && cs[fm] == 'f' && cs[fm + 1] == 'r' && cs[fm + 2] == 'o' && cs[fm + 3]
            == 'm' && cs[fm + 4] == ' ' {
            module = extract_trimmed(s, cs, fm + 5, n);
        }
    }
    let e = StacktraceEntry {
        address,
        function,
        module,
        offset: 0,
        debug: DebugInfo { file: String::new(), line: 0, column: 0 },
    };
    proof {
        assert(e@ =~= g8_val(cs@));
    }
    Ok(Some(e))
}

/// Try the sanitizer module+offset grammar.
fn try_g1(s: &str, cs: &Vec<char>) -> (r: Result<Option<StacktraceEntry>, Error>)
    requires
        cs@ == s@,
    ensures
        match r {
            Ok(Some(e)) => g1_ok(cs@) && frame_fits(g1_val(cs@)) && e@ == g1_val(cs@),
            Ok(None) => !g1_ok(cs@),
            Err(e) => g1_ok(cs@) && !frame_fits(g1_val(cs@)) && match e {
                Error::NumberParse(m) => m@ == s@,
                _ => false,
            },
        },
{
    let n = cs.len();
    let p = match frameno_x(cs) {
        Some(p) => p,
        None => {
            return Ok(None);
        },
    };
    if n - p < 2 || cs[p] != '0' || cs[p + 1] != 'x' {
        return Ok(None);
    }
    let he = hex_end_x(cs, p + 2);
    if he == p + 2 {
        return Ok(None);
    }
    let q = skip_sp_x(cs, he);
    let in_case = n - q >= 2 && cs[q] == 'i' && cs[q + 1] == 'n';
    let b: usize;
    if in_case {
        if n - q == 2 {
            proof {
                lemma_last_where_none(q as int + 3, n as int - 1, g1_open_pred(cs@));
            }
            return Ok(None);
        }
        // Greedy function part: rightmost workable parenthesis.
        match g1_b_x(cs, q + 3) {
            Some(c) => {
                b = c;
            },
            None => {
                return Ok(None);
            },
        }
    } else {
        if !g1_open_at_x(cs, q) {
            return Ok(None);
        }
        b = q;
    }
    proof {
        assert(g1_ok(cs@));
    }
    // Extract the pieces.
    let c = match g1_c_x(cs, b) {
        Some(c) => c,
        None => {
            proof {
                assert(false);
            }
            return Ok(None);
        },
    };
    let he3 = hex_end_x(cs, c + 3);
    proof {
        lemma_scan_chars(cs@, p as int + 2);
        lemma_scan_chars(cs@, c as int + 3);
    }
    let address = match parse_hex_u64(cs, p + 2, he) {
        Some(v) => v,
        None => {
            return Err(Error::NumberParse(s.to_owned()));
        },
    };
    let offset = match parse_hex_u64(cs, c + 3, he3) {
        Some(v) => v,
        None => {
            return Err(Error::NumberParse(s.to_owned()));
        },
    };
    let function: String = if in_case {
        extract_trimmed(s, cs, q + 2, b)
    } else {
        String::new()
    };
    let module = extract_trimmed(s, cs, b + 1, c);
    let e = StacktraceEntry {
        address,
        function,
        module,
        offset,
        debug: DebugInfo { file: String::new(), line: 0, column: 0 },
    };
    proof {
        assert(e@ =~= g1_val(cs@));
    }
    Ok(Some(e))
}

// ---------------------------------------------------------------------
// The cascade
// ---------------------------------------------------------------------

/// One line read through the cascade: the first grammar that matches
/// wins, in the fixed priority order.
pub open spec fn parse_frame(s: Seq<char>) -> Option<FrameV> {
    if g1_ok(s) {
        Some(g1_val(s))
    } else if gsrc_ok(s, 2) {
        Some(gsrc_val(s, 2))
    } else if gsrc_ok(s, 3) {
        Some(gsrc_val(s, 3))
    } else if gsrc_ok(s, 4) {
        Some(gsrc_val(s, 4))
    } else if g567_ok(s, 5) {
        Some(g567_val(s, 5))
    } else if g567_ok(s, 6) {
        Some(g567_val(s, 6))
    } else if g567_ok(s, 7) {
        Some(g567_val(s, 7))
    } else if g8_ok(s) {
        Some(g8_val(s))
    } else {
        None
    }
}

/// Full contract of reading one stack-trace line.
pub open spec fn entry_new_ens(s: Seq<char>, r: Result<StacktraceEntry, Error>) -> bool {
    match parse_frame(s) {
        Some(f) => if frame_fits(f) {
            match r {
                Ok(e) => e@ == f,
                _ => false,
            }
        } else {
            match r {
                Err(Error::NumberParse(m)) => m@ == s,
                _ => false,
            }
        },
        None => match r {
            Err(Error::StacktraceParse(m)) => m@ == s,
            _ => false,
        },
    }
}

impl StacktraceEntry {
    /// Read one line of a stack trace through the grammar cascade; the
    /// first rule that matches wins. A line no rule matches is refused,
    /// and a numeric field too large for its type is reported rather
    /// than truncated.
    pub fn new(entry: &str) -> (r: Result<StacktraceEntry, Error>)
        ensures
            entry_new_ens(entry@, r),
    {
        let cs = to_chars(entry);
        match try_g1(entry, &cs)? {
            Some(e) => {
                return Ok(e);
            },
            None => {},
        }
        match try_gsrc(entry, &cs, 2)? {
            Some(e) => {
                return Ok(e);
            },
            None => {},
        }
        match try_gsrc(entry, &cs, 3)? {
            Some(e) => {
                return Ok(e);
            },
            None => {},
        }
        match try_gsrc(entry, &cs, 4)? {
            Some(e) => {
                return Ok(e);
            },
            None => {},
        }
        match try_g567(entry, &cs, 5)? {
            Some(e) => {
                return Ok(e);
            },
            None => {},
        }
        match try_g567(entry, &cs, 6)? {
            Some(e) => {
                return Ok(e);
            },
            None => {},
        }
        match try_g567(entry, &cs, 7)? {
            Some(e) => {
                return Ok(e);
            },
            None => {},
        }
        match try_g8(entry, &cs)? {
            Some(e) => {
                return Ok(e);
            },
            None => {},
        }
        Err(Error::StacktraceParse(entry.to_owned()))
    }
}

// ---------------------------------------------------------------------
// Frame identity
// ---------------------------------------------------------------------

/// A frame carries a source position.
pub open spec fn has_debug(f: FrameV) -> bool {
    f.file.len() > 0
}

/// A frame carries a module path and a non-zero offset.
pub open spec fn has_modoff(f: FrameV) -> bool {
    f.module.len() > 0 && f.offset != 0
}

/// Frame equality, decided in fixed priority order: source position
/// when both sides carry one, else module and offset when both sides
/// carry them, else the raw address.
pub open spec fn frames_eq(a: FrameV, b: FrameV) -> bool {
    if has_debug(a) && has_debug(b) {
        a.file == b.file && a.line == b.line && a.column == b.column
    } else if has_modoff(a) && has_modoff(b) {
        a.module == b.module && a.offset == b.offset
    } else {
        a.address == b.address
    }
}

impl PartialEq for StacktraceEntry {
    fn eq(&self, other: &StacktraceEntry) -> (r: bool) {
        if !self.debug.file.as_str().is_empty() && !other.debug.file.as_str().is_empty() {
            return self.debug.file == other.debug.file && self.debug.line == other.debug.line
                && self.debug.column == other.debug.column;
        }
        if !self.module.as_str().is_empty() && !other.module.as_str().is_empty() && self.offset
            != 0 && other.offset != 0 {
            return self.module == other.module && self.offset == other.offset;
        }
        self.address == other.address
    }
}

impl vstd::std_specs::cmp::PartialEqSpecImpl for StacktraceEntry {
    open spec fn obeys_eq_spec() -> bool {
        true
    }

    open spec fn eq_spec(&self, other: &StacktraceEntry) -> bool {
        frames_eq(self@, other@)
    }
}

impl Eq for StacktraceEntry {

}

/// One mixing step of the frame hash.
pub open spec fn mix_u64(h: u64, v: u64) -> u64 {
    vstd::wrapping::u64_specs::wrapping_mul(h ^ v, 1099511628211u64)
}

/// The hash folded over the characters of a string.
pub open spec fn str_fnv(h: u64, s: Seq<char>) -> u64
    decreases s.len(),
{
    if s.len() == 0 {
        h
    } else {
        mix_u64(str_fnv(h, s.drop_last()), s.last() as u64)
    }
}

/// The offset basis the hash starts from.
pub open spec fn hash_basis() -> u64 {
    14695981039346656037u64
}

/// The frame hash, derived from the same fields the matching equality
/// tier would compare.
pub open spec fn frame_hash(f: FrameV) -> u64 {
    if has_debug(f) {
        mix_u64(mix_u64(str_fnv(hash_basis(), f.file), f.line as u64), f.column as u64)
    } else if has_modoff(f) {
        mix_u64(str_fnv(hash_basis(), f.module), f.offset as u64)
    } else {
        mix_u64(hash_basis(), f.address as u64)
    }
}

/// Executable [`mix_u64`].
fn mix_x(h: u64, v: u64) -> (r: u64)
    ensures
        r == mix_u64(h, v),
{
    (h ^ v).wrapping_mul(1099511628211u64)
}

/// Executable [`str_fnv`].
fn str_fnv_x(h: u64, s: &str) -> (r: u64)
    ensures
        r == str_fnv(h, s@),
{
    let cs = to_chars(s);
    let n = cs.len();
    let mut acc = h;
    let mut i: usize = 0;
    while i < n
        invariant
            i <= n == cs@.len(),
            cs@ == s@,
            acc == str_fnv(h, s@.subrange(0, i as int)),
        decreases n - i,
    {
        acc = mix_x(acc, cs[i] as u64);
        proof {
            assert(s@.subrange(0, i as int + 1).drop_last() =~= s@.subrange(0, i as int));
        }
        i += 1;
    }
    proof {
        assert(s@.subrange(0, n as int) =~= s@);
    }
    acc
}

impl StacktraceEntry {
    /// A hash value consistent with `==`: it reads only the fields of
    /// the identity tier this frame itself occupies.
    pub fn hash_value(&self) -> (r: u64)
        ensures
            r == frame_hash(self@),
    {
        if !self.debug.file.as_str().is_empty() {
            let h = str_fnv_x(14695981039346656037u64, self.debug.file.as_str());
            mix_x(mix_x(h, self.debug.line), self.debug.column)
        } else if !self.module.as_str().is_empty() && self.offset != 0 {
            let h = str_fnv_x(14695981039346656037u64, self.module.as_str());
            mix_x(h, self.offset)
        } else {
            mix_x(14695981039346656037u64, self.address)
        }
    }
}

// ---------------------------------------------------------------------
// Laws of frame identity
// ---------------------------------------------------------------------

/// Frame equality is reflexive.
pub proof fn lemma_frames_eq_reflexive(a: FrameV)
    ensures
        frames_eq(a, a),
{
}

/// Frame equality is symmetric.
pub proof fn lemma_frames_eq_symmetric(a: FrameV, b: FrameV)
    ensures
        frames_eq(a, b) == frames_eq(b, a),
{
}

/// Frame equality is transitive for frames of one priority tier: all
/// three carrying a source position alike and a module+offset alike.
pub proof fn lemma_frames_eq_transitive(a: FrameV, b: FrameV, c: FrameV)
    requires
        has_debug(a) == has_debug(b),
        has_debug(b) == has_debug(c),
        has_modoff(a) == has_modoff(b),
        has_modoff(b) == has_modoff(c),
        frames_eq(a, b),
        frames_eq(b, c),
    ensures
        frames_eq(a, c),
{
}

/// Two frames that both carry a source position compare by it alone:
/// the module+offset and address rules never decide for them.
pub proof fn lemma_frames_eq_debug_tier(a: FrameV, b: FrameV)
    requires
        has_debug(a),
        has_debug(b),
    ensures
        frames_eq(a, b) == (a.file == b.file && a.line == b.line && a.column == b.column),
{
}

/// A line formatted through the sanitizer module+offset template from
/// an arbitrary frame number, address, module and offset parses back to
/// exactly those fields: the generator/parser round trip for the
/// cascade's first grammar. The module may hold any characters but
/// whitespace at its ends.
pub proof fn lemma_g1_round_trip(n: nat, a: nat, m: Seq<char>, o: nat)
    requires
        m.len() > 0,
        !is_ws(m[0]),
        !is_ws(m[m.len() - 1]),
    ensures
        parse_frame(
            seq!['#'] + dec_str(n) + seq![' ', '0', 'x'] + hex_str(a) + seq![' ', '('] + m + seq![
                '+',
                '0',
                'x',
            ] + hex_str(o) + seq![')'],
        ) == Some(
            FrameV {
                address: a,
                function: Seq::<char>::empty(),
                module: m,
                offset: o,
                file: Seq::<char>::empty(),
                line: 0,
                column: 0,
            },
        ),
{
    lemma_dec_str_digits(n);
    lemma_hex_str_digits(a);
    lemma_hex_str_digits(o);
    let dn = dec_str(n).len() as int;
    let ha = hex_str(a).len() as int;
    let lm = m.len() as int;
    let ho = hex_str(o).len() as int;
    let s = seq!['#'] + dec_str(n) + seq![' ', '0', 'x'] + hex_str(a) + seq![' ', '('] + m + seq![
        '+',
        '0',
        'x',
    ] + hex_str(o) + seq![')'];
    let len = s.len() as int;
    assert(len == 1 + dn + 3 + ha + 2 + lm + 3 + ho + 1);
    // The shared prefix: `#`, the frame number, one space.
    assert(s[0] == '#');
    assert(skip_sp(s, 0) == 0);
    assert(forall|k: int| 1 <= k < 1 + dn ==> #[trigger] s[k] == dec_str(n)[k - 1]);
    lemma_dec_end_run(s, 1, 1 + dn);
    assert(s[1 + dn] == ' ');
    assert(s[2 + dn] == '0');
    assert(skip_sp(s, 2 + dn) == 2 + dn);
    assert(skip_sp(s, 1 + dn) == 2 + dn);
    let p = 2 + dn;
    assert(after_frameno(s) == p);
    // The address numeral, then one space and the opening parenthesis.
    assert(s[p + 1] == 'x');
    assert(forall|k: int| p + 2 <= k < p + 2 + ha ==> #[trigger] s[k] == hex_str(a)[k - p - 2]);
    assert(s[p + 2 + ha] == ' ');
    lemma_hex_end_run(s, p + 2, p + 2 + ha);
    let he = p + 2 + ha;
    assert(s[he + 1] == '(');
    assert(skip_sp(s, he + 1) == he + 1);
    assert(skip_sp(s, he) == he + 1);
    let q = he + 1;
    assert(s[q] != 'i');
    // The module, then `+0x`, the offset numeral, and the closing
    // parenthesis.
    let c0 = q + 1 + lm;
    assert(forall|k: int| q + 1 <= k < c0 ==> #[trigger] s[k] == m[k - q - 1]);
    assert(s[c0] == '+');
    assert(s[c0 + 1] == '0');
    assert(s[c0 + 2] == 'x');
    assert(forall|k: int| c0 + 3 <= k < c0 + 3 + ho ==> #[trigger] s[k] == hex_str(o)[k - c0 - 3]);
    assert(s[c0 + 3 + ho] == ')');
    lemma_hex_end_run(s, c0 + 3, c0 + 3 + ho);
    assert(plus0x_at(s, c0));
    // No later position begins another `+0x`, so the greedy scan stops
    // at the written one.
    assert forall|cc: int| c0 < cc <= len - 1 implies !plus0x_at(s, cc) by {
        if cc == c0 + 1 || cc == c0 + 2 {
            assert(s[cc] != '+');
        } else if c0 + 3 <= cc < c0 + 3 + ho {
            assert(is_hex(s[cc]));
            assert(s[cc] != '+');
        } else {
            assert(s[cc] == ')');
        }
    }
    lemma_last_where_found(q + 1, len - 1, c0, plus0x_pred(s));
    assert(g1_c(s, q) == c0);
    assert(g1_open_at(s, q));
    assert(g1_ok(s));
    // Extraction: each field reads back as written.
    assert(s.subrange(p + 2, he) =~= hex_str(a));
    assert(s.subrange(c0 + 3, c0 + 3 + ho) =~= hex_str(o));
    assert(trim_lo(s, q + 1, c0) == q + 1);
    assert(trim_hi(s, q + 1, c0) == c0);
    assert(s.subrange(q + 1, c0) =~= m);
    assert(g1_val(s) =~= (FrameV {
        address: a,
        function: Seq::<char>::empty(),
        module: m,
        offset: o,
        file: Seq::<char>::empty(),
        line: 0,
        column: 0,
    }));
}

/// A line formatted through the debugger line-and-column template from
/// an arbitrary frame number, address, function, file, line and column
/// parses back to exactly those fields: the generator/parser round
/// trip for the cascade's second grammar. The function may hold any
/// characters but parentheses and whitespace at its ends; the file may
/// hold any characters but spaces and parentheses.
#[verifier::rlimit(60)]
pub proof fn lemma_g2_round_trip(n: nat, a: nat, f: Seq<char>, file: Seq<char>, l: nat, c: nat)
    requires
        f.len() > 0,
        !is_ws(f[0]),
        !is_ws(f[f.len() - 1]),
        forall|k: int| 0 <= k < f.len() ==> #[trigger] f[k] != '(',
        file.len() > 0,
        !is_ws(file[0]),
        !is_ws(file[file.len() - 1]),
        forall|k: int| 0 <= k < file.len() ==> #[trigger] file[k] != ' ' && file[k] != '(',
    ensures
        parse_frame(
            seq!['#'] + dec_str(n) + seq![' ', '0', 'x'] + hex_str(a) + seq![' ', 'i', 'n', ' ']
                + f + seq![' ', 'a', 't', ' '] + file + seq![':'] + dec_str(l) + seq![':']
                + dec_str(c),
        ) == Some(
            FrameV {
                address: a,
                function: f,
                module: Seq::<char>::empty(),
                offset: 0,
                file: file,
                line: l,
                column: c,
            },
        ),
{
    lemma_dec_str_digits(n);
    lemma_hex_str_digits(a);
    lemma_dec_str_digits(l);
    lemma_dec_str_digits(c);
    let dn = dec_str(n).len() as int;
    let ha = hex_str(a).len() as int;
    let lf = f.len() as int;
    let lfile = file.len() as int;
    let dl = dec_str(l).len() as int;
    let dc = dec_str(c).len() as int;
    let s = seq!['#'] + dec_str(n) + seq![' ', '0', 'x'] + hex_str(a) + seq![' ', 'i', 'n', ' ']
        + f + seq![' ', 'a', 't', ' '] + file + seq![':'] + dec_str(l) + seq![':'] + dec_str(c);
    let len = s.len() as int;
    assert(len == 1 + dn + 3 + ha + 4 + lf + 4 + lfile + 1 + dl + 1 + dc);
    // The shared prefix.
    assert(s[0] == '#');
    assert(skip_sp(s, 0) == 0);
    assert(forall|k: int| 1 <= k < 1 + dn ==> #[trigger] s[k] == dec_str(n)[k - 1]);
    lemma_dec_end_run(s, 1, 1 + dn);
    assert(s[1 + dn] == ' ');
    assert(s[2 + dn] == '0');
    assert(skip_sp(s, 2 + dn) == 2 + dn);
    assert(skip_sp(s, 1 + dn) == 2 + dn);
    let p = 2 + dn;
    assert(after_frameno(s) == p);
    // The address, one space, `in`, one space, the function.
    assert(s[p + 1] == 'x');
    assert(forall|k: int| p + 2 <= k < p + 2 + ha ==> #[trigger] s[k] == hex_str(a)[k - p - 2]);
    let he = p + 2 + ha;
    assert(s[he] == ' ');
    lemma_hex_end_run(s, p + 2, he);
    assert(s[he + 1] == 'i');
    assert(skip_sp(s, he + 1) == he + 1);
    assert(skip_sp(s, he) == he + 1);
    let q = he + 1;
    assert(s[q + 1] == 'n');
    let r0 = he + 4;
    assert(forall|k: int| r0 <= k < r0 + lf ==> #[trigger] s[k] == f[k - r0]);
    assert(s[q + 2] == ' ');
    assert(s[r0] == f[0]);
    assert(skip_sp(s, r0) == r0);
    assert(skip_sp(s, q + 2) == r0);
    assert(addr_in_has(s, p));
    assert(addr_in_next(s, p) == r0);
    // The first grammar fails: the line holds no opening parenthesis.
    assert(s[1 + dn] != '(' && s[he] != '(');
    assert forall|b: int| 0 <= b < len implies s[b] != '(' by {
        if 1 <= b < 1 + dn {
            assert(is_dec(s[b]));
        } else if p + 2 <= b < he {
            assert(is_hex(s[b]));
        } else if r0 <= b < r0 + lf {
            assert(s[b] == f[b - r0]);
        } else if r0 + lf + 4 <= b < r0 + lf + 4 + lfile {
            assert(s[b] == file[b - r0 - lf - 4]);
        } else if r0 + lf + 4 + lfile + 1 <= b < r0 + lf + 4 + lfile + 1 + dl {
            assert(is_dec(s[b]));
        } else if r0 + lf + 4 + lfile + 1 + dl + 1 <= b < len {
            assert(is_dec(s[b]));
        }
    }
    assert forall|b: int| q + 3 <= b <= len - 1 implies !#[trigger] g1_open_pred(s)(b) by {
        assert(s[b] != '(');
    }
    lemma_last_where_none(q + 3, len - 1, g1_open_pred(s));
    assert(!g1_ok(s));
    // The written ` at ` split and its line-and-column tail.
    let jf = r0 + lf;
    let ja = jf + 1;
    let t0 = jf + 4;
    let c1 = t0 + lfile;
    let d1 = c1 + 1 + dl;
    assert(forall|k: int| t0 <= k < c1 ==> #[trigger] s[k] == file[k - t0]);
    assert(forall|k: int| c1 + 1 <= k < d1 ==> #[trigger] s[k] == dec_str(l)[k - c1 - 1]);
    assert(forall|k: int| d1 + 1 <= k < len ==> #[trigger] s[k] == dec_str(c)[k - d1 - 1]);
    assert(s[jf] == ' ');
    assert(s[ja] == 'a');
    assert(s[ja + 1] == 't');
    assert(s[ja + 2] == ' ');
    assert(skip_sp(s, ja) == ja);
    assert(skip_sp(s, jf) == ja);
    assert(s[c1] == ':');
    assert(s[d1] == ':');
    lemma_dec_end_run(s, c1 + 1, d1);
    lemma_dec_end_run(s, d1 + 1, len);
    assert(colon2_at(s, c1));
    // No later colon group: after the written one come only digits and
    // the final colon, whose own group has no second colon.
    assert forall|cc: int| c1 < cc <= len - 1 implies !#[trigger] colon2_pred(s)(cc) by {
        if cc == d1 {
            assert(dec_end(s, d1 + 1) == len);
        } else if c1 < cc < d1 {
            assert(is_dec(s[cc]));
        } else if d1 < cc < len {
            assert(is_dec(s[cc]));
        }
    }
    lemma_last_where_found(t0 + 1, len - 1, c1, colon2_pred(s));
    assert(gsrc_split_at(s, r0, jf, 2));
    // No later split: the only space after the written one is the one
    // behind `at`, and no `at ` follows it.
    assert forall|j2: int| jf < j2 <= len - 1 implies !#[trigger] gsrc_split_pred(s, r0, 2)(j2) by {
        if j2 == ja + 2 {
            assert(skip_sp(s, t0) == t0);
            assert(skip_sp(s, j2) == t0);
            if gsrc_split_at(s, r0, j2, 2) {
                let ja2 = skip_sp(s, j2);
                assert(s[ja2 + 2] == ' ');
                assert(false);
            }
        } else if j2 != jf && j2 != ja + 2 {
            if gsrc_split_at(s, r0, j2, 2) {
                assert(s[j2] == ' ');
                if ja <= j2 < ja + 2 {
                    assert(s[j2] != ' ');
                } else if t0 <= j2 < c1 {
                    assert(s[j2] == file[j2 - t0]);
                } else if c1 + 1 <= j2 < d1 {
                    assert(is_dec(s[j2]));
                } else if d1 + 1 <= j2 < len {
                    assert(is_dec(s[j2]));
                } else {
                    assert(j2 == c1 || j2 == d1);
                    assert(s[j2] == ':');
                }
                assert(false);
            }
        }
    }
    lemma_last_where_found(r0 + 1, len - 1, jf, gsrc_split_pred(s, r0, 2));
    assert(gsrc_ok(s, 2));
    // Extraction: each field reads back as written.
    assert(s.subrange(p + 2, he) =~= hex_str(a));
    assert(trim_lo(s, r0, jf) == r0);
    assert(trim_hi(s, r0, jf) == jf);
    assert(s.subrange(r0, jf) =~= f);
    assert(trim_lo(s, t0, c1) == t0);
    assert(trim_hi(s, t0, c1) == c1);
    assert(s.subrange(t0, c1) =~= file);
    assert(s.subrange(c1 + 1, d1) =~= dec_str(l));
    assert(s.subrange(d1 + 1, len) =~= dec_str(c));
    assert(gsrc_val(s, 2) =~= (FrameV {
        address: a,
        function: f,
        module: Seq::<char>::empty(),
        offset: 0,
        file: file,
        line: l,
        column: c,
    }));
}

/// A line formatted through the debugger line-only template from an
/// arbitrary frame number, address, function, file and line parses
/// back to exactly those fields: the generator/parser round trip for
/// the cascade's third grammar. The function may hold any characters
/// but parentheses, colons and whitespace at its ends; the file may
/// hold any characters but spaces, parentheses and colons.
#[verifier::rlimit(60)]
pub proof fn lemma_g3_round_trip(n: nat, a: nat, f: Seq<char>, file: Seq<char>, l: nat)
    requires
        f.len() > 0,
        !is_ws(f[0]),
        !is_ws(f[f.len() - 1]),
        forall|k: int| 0 <= k < f.len() ==> #[trigger] f[k] != '(' && f[k] != ':',
        file.len() > 0,
        !is_ws(file[0]),
        !is_ws(file[file.len() - 1]),
        forall|k: int| 0 <= k < file.len() ==> #[trigger] file[k] != ' ' && file[k] != '('
            && file[k] != ':',
    ensures
        parse_frame(
            seq!['#'] + dec_str(n) + seq![' ', '0', 'x'] + hex_str(a) + seq![' ', 'i', 'n', ' ']
                + f + seq![' ', 'a', 't', ' '] + file + seq![':'] + dec_str(l),
        ) == Some(
            FrameV {
                address: a,
                function: f,
                module: Seq::<char>::empty(),
                offset: 0,
                file: file,
                line: l,
                column: 0,
            },
        ),
{
    lemma_dec_str_digits(n);
    lemma_hex_str_digits(a);
    lemma_dec_str_digits(l);
    let dn = dec_str(n).len() as int;
    let ha = hex_str(a).len() as int;
    let lf = f.len() as int;
    let lfile = file.len() as int;
    let dl = dec_str(l).len() as int;
    let s = seq!['#'] + dec_str(n) + seq![' ', '0', 'x'] + hex_str(a) + seq![' ', 'i', 'n', ' ']
        + f + seq![' ', 'a', 't', ' '] + file + seq![':'] + dec_str(l);
    let len = s.len() as int;
    assert(len == 1 + dn + 3 + ha + 4 + lf + 4 + lfile + 1 + dl);
    // The shared prefix.
    assert(s[0] == '#');
    assert(skip_sp(s, 0) == 0);
    assert(forall|k: int| 1 <= k < 1 + dn ==> #[trigger] s[k] == dec_str(n)[k - 1]);
    lemma_dec_end_run(s, 1, 1 + dn);
    assert(s[1 + dn] == ' ');
    assert(s[2 + dn] == '0');
    assert(skip_sp(s, 2 + dn) == 2 + dn);
    assert(skip_sp(s, 1 + dn) == 2 + dn);
    let p = 2 + dn;
    assert(after_frameno(s) == p);
    // The address, `in`, and the function.
    assert(s[p + 1] == 'x');
    assert(forall|k: int| p + 2 <= k < p + 2 + ha ==> #[trigger] s[k] == hex_str(a)[k - p - 2]);
    let he = p + 2 + ha;
    assert(s[he] == ' ');
    lemma_hex_end_run(s, p + 2, he);
    assert(s[he + 1] == 'i');
    assert(skip_sp(s, he + 1) == he + 1);
    assert(skip_sp(s, he) == he + 1);
    let q = he + 1;
    assert(s[q + 1] == 'n');
    let r0 = he + 4;
    assert(forall|k: int| r0 <= k < r0 + lf ==> #[trigger] s[k] == f[k - r0]);
    assert(s[q + 2] == ' ');
    assert(s[r0] == f[0]);
    assert(skip_sp(s, r0) == r0);
    assert(skip_sp(s, q + 2) == r0);
    assert(addr_in_has(s, p));
    assert(addr_in_next(s, p) == r0);
    let jf = r0 + lf;
    let ja = jf + 1;
    let t0 = jf + 4;
    let c1 = t0 + lfile;
    assert(forall|k: int| t0 <= k < c1 ==> #[trigger] s[k] == file[k - t0]);
    assert(forall|k: int| c1 + 1 <= k < len ==> #[trigger] s[k] == dec_str(l)[k - c1 - 1]);
    assert(s[jf] == ' ');
    assert(s[ja] == 'a');
    assert(s[ja + 1] == 't');
    assert(s[ja + 2] == ' ');
    assert(skip_sp(s, ja) == ja);
    assert(skip_sp(s, jf) == ja);
    assert(s[c1] == ':');
    lemma_dec_end_run(s, c1 + 1, len);
    // The first grammar fails: the line holds no opening parenthesis.
    assert forall|b: int| 0 <= b < len implies s[b] != '(' by {
        if 1 <= b < 1 + dn {
            assert(is_dec(s[b]));
        } else if p + 2 <= b < he {
            assert(is_hex(s[b]));
        } else if r0 <= b < jf {
            assert(s[b] == f[b - r0]);
        } else if t0 <= b < c1 {
            assert(s[b] == file[b - t0]);
        } else if c1 + 1 <= b < len {
            assert(is_dec(s[b]));
        }
    }
    assert forall|b: int| q + 3 <= b <= len - 1 implies !#[trigger] g1_open_pred(s)(b) by {
        assert(s[b] != '(');
    }
    lemma_last_where_none(q + 3, len - 1, g1_open_pred(s));
    assert(!g1_ok(s));
    // The line's only colon is the one before the line number, so no
    // line-and-column group exists and the second grammar fails.
    assert forall|cc: int| 0 <= cc < len && cc != c1 implies s[cc] != ':' by {
        if 1 <= cc < 1 + dn {
            assert(is_dec(s[cc]));
        } else if p + 2 <= cc < he {
            assert(is_hex(s[cc]));
        } else if r0 <= cc < jf {
            assert(s[cc] == f[cc - r0]);
        } else if t0 <= cc < c1 {
            assert(s[cc] == file[cc - t0]);
        } else if c1 + 1 <= cc < len {
            assert(is_dec(s[cc]));
        }
    }
    assert forall|cc: int| !#[trigger] colon2_pred(s)(cc) by {
        if colon2_at(s, cc) {
            assert(cc == c1);
            assert(dec_end(s, c1 + 1) == len);
            assert(false);
        }
    }
    assert forall|j2: int| r0 + 1 <= j2 <= len - 1 implies !#[trigger] gsrc_split_pred(
        s,
        r0,
        2,
    )(j2) by {
        if gsrc_split_at(s, r0, j2, 2) {
            let t2 = skip_sp(s, j2) + 3;
            let cx = last_where(t2 + 1, len - 1, colon2_pred(s));
            if cx >= 0 {
                lemma_last_where_none(t2 + 1, len - 1, colon2_pred(s));
            }
            assert(false);
        }
    }
    lemma_last_where_none(r0 + 1, len - 1, gsrc_split_pred(s, r0, 2));
    assert(!gsrc_ok(s, 2));
    // The written split and its line-only tail.
    assert(colon1_at(s, c1));
    assert forall|cc: int| c1 < cc <= len - 1 implies !#[trigger] colon1_pred(s)(cc) by {
        assert(s[cc] != ':');
    }
    lemma_last_where_found(t0 + 1, len - 1, c1, colon1_pred(s));
    assert(gsrc_split_at(s, r0, jf, 3));
    assert forall|j2: int| jf < j2 <= len - 1 implies !#[trigger] gsrc_split_pred(
        s,
        r0,
        3,
    )(j2) by {
        if j2 == ja + 2 {
            assert(skip_sp(s, t0) == t0);
            assert(skip_sp(s, j2) == t0);
            if gsrc_split_at(s, r0, j2, 3) {
                let ja2 = skip_sp(s, j2);
                assert(s[ja2 + 2] == ' ');
                assert(false);
            }
        } else {
            if gsrc_split_at(s, r0, j2, 3) {
                assert(s[j2] == ' ');
                if ja <= j2 < ja + 2 {
                    assert(s[j2] != ' ');
                } else if t0 <= j2 < c1 {
                    assert(s[j2] == file[j2 - t0]);
                } else if c1 + 1 <= j2 < len {
                    assert(is_dec(s[j2]));
                } else {
                    assert(j2 == c1);
                }
                assert(false);
            }
        }
    }
    lemma_last_where_found(r0 + 1, len - 1, jf, gsrc_split_pred(s, r0, 3));
    assert(gsrc_ok(s, 3));
    // Extraction: each field reads back as written.
    assert(s.subrange(p + 2, he) =~= hex_str(a));
    assert(trim_lo(s, r0, jf) == r0);
    assert(trim_hi(s, r0, jf) == jf);
    assert(s.subrange(r0, jf) =~= f);
    assert(trim_lo(s, t0, c1) == t0);
    assert(trim_hi(s, t0, c1) == c1);
    assert(s.subrange(t0, c1) =~= file);
    assert(s.subrange(c1 + 1, len) =~= dec_str(l));
    assert(gsrc_val(s, 3) =~= (FrameV {
        address: a,
        function: f,
        module: Seq::<char>::empty(),
        offset: 0,
        file: file,
        line: l,
        column: 0,
    }));
}

/// A line formatted through the debugger source-only template from an
/// arbitrary frame number, address, function and file parses back to
/// exactly those fields: the generator/parser round trip for the
/// cascade's fourth grammar. The function and file may hold any
/// characters but parentheses, colons, spaces inside the file, and
/// whitespace at their ends.
#[verifier::rlimit(60)]
pub proof fn lemma_g4_round_trip(n: nat, a: nat, f: Seq<char>, file: Seq<char>)
    requires
        f.len() > 0,
        !is_ws(f[0]),
        !is_ws(f[f.len() - 1]),
        forall|k: int| 0 <= k < f.len() ==> #[trigger] f[k] != '(' && f[k] != ':',
        file.len() > 0,
        !is_ws(file[0]),
        !is_ws(file[file.len() - 1]),
        forall|k: int| 0 <= k < file.len() ==> #[trigger] file[k] != ' ' && file[k] != '('
            && file[k] != ':',
    ensures
        parse_frame(
            seq!['#'] + dec_str(n) + seq![' ', '0', 'x'] + hex_str(a) + seq![' ', 'i', 'n', ' ']
                + f + seq![' ', 'a', 't', ' '] + file,
        ) == Some(
            FrameV {
                address: a,
                function: f,
                module: Seq::<char>::empty(),
                offset: 0,
                file: file,
                line: 0,
                column: 0,
            },
        ),
{
    lemma_dec_str_digits(n);
    lemma_hex_str_digits(a);
    let dn = dec_str(n).len() as int;
    let ha = hex_str(a).len() as int;
    let lf = f.len() as int;
    let lfile = file.len() as int;
    let s = seq!['#'] + dec_str(n) + seq![' ', '0', 'x'] + hex_str(a) + seq![' ', 'i', 'n', ' ']
        + f + seq![' ', 'a', 't', ' '] + file;
    let len = s.len() as int;
    assert(len == 1 + dn + 3 + ha + 4 + lf + 4 + lfile);
    // The shared prefix.
    assert(s[0] == '#');
    assert(skip_sp(s, 0) == 0);
    assert(forall|k: int| 1 <= k < 1 + dn ==> #[trigger] s[k] == dec_str(n)[k - 1]);
    lemma_dec_end_run(s, 1, 1 + dn);
    assert(s[1 + dn] == ' ');
    assert(s[2 + dn] == '0');
    assert(skip_sp(s, 2 + dn) == 2 + dn);
    assert(skip_sp(s, 1 + dn) == 2 + dn);
    let p = 2 + dn;
    assert(after_frameno(s) == p);
    // The address, `in`, and the function.
    assert(s[p + 1] == 'x');
    assert(forall|k: int| p + 2 <= k < p + 2 + ha ==> #[trigger] s[k] == hex_str(a)[k - p - 2]);
    let he = p + 2 + ha;
    assert(s[he] == ' ');
    lemma_hex_end_run(s, p + 2, he);
    assert(s[he + 1] == 'i');
    assert(skip_sp(s, he + 1) == he + 1);
    assert(skip_sp(s, he) == he + 1);
    let q = he + 1;
    assert(s[q + 1] == 'n');
    let r0 = he + 4;
    assert(forall|k: int| r0 <= k < r0 + lf ==> #[trigger] s[k] == f[k - r0]);
    assert(s[q + 2] == ' ');
    assert(s[r0] == f[0]);
    assert(skip_sp(s, r0) == r0);
    assert(skip_sp(s, q + 2) == r0);
    assert(addr_in_has(s, p));
    assert(addr_in_next(s, p) == r0);
    let jf = r0 + lf;
    let ja = jf + 1;
    let t0 = jf + 4;
    assert(forall|k: int| t0 <= k < len ==> #[trigger] s[k] == file[k - t0]);
    assert(s[jf] == ' ');
    assert(s[ja] == 'a');
    assert(s[ja + 1] == 't');
    assert(s[ja + 2] == ' ');
    assert(skip_sp(s, ja) == ja);
    assert(skip_sp(s, jf) == ja);
    // The first grammar fails: the line holds no opening parenthesis.
    assert forall|b: int| 0 <= b < len implies s[b] != '(' by {
        if 1 <= b < 1 + dn {
            assert(is_dec(s[b]));
        } else if p + 2 <= b < he {
            assert(is_hex(s[b]));
        } else if r0 <= b < jf {
            assert(s[b] == f[b - r0]);
        } else if t0 <= b < len {
            assert(s[b] == file[b - t0]);
        }
    }
    assert forall|b: int| q + 3 <= b <= len - 1 implies !#[trigger] g1_open_pred(s)(b) by {
        assert(s[b] != '(');
    }
    lemma_last_where_none(q + 3, len - 1, g1_open_pred(s));
    assert(!g1_ok(s));
    // The line holds no colon at all, so both source-and-line grammars
    // fail.
    assert forall|cc: int| 0 <= cc < len implies s[cc] != ':' by {
        if 1 <= cc < 1 + dn {
            assert(is_dec(s[cc]));
        } else if p + 2 <= cc < he {
            assert(is_hex(s[cc]));
        } else if r0 <= cc < jf {
            assert(s[cc] == f[cc - r0]);
        } else if t0 <= cc < len {
            assert(s[cc] == file[cc - t0]);
        }
    }
    assert forall|cc: int| !#[trigger] colon2_pred(s)(cc) by {
        if colon2_at(s, cc) {
            assert(s[cc] == ':');
            assert(false);
        }
    }
    assert forall|cc: int| !#[trigger] colon1_pred(s)(cc) by {
        if colon1_at(s, cc) {
            assert(s[cc] == ':');
            assert(false);
        }
    }
    assert forall|j2: int| r0 + 1 <= j2 <= len - 1 implies !#[trigger] gsrc_split_pred(
        s,
        r0,
        2,
    )(j2) by {
        if gsrc_split_at(s, r0, j2, 2) {
            let t2 = skip_sp(s, j2) + 3;
            if last_where(t2 + 1, len - 1, colon2_pred(s)) >= 0 {
                lemma_last_where_none(t2 + 1, len - 1, colon2_pred(s));
            }
            assert(false);
        }
    }
    lemma_last_where_none(r0 + 1, len - 1, gsrc_split_pred(s, r0, 2));
    assert(!gsrc_ok(s, 2));
    assert forall|j2: int| r0 + 1 <= j2 <= len - 1 implies !#[trigger] gsrc_split_pred(
        s,
        r0,
        3,
    )(j2) by {
        if gsrc_split_at(s, r0, j2, 3) {
            let t2 = skip_sp(s, j2) + 3;
            if last_where(t2 + 1, len - 1, colon1_pred(s)) >= 0 {
                lemma_last_where_none(t2 + 1, len - 1, colon1_pred(s));
            }
            assert(false);
        }
    }
    lemma_last_where_none(r0 + 1, len - 1, gsrc_split_pred(s, r0, 3));
    assert(!gsrc_ok(s, 3));
    // The written split carries the whole rest of the line as the file.
    assert(gsrc_split_at(s, r0, jf, 4));
    assert forall|j2: int| jf < j2 <= len - 1 implies !#[trigger] gsrc_split_pred(
        s,
        r0,
        4,
    )(j2) by {
        if j2 == ja + 2 {
            assert(skip_sp(s, t0) == t0);
            assert(skip_sp(s, j2) == t0);
            if gsrc_split_at(s, r0, j2, 4) {
                let ja2 = skip_sp(s, j2);
                assert(s[ja2 + 2] == ' ');
                assert(false);
            }
        } else {
            if gsrc_split_at(s, r0, j2, 4) {
                assert(s[j2] == ' ');
                if ja <= j2 < ja + 2 {
                    assert(s[j2] != ' ');
                } else {
                    assert(s[j2] == file[j2 - t0]);
                }
                assert(false);
            }
        }
    }
    lemma_last_where_found(r0 + 1, len - 1, jf, gsrc_split_pred(s, r0, 4));
    assert(gsrc_ok(s, 4));
    // Extraction: each field reads back as written.
    assert(s.subrange(p + 2, he) =~= hex_str(a));
    assert(trim_lo(s, r0, jf) == r0);
    assert(trim_hi(s, r0, jf) == jf);
    assert(s.subrange(r0, jf) =~= f);
    assert(trim_lo(s, t0, len) == t0);
    assert(trim_hi(s, t0, len) == len);
    assert(s.subrange(t0, len) =~= file);
    assert(gsrc_val(s, 4) =~= (FrameV {
        address: a,
        function: f,
        module: Seq::<char>::empty(),
        offset: 0,
        file: file,
        line: 0,
        column: 0,
    }));
}

/// A line formatted through the sanitizer line-and-column template
/// from an arbitrary frame number, address, bare function name, file,
/// line and column parses back to exactly those fields: the
/// generator/parser round trip for the cascade's fifth grammar. The
/// function and the file may hold any characters but spaces and
/// parentheses, with no whitespace at their ends.
#[verifier::rlimit(60)]
pub proof fn lemma_g5_round_trip(n: nat, a: nat, f: Seq<char>, file: Seq<char>, l: nat, c: nat)
    requires
        f.len() > 0,
        !is_ws(f[0]),
        !is_ws(f[f.len() - 1]),
        forall|k: int| 0 <= k < f.len() ==> #[trigger] f[k] != ' ' && f[k] != '(' && f[k] != ')',
        file.len() > 0,
        !is_ws(file[0]),
        !is_ws(file[file.len() - 1]),
        forall|k: int| 0 <= k < file.len() ==> #[trigger] file[k] != ' ' && file[k] != '('
            && file[k] != ')',
    ensures
        parse_frame(
            seq!['#'] + dec_str(n) + seq![' ', '0', 'x'] + hex_str(a) + seq![' ', 'i', 'n', ' ']
                + f + seq![' '] + file + seq![':'] + dec_str(l) + seq![':'] + dec_str(c),
        ) == Some(
            FrameV {
                address: a,
                function: f,
                module: Seq::<char>::empty(),
                offset: 0,
                file: file,
                line: l,
                column: c,
            },
        ),
{
    lemma_dec_str_digits(n);
    lemma_hex_str_digits(a);
    lemma_dec_str_digits(l);
    lemma_dec_str_digits(c);
    let dn = dec_str(n).len() as int;
    let ha = hex_str(a).len() as int;
    let lf = f.len() as int;
    let lfile = file.len() as int;
    let dl = dec_str(l).len() as int;
    let s = seq!['#'] + dec_str(n) + seq![' ', '0', 'x'] + hex_str(a) + seq![' ', 'i', 'n', ' ']
        + f + seq![' '] + file + seq![':'] + dec_str(l) + seq![':'] + dec_str(c);
    let len = s.len() as int;
    assert(len == 1 + dn + 3 + ha + 4 + lf + 1 + lfile + 1 + dl + 1 + dec_str(c).len());
    // The shared prefix.
    assert(s[0] == '#');
    assert(skip_sp(s, 0) == 0);
    assert(forall|k: int| 1 <= k < 1 + dn ==> #[trigger] s[k] == dec_str(n)[k - 1]);
    lemma_dec_end_run(s, 1, 1 + dn);
    assert(s[1 + dn] == ' ');
    assert(s[2 + dn] == '0');
    assert(skip_sp(s, 2 + dn) == 2 + dn);
    assert(skip_sp(s, 1 + dn) == 2 + dn);
    let p = 2 + dn;
    assert(after_frameno(s) == p);
    // The address, `in`, and the bare function name.
    assert(s[p + 1] == 'x');
    assert(forall|k: int| p + 2 <= k < p + 2 + ha ==> #[trigger] s[k] == hex_str(a)[k - p - 2]);
    let he = p + 2 + ha;
    assert(s[he] == ' ');
    lemma_hex_end_run(s, p + 2, he);
    assert(s[he + 1] == 'i');
    assert(skip_sp(s, he + 1) == he + 1);
    assert(skip_sp(s, he) == he + 1);
    let q = he + 1;
    assert(s[q + 1] == 'n');
    let r0 = he + 4;
    assert(forall|k: int| r0 <= k < r0 + lf ==> #[trigger] s[k] == f[k - r0]);
    assert(s[q + 2] == ' ');
    assert(s[r0] == f[0]);
    assert(skip_sp(s, r0) == r0);
    assert(skip_sp(s, q + 2) == r0);
    assert(addr_in_has(s, p));
    assert(addr_in_next(s, p) == r0);
    let e1 = r0 + lf;
    let t0 = e1 + 1;
    let c1 = t0 + lfile;
    let d1 = c1 + 1 + dl;
    assert(forall|k: int| t0 <= k < c1 ==> #[trigger] s[k] == file[k - t0]);
    assert(forall|k: int| c1 + 1 <= k < d1 ==> #[trigger] s[k] == dec_str(l)[k - c1 - 1]);
    assert(forall|k: int| d1 + 1 <= k < len ==> #[trigger] s[k] == dec_str(c)[k - d1 - 1]);
    assert(s[e1] == ' ');
    assert(s[c1] == ':');
    assert(s[d1] == ':');
    lemma_dec_end_run(s, c1 + 1, d1);
    lemma_dec_end_run(s, d1 + 1, len);
    // The first grammar fails: the line holds no opening parenthesis.
    assert forall|b: int| 0 <= b < len implies s[b] != '(' && s[b] != ')' by {
        if 1 <= b < 1 + dn {
            assert(is_dec(s[b]));
        } else if p + 2 <= b < he {
            assert(is_hex(s[b]));
        } else if r0 <= b < e1 {
            assert(s[b] == f[b - r0]);
        } else if t0 <= b < c1 {
            assert(s[b] == file[b - t0]);
        } else if c1 + 1 <= b < d1 {
            assert(is_dec(s[b]));
        } else if d1 + 1 <= b < len {
            assert(is_dec(s[b]));
        }
    }
    assert forall|b: int| q + 3 <= b <= len - 1 implies !#[trigger] g1_open_pred(s)(b) by {
        assert(s[b] != '(');
    }
    lemma_last_where_none(q + 3, len - 1, g1_open_pred(s));
    assert(!g1_ok(s));
    // The only space behind the function start is the one before the
    // file, and no `at ` follows it: the debugger grammars fail.
    assert(skip_sp(s, t0) == t0);
    assert(skip_sp(s, e1) == t0);
    assert forall|j2: int, mode: int| r0 + 1 <= j2 <= len - 1 implies !gsrc_split_at(
        s,
        r0,
        j2,
        mode,
    ) by {
        if gsrc_split_at(s, r0, j2, mode) {
            assert(s[j2] == ' ');
            if j2 != e1 {
                if c1 + 1 <= j2 < d1 || d1 + 1 <= j2 < len {
                    assert(is_dec(s[j2]));
                } else if r0 <= j2 < e1 {
                    assert(s[j2] == f[j2 - r0]);
                } else if t0 <= j2 < c1 {
                    assert(s[j2] == file[j2 - t0]);
                }
                assert(false);
            } else {
                let ja2 = skip_sp(s, j2);
                assert(ja2 == t0);
                assert(s[ja2] == 'a' && s[ja2 + 1] == 't' && s[ja2 + 2] == ' ');
                if lfile == 1 {
                    assert(s[t0 + 1] == ':');
                } else if lfile == 2 {
                    assert(s[t0 + 2] == ':');
                } else {
                    assert(s[t0 + 2] == file[2]);
                }
                assert(false);
            }
        }
    }
    assert forall|j2: int| r0 + 1 <= j2 <= len - 1 implies !#[trigger] gsrc_split_pred(
        s,
        r0,
        2,
    )(j2) by {
        assert(!gsrc_split_at(s, r0, j2, 2));
    }
    lemma_last_where_none(r0 + 1, len - 1, gsrc_split_pred(s, r0, 2));
    assert(!gsrc_ok(s, 2));
    assert forall|j2: int| r0 + 1 <= j2 <= len - 1 implies !#[trigger] gsrc_split_pred(
        s,
        r0,
        3,
    )(j2) by {
        assert(!gsrc_split_at(s, r0, j2, 3));
    }
    lemma_last_where_none(r0 + 1, len - 1, gsrc_split_pred(s, r0, 3));
    assert(!gsrc_ok(s, 3));
    assert forall|j2: int| r0 + 1 <= j2 <= len - 1 implies !#[trigger] gsrc_split_pred(
        s,
        r0,
        4,
    )(j2) by {
        assert(!gsrc_split_at(s, r0, j2, 4));
    }
    lemma_last_where_none(r0 + 1, len - 1, gsrc_split_pred(s, r0, 4));
    assert(!gsrc_ok(s, 4));
    // The fifth grammar matches without an argument list.
    lemma_name_end_run(s, r0, e1);
    assert(name_end(s, r0) == e1);
    assert(s[t0] != '(');
    lemma_paren_end_run(s, e1, len);
    assert(paren_end(s, e1) == len);
    assert(colon2_at(s, c1));
    assert(g5_colon_pred(s, e1, 5)(c1));
    assert forall|cc: int| c1 < cc <= len - 1 implies !#[trigger] g5_colon_pred(s, e1, 5)(cc) by {
        if cc == d1 {
            assert(dec_end(s, d1 + 1) == len);
        } else if c1 < cc < d1 {
            assert(is_dec(s[cc]));
        } else if d1 < cc < len {
            assert(is_dec(s[cc]));
        }
    }
    lemma_last_where_found(e1 + 1, len - 1, c1, g5_colon_pred(s, e1, 5));
    assert(tail57_ok(s, e1, 5));
    assert(g567_ok(s, 5));
    // Extraction: each field reads back as written.
    assert(s.subrange(p + 2, he) =~= hex_str(a));
    assert(trim_lo(s, r0, e1) == r0);
    assert(trim_hi(s, r0, e1) == e1);
    assert(s.subrange(r0, e1) =~= f);
    assert(trim_lo(s, t0, c1) == t0);
    assert(trim_lo(s, e1, c1) == t0);
    assert(trim_hi(s, t0, c1) == c1);
    assert(s.subrange(t0, c1) =~= file);
    assert(s.subrange(c1 + 1, d1) =~= dec_str(l));
    assert(s.subrange(d1 + 1, len) =~= dec_str(c));
    assert(g567_val(s, 5) =~= (FrameV {
        address: a,
        function: f,
        module: Seq::<char>::empty(),
        offset: 0,
        file: file,
        line: l,
        column: c,
    }));
}

/// A line formatted through the sanitizer line-only template parses
/// back to exactly its fields: the generator/parser round trip for the
/// cascade's sixth grammar. The function and the file may hold any
/// characters but spaces, parentheses and colons, with no whitespace
/// at their ends.
#[verifier::rlimit(60)]
pub proof fn lemma_g6_round_trip(n: nat, a: nat, f: Seq<char>, file: Seq<char>, l: nat)
    requires
        f.len() > 0,
        !is_ws(f[0]),
        !is_ws(f[f.len() - 1]),
        forall|k: int| 0 <= k < f.len() ==> #[trigger] f[k] != ' ' && f[k] != '(' && f[k] != ')'
            && f[k] != ':',
        file.len() > 0,
        !is_ws(file[0]),
        !is_ws(file[file.len() - 1]),
        forall|k: int| 0 <= k < file.len() ==> #[trigger] file[k] != ' ' && file[k] != '('
            && file[k] != ')' && file[k] != ':',
    ensures
        parse_frame(
            seq!['#'] + dec_str(n) + seq![' ', '0', 'x'] + hex_str(a) + seq![' ', 'i', 'n', ' ']
                + f + seq![' '] + file + seq![':'] + dec_str(l),
        ) == Some(
            FrameV {
                address: a,
                function: f,
                module: Seq::<char>::empty(),
                offset: 0,
                file: file,
                line: l,
                column: 0,
            },
        ),
{
    lemma_dec_str_digits(n);
    lemma_hex_str_digits(a);
    lemma_dec_str_digits(l);
    let dn = dec_str(n).len() as int;
    let ha = hex_str(a).len() as int;
    let lf = f.len() as int;
    let lfile = file.len() as int;
    let s = seq!['#'] + dec_str(n) + seq![' ', '0', 'x'] + hex_str(a) + seq![' ', 'i', 'n', ' ']
        + f + seq![' '] + file + seq![':'] + dec_str(l);
    let len = s.len() as int;
    assert(len == 1 + dn + 3 + ha + 4 + lf + 1 + lfile + 1 + dec_str(l).len());
    assert(s[0] == '#');
    assert(skip_sp(s, 0) == 0);
    assert(forall|k: int| 1 <= k < 1 + dn ==> #[trigger] s[k] == dec_str(n)[k - 1]);
    lemma_dec_end_run(s, 1, 1 + dn);
    assert(s[1 + dn] == ' ');
    assert(s[2 + dn] == '0');
    assert(skip_sp(s, 2 + dn) == 2 + dn);
    assert(skip_sp(s, 1 + dn) == 2 + dn);
    let p = 2 + dn;
    assert(after_frameno(s) == p);
    assert(s[p + 1] == 'x');
    assert(forall|k: int| p + 2 <= k < p + 2 + ha ==> #[trigger] s[k] == hex_str(a)[k - p - 2]);
    let he = p + 2 + ha;
    assert(s[he] == ' ');
    lemma_hex_end_run(s, p + 2, he);
    assert(s[he + 1] == 'i');
    assert(skip_sp(s, he + 1) == he + 1);
    assert(skip_sp(s, he) == he + 1);
    let q = he + 1;
    assert(s[q + 1] == 'n');
    let r0 = he + 4;
    assert(forall|k: int| r0 <= k < r0 + lf ==> #[trigger] s[k] == f[k - r0]);
    assert(s[q + 2] == ' ');
    assert(s[r0] == f[0]);
    assert(skip_sp(s, r0) == r0);
    assert(skip_sp(s, q + 2) == r0);
    assert(addr_in_has(s, p));
    assert(addr_in_next(s, p) == r0);
    let e1 = r0 + lf;
    let t0 = e1 + 1;
    let c1 = t0 + lfile;
    assert(forall|k: int| t0 <= k < c1 ==> #[trigger] s[k] == file[k - t0]);
    assert(forall|k: int| c1 + 1 <= k < len ==> #[trigger] s[k] == dec_str(l)[k - c1 - 1]);
    assert(s[e1] == ' ');
    assert(s[c1] == ':');
    lemma_dec_end_run(s, c1 + 1, len);
    // No parenthesis anywhere: the first grammar fails.
    assert forall|b: int| 0 <= b < len implies s[b] != '(' && s[b] != ')' by {
        if 1 <= b < 1 + dn {
            assert(is_dec(s[b]));
        } else if p + 2 <= b < he {
            assert(is_hex(s[b]));
        } else if r0 <= b < e1 {
            assert(s[b] == f[b - r0]);
        } else if t0 <= b < c1 {
            assert(s[b] == file[b - t0]);
        } else if c1 + 1 <= b < len {
            assert(is_dec(s[b]));
        }
    }
    assert forall|b: int| q + 3 <= b <= len - 1 implies !#[trigger] g1_open_pred(s)(b) by {
        assert(s[b] != '(');
    }
    lemma_last_where_none(q + 3, len - 1, g1_open_pred(s));
    assert(!g1_ok(s));
    // No `at ` after the only space: the debugger grammars fail.
    assert(skip_sp(s, t0) == t0);
    assert(skip_sp(s, e1) == t0);
    assert forall|j2: int, mode: int| r0 + 1 <= j2 <= len - 1 implies !gsrc_split_at(
        s,
        r0,
        j2,
        mode,
    ) by {
        if gsrc_split_at(s, r0, j2, mode) {
            assert(s[j2] == ' ');
            if j2 != e1 {
                if c1 + 1 <= j2 < len {
                    assert(is_dec(s[j2]));
                } else if r0 <= j2 < e1 {
                    assert(s[j2] == f[j2 - r0]);
                } else if t0 <= j2 < c1 {
                    assert(s[j2] == file[j2 - t0]);
                }
                assert(false);
            } else {
                let ja2 = skip_sp(s, j2);
                assert(ja2 == t0);
                assert(s[ja2] == 'a' && s[ja2 + 1] == 't' && s[ja2 + 2] == ' ');
                if lfile == 1 {
                    assert(s[t0 + 1] == ':');
                } else if lfile == 2 {
                    assert(s[t0 + 2] == ':');
                } else {
                    assert(s[t0 + 2] == file[2]);
                }
                assert(false);
            }
        }
    }
    assert forall|j2: int| r0 + 1 <= j2 <= len - 1 implies !#[trigger] gsrc_split_pred(
        s,
        r0,
        2,
    )(j2) by {
        assert(!gsrc_split_at(s, r0, j2, 2));
    }
    lemma_last_where_none(r0 + 1, len - 1, gsrc_split_pred(s, r0, 2));
    assert(!gsrc_ok(s, 2));
    assert forall|j2: int| r0 + 1 <= j2 <= len - 1 implies !#[trigger] gsrc_split_pred(
        s,
        r0,
        3,
    )(j2) by {
        assert(!gsrc_split_at(s, r0, j2, 3));
    }
    lemma_last_where_none(r0 + 1, len - 1, gsrc_split_pred(s, r0, 3));
    assert(!gsrc_ok(s, 3));
    assert forall|j2: int| r0 + 1 <= j2 <= len - 1 implies !#[trigger] gsrc_split_pred(
        s,
        r0,
        4,
    )(j2) by {
        assert(!gsrc_split_at(s, r0, j2, 4));
    }
    lemma_last_where_none(r0 + 1, len - 1, gsrc_split_pred(s, r0, 4));
    assert(!gsrc_ok(s, 4));
    // The line's only colon leads no line-and-column group: the fifth
    // grammar fails.
    lemma_name_end_run(s, r0, e1);
    assert(name_end(s, r0) == e1);
    assert(s[t0] != '(');
    lemma_paren_end_run(s, e1, len);
    assert(paren_end(s, e1) == len);
    assert forall|cc: int| 0 <= cc < len && cc != c1 implies s[cc] != ':' by {
        if 1 <= cc < 1 + dn {
            assert(is_dec(s[cc]));
        } else if p + 2 <= cc < he {
            assert(is_hex(s[cc]));
        } else if r0 <= cc < e1 {
            assert(s[cc] == f[cc - r0]);
        } else if t0 <= cc < c1 {
            assert(s[cc] == file[cc - t0]);
        } else if c1 + 1 <= cc < len {
            assert(is_dec(s[cc]));
        }
    }
    assert forall|cc: int| !#[trigger] g5_colon_pred(s, e1, 5)(cc) by {
        if g5_colon_pred(s, e1, 5)(cc) {
            assert(colon2_at(s, cc));
            assert(cc == c1);
            assert(dec_end(s, c1 + 1) == len);
            assert(false);
        }
    }
    lemma_last_where_none(e1 + 1, len - 1, g5_colon_pred(s, e1, 5));
    assert(!tail57_ok(s, e1, 5));
    assert(!g567_ok(s, 5));
    // The sixth grammar matches at the written colon.
    assert(colon1_at(s, c1));
    assert(g5_colon_pred(s, e1, 6)(c1));
    assert forall|cc: int| c1 < cc <= len - 1 implies !#[trigger] g5_colon_pred(s, e1, 6)(cc) by {
        assert(s[cc] != ':');
    }
    lemma_last_where_found(e1 + 1, len - 1, c1, g5_colon_pred(s, e1, 6));
    assert(tail57_ok(s, e1, 6));
    assert(g567_ok(s, 6));
    // Extraction: each field reads back as written.
    assert(s.subrange(p + 2, he) =~= hex_str(a));
    assert(trim_lo(s, r0, e1) == r0);
    assert(trim_hi(s, r0, e1) == e1);
    assert(s.subrange(r0, e1) =~= f);
    assert(trim_lo(s, t0, c1) == t0);
    assert(trim_lo(s, e1, c1) == t0);
    assert(trim_hi(s, t0, c1) == c1);
    assert(s.subrange(t0, c1) =~= file);
    assert(s.subrange(c1 + 1, len) =~= dec_str(l));
    assert(g567_val(s, 6) =~= (FrameV {
        address: a,
        function: f,
        module: Seq::<char>::empty(),
        offset: 0,
        file: file,
        line: l,
        column: 0,
    }));
}

/// A line formatted through the sanitizer source-only template parses
/// back to exactly its fields: the generator/parser round trip for the
/// cascade's seventh grammar. The function and the file may hold any
/// characters but spaces, parentheses and colons, with no whitespace
/// at their ends.
#[verifier::rlimit(100)]
pub proof fn lemma_g7_round_trip(n: nat, a: nat, f: Seq<char>, file: Seq<char>)
    requires
        f.len() > 0,
        !is_ws(f[0]),
        !is_ws(f[f.len() - 1]),
        forall|k: int| 0 <= k < f.len() ==> #[trigger] f[k] != ' ' && f[k] != '(' && f[k] != ')'
            && f[k] != ':',
        file.len() > 0,
        !is_ws(file[0]),
        !is_ws(file[file.len() - 1]),
        forall|k: int| 0 <= k < file.len() ==> #[trigger] file[k] != ' ' && file[k] != '('
            && file[k] != ')' && file[k] != ':',
    ensures
        parse_frame(
            seq!['#'] + dec_str(n) + seq![' ', '0', 'x'] + hex_str(a) + seq![' ', 'i', 'n', ' ']
                + f + seq![' '] + file,
        ) == Some(
            FrameV {
                address: a,
                function: f,
                module: Seq::<char>::empty(),
                offset: 0,
                file: file,
                line: 0,
                column: 0,
            },
        ),
{
    lemma_dec_str_digits(n);
    lemma_hex_str_digits(a);
    let dn = dec_str(n).len() as int;
    let ha = hex_str(a).len() as int;
    let lf = f.len() as int;
    let lfile = file.len() as int;
    let s = seq!['#'] + dec_str(n) + seq![' ', '0', 'x'] + hex_str(a) + seq![' ', 'i', 'n', ' ']
        + f + seq![' '] + file;
    let len = s.len() as int;
    assert(len == 1 + dn + 3 + ha + 4 + lf + 1 + lfile);
    assert(s[0] == '#');
    assert(skip_sp(s, 0) == 0);
    assert(forall|k: int| 1 <= k < 1 + dn ==> #[trigger] s[k] == dec_str(n)[k - 1]);
    lemma_dec_end_run(s, 1, 1 + dn);
    assert(s[1 + dn] == ' ');
    assert(s[2 + dn] == '0');
    assert(skip_sp(s, 2 + dn) == 2 + dn);
    assert(skip_sp(s, 1 + dn) == 2 + dn);
    let p = 2 + dn;
    assert(after_frameno(s) == p);
    assert(s[p + 1] == 'x');
    assert(forall|k: int| p + 2 <= k < p + 2 + ha ==> #[trigger] s[k] == hex_str(a)[k - p - 2]);
    let he = p + 2 + ha;
    assert(s[he] == ' ');
    lemma_hex_end_run(s, p + 2, he);
    assert(s[he + 1] == 'i');
    assert(skip_sp(s, he + 1) == he + 1);
    assert(skip_sp(s, he) == he + 1);
    let q = he + 1;
    assert(s[q + 1] == 'n');
    let r0 = he + 4;
    assert(forall|k: int| r0 <= k < r0 + lf ==> #[trigger] s[k] == f[k - r0]);
    assert(s[q + 2] == ' ');
    assert(s[r0] == f[0]);
    assert(skip_sp(s, r0) == r0);
    assert(skip_sp(s, q + 2) == r0);
    assert(addr_in_has(s, p));
    assert(addr_in_next(s, p) == r0);
    let e1 = r0 + lf;
    let t0 = e1 + 1;
    assert(forall|k: int| t0 <= k < len ==> #[trigger] s[k] == file[k - t0]);
    assert(s[e1] == ' ');
    // No parenthesis and no colon anywhere.
    assert forall|b: int| 0 <= b < len implies s[b] != '(' && s[b] != ')' && s[b] != ':' by {
        if 1 <= b < 1 + dn {
            assert(is_dec(s[b]));
        } else if p + 2 <= b < he {
            assert(is_hex(s[b]));
        } else if r0 <= b < e1 {
            assert(s[b] == f[b - r0]);
        } else if t0 <= b < len {
            assert(s[b] == file[b - t0]);
        }
    }
    assert forall|b: int| q + 3 <= b <= len - 1 implies !#[trigger] g1_open_pred(s)(b) by {
        assert(s[b] != '(');
    }
    lemma_last_where_none(q + 3, len - 1, g1_open_pred(s));
    assert(!g1_ok(s));
    // No `at ` after the only space: the debugger grammars fail.
    assert(skip_sp(s, t0) == t0);
    assert(skip_sp(s, e1) == t0);
    assert forall|j2: int, mode: int| r0 + 1 <= j2 <= len - 1 implies !gsrc_split_at(
        s,
        r0,
        j2,
        mode,
    ) by {
        if gsrc_split_at(s, r0, j2, mode) {
            assert(s[j2] == ' ');
            if j2 != e1 {
                if r0 <= j2 < e1 {
                    assert(s[j2] == f[j2 - r0]);
                } else if t0 <= j2 < len {
                    assert(s[j2] == file[j2 - t0]);
                }
                assert(false);
            } else {
                let ja2 = skip_sp(s, j2);
                assert(ja2 == t0);
                assert(ja2 + 3 <= len);
                assert(s[ja2] == 'a' && s[ja2 + 1] == 't' && s[ja2 + 2] == ' ');
                assert(s[t0 + 2] == file[2]);
                assert(false);
            }
        }
    }
    assert forall|j2: int| r0 + 1 <= j2 <= len - 1 implies !#[trigger] gsrc_split_pred(
        s,
        r0,
        2,
    )(j2) by {
        assert(!gsrc_split_at(s, r0, j2, 2));
    }
    lemma_last_where_none(r0 + 1, len - 1, gsrc_split_pred(s, r0, 2));
    assert(!gsrc_ok(s, 2));
    assert forall|j2: int| r0 + 1 <= j2 <= len - 1 implies !#[trigger] gsrc_split_pred(
        s,
        r0,
        3,
    )(j2) by {
        assert(!gsrc_split_at(s, r0, j2, 3));
    }
    lemma_last_where_none(r0 + 1, len - 1, gsrc_split_pred(s, r0, 3));
    assert(!gsrc_ok(s, 3));
    assert forall|j2: int| r0 + 1 <= j2 <= len - 1 implies !#[trigger] gsrc_split_pred(
        s,
        r0,
        4,
    )(j2) by {
        assert(!gsrc_split_at(s, r0, j2, 4));
    }
    lemma_last_where_none(r0 + 1, len - 1, gsrc_split_pred(s, r0, 4));
    assert(!gsrc_ok(s, 4));
    // No colon at all: the fifth and sixth grammars fail.
    lemma_name_end_run(s, r0, e1);
    assert(name_end(s, r0) == e1);
    assert(s[t0] != '(');
    lemma_paren_end_run(s, e1, len);
    assert(paren_end(s, e1) == len);
    assert forall|cc: int| !#[trigger] g5_colon_pred(s, e1, 5)(cc) by {
        if g5_colon_pred(s, e1, 5)(cc) {
            assert(s[cc] == ':');
            assert(false);
        }
    }
    lemma_last_where_none(e1 + 1, len - 1, g5_colon_pred(s, e1, 5));
    assert(!g567_ok(s, 5));
    assert forall|cc: int| !#[trigger] g5_colon_pred(s, e1, 6)(cc) by {
        if g5_colon_pred(s, e1, 6)(cc) {
            assert(s[cc] == ':');
            assert(false);
        }
    }
    lemma_last_where_none(e1 + 1, len - 1, g5_colon_pred(s, e1, 6));
    assert(!g567_ok(s, 6));
    // The seventh grammar takes the parenthesis-free rest as the file.
    assert(len > e1);
    assert(tail57_ok(s, e1, 7));
    assert(g567_ok(s, 7));
    // Extraction: each field reads back as written.
    assert(s.subrange(p + 2, he) =~= hex_str(a));
    assert(trim_lo(s, r0, e1) == r0);
    assert(trim_hi(s, r0, e1) == e1);
    assert(s.subrange(r0, e1) =~= f);
    assert(trim_lo(s, t0, len) == t0);
    assert(trim_lo(s, e1, len) == t0);
    assert(trim_hi(s, t0, len) == len);
    assert(s.subrange(t0, len) =~= file);
    assert(g567_val(s, 7) =~= (FrameV {
        address: a,
        function: f,
        module: Seq::<char>::empty(),
        offset: 0,
        file: file,
        line: 0,
        column: 0,
    }));
}

/// A line formatted through the no-source template from an arbitrary
/// frame number, address, bare function name and argument-list body
/// parses back to exactly those fields, the whole parenthesized form
/// standing as the function: the generator/parser round trip for the
/// cascade's eighth grammar. The name and the body may hold any
/// characters but spaces, parentheses and plus signs, with no
/// whitespace at the name's start.
#[verifier::rlimit(100)]
pub proof fn lemma_g8_round_trip(n: nat, a: nat, f: Seq<char>, body: Seq<char>)
    requires
        f.len() > 0,
        !is_ws(f[0]),
        forall|k: int| 0 <= k < f.len() ==> #[trigger] f[k] != ' ' && f[k] != '(' && f[k] != ')'
            && f[k] != '+',
        forall|k: int| 0 <= k < body.len() ==> #[trigger] body[k] != ' ' && body[k] != '('
            && body[k] != ')' && body[k] != '+',
    ensures
        parse_frame(
            seq!['#'] + dec_str(n) + seq![' ', '0', 'x'] + hex_str(a) + seq![' ', 'i', 'n', ' ']
                + f + seq!['('] + body + seq![')'],
        ) == Some(
            FrameV {
                address: a,
                function: f + seq!['('] + body + seq![')'],
                module: Seq::<char>::empty(),
                offset: 0,
                file: Seq::<char>::empty(),
                line: 0,
                column: 0,
            },
        ),
{
    lemma_dec_str_digits(n);
    lemma_hex_str_digits(a);
    let dn = dec_str(n).len() as int;
    let ha = hex_str(a).len() as int;
    let lf = f.len() as int;
    let lb = body.len() as int;
    let s = seq!['#'] + dec_str(n) + seq![' ', '0', 'x'] + hex_str(a) + seq![' ', 'i', 'n', ' ']
        + f + seq!['('] + body + seq![')'];
    let len = s.len() as int;
    assert(len == 1 + dn + 3 + ha + 4 + lf + 1 + lb + 1);
    assert(s[0] == '#');
    assert(skip_sp(s, 0) == 0);
    assert(forall|k: int| 1 <= k < 1 + dn ==> #[trigger] s[k] == dec_str(n)[k - 1]);
    lemma_dec_end_run(s, 1, 1 + dn);
    assert(s[1 + dn] == ' ');
    assert(s[2 + dn] == '0');
    assert(skip_sp(s, 2 + dn) == 2 + dn);
    assert(skip_sp(s, 1 + dn) == 2 + dn);
    let p = 2 + dn;
    assert(after_frameno(s) == p);
    assert(s[p + 1] == 'x');
    assert(forall|k: int| p + 2 <= k < p + 2 + ha ==> #[trigger] s[k] == hex_str(a)[k - p - 2]);
    let he = p + 2 + ha;
    assert(s[he] == ' ');
    lemma_hex_end_run(s, p + 2, he);
    assert(s[he + 1] == 'i');
    assert(skip_sp(s, he + 1) == he + 1);
    assert(skip_sp(s, he) == he + 1);
    let q = he + 1;
    assert(s[q + 1] == 'n');
    let r0 = he + 4;
    assert(forall|k: int| r0 <= k < r0 + lf ==> #[trigger] s[k] == f[k - r0]);
    assert(s[q + 2] == ' ');
    assert(s[r0] == f[0]);
    assert(skip_sp(s, r0) == r0);
    assert(skip_sp(s, q + 2) == r0);
    assert(addr_in_has(s, p));
    assert(addr_in_next(s, p) == r0);
    let e1 = r0 + lf;
    let cp = e1 + 1 + lb;
    assert(forall|k: int| e1 + 1 <= k < cp ==> #[trigger] s[k] == body[k - e1 - 1]);
    assert(s[e1] == '(');
    assert(s[cp] == ')');
    // The line holds no plus sign, no space after the function start,
    // and exactly one parenthesis pair.
    assert forall|b: int| 0 <= b < len implies s[b] != '+' && (b != e1 ==> s[b] != '(') && (b
        != cp ==> s[b] != ')') && (r0 < b ==> s[b] != ' ') by {
        if 1 <= b < 1 + dn {
            assert(is_dec(s[b]));
        } else if p + 2 <= b < he {
            assert(is_hex(s[b]));
        } else if r0 <= b < e1 {
            assert(s[b] == f[b - r0]);
        } else if e1 + 1 <= b < cp {
            assert(s[b] == body[b - e1 - 1]);
        }
    }
    // The first grammar fails: no `+0x` tail exists behind the single
    // opening parenthesis.
    assert forall|cc: int| !#[trigger] plus0x_pred(s)(cc) by {
        if plus0x_at(s, cc) {
            assert(s[cc] == '+');
            assert(false);
        }
    }
    assert forall|b: int| q + 3 <= b <= len - 1 implies !#[trigger] g1_open_pred(s)(b) by {
        if g1_open_at(s, b) {
            lemma_last_where_none(b + 1, len - 1, plus0x_pred(s));
            assert(false);
        }
    }
    lemma_last_where_none(q + 3, len - 1, g1_open_pred(s));
    assert(!g1_ok(s));
    // No space after the function start: the debugger grammars fail.
    assert forall|j2: int| r0 + 1 <= j2 <= len - 1 implies !#[trigger] gsrc_split_pred(
        s,
        r0,
        2,
    )(j2) by {
        if gsrc_split_at(s, r0, j2, 2) {
            assert(s[j2] == ' ');
            assert(false);
        }
    }
    lemma_last_where_none(r0 + 1, len - 1, gsrc_split_pred(s, r0, 2));
    assert(!gsrc_ok(s, 2));
    assert forall|j2: int| r0 + 1 <= j2 <= len - 1 implies !#[trigger] gsrc_split_pred(
        s,
        r0,
        3,
    )(j2) by {
        if gsrc_split_at(s, r0, j2, 3) {
            assert(s[j2] == ' ');
            assert(false);
        }
    }
    lemma_last_where_none(r0 + 1, len - 1, gsrc_split_pred(s, r0, 3));
    assert(!gsrc_ok(s, 3));
    assert forall|j2: int| r0 + 1 <= j2 <= len - 1 implies !#[trigger] gsrc_split_pred(
        s,
        r0,
        4,
    )(j2) by {
        if gsrc_split_at(s, r0, j2, 4) {
            assert(s[j2] == ' ');
            assert(false);
        }
    }
    lemma_last_where_none(r0 + 1, len - 1, gsrc_split_pred(s, r0, 4));
    assert(!gsrc_ok(s, 4));
    // Behind the closing parenthesis nothing follows, so the sanitizer
    // source grammars fail.
    lemma_name_end_run(s, r0, e1);
    assert(name_end(s, r0) == e1);
    assert(skip_sp(s, e1) == e1);
    assert forall|cc: int, mode: int| !#[trigger] g5_cp_pred(s, mode)(cc) by {
        if g5_cp_pred(s, mode)(cc) {
            assert(s[cc] == ')');
            assert(cc == cp);
            assert(tail57_ok(s, cp + 1, mode));
            if mode == 7 {
                assert(s.len() > cp + 1);
                assert(false);
            } else {
                lemma_last_where_none(cp + 2, len - 1, g5_colon_pred(s, cp + 1, mode));
                assert(false);
            }
        }
    }
    assert forall|cc: int| !#[trigger] g5_cp_pred(s, 5)(cc) by {
        assert(!g5_cp_pred(s, 5)(cc));
    }
    lemma_last_where_none(e1 + 1, len - 1, g5_cp_pred(s, 5));
    assert(!g567_ok(s, 5));
    assert forall|cc: int| !#[trigger] g5_cp_pred(s, 6)(cc) by {
        assert(!g5_cp_pred(s, 6)(cc));
    }
    lemma_last_where_none(e1 + 1, len - 1, g5_cp_pred(s, 6));
    assert(!g567_ok(s, 6));
    assert forall|cc: int| !#[trigger] g5_cp_pred(s, 7)(cc) by {
        assert(!g5_cp_pred(s, 7)(cc));
    }
    lemma_last_where_none(e1 + 1, len - 1, g5_cp_pred(s, 7));
    assert(!g567_ok(s, 7));
    // The eighth grammar closes the function at the rightmost (only)
    // closing parenthesis, and no `from` clause follows.
    assert(rparen_pred(s)(cp));
    lemma_last_where_found(e1 + 1, len - 1, cp, rparen_pred(s));
    assert(g8_ok(s));
    assert(!g8_from_ok(s, cp));
    assert(s.subrange(p + 2, he) =~= hex_str(a));
    assert(trim_lo(s, r0, cp + 1) == r0);
    assert(trim_hi(s, r0, cp + 1) == cp + 1);
    assert(s.subrange(r0, cp + 1) =~= f + seq!['('] + body + seq![')']);
    assert(g8_val(s) =~= (FrameV {
        address: a,
        function: f + seq!['('] + body + seq![')'],
        module: Seq::<char>::empty(),
        offset: 0,
        file: Seq::<char>::empty(),
        line: 0,
        column: 0,
    }));
}

/// Equal frames of one priority tier hash identically.
pub proof fn lemma_frames_eq_hash(a: FrameV, b: FrameV)
    requires
        has_debug(a) == has_debug(b),
        has_modoff(a) == has_modoff(b),
        frames_eq(a, b),
    ensures
        frame_hash(a) == frame_hash(b),
{
}

} // verus!
