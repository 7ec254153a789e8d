//! Character-level text utilities shared by the parsers: character
//! classes, scanning, trimming, line splitting and joining, substring
//! search, and hexadecimal / decimal numerals.

use vstd::prelude::*;

verus! {

// ---------------------------------------------------------------------
// Character classes
// ---------------------------------------------------------------------

/// A plain space, the only blank the line grammars accept between fields.
pub open spec fn is_sp(c: char) -> bool {
    c == ' '
}

/// Whitespace as the trimming and sentinel rules use it.
pub open spec fn is_ws(c: char) -> bool {
    c == ' ' || c == '\t' || c == '\n' || c == '\r' || c == '\u{b}' || c == '\u{c}'
}

/// A decimal digit.
pub open spec fn is_dec(c: char) -> bool {
    '0' <= c && c <= '9'
}

/// A lower-case hexadecimal digit, as the trace grammars print them.
pub open spec fn is_hex(c: char) -> bool {
    is_dec(c) || ('a' <= c && c <= 'f')
}

/// A hexadecimal digit of either case, as the mapping tokens allow.
pub open spec fn is_hext(c: char) -> bool {
    is_hex(c) || ('A' <= c && c <= 'F')
}

/// Executable test for [`is_ws`].
pub fn is_ws_x(c: char) -> (r: bool)
    ensures
        r == is_ws(c),
{
    c == ' ' || c == '\t' || c == '\n' || c == '\r' || c == '\u{b}' || c == '\u{c}'
}

/// Executable test for [`is_dec`].
pub fn is_dec_x(c: char) -> (r: bool)
    ensures
        r == is_dec(c),
{
    '0' <= c && c <= '9'
}

/// Executable test for [`is_hex`].
pub fn is_hex_x(c: char) -> (r: bool)
    ensures
        r == is_hex(c),
{
    is_dec_x(c) || ('a' <= c && c <= 'f')
}

/// Executable test for [`is_hext`].
pub fn is_hext_x(c: char) -> (r: bool)
    ensures
        r == is_hext(c),
{
    is_hex_x(c) || ('A' <= c && c <= 'F')
}

// ---------------------------------------------------------------------
// Forward scanning
// ---------------------------------------------------------------------

/// First index at or after `i` whose character is not a space, or the end.
pub open spec fn skip_sp(s: Seq<char>, i: int) -> int
    decreases s.len() - i,
{
    if i < 0 || i >= s.len() {
        s.len() as int
    } else if is_sp(s[i]) {
        skip_sp(s, i + 1)
    } else {
        i
    }
}

/// First index at or after `i` whose character is not whitespace, or the end.
pub open spec fn skip_ws(s: Seq<char>, i: int) -> int
    decreases s.len() - i,
{
    if i < 0 || i >= s.len() {
        s.len() as int
    } else if is_ws(s[i]) {
        skip_ws(s, i + 1)
    } else {
        i
    }
}

/// First index at or after `i` whose character is not a decimal digit.
pub open spec fn dec_end(s: Seq<char>, i: int) -> int
    decreases s.len() - i,
{
    if i < 0 || i >= s.len() {
        s.len() as int
    } else if is_dec(s[i]) {
        dec_end(s, i + 1)
    } else {
        i
    }
}

/// First index at or after `i` whose character is not a hexadecimal digit.
pub open spec fn hex_end(s: Seq<char>, i: int) -> int
    decreases s.len() - i,
{
    if i < 0 || i >= s.len() {
        s.len() as int
    } else if is_hex(s[i]) {
        hex_end(s, i + 1)
    } else {
        i
    }
}

/// First index at or after `i` holding a space or a parenthesis; the
/// grammars use runs of other characters as bare symbol names.
pub open spec fn name_end(s: Seq<char>, i: int) -> int
    decreases s.len() - i,
{
    if i < 0 || i >= s.len() {
        s.len() as int
    } else if !is_sp(s[i]) && s[i] != '(' && s[i] != ')' {
        name_end(s, i + 1)
    } else {
        i
    }
}

/// First index at or after `i` holding a parenthesis, or the end.
pub open spec fn paren_end(s: Seq<char>, i: int) -> int
    decreases s.len() - i,
{
    if i < 0 || i >= s.len() {
        s.len() as int
    } else if s[i] != '(' && s[i] != ')' {
        paren_end(s, i + 1)
    } else {
        i
    }
}

/// Executable [`paren_end`].
pub fn paren_end_x(cs: &Vec<char>, i: usize) -> (r: usize)
    requires
        i <= cs@.len(),
    ensures
        r == paren_end(cs@, i as int),
        i <= r <= cs@.len(),
{
    let mut j = i;
    while j < cs.len() && cs[j] != '(' && cs[j] != ')'
        invariant
            i <= j <= cs@.len(),
            paren_end(cs@, i as int) == paren_end(cs@, j as int),
        decreases cs@.len() - j,
    {
        j += 1;
    }
    j
}

/// First index at or after `i` holding a space, or the end: the end of a
/// space-separated token.
pub open spec fn sp_run_end(s: Seq<char>, i: int) -> int
    decreases s.len() - i,
{
    if i < 0 || i >= s.len() {
        s.len() as int
    } else if !is_sp(s[i]) {
        sp_run_end(s, i + 1)
    } else {
        i
    }
}

/// Executable [`sp_run_end`].
pub fn sp_run_end_x(cs: &Vec<char>, i: usize) -> (r: usize)
    requires
        i <= cs@.len(),
    ensures
        r == sp_run_end(cs@, i as int),
        i <= r <= cs@.len(),
{
    let mut j = i;
    while j < cs.len() && cs[j] != ' '
        invariant
            i <= j <= cs@.len(),
            sp_run_end(cs@, i as int) == sp_run_end(cs@, j as int),
        decreases cs@.len() - j,
    {
        j += 1;
    }
    j
}

/// The scan results stay between the start index and the end of the text.
pub proof fn lemma_scan_bounds(s: Seq<char>, i: int)
    requires
        0 <= i <= s.len(),
    ensures
        i <= skip_sp(s, i) <= s.len(),
        i <= skip_ws(s, i) <= s.len(),
        i <= dec_end(s, i) <= s.len(),
        i <= hex_end(s, i) <= s.len(),
        i <= name_end(s, i) <= s.len(),
        i <= sp_run_end(s, i) <= s.len(),
    decreases s.len() - i,
{
    if i < s.len() {
        lemma_scan_bounds(s, i + 1);
    }
}

/// Every character a scan ran over lies in the scan's class.
pub proof fn lemma_scan_chars(s: Seq<char>, i: int)
    requires
        0 <= i <= s.len(),
    ensures
        forall|k: int| i <= k < skip_sp(s, i) ==> #[trigger] s[k] == ' ',
        forall|k: int| i <= k < dec_end(s, i) ==> is_dec(#[trigger] s[k]),
        forall|k: int| i <= k < hex_end(s, i) ==> is_hex(#[trigger] s[k]),
        forall|k: int| i <= k < name_end(s, i) ==> !is_sp(#[trigger] s[k]) && s[k] != '(' && s[k]
            != ')',
    decreases s.len() - i,
{
    if i < s.len() {
        lemma_scan_chars(s, i + 1);
        lemma_scan_bounds(s, i + 1);
    }
}

/// Executable [`skip_sp`].
pub fn skip_sp_x(cs: &Vec<char>, i: usize) -> (r: usize)
    requires
        i <= cs@.len(),
    ensures
        r == skip_sp(cs@, i as int),
        i <= r <= cs@.len(),
{
    let mut j = i;
    while j < cs.len() && cs[j] == ' '
        invariant
            i <= j <= cs@.len(),
            skip_sp(cs@, i as int) == skip_sp(cs@, j as int),
        decreases cs@.len() - j,
    {
        j += 1;
    }
    j
}

/// Executable [`skip_ws`].
pub fn skip_ws_x(cs: &Vec<char>, i: usize) -> (r: usize)
    requires
        i <= cs@.len(),
    ensures
        r == skip_ws(cs@, i as int),
        i <= r <= cs@.len(),
{
    let mut j = i;
    while j < cs.len() && is_ws_x(cs[j])
        invariant
            i <= j <= cs@.len(),
            skip_ws(cs@, i as int) == skip_ws(cs@, j as int),
        decreases cs@.len() - j,
    {
        j += 1;
    }
    j
}

/// Executable [`dec_end`].
pub fn dec_end_x(cs: &Vec<char>, i: usize) -> (r: usize)
    requires
        i <= cs@.len(),
    ensures
        r == dec_end(cs@, i as int),
        i <= r <= cs@.len(),
{
    let mut j = i;
    while j < cs.len() && is_dec_x(cs[j])
        invariant
            i <= j <= cs@.len(),
            dec_end(cs@, i as int) == dec_end(cs@, j as int),
        decreases cs@.len() - j,
    {
        j += 1;
    }
    j
}

/// Executable [`hex_end`].
pub fn hex_end_x(cs: &Vec<char>, i: usize) -> (r: usize)
    requires
        i <= cs@.len(),
    ensures
        r == hex_end(cs@, i as int),
        i <= r <= cs@.len(),
{
    let mut j = i;
    while j < cs.len() && is_hex_x(cs[j])
        invariant
            i <= j <= cs@.len(),
            hex_end(cs@, i as int) == hex_end(cs@, j as int),
        decreases cs@.len() - j,
    {
        j += 1;
    }
    j
}

/// Executable [`name_end`].
pub fn name_end_x(cs: &Vec<char>, i: usize) -> (r: usize)
    requires
        i <= cs@.len(),
    ensures
        r == name_end(cs@, i as int),
        i <= r <= cs@.len(),
{
    let mut j = i;
    while j < cs.len() && cs[j] != ' ' && cs[j] != '(' && cs[j] != ')'
        invariant
            i <= j <= cs@.len(),
            name_end(cs@, i as int) == name_end(cs@, j as int),
        decreases cs@.len() - j,
    {
        j += 1;
    }
    j
}

// ---------------------------------------------------------------------
// Rightmost matches
// ---------------------------------------------------------------------

/// The largest index in `[lo, j]` satisfying `p`, or `-1` when none
/// does: how a greedy grammar part picks its split point.
pub open spec fn last_where(lo: int, j: int, p: spec_fn(int) -> bool) -> int
    decreases j - lo + 1,
{
    if j < lo {
        -1
    } else if p(j) {
        j
    } else {
        last_where(lo, j - 1, p)
    }
}

/// A downward scan that saw no match has passed the rightmost one.
pub proof fn lemma_last_where_none(lo: int, j: int, p: spec_fn(int) -> bool)
    requires
        forall|m: int| lo <= m <= j ==> !#[trigger] p(m),
    ensures
        last_where(lo, j, p) == -1,
    decreases j - lo + 1,
{
    if j >= lo {
        lemma_last_where_none(lo, j - 1, p);
    }
}

/// The first match of a downward scan is the rightmost match.
pub proof fn lemma_last_where_found(lo: int, j: int, k: int, p: spec_fn(int) -> bool)
    requires
        lo <= k <= j,
        p(k),
        forall|m: int| k < m <= j ==> !#[trigger] p(m),
    ensures
        last_where(lo, j, p) == k,
    decreases j - k,
{
    if j > k {
        lemma_last_where_found(lo, j - 1, k, p);
    }
}

// ---------------------------------------------------------------------
// Literals at a position
// ---------------------------------------------------------------------

/// The characters of `pat` stand in `s` starting at `i`.
pub open spec fn lit_at(s: Seq<char>, i: int, pat: Seq<char>) -> bool {
    &&& 0 <= i
    &&& i + pat.len() <= s.len()
    &&& forall|k: int| 0 <= k < pat.len() ==> s[i + k] == pat[k]
}

/// Executable [`lit_at`].
pub fn lit_at_x(cs: &Vec<char>, i: usize, pat: &Vec<char>) -> (r: bool)
    requires
        i <= cs@.len(),
    ensures
        r == lit_at(cs@, i as int, pat@),
{
    let n = cs.len();
    if n - i < pat.len() {
        return false;
    }
    let mut k: usize = 0;
    while k < pat.len()
        invariant
            0 <= k <= pat@.len(),
            i + pat@.len() <= cs@.len() <= usize::MAX,
            forall|m: int| 0 <= m < k ==> cs@[i + m] == pat@[m],
        decreases pat@.len() - k,
    {
        proof {
            assert(i + k < cs@.len());
        }
        if cs[i + k] != pat[k] {
            return false;
        }
        k += 1;
    }
    true
}

// ---------------------------------------------------------------------
// Trimming
// ---------------------------------------------------------------------

/// First index in `[a, b]` past the leading whitespace of `s[a..b)`.
pub open spec fn trim_lo(s: Seq<char>, a: int, b: int) -> int
    decreases b - a,
{
    if a < 0 || a >= b || b > s.len() {
        a
    } else if is_ws(s[a]) {
        trim_lo(s, a + 1, b)
    } else {
        a
    }
}

/// One past the last non-whitespace index of `s[a..b)`, or `a` if none.
pub open spec fn trim_hi(s: Seq<char>, a: int, b: int) -> int
    decreases b - a,
{
    if a < 0 || b <= a || b > s.len() {
        a
    } else if is_ws(s[b - 1]) {
        trim_hi(s, a, b - 1)
    } else {
        b
    }
}

/// `s[a..b)` with leading and trailing whitespace removed.
pub open spec fn trimmed(s: Seq<char>, a: int, b: int) -> Seq<char> {
    let lo = trim_lo(s, a, b);
    let hi = trim_hi(s, lo, b);
    s.subrange(lo, hi)
}

/// Trimming keeps the bounds in order.
pub proof fn lemma_trim_bounds(s: Seq<char>, a: int, b: int)
    requires
        0 <= a <= b <= s.len(),
    ensures
        a <= trim_lo(s, a, b) <= b,
        a <= trim_hi(s, a, b) <= b,
    decreases b - a,
{
    if a < b {
        if is_ws(s[a]) {
            lemma_trim_bounds(s, a + 1, b);
        }
        if is_ws(s[b - 1]) {
            lemma_trim_bounds(s, a, b - 1);
        }
    }
}

/// The trimmed copy of `s[a..b)` as a fresh string, where `cs` lists the
/// characters of `s`.
pub fn extract_trimmed(s: &str, cs: &Vec<char>, a: usize, b: usize) -> (r: String)
    requires
        cs@ == s@,
        a <= b,
        b <= cs@.len(),
    ensures
        r@ == trimmed(cs@, a as int, b as int),
{
    let mut lo = a;
    while lo < b && is_ws_x(cs[lo])
        invariant
            a <= lo <= b <= cs@.len(),
            trim_lo(cs@, a as int, b as int) == trim_lo(cs@, lo as int, b as int),
        decreases b - lo,
    {
        lo += 1;
    }
    let mut hi = b;
    while hi > lo && is_ws_x(cs[hi - 1])
        invariant
            lo <= hi <= b <= cs@.len(),
            trim_hi(cs@, lo as int, b as int) == trim_hi(cs@, lo as int, hi as int),
        decreases hi,
    {
        hi -= 1;
    }
    proof {
        assert(trim_lo(cs@, a as int, b as int) == lo as int);
        assert(trim_hi(cs@, lo as int, b as int) == hi as int);
    }
    s.substring_char(lo, hi).to_owned()
}

// ---------------------------------------------------------------------
// Numerals
// ---------------------------------------------------------------------

/// Value of one decimal digit.
pub open spec fn dec_v(c: char) -> nat
    recommends
        is_dec(c),
{
    (c as u32 - '0' as u32) as nat
}

/// Value of one lower-case hexadecimal digit.
pub open spec fn hex_v(c: char) -> nat
    recommends
        is_hex(c),
{
    if is_dec(c) {
        dec_v(c)
    } else {
        (c as u32 - 'a' as u32 + 10) as nat
    }
}

/// Value of a decimal numeral (the empty numeral counts as zero).
pub open spec fn dec_val(s: Seq<char>) -> nat
    decreases s.len(),
{
    if s.len() == 0 {
        0
    } else {
        dec_val(s.drop_last()) * 10 + dec_v(s.last())
    }
}

/// Value of a lower-case hexadecimal numeral.
pub open spec fn hex_val(s: Seq<char>) -> nat
    decreases s.len(),
{
    if s.len() == 0 {
        0
    } else {
        hex_val(s.drop_last()) * 16 + hex_v(s.last())
    }
}

/// Value of one hexadecimal digit of either case.
pub open spec fn hext_v(c: char) -> nat
    recommends
        is_hext(c),
{
    if is_hex(c) {
        hex_v(c)
    } else {
        (c as u32 - 'A' as u32 + 10) as nat
    }
}

/// Value of a hexadecimal numeral of either case.
pub open spec fn hext_val(s: Seq<char>) -> nat
    decreases s.len(),
{
    if s.len() == 0 {
        0
    } else {
        hext_val(s.drop_last()) * 16 + hext_v(s.last())
    }
}

/// A numeral's value never shrinks when more digits follow it.
pub proof fn lemma_hex_val_mono(s: Seq<char>, a: int, i: int, j: int)
    requires
        0 <= a <= i <= j <= s.len(),
    ensures
        hex_val(s.subrange(a, i)) <= hex_val(s.subrange(a, j)),
    decreases j - i,
{
    if i < j {
        lemma_hex_val_mono(s, a, i, j - 1);
        assert(s.subrange(a, j).drop_last() =~= s.subrange(a, j - 1));
        assert(hex_val(s.subrange(a, j)) == hex_val(s.subrange(a, j - 1)) * 16 + hex_v(
            s.subrange(a, j).last(),
        ));
    }
}

/// Decimal counterpart of [`lemma_hex_val_mono`].
pub proof fn lemma_dec_val_mono(s: Seq<char>, a: int, i: int, j: int)
    requires
        0 <= a <= i <= j <= s.len(),
    ensures
        dec_val(s.subrange(a, i)) <= dec_val(s.subrange(a, j)),
    decreases j - i,
{
    if i < j {
        lemma_dec_val_mono(s, a, i, j - 1);
        assert(s.subrange(a, j).drop_last() =~= s.subrange(a, j - 1));
        assert(dec_val(s.subrange(a, j)) == dec_val(s.subrange(a, j - 1)) * 10 + dec_v(
            s.subrange(a, j).last(),
        ));
    }
}

/// Parse the hexadecimal digits `cs[a..b)`; `None` when the value does
/// not fit in a `u64`.
pub fn parse_hex_u64(cs: &Vec<char>, a: usize, b: usize) -> (r: Option<u64>)
    requires
        a <= b,
        b <= cs@.len(),
        forall|k: int| a <= k < b ==> is_hex(cs@[k]),
    ensures
        match r {
            Some(v) => v as nat == hex_val(cs@.subrange(a as int, b as int)),
            None => hex_val(cs@.subrange(a as int, b as int)) > u64::MAX,
        },
{
    let mut acc: u64 = 0;
    let mut i = a;
    while i < b
        invariant
            a <= i <= b <= cs@.len(),
            forall|k: int| a <= k < b ==> is_hex(cs@[k]),
            acc as nat == hex_val(cs@.subrange(a as int, i as int)),
        decreases b - i,
    {
        let c = cs[i];
        let d: u64 = if is_dec_x(c) {
            (c as u32 - '0' as u32) as u64
        } else {
            (c as u32 - 'a' as u32 + 10) as u64
        };
        let m = match acc.checked_mul(16) {
            Some(m) => m,
            None => {
                proof {
                    assert(cs@.subrange(a as int, i as int + 1).drop_last() =~= cs@.subrange(
                        a as int,
                        i as int,
                    ));
                    lemma_hex_val_mono(cs@, a as int, i as int + 1, b as int);
                }
                return None;
            },
        };
        let n = match m.checked_add(d) {
            Some(n) => n,
            None => {
                proof {
                    assert(cs@.subrange(a as int, i as int + 1).drop_last() =~= cs@.subrange(
                        a as int,
                        i as int,
                    ));
                    lemma_hex_val_mono(cs@, a as int, i as int + 1, b as int);
                }
                return None;
            },
        };
        proof {
            assert(cs@.subrange(a as int, i as int + 1).drop_last() =~= cs@.subrange(
                a as int,
                i as int,
            ));
        }
        acc = n;
        i += 1;
    }
    proof {
        assert(cs@.subrange(a as int, b as int) =~= cs@.subrange(a as int, i as int));
    }
    Some(acc)
}

/// Parse the decimal digits `cs[a..b)`; `None` when the value does not
/// fit in a `u64`.
pub fn parse_dec_u64(cs: &Vec<char>, a: usize, b: usize) -> (r: Option<u64>)
    requires
        a <= b,
        b <= cs@.len(),
        forall|k: int| a <= k < b ==> is_dec(cs@[k]),
    ensures
        match r {
            Some(v) => v as nat == dec_val(cs@.subrange(a as int, b as int)),
            None => dec_val(cs@.subrange(a as int, b as int)) > u64::MAX,
        },
{
    let mut acc: u64 = 0;
    let mut i = a;
    while i < b
        invariant
            a <= i <= b <= cs@.len(),
            forall|k: int| a <= k < b ==> is_dec(cs@[k]),
            acc as nat == dec_val(cs@.subrange(a as int, i as int)),
        decreases b - i,
    {
        let c = cs[i];
        let d: u64 = (c as u32 - '0' as u32) as u64;
        let m = match acc.checked_mul(10) {
            Some(m) => m,
            None => {
                proof {
                    assert(cs@.subrange(a as int, i as int + 1).drop_last() =~= cs@.subrange(
                        a as int,
                        i as int,
                    ));
                    lemma_dec_val_mono(cs@, a as int, i as int + 1, b as int);
                }
                return None;
            },
        };
        let n = match m.checked_add(d) {
            Some(n) => n,
            None => {
                proof {
                    assert(cs@.subrange(a as int, i as int + 1).drop_last() =~= cs@.subrange(
                        a as int,
                        i as int,
                    ));
                    lemma_dec_val_mono(cs@, a as int, i as int + 1, b as int);
                }
                return None;
            },
        };
        proof {
            assert(cs@.subrange(a as int, i as int + 1).drop_last() =~= cs@.subrange(
                a as int,
                i as int,
            ));
        }
        acc = n;
        i += 1;
    }
    proof {
        assert(cs@.subrange(a as int, b as int) =~= cs@.subrange(a as int, i as int));
    }
    Some(acc)
}

/// Any-case counterpart of [`lemma_hex_val_mono`].
pub proof fn lemma_hext_val_mono(s: Seq<char>, a: int, i: int, j: int)
    requires
        0 <= a <= i <= j <= s.len(),
    ensures
        hext_val(s.subrange(a, i)) <= hext_val(s.subrange(a, j)),
    decreases j - i,
{
    if i < j {
        lemma_hext_val_mono(s, a, i, j - 1);
        assert(s.subrange(a, j).drop_last() =~= s.subrange(a, j - 1));
        assert(hext_val(s.subrange(a, j)) == hext_val(s.subrange(a, j - 1)) * 16 + hext_v(
            s.subrange(a, j).last(),
        ));
    }
}

/// Parse the any-case hexadecimal digits `cs[a..b)`; `None` when the
/// value does not fit in a `u64`.
pub fn parse_hext_u64(cs: &Vec<char>, a: usize, b: usize) -> (r: Option<u64>)
    requires
        a <= b,
        b <= cs@.len(),
        forall|k: int| a <= k < b ==> is_hext(cs@[k]),
    ensures
        match r {
            Some(v) => v as nat == hext_val(cs@.subrange(a as int, b as int)),
            None => hext_val(cs@.subrange(a as int, b as int)) > u64::MAX,
        },
{
    let mut acc: u64 = 0;
    let mut i = a;
    while i < b
        invariant
            a <= i <= b <= cs@.len(),
            forall|k: int| a <= k < b ==> is_hext(cs@[k]),
            acc as nat == hext_val(cs@.subrange(a as int, i as int)),
        decreases b - i,
    {
        let c = cs[i];
        let d: u64 = if is_dec_x(c) {
            (c as u32 - '0' as u32) as u64
        } else if is_hex_x(c) {
            (c as u32 - 'a' as u32 + 10) as u64
        } else {
            (c as u32 - 'A' as u32 + 10) as u64
        };
        let m = match acc.checked_mul(16) {
            Some(m) => m,
            None => {
                proof {
                    assert(cs@.subrange(a as int, i as int + 1).drop_last() =~= cs@.subrange(
                        a as int,
                        i as int,
                    ));
                    lemma_hext_val_mono(cs@, a as int, i as int + 1, b as int);
                }
                return None;
            },
        };
        let n = match m.checked_add(d) {
            Some(n) => n,
            None => {
                proof {
                    assert(cs@.subrange(a as int, i as int + 1).drop_last() =~= cs@.subrange(
                        a as int,
                        i as int,
                    ));
                    lemma_hext_val_mono(cs@, a as int, i as int + 1, b as int);
                }
                return None;
            },
        };
        proof {
            assert(cs@.subrange(a as int, i as int + 1).drop_last() =~= cs@.subrange(
                a as int,
                i as int,
            ));
        }
        acc = n;
        i += 1;
    }
    proof {
        assert(cs@.subrange(a as int, b as int) =~= cs@.subrange(a as int, i as int));
    }
    Some(acc)
}

// ---------------------------------------------------------------------
// Decimal formatting
// ---------------------------------------------------------------------

/// The character that prints the digit `d`.
pub open spec fn digit_char(d: nat) -> char
    recommends
        d < 10,
{
    if d == 0 {
        '0'
    } else if d == 1 {
        '1'
    } else if d == 2 {
        '2'
    } else if d == 3 {
        '3'
    } else if d == 4 {
        '4'
    } else if d == 5 {
        '5'
    } else if d == 6 {
        '6'
    } else if d == 7 {
        '7'
    } else if d == 8 {
        '8'
    } else {
        '9'
    }
}

/// The shortest decimal numeral of `n`.
pub open spec fn dec_str(n: nat) -> Seq<char>
    decreases n,
{
    if n < 10 {
        seq![digit_char(n)]
    } else {
        dec_str(n / 10).push(digit_char(n % 10))
    }
}

fn digit_str(d: u64) -> (r: &'static str)
    requires
        d < 10,
    ensures
        r@ =~= seq![digit_char(d as nat)],
{
    proof {
        reveal_strlit("0");
        reveal_strlit("1");
        reveal_strlit("2");
        reveal_strlit("3");
        reveal_strlit("4");
        reveal_strlit("5");
        reveal_strlit("6");
        reveal_strlit("7");
        reveal_strlit("8");
        reveal_strlit("9");
    }
    match d {
        0 => "0",
        1 => "1",
        2 => "2",
        3 => "3",
        4 => "4",
        5 => "5",
        6 => "6",
        7 => "7",
        8 => "8",
        _ => "9",
    }
}

/// The character that prints the hexadecimal digit `d`, lower case.
pub open spec fn hex_digit_char(d: nat) -> char
    recommends
        d < 16,
{
    if d < 10 {
        digit_char(d)
    } else if d == 10 {
        'a'
    } else if d == 11 {
        'b'
    } else if d == 12 {
        'c'
    } else if d == 13 {
        'd'
    } else if d == 14 {
        'e'
    } else {
        'f'
    }
}

/// The shortest lower-case hexadecimal numeral of `n`.
pub open spec fn hex_str(n: nat) -> Seq<char>
    decreases n,
{
    if n < 16 {
        seq![hex_digit_char(n)]
    } else {
        hex_str(n / 16).push(hex_digit_char(n % 16))
    }
}

/// A decimal numeral is a non-empty run of decimal digits, and reading
/// it back gives the number it was printed from.
pub proof fn lemma_dec_str_digits(n: nat)
    ensures
        dec_str(n).len() >= 1,
        forall|k: int| 0 <= k < dec_str(n).len() ==> is_dec(#[trigger] dec_str(n)[k]),
        dec_val(dec_str(n)) == n,
    decreases n,
{
    if n < 10 {
        assert(dec_val(dec_str(n)) == dec_val(dec_str(n).drop_last()) * 10 + dec_v(
            dec_str(n).last(),
        ));
        assert(dec_str(n).drop_last() =~= Seq::<char>::empty());
    } else {
        lemma_dec_str_digits(n / 10);
        assert(dec_str(n).drop_last() =~= dec_str(n / 10));
        assert(dec_v(digit_char(n % 10)) == n % 10);
    }
}

/// A hexadecimal numeral is a non-empty run of its digits, and reading
/// it back gives the number it was printed from.
pub proof fn lemma_hex_str_digits(n: nat)
    ensures
        hex_str(n).len() >= 1,
        forall|k: int| 0 <= k < hex_str(n).len() ==> is_hex(#[trigger] hex_str(n)[k]),
        hex_val(hex_str(n)) == n,
    decreases n,
{
    if n < 16 {
        assert(hex_val(hex_str(n)) == hex_val(hex_str(n).drop_last()) * 16 + hex_v(
            hex_str(n).last(),
        ));
        assert(hex_str(n).drop_last() =~= Seq::<char>::empty());
    } else {
        lemma_hex_str_digits(n / 16);
        assert(hex_str(n).drop_last() =~= hex_str(n / 16));
        assert(hex_v(hex_digit_char(n % 16)) == n % 16);
    }
}

/// A scan over a run of its own class, ended by the run's end.
pub proof fn lemma_dec_end_run(s: Seq<char>, i: int, j: int)
    requires
        0 <= i <= j <= s.len(),
        forall|k: int| i <= k < j ==> is_dec(#[trigger] s[k]),
        j == s.len() || !is_dec(s[j]),
    ensures
        dec_end(s, i) == j,
    decreases j - i,
{
    if i < j {
        lemma_dec_end_run(s, i + 1, j);
    }
}

/// Bare-name counterpart of [`lemma_dec_end_run`].
pub proof fn lemma_name_end_run(s: Seq<char>, i: int, j: int)
    requires
        0 <= i <= j <= s.len(),
        forall|k: int| i <= k < j ==> #[trigger] s[k] != ' ' && s[k] != '(' && s[k] != ')',
        j == s.len() || is_sp(s[j]) || s[j] == '(' || s[j] == ')',
    ensures
        name_end(s, i) == j,
    decreases j - i,
{
    if i < j {
        lemma_name_end_run(s, i + 1, j);
    }
}

/// Parenthesis counterpart of [`lemma_dec_end_run`].
pub proof fn lemma_paren_end_run(s: Seq<char>, i: int, j: int)
    requires
        0 <= i <= j <= s.len(),
        forall|k: int| i <= k < j ==> #[trigger] s[k] != '(' && s[k] != ')',
        j == s.len() || s[j] == '(' || s[j] == ')',
    ensures
        paren_end(s, i) == j,
    decreases j - i,
{
    if i < j {
        lemma_paren_end_run(s, i + 1, j);
    }
}

/// Hexadecimal counterpart of [`lemma_dec_end_run`].
pub proof fn lemma_hex_end_run(s: Seq<char>, i: int, j: int)
    requires
        0 <= i <= j <= s.len(),
        forall|k: int| i <= k < j ==> is_hex(#[trigger] s[k]),
        j == s.len() || !is_hex(s[j]),
    ensures
        hex_end(s, i) == j,
    decreases j - i,
{
    if i < j {
        lemma_hex_end_run(s, i + 1, j);
    }
}

/// Print `n` in decimal.
pub fn fmt_u64(n: u64) -> (r: String)
    ensures
        r@ == dec_str(n as nat),
    decreases n,
{
    if n < 10 {
        digit_str(n).to_owned()
    } else {
        let q = fmt_u64(n / 10);
        q.concat(digit_str(n % 10))
    }
}

// ---------------------------------------------------------------------
// Characters of a string
// ---------------------------------------------------------------------

/// The characters of `s`, one vector entry per character.
pub fn to_chars(s: &str) -> (r: Vec<char>)
    ensures
        r@ == s@,
{
    let n = s.unicode_len();
    let mut v: Vec<char> = Vec::new();
    let mut i: usize = 0;
    while i < n
        invariant
            i <= n == s@.len(),
            v@ =~= s@.subrange(0, i as int),
        decreases n - i,
    {
        v.push(s.get_char(i));
        i += 1;
    }
    proof {
        assert(v@ =~= s@);
    }
    v
}

// ---------------------------------------------------------------------
// Substring search
// ---------------------------------------------------------------------

/// `pat` occurs in `s` at position `i`.
pub open spec fn has_sub_at(s: Seq<char>, pat: Seq<char>, i: int) -> bool {
    lit_at(s, i, pat)
}

/// `pat` occurs somewhere in `s`.
pub open spec fn contains_sub(s: Seq<char>, pat: Seq<char>) -> bool {
    exists|i: int| has_sub_at(s, pat, i)
}

/// Executable [`contains_sub`].
pub fn contains_sub_x(cs: &Vec<char>, pat: &Vec<char>) -> (r: bool)
    ensures
        r == contains_sub(cs@, pat@),
{
    if pat.len() > cs.len() {
        proof {
            assert(forall|i: int| !has_sub_at(cs@, pat@, i));
        }
        return false;
    }
    let mut i: usize = 0;
    while i <= cs.len() - pat.len()
        invariant
            pat@.len() <= cs@.len(),
            i <= cs@.len() - pat@.len() + 1,
            forall|m: int| 0 <= m < i ==> !has_sub_at(cs@, pat@, m),
        decreases cs@.len() - pat@.len() + 1 - i,
    {
        if lit_at_x(cs, i, pat) {
            proof {
                assert(has_sub_at(cs@, pat@, i as int));
            }
            return true;
        }
        i += 1;
    }
    proof {
        assert(forall|m: int| !has_sub_at(cs@, pat@, m));
    }
    false
}

// ---------------------------------------------------------------------
// Lines
// ---------------------------------------------------------------------

/// First index at or after `i` holding a newline, or the end.
pub open spec fn find_nl(s: Seq<char>, i: int) -> int
    decreases s.len() - i,
{
    if i < 0 || i >= s.len() {
        s.len() as int
    } else if s[i] == '\n' {
        i
    } else {
        find_nl(s, i + 1)
    }
}

/// The pieces of `s` between newline characters, in order. A text with
/// no newline yields one piece, possibly empty.
pub open spec fn split_lines(s: Seq<char>) -> Seq<Seq<char>>
    decreases s.len(),
{
    let k = find_nl(s, 0);
    if 0 <= k < s.len() {
        seq![s.subrange(0, k)] + split_lines(s.subrange(k + 1, s.len() as int))
    } else {
        seq![s]
    }
}

/// The newline scan stays in bounds and is stable under a later start.
pub proof fn lemma_find_nl_bounds(s: Seq<char>, i: int)
    requires
        0 <= i <= s.len(),
    ensures
        i <= find_nl(s, i) <= s.len(),
        find_nl(s, i) < s.len() ==> s[find_nl(s, i)] == '\n',
        forall|k: int| i <= k < find_nl(s, i) ==> s[k] != '\n',
    decreases s.len() - i,
{
    if i < s.len() && s[i] != '\n' {
        lemma_find_nl_bounds(s, i + 1);
    }
}

/// Scanning a suffix for a newline matches scanning the whole text.
pub proof fn lemma_find_nl_offset(s: Seq<char>, a: int, i: int)
    requires
        0 <= a <= i <= s.len(),
    ensures
        find_nl(s.subrange(a, s.len() as int), i - a) == find_nl(s, i) - a,
    decreases s.len() - i,
{
    if i < s.len() && s[i] != '\n' {
        lemma_find_nl_offset(s, a, i + 1);
    }
}

/// Executable [`split_lines`], as fresh strings.
pub fn split_lines_x(s: &str, cs: &Vec<char>) -> (r: Vec<String>)
    requires
        cs@ == s@,
    ensures
        r.deep_view() == split_lines(s@),
{
    let n = cs.len();
    let mut r: Vec<String> = Vec::new();
    let mut start: usize = 0;
    proof {
        assert(cs@.subrange(0, n as int) =~= cs@);
        assert(r.deep_view() =~= Seq::<Seq<char>>::empty());
    }
    loop
        invariant
            start <= n == cs@.len(),
            cs@ == s@,
            split_lines(cs@) =~= r.deep_view() + split_lines(
                cs@.subrange(start as int, n as int),
            ),
        decreases n - start,
    {
        let mut k = start;
        while k < n && cs[k] != '\n'
            invariant
                start <= k <= n == cs@.len(),
                find_nl(cs@, start as int) == find_nl(cs@, k as int),
            decreases n - k,
        {
            k += 1;
        }
        let piece = s.substring_char(start, k).to_owned();
        let ghost old_dv = r.deep_view();
        r.push(piece);
        proof {
            assert(r.deep_view() =~= old_dv.push(piece@));
            lemma_find_nl_offset(cs@, start as int, start as int);
            let tail = cs@.subrange(start as int, n as int);
            assert(find_nl(tail, 0) == k - start);
            assert(tail.subrange(0, k - start) =~= cs@.subrange(start as int, k as int));
            if k < n {
                assert(tail.subrange(k - start + 1, tail.len() as int) =~= cs@.subrange(
                    k as int + 1,
                    n as int,
                ));
                assert(split_lines(tail) == seq![piece@] + split_lines(
                    cs@.subrange(k as int + 1, n as int),
                ));
                assert(split_lines(cs@) =~= r.deep_view() + split_lines(
                    cs@.subrange(k as int + 1, n as int),
                ));
            } else {
                assert(piece@ =~= tail);
                assert(split_lines(tail) == seq![tail]);
                assert(split_lines(cs@) =~= r.deep_view());
            }
        }
        if k == n {
            return r;
        }
        start = k + 1;
    }
}

/// The lines rejoined with one newline between each pair.
pub open spec fn join_lines(ls: Seq<Seq<char>>) -> Seq<char>
    decreases ls.len(),
{
    if ls.len() == 0 {
        Seq::empty()
    } else if ls.len() == 1 {
        ls[0]
    } else {
        ls[0] + seq!['\n'] + join_lines(ls.drop_first())
    }
}

/// Appending one more line to a join.
pub proof fn lemma_join_push(ls: Seq<Seq<char>>, x: Seq<char>)
    ensures
        join_lines(ls.push(x)) == if ls.len() == 0 {
            x
        } else {
            join_lines(ls) + seq!['\n'] + x
        },
    decreases ls.len(),
{
    if ls.len() == 0 {
        assert(ls.push(x)[0] =~= x);
        assert(join_lines(ls.push(x)) == x);
    } else {
        lemma_join_push(ls.drop_first(), x);
        assert(ls.push(x).drop_first() =~= ls.drop_first().push(x));
        if ls.len() == 1 {
            assert(join_lines(ls.push(x)) == ls[0] + seq!['\n'] + x);
            assert(join_lines(ls) == ls[0]);
        } else {
            assert(join_lines(ls.push(x)) == ls[0] + seq!['\n'] + join_lines(
                ls.drop_first().push(x),
            ));
            assert(ls[0] + seq!['\n'] + (join_lines(ls.drop_first()) + seq!['\n'] + x) =~= (ls[0]
                + seq!['\n'] + join_lines(ls.drop_first())) + seq!['\n'] + x);
        }
    }
}

/// Join `lines[a..b)` with newlines into one fresh string.
pub fn join_lines_x(lines: &Vec<String>, a: usize, b: usize) -> (r: String)
    requires
        a <= b,
        b <= lines@.len(),
    ensures
        r@ == join_lines(lines.deep_view().subrange(a as int, b as int)),
{
    let mut r = String::new();
    let mut i = a;
    while i < b
        invariant
            a <= i <= b <= lines@.len(),
            r@ == join_lines(lines.deep_view().subrange(a as int, i as int)),
        decreases b - i,
    {
        if i > a {
            r.append("\n");
            proof {
                reveal_strlit("\n");
            }
        }
        r.append(lines[i].as_str());
        proof {
            let pre = lines.deep_view().subrange(a as int, i as int);
            lemma_join_push(pre, lines.deep_view()[i as int]);
            assert(pre.push(lines.deep_view()[i as int]) =~= lines.deep_view().subrange(
                a as int,
                i as int + 1,
            ));
            if i > a {
                assert(r@ =~= join_lines(pre) + seq!['\n'] + lines.deep_view()[i as int]);
            }
        }
        i += 1;
    }
    r
}

} // verus!
