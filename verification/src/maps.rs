//! Process memory-map table: parsing a mapping listing into address
//! ranges and resolving an address to the range that holds it.

use vstd::prelude::*;

use crate::error::Error;
use crate::text::{
    contains_sub, contains_sub_x, extract_trimmed, hext_val, is_hext, is_hext_x, is_sp,
    lemma_scan_bounds, lemma_trim_bounds, parse_hext_u64, sp_run_end, sp_run_end_x, split_lines,
    split_lines_x, to_chars, trimmed,
};

verus! {

/// One mapped segment of a process address space.
#[derive(Clone, Debug, Default)]
pub struct File {
    /// Start address of the segment.
    pub start: u64,
    /// End address of the segment (exclusive).
    pub end: u64,
    /// Offset in the backing file.
    pub offset: u64,
    /// Full path to the backing module, empty for anonymous segments.
    pub name: String,
}

/// Mathematical view of one mapped segment.
#[verifier::ext_equal]
pub struct FileV {
    pub start: nat,
    pub end: nat,
    pub offset: nat,
    pub name: Seq<char>,
}

impl View for File {
    type V = FileV;

    open spec fn view(&self) -> FileV {
        FileV {
            start: self.start as nat,
            end: self.end as nat,
            offset: self.offset as nat,
            name: self.name@,
        }
    }
}

impl File {
    /// A segment built from its four components.
    pub fn new(start: u64, end: u64, offset: u64, fname: &str) -> (r: Self)
        ensures
            r@ == (FileV { start: start as nat, end: end as nat, offset: offset as nat, name: fname@ }),
    {
        File { start, end, offset, name: fname.to_owned() }
    }
}

/// All mapped segments of one process snapshot, in listing order.
pub type MappedFiles = Vec<File>;

/// The views of a run of segments, in order.
pub open spec fn mf_view(v: Seq<File>) -> Seq<FileV> {
    Seq::new(v.len(), |i: int| v[i]@)
}

// ---------------------------------------------------------------------
// The mapping-listing grammar
// ---------------------------------------------------------------------

/// The column-header phrase that opens the data part of a listing.
pub open spec fn header_pat() -> Seq<char> {
    seq!['S', 't', 'a', 'r', 't', ' ', 'A', 'd', 'd', 'r']
}

/// Each line trimmed of surrounding whitespace.
pub open spec fn tlines_of(ls: Seq<Seq<char>>) -> Seq<Seq<char>> {
    Seq::new(ls.len(), |i: int| trimmed(ls[i], 0, ls[i].len() as int))
}

/// The trimmed lines of a listing.
pub open spec fn tlines(s: Seq<char>) -> Seq<Seq<char>> {
    tlines_of(split_lines(s))
}

/// First line index at or after `i` whose line holds the header phrase,
/// or the number of lines when none does.
pub open spec fn header_from(ls: Seq<Seq<char>>, i: int) -> int
    decreases ls.len() - i,
{
    if i < 0 || i >= ls.len() {
        ls.len() as int
    } else if contains_sub(ls[i], header_pat()) {
        i
    } else {
        header_from(ls, i + 1)
    }
}

/// The space-separated tokens of a line from index `i` on, each token
/// trimmed of other surrounding whitespace and dropped when empty.
pub open spec fn tokens_from(l: Seq<char>, i: int) -> Seq<Seq<char>>
    decreases l.len() - i,
    via tokens_from_dec
{
    if i < 0 || i >= l.len() {
        Seq::empty()
    } else if is_sp(l[i]) {
        tokens_from(l, i + 1)
    } else {
        let e = sp_run_end(l, i);
        let t = trimmed(l, i, e);
        (if t.len() > 0 {
            seq![t]
        } else {
            Seq::<Seq<char>>::empty()
        }) + tokens_from(l, e)
    }
}

#[via_fn]
proof fn tokens_from_dec(l: Seq<char>, i: int) {
    if 0 <= i < l.len() && !is_sp(l[i]) {
        lemma_scan_bounds(l, i + 1);
    }
}

/// A token carries a hexadecimal value: a two-character prefix and then
/// at least one hexadecimal digit of either case.
pub open spec fn tok_ok(t: Seq<char>) -> bool {
    t.len() > 2 && forall|k: int| 2 <= k < t.len() ==> is_hext(t[k])
}

/// The value behind a token's two-character prefix.
pub open spec fn tok_val(t: Seq<char>) -> nat {
    hext_val(t.subrange(2, t.len() as int))
}

/// Outcome of reading one trimmed data line.
#[verifier::ext_equal]
pub enum MapLine {
    /// The line is empty and is passed over.
    Skip,
    /// Fewer than four tokens.
    Cols,
    /// A numeric token that is malformed or too large, carried along.
    Tok(Seq<char>),
    /// A well-formed segment entry.
    Entry(FileV),
}

/// Read one trimmed data line: two addresses, the file offset from the
/// fourth column, and the path exactly when there are five tokens.
pub open spec fn map_line(l: Seq<char>) -> MapLine {
    if l.len() == 0 {
        MapLine::Skip
    } else {
        let ts = tokens_from(l, 0);
        if ts.len() < 4 {
            MapLine::Cols
        } else if !(tok_ok(ts[0]) && tok_val(ts[0]) <= u64::MAX) {
            MapLine::Tok(ts[0])
        } else if !(tok_ok(ts[1]) && tok_val(ts[1]) <= u64::MAX) {
            MapLine::Tok(ts[1])
        } else if !(tok_ok(ts[3]) && tok_val(ts[3]) <= u64::MAX) {
            MapLine::Tok(ts[3])
        } else {
            MapLine::Entry(
                FileV {
                    start: tok_val(ts[0]),
                    end: tok_val(ts[1]),
                    offset: tok_val(ts[3]),
                    name: if ts.len() == 5 {
                        ts[4]
                    } else {
                        Seq::empty()
                    },
                },
            )
        }
    }
}

/// What stops a listing parse: a short line or a bad numeric token.
#[verifier::ext_equal]
pub enum LineErr {
    Cols(Seq<char>),
    Tok(Seq<char>),
}

/// Read all trimmed data lines in order; the first faulty line wins.
pub open spec fn parse_entries(ls: Seq<Seq<char>>) -> Result<Seq<FileV>, LineErr>
    decreases ls.len(),
{
    if ls.len() == 0 {
        Ok(Seq::empty())
    } else {
        match map_line(ls[0]) {
            MapLine::Skip => parse_entries(ls.drop_first()),
            MapLine::Cols => Err(LineErr::Cols(ls[0])),
            MapLine::Tok(t) => Err(LineErr::Tok(t)),
            MapLine::Entry(f) => match parse_entries(ls.drop_first()) {
                Ok(rest) => Ok(seq![f] + rest),
                Err(e) => Err(e),
            },
        }
    }
}

/// Full contract of building a table from listing text.
pub open spec fn from_gdb_ens(s: Seq<char>, r: Result<MappedFiles, Error>) -> bool {
    let tls = tlines(s);
    let h = header_from(tls, 0);
    if h == tls.len() {
        match r {
            Err(Error::MappedFilesParse(m)) => m@ == s,
            _ => false,
        }
    } else {
        match parse_entries(tls.skip(h + 1)) {
            Ok(fs) => match r {
                Ok(v) => mf_view(v@) == fs,
                _ => false,
            },
            Err(LineErr::Cols(l)) => match r {
                Err(Error::MappedFilesParse(m)) => m@ == l,
                _ => false,
            },
            Err(LineErr::Tok(t)) => match r {
                Err(Error::NumberParse(m)) => m@ == t,
                _ => false,
            },
        }
    }
}

/// First index at or after `i` of a region whose half-open interval
/// holds `addr`, or the region count when none does.
pub open spec fn find_from(rs: Seq<FileV>, addr: nat, i: int) -> int
    decreases rs.len() - i,
{
    if i < 0 || i >= rs.len() {
        rs.len() as int
    } else if rs[i].start <= addr < rs[i].end {
        i
    } else {
        find_from(rs, addr, i + 1)
    }
}

/// The lookup scan stops at the first containing region and passes
/// over exactly the regions that do not contain the address.
pub proof fn lemma_find_from_at(rs: Seq<FileV>, addr: nat, i: int)
    requires
        0 <= i <= rs.len(),
    ensures
        i <= find_from(rs, addr, i) <= rs.len(),
        find_from(rs, addr, i) < rs.len() ==> rs[find_from(rs, addr, i)].start <= addr < rs[
            find_from(rs, addr, i)
        ].end,
        forall|m: int| i <= m < find_from(rs, addr, i) ==> !(rs[m].start <= addr
            < #[trigger] rs[m].end),
        find_from(rs, addr, i) == rs.len() ==> forall|m: int|
            i <= m < rs.len() ==> !(rs[m].start <= addr < #[trigger] rs[m].end),
    decreases rs.len() - i,
{
    if i < rs.len() && !(rs[i].start <= addr < rs[i].end) {
        lemma_find_from_at(rs, addr, i + 1);
    }
}

/// A lookup hits exactly when some region's half-open interval holds
/// the address: the boundary `start` is inside, the boundary `end` is
/// not.
pub proof fn lemma_find_characterizes(rs: Seq<FileV>, addr: nat)
    ensures
        (find_from(rs, addr, 0) < rs.len()) <==> exists|k: int|
            0 <= k < rs.len() && rs[k].start <= addr < #[trigger] rs[k].end,
{
    lemma_find_from_at(rs, addr, 0);
    let j = find_from(rs, addr, 0);
    if j < rs.len() {
        assert(rs[j].start <= addr < rs[j].end);
    }
}

/// When the regions are pairwise disjoint, a lookup returns precisely
/// the one region that holds the address.
pub proof fn lemma_find_unique(rs: Seq<FileV>, addr: nat, k: int)
    requires
        0 <= k < rs.len(),
        rs[k].start <= addr < rs[k].end,
        forall|i: int, j: int|
            #![trigger rs[i].start, rs[j].start]
            0 <= i < j < rs.len() ==> rs[i].end <= rs[j].start || rs[j].end <= rs[i].start,
    ensures
        find_from(rs, addr, 0) == k,
{
    lemma_find_from_at(rs, addr, 0);
    let j = find_from(rs, addr, 0);
    assert(j < rs.len());
    if j < k {
        assert(rs[j].end <= rs[k].start || rs[k].end <= rs[j].start);
    } else if k < j {
        assert(!(rs[k].start <= addr < rs[k].end));
    }
}

/// Full contract of an address lookup over regions `rs`.
pub open spec fn find_ens(rs: Seq<FileV>, addr: nat, r: Option<File>) -> bool {
    let j = find_from(rs, addr, 0);
    if j < rs.len() {
        match r {
            Some(f) => f@ == rs[j],
            None => false,
        }
    } else {
        r is None
    }
}

/// Operations of a memory-map table.
pub trait MappedFilesExt: Sized {
    /// The views of the table's regions, in table order.
    spec fn regions(&self) -> Seq<FileV>;

    /// Build a table from the text of a mapping listing.
    fn from_gdb(mapping: &str) -> (r: Result<MappedFiles, Error>)
        ensures
            from_gdb_ens(mapping@, r),
    ;

    /// The first region whose half-open interval holds `addr`.
    fn find(&self, addr: u64) -> (r: Option<File>)
        ensures
            find_ens(self.regions(), addr as nat, r),
    ;
}

/// Index of the first line whose trimmed text holds the header phrase.
fn find_header(lines: &Vec<String>) -> (r: Option<usize>)
    ensures
        match r {
            Some(h) => header_from(tlines_of(lines.deep_view()), 0) == h as int && (h as int)
                < lines@.len(),
            None => header_from(tlines_of(lines.deep_view()), 0) == lines@.len(),
        },
{
    let pat = to_chars("Start Addr");
    proof {
        reveal_strlit("Start Addr");
        assert(pat@ =~= header_pat());
    }
    let n = lines.len();
    let ghost tls = tlines_of(lines.deep_view());
    let mut h: usize = 0;
    while h < n
        invariant
            h <= n == lines@.len(),
            pat@ == header_pat(),
            tls == tlines_of(lines.deep_view()),
            header_from(tls, 0) == header_from(tls, h as int),
        decreases n - h,
    {
        let lcs = to_chars(lines[h].as_str());
        let tl = extract_trimmed(lines[h].as_str(), &lcs, 0, lcs.len());
        let tcs = to_chars(tl.as_str());
        proof {
            assert(lines.deep_view()[h as int] == lines@[h as int]@);
            assert(tcs@ == tls[h as int]);
        }
        if contains_sub_x(&tcs, &pat) {
            proof {
                assert(header_from(tls, h as int) == h as int);
            }
            return Some(h);
        }
        h += 1;
    }
    None
}

/// Read one token's value; `None` when it is not a well-formed
/// hexadecimal token with a value that fits.
fn tok_value(t: &String) -> (r: Option<u64>)
    ensures
        match r {
            Some(v) => tok_ok(t@) && v as nat == tok_val(t@),
            None => !(tok_ok(t@) && tok_val(t@) <= u64::MAX),
        },
{
    let cs = to_chars(t.as_str());
    let n = cs.len();
    if n <= 2 {
        return None;
    }
    let mut k: usize = 2;
    while k < n
        invariant
            2 <= k <= n == cs@.len(),
            cs@ == t@,
            forall|m: int| 2 <= m < k ==> is_hext(cs@[m]),
        decreases n - k,
    {
        if !is_hext_x(cs[k]) {
            return None;
        }
        k += 1;
    }
    parse_hext_u64(&cs, 2, n)
}

impl MappedFilesExt for MappedFiles {
    open spec fn regions(&self) -> Seq<FileV> {
        mf_view(self@)
    }

    fn from_gdb(mapping: &str) -> (r: Result<MappedFiles, Error>) {
        let mcs = to_chars(mapping);
        let lines = split_lines_x(mapping, &mcs);
        let ghost tls = tlines(mapping@);
        let n = lines.len();
        let h = match find_header(&lines) {
            Some(h) => h,
            None => {
                return Err(Error::MappedFilesParse(mapping.to_owned()));
            },
        };
        // Read the data lines after the header.
        let ghost full = tls.skip(h as int + 1);
        let mut files: Vec<File> = Vec::new();
        let mut i: usize = h + 1;
        proof {
            assert(full =~= tls.skip(i as int));
            assert(mf_view(files@) =~= Seq::<FileV>::empty());
        }
        loop
            invariant
                h < i <= n == lines@.len(),
                lines.deep_view() == split_lines(mapping@),
                tls == tlines(mapping@),
                mcs@ == mapping@,
                header_from(tls, 0) == h as int,
                full == tls.skip(h as int + 1),
                parse_entries(full) is Ok <==> parse_entries(tls.skip(i as int)) is Ok,
                parse_entries(full) is Ok ==> parse_entries(full)->Ok_0 =~= mf_view(files@)
                    + parse_entries(tls.skip(i as int))->Ok_0,
                parse_entries(full) is Err ==> parse_entries(full)->Err_0 == parse_entries(
                    tls.skip(i as int),
                )->Err_0,
            decreases n - i,
        {
            if i == n {
                proof {
                    assert(tls.skip(i as int) =~= Seq::<Seq<char>>::empty());
                    assert(parse_entries(tls.skip(i as int)) == Ok::<
                        Seq<FileV>,
                        LineErr,
                    >(Seq::empty()));
                    assert(parse_entries(full)->Ok_0 =~= mf_view(files@));
                }
                return Ok(files);
            }
            let ghost rest = tls.skip(i as int);
            proof {
                assert(rest[0] == tls[i as int]);
                assert(rest.drop_first() =~= tls.skip(i as int + 1));
            }
            let lcs = to_chars(lines[i].as_str());
            let tl = extract_trimmed(lines[i].as_str(), &lcs, 0, lcs.len());
            let tcs = to_chars(tl.as_str());
            proof {
                assert(lines.deep_view()[i as int] == lines@[i as int]@);
                assert(tcs@ == tls[i as int]);
            }
            if tcs.len() == 0 {
                proof {
                    assert(map_line(rest[0]) == MapLine::Skip);
                }
                i += 1;
                continue;
            }
            // Tokenize the trimmed line.
            let m = tcs.len();
            let mut toks: Vec<String> = Vec::new();
            let mut j: usize = 0;
            proof {
                assert(toks.deep_view() =~= Seq::<Seq<char>>::empty());
            }
            while j < m
                invariant
                    j <= m == tcs@.len(),
                    tcs@ == tl@,
                    tokens_from(tcs@, 0) =~= toks.deep_view() + tokens_from(tcs@, j as int),
                decreases m - j,
            {
                if tcs[j] == ' ' {
                    j += 1;
                    continue;
                }
                let e = sp_run_end_x(&tcs, j);
                let t = extract_trimmed(tl.as_str(), &tcs, j, e);
                proof {
                    lemma_trim_bounds(tcs@, j as int, e as int);
                }
                if !t.as_str().is_empty() {
                    let ghost old_dv = toks.deep_view();
                    toks.push(t);
                    proof {
                        assert(toks.deep_view() =~= old_dv.push(t@));
                        assert(tokens_from(tcs@, j as int) =~= seq![t@] + tokens_from(
                            tcs@,
                            e as int,
                        ));
                        assert(old_dv.push(t@) =~= old_dv + seq![t@]);
                    }
                } else {
                    proof {
                        assert(tokens_from(tcs@, j as int) =~= tokens_from(tcs@, e as int));
                    }
                }
                proof {
                    lemma_scan_bounds(tcs@, j as int + 1);
                    assert(j < e);
                }
                j = e;
            }
            proof {
                assert(tokens_from(tcs@, j as int) =~= Seq::<Seq<char>>::empty());
                assert(toks.deep_view() =~= tokens_from(tcs@, 0));
            }
            let ghost ts = tokens_from(tcs@, 0);
            if toks.len() < 4 {
                proof {
                    assert(map_line(rest[0]) == MapLine::Cols);
                }
                return Err(Error::MappedFilesParse(tl));
            }
            proof {
                assert(toks.deep_view()[0] == toks@[0]@);
                assert(toks.deep_view()[1] == toks@[1]@);
                assert(toks.deep_view()[3] == toks@[3]@);
            }
            let v0 = match tok_value(&toks[0]) {
                Some(v) => v,
                None => {
                    proof {
                        assert(map_line(rest[0]) == MapLine::Tok(ts[0]));
                    }
                    return Err(Error::NumberParse(toks.remove(0)));
                },
            };
            let v1 = match tok_value(&toks[1]) {
                Some(v) => v,
                None => {
                    proof {
                        assert(map_line(rest[0]) == MapLine::Tok(ts[1]));
                    }
                    return Err(Error::NumberParse(toks.remove(1)));
                },
            };
            let v3 = match tok_value(&toks[3]) {
                Some(v) => v,
                None => {
                    proof {
                        assert(map_line(rest[0]) == MapLine::Tok(ts[3]));
                    }
                    return Err(Error::NumberParse(toks.remove(3)));
                },
            };
            let name: String = if toks.len() == 5 {
                toks[4].as_str().to_owned()
            } else {
                String::new()
            };
            let f = File { start: v0, end: v1, offset: v3, name };
            let ghost fv = f@;
            let ghost old_mf = mf_view(files@);
            files.push(f);
            proof {
                assert(mf_view(files@) =~= old_mf + seq![fv]);
                assert(map_line(rest[0]) == MapLine::Entry(fv));
                if parse_entries(rest.drop_first()) is Ok {
                    assert(parse_entries(rest)->Ok_0 =~= seq![fv] + parse_entries(
                        rest.drop_first(),
                    )->Ok_0);
                    assert(old_mf + parse_entries(rest)->Ok_0 =~= mf_view(files@) + parse_entries(
                        tls.skip(i as int + 1),
                    )->Ok_0);
                }
            }
            i += 1;
        }
    }

    fn find(&self, addr: u64) -> (r: Option<File>) {
        let n = self.len();
        let mut i: usize = 0;
        while i < n
            invariant
                i <= n == self@.len(),
                find_from(self.regions(), addr as nat, 0) == find_from(
                    self.regions(),
                    addr as nat,
                    i as int,
                ),
            decreases n - i,
        {
            let x = &self[i];
            if x.start <= addr && x.end > addr {
                let f = File {
                    start: x.start,
                    end: x.end,
                    offset: x.offset,
                    name: x.name.as_str().to_owned(),
                };
                proof {
                    assert(self.regions()[i as int] == self@[i as int]@);
                    assert(f@ =~= self.regions()[i as int]);
                }
                return Some(f);
            }
            proof {
                assert(self.regions()[i as int] == self@[i as int]@);
            }
            i += 1;
        }
        None
    }
}

} // verus!
