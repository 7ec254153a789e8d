//! A whole stack trace: splitting trace text into frames and resolving
//! frame addresses against a memory-map table.

use vstd::prelude::*;

use crate::error::Error;
use crate::frame::{frame_fits, parse_frame, DebugInfo, FrameV, StacktraceEntry};
use crate::maps::{find_from, lemma_find_from_at, mf_view, FileV, MappedFiles, MappedFilesExt};
use crate::text::{split_lines, split_lines_x, to_chars, extract_trimmed};
use crate::maps::tlines;

verus! {

/// Frames in call-stack order, the innermost frame first.
pub type Stacktrace = Vec<StacktraceEntry>;

/// The views of a run of frames, in order.
pub open spec fn st_view(v: Seq<StacktraceEntry>) -> Seq<FrameV> {
    Seq::new(v.len(), |i: int| v[i]@)
}

/// What stops a trace parse: a line no grammar matched, or one whose
/// numbers do not fit.
#[verifier::ext_equal]
pub enum TraceLineErr {
    Unmatched(Seq<char>),
    TooBig(Seq<char>),
}

/// Read all trimmed lines in order, passing over empty ones; the first
/// faulty line wins and no partial trace is kept.
pub open spec fn parse_trace_lines(ls: Seq<Seq<char>>) -> Result<Seq<FrameV>, TraceLineErr>
    decreases ls.len(),
{
    if ls.len() == 0 {
        Ok(Seq::empty())
    } else if ls[0].len() == 0 {
        parse_trace_lines(ls.drop_first())
    } else {
        match parse_frame(ls[0]) {
            None => Err(TraceLineErr::Unmatched(ls[0])),
            Some(f) => if !frame_fits(f) {
                Err(TraceLineErr::TooBig(ls[0]))
            } else {
                match parse_trace_lines(ls.drop_first()) {
                    Ok(rest) => Ok(seq![f] + rest),
                    Err(e) => Err(e),
                }
            },
        }
    }
}

/// Full contract of building a trace from multi-line text.
pub open spec fn trace_from_gdb_ens(s: Seq<char>, r: Result<Stacktrace, Error>) -> bool {
    match parse_trace_lines(tlines(s)) {
        Ok(fs) => match r {
            Ok(v) => st_view(v@) == fs,
            _ => false,
        },
        Err(TraceLineErr::Unmatched(l)) => match r {
            Err(Error::StacktraceParse(m)) => m@ == l,
            _ => false,
        },
        Err(TraceLineErr::TooBig(l)) => match r {
            Err(Error::NumberParse(m)) => m@ == l,
            _ => false,
        },
    }
}

/// One frame after address resolution against regions `rs`: when a
/// region holds the frame's address and the new offset fits, the
/// frame's module and offset are overwritten; otherwise the frame is
/// left as it was.
pub open spec fn resolve_one(f: FrameV, rs: Seq<FileV>) -> FrameV {
    let j = find_from(rs, f.address, 0);
    if j < rs.len() && f.address - rs[j].start + rs[j].offset <= u64::MAX {
        FrameV {
            module: rs[j].name,
            offset: (f.address - rs[j].start + rs[j].offset) as nat,
            ..f
        }
    } else {
        f
    }
}

/// Operations of a stack trace.
pub trait StacktraceExt: Sized {
    /// The views of the trace's frames, in order.
    spec fn frames(&self) -> Seq<FrameV>;

    /// Build a trace from multi-line trace text.
    fn from_gdb(trace: &str) -> (r: Result<Stacktrace, Error>)
        ensures
            trace_from_gdb_ens(trace@, r),
    ;

    /// Overwrite each frame's module and offset from the region that
    /// holds its address; frames no region holds stay unchanged.
    fn compute_module_offsets(&mut self, mappings: &MappedFiles)
        ensures
            final(self).frames().len() == old(self).frames().len(),
            forall|i: int| 0 <= i < old(self).frames().len() ==> final(self).frames()[i]
                == resolve_one(#[trigger] old(self).frames()[i], mf_view(mappings@)),
    ;
}

impl StacktraceExt for Stacktrace {
    open spec fn frames(&self) -> Seq<FrameV> {
        st_view(self@)
    }

    fn from_gdb(trace: &str) -> (r: Result<Stacktrace, Error>) {
        let tcs = to_chars(trace);
        let lines = split_lines_x(trace, &tcs);
        let ghost tls = tlines(trace@);
        let n = lines.len();
        let mut out: Vec<StacktraceEntry> = Vec::new();
        let mut i: usize = 0;
        proof {
            assert(tls =~= tls.skip(0));
            assert(st_view(out@) =~= Seq::<FrameV>::empty());
        }
        loop
            invariant
                i <= n == lines@.len(),
                lines.deep_view() == split_lines(trace@),
                tls == tlines(trace@),
                parse_trace_lines(tls) is Ok <==> parse_trace_lines(tls.skip(i as int)) is Ok,
                parse_trace_lines(tls) is Ok ==> parse_trace_lines(tls)->Ok_0 =~= st_view(out@)
                    + parse_trace_lines(tls.skip(i as int))->Ok_0,
                parse_trace_lines(tls) is Err ==> parse_trace_lines(tls)->Err_0
                    == parse_trace_lines(tls.skip(i as int))->Err_0,
            decreases n - i,
        {
            if i == n {
                proof {
                    assert(tls.skip(i as int) =~= Seq::<Seq<char>>::empty());
                    assert(parse_trace_lines(tls)->Ok_0 =~= st_view(out@));
                }
                return Ok(out);
            }
            let ghost rest = tls.skip(i as int);
            proof {
                assert(rest[0] == tls[i as int]);
                assert(rest.drop_first() =~= tls.skip(i as int + 1));
            }
            let lcs = to_chars(lines[i].as_str());
            let tl = extract_trimmed(lines[i].as_str(), &lcs, 0, lcs.len());
            proof {
                assert(lines.deep_view()[i as int] == lines@[i as int]@);
                assert(tl@ == tls[i as int]);
            }
            if !tl.as_str().is_empty() {
                let e = match StacktraceEntry::new(tl.as_str()) {
                    Ok(e) => e,
                    Err(err) => {
                        return Err(err);
                    },
                };
                let ghost old_sv = st_view(out@);
                out.push(e);
                proof {
                    assert(st_view(out@) =~= old_sv.push(e@));
                    if parse_trace_lines(rest.drop_first()) is Ok {
                        assert(parse_trace_lines(rest)->Ok_0 =~= seq![e@] + parse_trace_lines(
                            rest.drop_first(),
                        )->Ok_0);
                        assert(old_sv + parse_trace_lines(rest)->Ok_0 =~= st_view(out@)
                            + parse_trace_lines(tls.skip(i as int + 1))->Ok_0);
                    }
                }
            }
            i += 1;
        }
    }

    fn compute_module_offsets(&mut self, mappings: &MappedFiles) {
        let n = self.len();
        let mut i: usize = 0;
        while i < n
            invariant
                i <= n == self@.len(),
                self@.len() == old(self)@.len(),
                forall|k: int| 0 <= k < i ==> st_view(self@)[k] == resolve_one(
                    #[trigger] st_view(old(self)@)[k],
                    mf_view(mappings@),
                ),
                forall|k: int| i <= k < n ==> self@[k] == old(self)@[k],
            decreases n - i,
        {
            proof {
                assert(st_view(old(self)@)[i as int] == old(self)@[i as int]@);
            }
            let addr = self[i].address;
            match mappings.find(addr) {
                Some(y) => {
                    proof {
                        lemma_find_from_at(mf_view(mappings@), addr as nat, 0);
                    }
                    match (addr - y.start).checked_add(y.offset) {
                        Some(newoff) => {
                            let e = StacktraceEntry {
                                address: self[i].address,
                                function: self[i].function.clone(),
                                module: y.name,
                                offset: newoff,
                                debug: DebugInfo {
                                    file: self[i].debug.file.clone(),
                                    line: self[i].debug.line,
                                    column: self[i].debug.column,
                                },
                            };
                            proof {
                                assert(e.debug.file@ == self@[i as int].debug.file@);
                                assert(e@ =~= resolve_one(
                                    st_view(old(self)@)[i as int],
                                    mf_view(mappings@),
                                ));
                            }
                            self.set(i, e);
                        },
                        None => {
                            proof {
                                assert(self@[i as int]@ =~= resolve_one(
                                    st_view(old(self)@)[i as int],
                                    mf_view(mappings@),
                                ));
                            }
                        },
                    }
                },
                None => {
                    proof {
                        assert(self@[i as int]@ =~= resolve_one(
                            st_view(old(self)@)[i as int],
                            mf_view(mappings@),
                        ));
                    }
                },
            }
            i += 1;
        }
    }
}

} // verus!
