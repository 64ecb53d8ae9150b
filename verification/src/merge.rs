//! The whole pipeline on in-memory data: extract every file's cues, pool
//! them while dropping exact duplicates, sort the pool, and render it.

use crate::cue::{cues_view, lines_view, Cue, CueModel};
use crate::order::{dedup_spec, insert_cue, sort_cues, sort_spec};
use crate::parse::{extract_cues, malformed_line, parse_vtt, ParseError};
use crate::render::{render_seq, render_srt};
use vstd::prelude::*;

verus! {

/// The view of a list of files, each a list of byte lines.
pub open spec fn files_view(fs: Seq<Vec<Vec<u8>>>) -> Seq<Seq<Seq<u8>>> {
    fs.map_values(|f: Vec<Vec<u8>>| lines_view(f@))
}

/// The concatenation of every file's extracted cues, in file order, or
/// `None` if any file holds a malformed timing line.
pub open spec fn extract_all(files: Seq<Seq<Seq<u8>>>) -> Option<Seq<CueModel>>
    decreases files.len(),
{
    if files.len() == 0 {
        Some(Seq::empty())
    } else {
        match extract_all(files.drop_last()) {
            Some(a) => match extract_cues(files.last()) {
                Some(b) => Some(a + b),
                None => None,
            },
            None => None,
        }
    }
}

/// The full output: the pooled cues of every file, deduplicated, sorted and
/// rendered, or `None` if any file holds a malformed timing line.
pub open spec fn srt_output(files: Seq<Seq<Seq<u8>>>) -> Option<Seq<u8>> {
    match extract_all(files) {
        Some(cs) => Some(render_seq(sort_spec(dedup_spec(cs)), 1)),
        None => None,
    }
}

/// A malformed timing line in one of the input files; `file` and `line`
/// name the first offending position.
#[derive(Clone, Copy, Debug, PartialEq, Eq, Structural)]
pub enum MergeError {
    MalformedTimingLine { file: usize, line: usize },
}

proof fn lemma_extract_all_none(files: Seq<Seq<Seq<u8>>>, f: int)
    requires
        0 <= f < files.len(),
        extract_cues(files[f]) is None,
    ensures
        extract_all(files) is None,
    decreases files.len(),
{
    if f < files.len() - 1 {
        assert(files.drop_last()[f] == files[f]);
        lemma_extract_all_none(files.drop_last(), f);
    }
}

/// Runs the whole pipeline: extracts every file's cues, pools them while
/// dropping exact duplicates, sorts the pool in the lexicographic cue
/// order, and renders it as SubRip text.  Fails precisely when some file
/// holds a malformed timing line, naming the first such file and line.
pub fn merge_vtt_files(files: &Vec<Vec<Vec<u8>>>) -> (r: Result<Vec<u8>, MergeError>)
    ensures
        match r {
            Ok(out) => srt_output(files_view(files@)) == Some(out@),
            Err(e) => {
                &&& srt_output(files_view(files@)) is None
                &&& e matches MergeError::MalformedTimingLine { file, line }
                &&& file < files@.len()
                &&& line < files_view(files@)[file as int].len()
                &&& malformed_line(files_view(files@)[file as int][line as int])
                &&& forall|f2: int, l2: int|
                    0 <= f2 < file && 0 <= l2 < files_view(files@)[f2].len() ==> !malformed_line(
                        files_view(files@)[f2][l2],
                    )
                &&& forall|l2: int|
                    0 <= l2 < line ==> !malformed_line(files_view(files@)[file as int][l2])
            },
        },
{
    let ghost fv = files_view(files@);
    let mut all: Vec<Cue> = Vec::new();
    let ghost mut gacc: Seq<CueModel> = Seq::empty();
    let mut f: usize = 0;
    proof {
        assert(extract_all(fv.take(0)) == Some(gacc));
        assert(cues_view(all@) =~= dedup_spec(gacc));
    }
    while f < files.len()
        invariant
            f <= files@.len(),
            fv == files_view(files@),
            fv.len() == files@.len(),
            extract_all(fv.take(f as int)) == Some(gacc),
            cues_view(all@) == dedup_spec(gacc),
            forall|f2: int, l2: int|
                0 <= f2 < f && 0 <= l2 < fv[f2].len() ==> !malformed_line(fv[f2][l2]),
        decreases files@.len() - f,
    {
        proof {
            assert(fv[f as int] == lines_view(files@[f as int]@));
        }
        match parse_vtt(&files[f]) {
            Err(e) => {
                proof {
                    lemma_extract_all_none(fv, f as int);
                }
                let line = match e {
                    ParseError::MalformedTimingLine { line } => line,
                };
                return Err(MergeError::MalformedTimingLine { file: f, line });
            },
            Ok(pc) => {
                let ghost pcm = cues_view(pc@);
                let mut rest = pc;
                let ghost mut done: int = 0;
                proof {
                    assert(gacc + pcm.take(0) =~= gacc);
                }
                while rest.len() > 0
                    invariant
                        0 <= done <= pcm.len(),
                        pcm.len() - done == rest@.len(),
                        cues_view(rest@) == pcm.skip(done),
                        cues_view(all@) == dedup_spec(gacc + pcm.take(done)),
                    decreases rest@.len(),
                {
                    let ghost vec_before = rest@;
                    let ghost rest_before = cues_view(rest@);
                    let c = rest.remove(0);
                    proof {
                        assert(c@ == rest_before[0]);
                        assert(c@ == pcm[done]);
                        assert(rest@ =~= vec_before.subrange(1, vec_before.len() as int));
                        assert forall|j: int| 0 <= j < rest@.len() implies cues_view(rest@)[j]
                            == pcm.skip(done + 1)[j] by {
                            assert(rest@[j] == vec_before[j + 1]);
                            assert(cues_view(vec_before)[j + 1] == rest_before[j + 1]);
                        }
                        assert(cues_view(rest@) =~= pcm.skip(done + 1));
                    }
                    insert_cue(&mut all, c);
                    proof {
                        let s = gacc + pcm.take(done);
                        assert((gacc + pcm.take(done + 1)).drop_last() =~= s);
                        assert((gacc + pcm.take(done + 1)).last() == pcm[done]);
                        done = done + 1;
                    }
                }
                proof {
                    assert(pcm.take(pcm.len() as int) =~= pcm);
                    assert(fv.take(f as int + 1).drop_last() =~= fv.take(f as int));
                    assert(fv.take(f as int + 1).last() == fv[f as int]);
                    gacc = gacc + pcm;
                }
            },
        }
        f = f + 1;
    }
    let sorted = sort_cues(all);
    let out = render_srt(&sorted);
    proof {
        assert(fv.take(files@.len() as int) =~= fv);
    }
    Ok(out)
}

/// Law: with no input files there are no cues, and the rendered output is
/// empty.
pub proof fn lemma_empty_output()
    ensures
        srt_output(Seq::<Seq<Seq<u8>>>::empty()) == Some(Seq::<u8>::empty()),
{
    assert(extract_all(Seq::<Seq<Seq<u8>>>::empty()) == Some(Seq::<CueModel>::empty()));
    assert(dedup_spec(Seq::<CueModel>::empty()) == Seq::<CueModel>::empty());
    assert(sort_spec(Seq::<CueModel>::empty()) == Seq::<CueModel>::empty());
    assert(render_seq(Seq::<CueModel>::empty(), 1) == Seq::<u8>::empty());
}

/// The `.vtt` suffix.
pub open spec fn vtt_suffix() -> Seq<u8> {
    seq![46u8, 118u8, 116u8, 116u8]
}

/// A file name the merger treats as a subtitle input: it ends in `.vtt` and
/// has a non-empty stem before the dot, so a bare `.vtt` (a hidden file
/// without an extension) does not count.
pub open spec fn spec_is_vtt_name(n: Seq<u8>) -> bool {
    n.len() >= 5 && n.subrange(n.len() - 4, n.len() as int) == vtt_suffix()
}

/// Decides whether a file name has the `.vtt` extension.
pub fn is_vtt_filename(name: &Vec<u8>) -> (r: bool)
    ensures
        r == spec_is_vtt_name(name@),
{
    let n = name.len();
    if n < 5 {
        return false;
    }
    let r = name[n - 4] == 46 && name[n - 3] == 118 && name[n - 2] == 116 && name[n - 1] == 116;
    proof {
        let tail = name@.subrange(n as int - 4, n as int);
        if r {
            assert(tail =~= vtt_suffix());
        } else if tail == vtt_suffix() {
            assert(tail[0] == 46);
            assert(tail[1] == 118);
            assert(tail[2] == 116);
            assert(tail[3] == 116);
        }
    }
    r
}

} // verus!
