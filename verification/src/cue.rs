//! The cue record and its mathematical model.

use vstd::prelude::*;

verus! {

/// One subtitle cue: a start and an end timecode, and one or more lines of
/// display text in display order.  A cue is never changed after it is built;
/// two cues are the same exactly when start, end and every text line agree.
/// Verified code decides equality with `cue_eq`; the derived `PartialEq`
/// serves callers outside the library.
#[derive(Debug, PartialEq, Eq)]
pub struct Cue {
    pub start: Vec<u8>,
    pub end: Vec<u8>,
    pub text: Vec<Vec<u8>>,
}

/// The mathematical value of a cue: its fields as sequences of bytes.
#[verifier::ext_equal]
pub struct CueModel {
    pub start: Seq<u8>,
    pub end: Seq<u8>,
    pub text: Seq<Seq<u8>>,
}

/// The mathematical value of a list of byte lines.
pub open spec fn lines_view(ls: Seq<Vec<u8>>) -> Seq<Seq<u8>> {
    ls.map_values(|l: Vec<u8>| l@)
}

/// The mathematical value of a list of cues.
pub open spec fn cues_view(cs: Seq<Cue>) -> Seq<CueModel> {
    cs.map_values(|c: Cue| c@)
}

impl View for Cue {
    type V = CueModel;

    open spec fn view(&self) -> CueModel {
        CueModel { start: self.start@, end: self.end@, text: lines_view(self.text@) }
    }
}

/// Compares two byte strings for equality.
pub fn bytes_eq(a: &Vec<u8>, b: &Vec<u8>) -> (r: bool)
    ensures
        r == (a@ == b@),
{
    if a.len() != b.len() {
        return false;
    }
    let mut i: usize = 0;
    while i < a.len()
        invariant
            i <= a.len(),
            a@.len() == b@.len(),
            forall|j: int| 0 <= j < i ==> a@[j] == b@[j],
        decreases a.len() - i,
    {
        if a[i] != b[i] {
            return false;
        }
        i = i + 1;
    }
    assert(a@ =~= b@);
    true
}

/// Compares two lists of byte lines for equality, line by line.
pub fn lines_eq(a: &Vec<Vec<u8>>, b: &Vec<Vec<u8>>) -> (r: bool)
    ensures
        r == (lines_view(a@) == lines_view(b@)),
{
    if a.len() != b.len() {
        assert(lines_view(a@).len() != lines_view(b@).len());
        return false;
    }
    let mut i: usize = 0;
    while i < a.len()
        invariant
            i <= a.len(),
            a@.len() == b@.len(),
            forall|j: int| 0 <= j < i ==> lines_view(a@)[j] == lines_view(b@)[j],
        decreases a.len() - i,
    {
        if !bytes_eq(&a[i], &b[i]) {
            assert(lines_view(a@)[i as int] != lines_view(b@)[i as int]);
            return false;
        }
        i = i + 1;
    }
    assert(lines_view(a@) =~= lines_view(b@));
    true
}

/// Decides whether two cues are equal: same start, same end, and the same
/// text lines in the same order.  This equality is the deduplication key.
pub fn cue_eq(a: &Cue, b: &Cue) -> (r: bool)
    ensures
        r == (a@ == b@),
{
    let r = bytes_eq(&a.start, &b.start) && bytes_eq(&a.end, &b.end) && lines_eq(&a.text, &b.text);
    proof {
        if a@.start == b@.start && a@.end == b@.end && a@.text == b@.text {
            assert(a@ =~= b@);
        }
    }
    r
}

} // verus!
