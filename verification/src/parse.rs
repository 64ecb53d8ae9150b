//! Extraction of cues from the lines of one subtitle file.
//!
//! A line holding the cue-boundary token `-->` opens a new cue: it is split
//! on the first ` --> ` separator into a start and an end timecode.  Other
//! lines are collected as the open cue's text, except blank lines and the
//! structural `NOTE`, `WEBVTT` and `X-TIMESTAMP-MAP` lines, which are
//! skipped.  A cue is emitted, with its timecodes converted to the target
//! punctuation, when the next timing line or the end of the file is reached
//! and it has gathered at least one text line.

use crate::cue::{cues_view, lines_view, Cue, CueModel};
use vstd::prelude::*;

verus! {

/// Maps one byte of a source-format timecode to the target format:
/// the sub-second separator `.` becomes `,`; every other byte is unchanged.
pub open spec fn srt_byte(c: u8) -> u8 {
    if c == 46 {
        44
    } else {
        c
    }
}

/// A timecode converted from source (`.`) to target (`,`) punctuation.
pub open spec fn spec_to_srt(s: Seq<u8>) -> Seq<u8> {
    s.map_values(|c: u8| srt_byte(c))
}

/// Converts a timecode from the source format to the target format by
/// replacing every `.` with `,`, leaving all other bytes as they are.
pub fn vtt_to_srt_timecode(tc: &Vec<u8>) -> (r: Vec<u8>)
    ensures
        r@ == spec_to_srt(tc@),
{
    let mut out: Vec<u8> = Vec::new();
    let mut i: usize = 0;
    while i < tc.len()
        invariant
            i <= tc.len(),
            out@ == spec_to_srt(tc@).take(i as int),
        decreases tc.len() - i,
    {
        let c = tc[i];
        out.push(if c == 46 {
            44
        } else {
            c
        });
        assert(out@ =~= spec_to_srt(tc@).take(i as int + 1));
        i = i + 1;
    }
    assert(out@ =~= spec_to_srt(tc@));
    out
}

/// An ASCII whitespace byte: space, tab, line feed, vertical tab, form feed
/// or carriage return.
pub open spec fn spec_ws(c: u8) -> bool {
    c == 32 || c == 9 || c == 10 || c == 11 || c == 12 || c == 13
}

fn is_ws(c: u8) -> (r: bool)
    ensures
        r == spec_ws(c),
{
    c == 32 || c == 9 || c == 10 || c == 11 || c == 12 || c == 13
}

/// A line that is empty or holds only whitespace bytes.
pub open spec fn all_ws(s: Seq<u8>) -> bool {
    forall|j: int| 0 <= j < s.len() ==> spec_ws(s[j])
}

/// The byte string without its leading whitespace.
pub open spec fn trim_front(s: Seq<u8>) -> Seq<u8>
    decreases s.len(),
{
    if s.len() > 0 && spec_ws(s.first()) {
        trim_front(s.drop_first())
    } else {
        s
    }
}

/// The byte string without its trailing whitespace.
pub open spec fn trim_back(s: Seq<u8>) -> Seq<u8>
    decreases s.len(),
{
    if s.len() > 0 && spec_ws(s.last()) {
        trim_back(s.drop_last())
    } else {
        s
    }
}

/// The byte string without surrounding whitespace.
pub open spec fn spec_trim(s: Seq<u8>) -> Seq<u8> {
    trim_back(trim_front(s))
}

proof fn lemma_trim_front_skip(s: Seq<u8>, k: int)
    requires
        0 <= k <= s.len(),
        forall|j: int| 0 <= j < k ==> spec_ws(s[j]),
        k < s.len() ==> !spec_ws(s[k]),
    ensures
        trim_front(s) == s.skip(k),
    decreases k,
{
    if k == 0 {
        assert(trim_front(s) =~= s.skip(0));
    } else {
        assert(spec_ws(s[0]));
        let d = s.drop_first();
        assert forall|j: int| 0 <= j < k - 1 implies spec_ws(d[j]) by {
            assert(d[j] == s[j + 1]);
        }
        assert(k - 1 < d.len() ==> !spec_ws(d[k - 1]));
        lemma_trim_front_skip(d, k - 1);
        assert(d.skip(k - 1) =~= s.skip(k));
    }
}

proof fn lemma_trim_back_take(s: Seq<u8>, h: int)
    requires
        0 <= h <= s.len(),
        forall|j: int| h <= j < s.len() ==> spec_ws(s[j]),
        h > 0 ==> !spec_ws(s[h - 1]),
    ensures
        trim_back(s) == s.take(h),
    decreases s.len(),
{
    if h == s.len() {
        assert(trim_back(s) =~= s.take(h));
    } else {
        assert(spec_ws(s.last()));
        let d = s.drop_last();
        lemma_trim_back_take(d, h);
        assert(d.take(h) =~= s.take(h));
    }
}

/// Copies the byte range `[lo, hi)` of `s`.
fn sub_bytes(s: &Vec<u8>, lo: usize, hi: usize) -> (r: Vec<u8>)
    requires
        lo <= hi <= s@.len(),
    ensures
        r@ == s@.subrange(lo as int, hi as int),
{
    let mut out: Vec<u8> = Vec::new();
    let mut i: usize = lo;
    while i < hi
        invariant
            lo <= i <= hi <= s@.len(),
            out@ == s@.subrange(lo as int, i as int),
        decreases hi - i,
    {
        out.push(s[i]);
        assert(out@ =~= s@.subrange(lo as int, i as int + 1));
        i = i + 1;
    }
    out
}

/// Removes leading and trailing whitespace bytes, as `spec_trim` describes.
pub fn trim_bytes(s: &Vec<u8>) -> (r: Vec<u8>)
    ensures
        r@ == spec_trim(s@),
{
    let mut lo: usize = 0;
    while lo < s.len() && is_ws(s[lo])
        invariant
            lo <= s@.len(),
            forall|j: int| 0 <= j < lo ==> spec_ws(s@[j]),
        decreases s@.len() - lo,
    {
        lo = lo + 1;
    }
    proof {
        lemma_trim_front_skip(s@, lo as int);
    }
    let mut hi: usize = s.len();
    while hi > lo && is_ws(s[hi - 1])
        invariant
            lo <= hi <= s@.len(),
            forall|j: int| hi <= j < s@.len() ==> spec_ws(s@[j]),
        decreases hi,
    {
        hi = hi - 1;
    }
    proof {
        let f = s@.skip(lo as int);
        assert forall|j: int| hi - lo <= j < f.len() implies spec_ws(f[j]) by {
            assert(f[j] == s@[j + lo]);
        }
        assert(hi - lo > 0 ==> !spec_ws(f[hi - lo - 1]));
        lemma_trim_back_take(f, hi as int - lo as int);
        assert(f.take(hi as int - lo as int) =~= s@.subrange(lo as int, hi as int));
    }
    sub_bytes(s, lo, hi)
}

/// The cue-boundary token `-->` occurs at position `i`.
pub open spec fn arrow_at(s: Seq<u8>, i: int) -> bool {
    0 <= i && i + 3 <= s.len() && s[i] == 45 && s[i + 1] == 45 && s[i + 2] == 62
}

/// The line contains the cue-boundary token `-->` somewhere.
pub open spec fn has_arrow(s: Seq<u8>) -> bool {
    exists|i: int| arrow_at(s, i)
}

/// Decides whether a line contains the cue-boundary token `-->`.
pub fn has_arrow_exec(s: &Vec<u8>) -> (r: bool)
    ensures
        r == has_arrow(s@),
{
    if s.len() < 3 {
        assert(!has_arrow(s@));
        return false;
    }
    let mut i: usize = 0;
    while i <= s.len() - 3
        invariant
            3 <= s@.len(),
            i <= s@.len() - 2,
            forall|j: int| 0 <= j < i ==> !arrow_at(s@, j),
        decreases s@.len() - i,
    {
        if s[i] == 45 && s[i + 1] == 45 && s[i + 2] == 62 {
            assert(arrow_at(s@, i as int));
            return true;
        }
        i = i + 1;
    }
    assert forall|j: int| !arrow_at(s@, j) by {
        if j >= i {
            assert(j + 3 > s@.len());
        }
    }
    false
}

/// The timing separator ` --> ` (the token framed by single spaces) occurs
/// at position `i`.
pub open spec fn sep_at(s: Seq<u8>, i: int) -> bool {
    0 <= i && i + 5 <= s.len() && s[i] == 32 && s[i + 1] == 45 && s[i + 2] == 45 && s[i + 3]
        == 62 && s[i + 4] == 32
}

/// The position of the first timing separator at or after `i`, if any.
pub open spec fn sep_pos_from(s: Seq<u8>, i: int) -> Option<int>
    decreases s.len() - i,
{
    if i + 5 > s.len() {
        None
    } else if sep_at(s, i) {
        Some(i)
    } else {
        sep_pos_from(s, i + 1)
    }
}

proof fn lemma_sep_pos_at(s: Seq<u8>, i: int)
    ensures
        match sep_pos_from(s, i) {
            Some(p) => sep_at(s, p) && i <= p,
            None => true,
        },
    decreases s.len() - i,
{
    if i + 5 <= s.len() && !sep_at(s, i) {
        lemma_sep_pos_at(s, i + 1);
    }
}

/// Finds the first timing separator at or after `from`.
pub fn find_sep(s: &Vec<u8>, from: usize) -> (r: Option<usize>)
    ensures
        match r {
            Some(p) => sep_pos_from(s@, from as int) == Some(p as int),
            None => sep_pos_from(s@, from as int) is None,
        },
{
    if s.len() < 5 || from > s.len() - 5 {
        return None;
    }
    let mut i: usize = from;
    while i <= s.len() - 5
        invariant
            5 <= s@.len(),
            from <= i <= s@.len() - 4,
            sep_pos_from(s@, from as int) == sep_pos_from(s@, i as int),
        decreases s@.len() - i,
    {
        if s[i] == 32 && s[i + 1] == 45 && s[i + 2] == 45 && s[i + 3] == 62 && s[i + 4] == 32 {
            assert(sep_at(s@, i as int));
            return Some(i);
        }
        assert(!sep_at(s@, i as int));
        i = i + 1;
    }
    None
}

/// The `NOTE` comment prefix.
pub open spec fn note_prefix() -> Seq<u8> {
    seq![78u8, 79u8, 84u8, 69u8]
}

/// The `WEBVTT` header prefix.
pub open spec fn webvtt_prefix() -> Seq<u8> {
    seq![87u8, 69u8, 66u8, 86u8, 84u8, 84u8]
}

/// The `X-TIMESTAMP-MAP` header prefix.
pub open spec fn timestamp_map_prefix() -> Seq<u8> {
    seq![88u8, 45u8, 84u8, 73u8, 77u8, 69u8, 83u8, 84u8, 65u8, 77u8, 80u8, 45u8, 77u8, 65u8, 80u8]
}

/// The line begins with the given prefix.
pub open spec fn starts_with(s: Seq<u8>, p: Seq<u8>) -> bool {
    p.len() <= s.len() && s.subrange(0, p.len() as int) == p
}

/// Decides whether `s` begins with `p`.
pub fn starts_with_exec(s: &Vec<u8>, p: &Vec<u8>) -> (r: bool)
    ensures
        r == starts_with(s@, p@),
{
    if p.len() > s.len() {
        return false;
    }
    let mut i: usize = 0;
    while i < p.len()
        invariant
            i <= p@.len() <= s@.len(),
            forall|j: int| 0 <= j < i ==> s@[j] == p@[j],
        decreases p@.len() - i,
    {
        if s[i] != p[i] {
            assert(s@.subrange(0, p@.len() as int)[i as int] != p@[i as int]);
            return false;
        }
        i = i + 1;
    }
    assert(s@.subrange(0, p@.len() as int) =~= p@);
    true
}

fn make_note_prefix() -> (r: Vec<u8>)
    ensures
        r@ == note_prefix(),
{
    let mut v: Vec<u8> = Vec::new();
    v.push(78);
    v.push(79);
    v.push(84);
    v.push(69);
    assert(v@ =~= note_prefix());
    v
}

fn make_webvtt_prefix() -> (r: Vec<u8>)
    ensures
        r@ == webvtt_prefix(),
{
    let mut v: Vec<u8> = Vec::new();
    v.push(87);
    v.push(69);
    v.push(66);
    v.push(86);
    v.push(84);
    v.push(84);
    assert(v@ =~= webvtt_prefix());
    v
}

fn make_timestamp_map_prefix() -> (r: Vec<u8>)
    ensures
        r@ == timestamp_map_prefix(),
{
    let mut v: Vec<u8> = Vec::new();
    v.push(88);
    v.push(45);
    v.push(84);
    v.push(73);
    v.push(77);
    v.push(69);
    v.push(83);
    v.push(84);
    v.push(65);
    v.push(77);
    v.push(80);
    v.push(45);
    v.push(77);
    v.push(65);
    v.push(80);
    assert(v@ =~= timestamp_map_prefix());
    v
}

/// A structural line of the source format: blank or whitespace-only, or a
/// `NOTE`, `WEBVTT` or `X-TIMESTAMP-MAP` header or comment line.  Such a
/// line is never collected as cue text.
pub open spec fn is_excluded_line(s: Seq<u8>) -> bool {
    all_ws(s) || starts_with(s, note_prefix()) || starts_with(s, webvtt_prefix()) || starts_with(
        s,
        timestamp_map_prefix(),
    )
}

/// Decides whether a line is structural and must be skipped.
pub fn is_excluded_exec(s: &Vec<u8>) -> (r: bool)
    ensures
        r == is_excluded_line(s@),
{
    let mut ws_only = true;
    let mut i: usize = 0;
    while i < s.len()
        invariant
            i <= s@.len(),
            ws_only == (forall|j: int| 0 <= j < i ==> spec_ws(s@[j])),
        decreases s@.len() - i,
    {
        if !is_ws(s[i]) {
            ws_only = false;
        }
        i = i + 1;
    }
    if ws_only {
        return true;
    }
    let note = make_note_prefix();
    if starts_with_exec(s, &note) {
        return true;
    }
    let webvtt = make_webvtt_prefix();
    if starts_with_exec(s, &webvtt) {
        return true;
    }
    let tsmap = make_timestamp_map_prefix();
    starts_with_exec(s, &tsmap)
}

/// The state while scanning a file's lines: the open cue's raw timecodes,
/// its accumulated text lines, and the cues already emitted.
#[verifier::ext_equal]
pub struct ParseAcc {
    pub start: Seq<u8>,
    pub end: Seq<u8>,
    pub text: Seq<Seq<u8>>,
    pub cues: Seq<CueModel>,
}

/// The scanning state at the top of a file: nothing open, nothing emitted.
pub open spec fn init_acc() -> ParseAcc {
    ParseAcc { start: Seq::empty(), end: Seq::empty(), text: Seq::empty(), cues: Seq::empty() }
}

/// Emits the open cue if it has gathered any text, converting its timecodes
/// to the target punctuation; an open cue without text is dropped.
pub open spec fn flush(acc: ParseAcc) -> Seq<CueModel> {
    if acc.text.len() > 0 {
        acc.cues.push(
            CueModel { start: spec_to_srt(acc.start), end: spec_to_srt(acc.end), text: acc.text },
        )
    } else {
        acc.cues
    }
}

/// A line that holds the cue-boundary token `-->` but not the two-field
/// timing separator: splitting it yields fewer than two fields.
pub open spec fn malformed_line(l: Seq<u8>) -> bool {
    has_arrow(l) && sep_pos_from(l, 0) is None
}

/// The two timecode fields of a timing line whose first separator stands at
/// `p`: the text before it, and the text between it and the next separator
/// (or the end of the line), each trimmed of surrounding whitespace.
pub open spec fn timing_fields(l: Seq<u8>, p: int) -> (Seq<u8>, Seq<u8>) {
    let e_raw = match sep_pos_from(l, p + 5) {
        Some(q) => l.subrange(p + 5, q),
        None => l.subrange(p + 5, l.len() as int),
    };
    (spec_trim(l.subrange(0, p)), spec_trim(e_raw))
}

/// One scanning step: a timing line finishes the open cue and opens a new
/// one; a structural line is skipped; any other line is appended to the open
/// cue's text.
pub open spec fn step_line(acc: ParseAcc, l: Seq<u8>) -> ParseAcc {
    if has_arrow(l) {
        match sep_pos_from(l, 0) {
            Some(p) => {
                let fields = timing_fields(l, p);
                ParseAcc { start: fields.0, end: fields.1, text: Seq::empty(), cues: flush(acc) }
            },
            None => acc,  // a malformed line; scanning never steps over one
        }
    } else if is_excluded_line(l) {
        acc
    } else {
        ParseAcc { start: acc.start, end: acc.end, text: acc.text.push(l), cues: acc.cues }
    }
}

/// Scans the lines from index `i` on; `None` marks a malformed timing line.
pub open spec fn scan(acc: ParseAcc, lines: Seq<Seq<u8>>, i: int) -> Option<ParseAcc>
    decreases lines.len() - i,
{
    if i < 0 || i >= lines.len() {
        Some(acc)
    } else if malformed_line(lines[i]) {
        None
    } else {
        scan(step_line(acc, lines[i]), lines, i + 1)
    }
}

/// The cues extracted from one file's lines, in emission order, or `None`
/// if some timing line is malformed.
pub open spec fn extract_cues(lines: Seq<Seq<u8>>) -> Option<Seq<CueModel>> {
    match scan(init_acc(), lines, 0) {
        Some(acc) => Some(flush(acc)),
        None => None,
    }
}

/// Law: scanning fails exactly when some remaining line is malformed, so a
/// file's cues extract to `None` if and only if the file holds a line with
/// `-->` but no two-field separator.
pub proof fn lemma_scan_none_iff(acc: ParseAcc, lines: Seq<Seq<u8>>, i: int)
    requires
        0 <= i,
    ensures
        (scan(acc, lines, i) is None) <==> exists|j: int|
            i <= j < lines.len() && malformed_line(lines[j]),
    decreases lines.len() - i,
{
    if i < lines.len() {
        if malformed_line(lines[i]) {
            assert(i <= i < lines.len() && malformed_line(lines[i]));
        } else {
            lemma_scan_none_iff(step_line(acc, lines[i]), lines, i + 1);
            if exists|j: int| i <= j < lines.len() && malformed_line(lines[j]) {
                let j = choose|j: int| i <= j < lines.len() && malformed_line(lines[j]);
                assert(i + 1 <= j < lines.len() && malformed_line(lines[j]));
            }
        }
    }
}

/// A line that may stand in a cue's text: not structural and not a timing
/// line.
pub open spec fn good_text_line(l: Seq<u8>) -> bool {
    !is_excluded_line(l) && !has_arrow(l)
}

/// Every gathered text line, open or already emitted, is a good text line.
pub open spec fn acc_text_good(acc: ParseAcc) -> bool {
    (forall|t: int| 0 <= t < acc.text.len() ==> good_text_line(acc.text[t])) && (forall|
        c: int,
        t: int,
    |
        0 <= c < acc.cues.len() && 0 <= t < acc.cues[c].text.len() ==> good_text_line(
            acc.cues[c].text[t],
        ))
}

proof fn lemma_flush_text_good(acc: ParseAcc)
    requires
        acc_text_good(acc),
    ensures
        forall|c: int, t: int|
            0 <= c < flush(acc).len() && 0 <= t < flush(acc)[c].text.len() ==> good_text_line(
                flush(acc)[c].text[t],
            ),
{
    if acc.text.len() > 0 {
        assert forall|c: int, t: int|
            0 <= c < flush(acc).len() && 0 <= t < flush(acc)[c].text.len() implies good_text_line(
            flush(acc)[c].text[t],
        ) by {
            if c < acc.cues.len() {
                assert(flush(acc)[c] == acc.cues[c]);
            } else {
                assert(flush(acc)[c].text == acc.text);
            }
        }
    }
}

proof fn lemma_step_text_good(acc: ParseAcc, l: Seq<u8>)
    requires
        acc_text_good(acc),
    ensures
        acc_text_good(step_line(acc, l)),
{
    if has_arrow(l) {
        match sep_pos_from(l, 0) {
            Some(p) => {
                lemma_flush_text_good(acc);
            },
            None => {},
        }
    } else if !is_excluded_line(l) {
        let next = step_line(acc, l);
        assert(next.text == acc.text.push(l));
        assert forall|t: int| 0 <= t < next.text.len() implies good_text_line(next.text[t]) by {
            if t < acc.text.len() {
                assert(next.text[t] == acc.text[t]);
            } else {
                assert(next.text[t] == l);
            }
        }
    }
}

proof fn lemma_scan_text_good(acc: ParseAcc, lines: Seq<Seq<u8>>, i: int)
    requires
        acc_text_good(acc),
    ensures
        forall|res: ParseAcc| scan(acc, lines, i) == Some(res) ==> acc_text_good(res),
    decreases lines.len() - i,
{
    if !(i < 0 || i >= lines.len()) && !malformed_line(lines[i]) {
        lemma_step_text_good(acc, lines[i]);
        lemma_scan_text_good(step_line(acc, lines[i]), lines, i + 1);
    }
}

/// Law: no structural line ever reaches cue text.  Every text line of every
/// extracted cue is neither blank nor whitespace-only, is not a `NOTE`,
/// `WEBVTT` or `X-TIMESTAMP-MAP` line, and is not a timing line.
pub proof fn lemma_no_structural_text(lines: Seq<Seq<u8>>, cs: Seq<CueModel>)
    requires
        extract_cues(lines) == Some(cs),
    ensures
        forall|c: int, t: int|
            0 <= c < cs.len() && 0 <= t < cs[c].text.len() ==> good_text_line(cs[c].text[t]),
{
    lemma_scan_text_good(init_acc(), lines, 0);
    match scan(init_acc(), lines, 0) {
        Some(res) => {
            lemma_flush_text_good(res);
        },
        None => {
            assert(false);
        },
    }
}

/// The one parse failure: a line holds the cue-boundary token `-->` but
/// does not split into two fields around the timing separator.  `line` is
/// the index of the offending line.
#[derive(Clone, Copy, Debug, PartialEq, Eq, Structural)]
pub enum ParseError {
    MalformedTimingLine { line: usize },
}

/// The scanning state as a mathematical value.
pub open spec fn acc_model(
    start: Seq<u8>,
    end: Seq<u8>,
    text: Seq<Seq<u8>>,
    cues: Seq<CueModel>,
) -> ParseAcc {
    ParseAcc { start, end, text, cues }
}

/// Extracts the cues from the lines of one subtitle file, in emission
/// order, exactly as `extract_cues` describes.  Fails precisely when some
/// line holds `-->` without the two-field separator, naming the first such
/// line; all cues of the file are then discarded.
pub fn parse_vtt(lines: &Vec<Vec<u8>>) -> (r: Result<Vec<Cue>, ParseError>)
    ensures
        match r {
            Ok(cues) => extract_cues(lines_view(lines@)) == Some(cues_view(cues@)) && (forall|
                j: int,
            | 0 <= j < lines@.len() ==> !malformed_line(lines_view(lines@)[j])),
            Err(e) => {
                &&& extract_cues(lines_view(lines@)) is None
                &&& e matches ParseError::MalformedTimingLine { line }
                &&& line < lines@.len()
                &&& malformed_line(lines_view(lines@)[line as int])
                &&& forall|j: int| 0 <= j < line ==> !malformed_line(lines_view(lines@)[j])
            },
        },
{
    let ghost lv = lines_view(lines@);
    let mut cues: Vec<Cue> = Vec::new();
    let mut cur_start: Vec<u8> = Vec::new();
    let mut cur_end: Vec<u8> = Vec::new();
    let mut cur_text: Vec<Vec<u8>> = Vec::new();
    let mut i: usize = 0;
    proof {
        assert(acc_model(cur_start@, cur_end@, lines_view(cur_text@), cues_view(cues@))
            =~= init_acc());
    }
    while i < lines.len()
        invariant
            i <= lines@.len(),
            lv == lines_view(lines@),
            lv.len() == lines@.len(),
            scan(init_acc(), lv, 0) == scan(
                acc_model(cur_start@, cur_end@, lines_view(cur_text@), cues_view(cues@)),
                lv,
                i as int,
            ),
            forall|j: int| 0 <= j < i ==> !malformed_line(lv[j]),
        decreases lines@.len() - i,
    {
        let line = &lines[i];
        let ghost acc_now = acc_model(cur_start@, cur_end@, lines_view(cur_text@), cues_view(cues@));
        proof {
            assert(lv[i as int] == line@);
        }
        if has_arrow_exec(line) {
            match find_sep(line, 0) {
                None => {
                    proof {
                        assert(malformed_line(lv[i as int]));
                    }
                    return Err(ParseError::MalformedTimingLine { line: i });
                },
                Some(p) => {
                    proof {
                        assert(!malformed_line(lv[i as int]));
                        lemma_sep_pos_at(line@, 0);
                        assert(sep_at(line@, p as int));
                    }
                    if cur_text.len() > 0 {
                        let st = vtt_to_srt_timecode(&cur_start);
                        let en = vtt_to_srt_timecode(&cur_end);
                        let t = cur_text;
                        cur_text = Vec::new();
                        cues.push(Cue { start: st, end: en, text: t });
                        proof {
                            assert(cues_view(cues@) =~= flush(acc_now));
                        }
                    } else {
                        proof {
                            assert(cues_view(cues@) == flush(acc_now));
                        }
                    }
                    let n = line.len();
                    assert(p + 5 <= n);
                    let f0 = sub_bytes(line, 0, p);
                    let s_field = trim_bytes(&f0);
                    let hi = match find_sep(line, p + 5) {
                        Some(q) => {
                            proof {
                                lemma_sep_pos_at(line@, p as int + 5);
                                assert(sep_at(line@, q as int));
                            }
                            q
                        },
                        None => n,
                    };
                    let f1 = sub_bytes(line, p + 5, hi);
                    let e_field = trim_bytes(&f1);
                    cur_start = s_field;
                    cur_end = e_field;
                    proof {
                        let stepped = step_line(acc_now, lv[i as int]);
                        assert(lines_view(cur_text@) =~= Seq::empty());
                        assert(acc_model(
                            cur_start@,
                            cur_end@,
                            lines_view(cur_text@),
                            cues_view(cues@),
                        ) =~= stepped);
                    }
                },
            }
        } else if is_excluded_exec(line) {
            proof {
                assert(step_line(acc_now, lv[i as int]) == acc_now);
            }
        } else {
            let owned = sub_bytes(line, 0, line.len());
            proof {
                assert(owned@ =~= line@);
            }
            cur_text.push(owned);
            proof {
                let stepped = step_line(acc_now, lv[i as int]);
                assert(lines_view(cur_text@) =~= acc_now.text.push(lv[i as int]));
                assert(acc_model(
                    cur_start@,
                    cur_end@,
                    lines_view(cur_text@),
                    cues_view(cues@),
                ) =~= stepped);
            }
        }
        i = i + 1;
    }
    let ghost acc_final = acc_model(cur_start@, cur_end@, lines_view(cur_text@), cues_view(cues@));
    if cur_text.len() > 0 {
        let st = vtt_to_srt_timecode(&cur_start);
        let en = vtt_to_srt_timecode(&cur_end);
        cues.push(Cue { start: st, end: en, text: cur_text });
        proof {
            assert(cues_view(cues@) =~= flush(acc_final));
        }
    }
    proof {
        assert(scan(acc_final, lv, i as int) == Some(acc_final));
        assert(cues_view(cues@) == flush(acc_final));
    }
    Ok(cues)
}

} // verus!
