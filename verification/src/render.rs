//! Rendering of an ordered cue list as SubRip text.
//!
//! Each cue becomes one block: a 1-based index line, a timing line with the
//! two timecodes around ` --> `, the text lines in their recorded order, and
//! a blank separator line.

use crate::cue::{cues_view, Cue, CueModel};
use vstd::prelude::*;

verus! {

/// The decimal digits of `n`, most significant first.
pub open spec fn dec_rep(n: nat) -> Seq<u8>
    decreases n,
{
    if n < 10 {
        seq![(48 + n) as u8]
    } else {
        dec_rep(n / 10).push((48 + n % 10) as u8)
    }
}

/// Renders a cue index as decimal ASCII digits.
pub fn render_index(n: usize) -> (r: Vec<u8>)
    ensures
        r@ == dec_rep(n as nat),
    decreases n,
{
    if n < 10 {
        let mut v: Vec<u8> = Vec::new();
        v.push(48 + (n as u8));
        assert(v@ =~= dec_rep(n as nat));
        v
    } else {
        let mut v = render_index(n / 10);
        v.push(48 + ((n % 10) as u8));
        assert(v@ =~= dec_rep(n as nat));
        v
    }
}

/// A line feed.
pub open spec fn nl() -> Seq<u8> {
    seq![10u8]
}

/// The separator written between the two timecodes of a timing line.
pub open spec fn sep_bytes() -> Seq<u8> {
    seq![32u8, 45u8, 45u8, 62u8, 32u8]
}

/// The cue's text lines, each followed by a line feed.
pub open spec fn join_lines(text: Seq<Seq<u8>>) -> Seq<u8>
    decreases text.len(),
{
    if text.len() == 0 {
        Seq::empty()
    } else {
        text.first() + nl() + join_lines(text.drop_first())
    }
}

/// One rendered cue block.
pub open spec fn render_cue(idx: nat, c: CueModel) -> Seq<u8> {
    dec_rep(idx) + nl() + c.start + sep_bytes() + c.end + nl() + join_lines(c.text) + nl()
}

/// The rendered blocks of a sequence of cues, numbered from `idx` on.
pub open spec fn render_seq(cs: Seq<CueModel>, idx: nat) -> Seq<u8>
    decreases cs.len(),
{
    if cs.len() == 0 {
        Seq::empty()
    } else {
        render_cue(idx, cs.first()) + render_seq(cs.drop_first(), idx + 1)
    }
}

proof fn lemma_join_snoc(text: Seq<Seq<u8>>, l: Seq<u8>)
    ensures
        join_lines(text.push(l)) == join_lines(text) + l + nl(),
    decreases text.len(),
{
    assert(join_lines(Seq::<Seq<u8>>::empty()) == Seq::<u8>::empty());
    if text.len() == 0 {
        assert(text.push(l).first() == l);
        assert(text.push(l).drop_first() =~= Seq::<Seq<u8>>::empty());
        assert(join_lines(text.push(l)) =~= join_lines(text) + l + nl());
    } else {
        assert(text.push(l).first() == text.first());
        assert(text.push(l).drop_first() =~= text.drop_first().push(l));
        lemma_join_snoc(text.drop_first(), l);
        assert(join_lines(text) == text.first() + nl() + join_lines(text.drop_first()));
        assert(join_lines(text.push(l)) =~= join_lines(text) + l + nl());
    }
}

proof fn lemma_render_snoc(cs: Seq<CueModel>, c: CueModel, idx: nat)
    ensures
        render_seq(cs.push(c), idx) == render_seq(cs, idx) + render_cue((idx + cs.len()) as nat, c),
    decreases cs.len(),
{
    assert(render_seq(Seq::<CueModel>::empty(), idx) == Seq::<u8>::empty());
    assert(render_seq(Seq::<CueModel>::empty(), idx + 1) == Seq::<u8>::empty());
    if cs.len() == 0 {
        assert(cs.push(c).first() == c);
        assert(cs.push(c).drop_first() =~= Seq::<CueModel>::empty());
        assert(render_seq(cs.push(c), idx) =~= render_seq(cs, idx) + render_cue(
            (idx + cs.len()) as nat,
            c,
        ));
    } else {
        assert(cs.push(c).first() == cs.first());
        assert(cs.push(c).drop_first() =~= cs.drop_first().push(c));
        lemma_render_snoc(cs.drop_first(), c, idx + 1);
        assert(render_seq(cs, idx) == render_cue(idx, cs.first()) + render_seq(
            cs.drop_first(),
            idx + 1,
        ));
        assert(render_seq(cs.push(c), idx) =~= render_seq(cs, idx) + render_cue(
            (idx + cs.len()) as nat,
            c,
        ));
    }
}

/// Appends a byte string to the output.
fn append_bytes(out: &mut Vec<u8>, s: &Vec<u8>)
    ensures
        final(out)@ == old(out)@ + s@,
{
    let mut i: usize = 0;
    while i < s.len()
        invariant
            i <= s@.len(),
            out@ == old(out)@ + s@.take(i as int),
        decreases s@.len() - i,
    {
        out.push(s[i]);
        assert(out@ =~= old(out)@ + s@.take(i as int + 1));
        i = i + 1;
    }
    assert(out@ =~= old(out)@ + s@);
}

/// Appends one rendered cue block to the output.
fn render_cue_exec(out: &mut Vec<u8>, idx: usize, c: &Cue)
    ensures
        final(out)@ == old(out)@ + render_cue(idx as nat, c@),
{
    let ghost base = out@;
    let num = render_index(idx);
    append_bytes(out, &num);
    out.push(10);
    append_bytes(out, &c.start);
    out.push(32);
    out.push(45);
    out.push(45);
    out.push(62);
    out.push(32);
    append_bytes(out, &c.end);
    out.push(10);
    let ghost head = base + dec_rep(idx as nat) + nl() + c@.start + sep_bytes() + c@.end + nl();
    assert(out@ =~= head);
    let mut t: usize = 0;
    while t < c.text.len()
        invariant
            t <= c.text@.len(),
            c@.text.len() == c.text@.len(),
            out@ == head + join_lines(c@.text.take(t as int)),
        decreases c.text@.len() - t,
    {
        append_bytes(out, &c.text[t]);
        out.push(10);
        proof {
            lemma_join_snoc(c@.text.take(t as int), c@.text[t as int]);
            assert(c@.text.take(t as int).push(c@.text[t as int]) =~= c@.text.take(t as int + 1));
            assert(c@.text[t as int] == c.text@[t as int]@);
            assert(out@ =~= head + join_lines(c@.text.take(t as int + 1)));
        }
        t = t + 1;
    }
    assert(c@.text.take(c@.text.len() as int) =~= c@.text);
    out.push(10);
    assert(out@ =~= base + render_cue(idx as nat, c@));
}

/// Renders the cues, in their given order, as SubRip text: one block per
/// cue, numbered from 1.
pub fn render_srt(cues: &Vec<Cue>) -> (r: Vec<u8>)
    ensures
        r@ == render_seq(cues_view(cues@), 1),
{
    let mut out: Vec<u8> = Vec::new();
    let mut i: usize = 0;
    while i < cues.len()
        invariant
            i <= cues@.len(),
            out@ == render_seq(cues_view(cues@).take(i as int), 1),
        decreases cues@.len() - i,
    {
        render_cue_exec(&mut out, i + 1, &cues[i]);
        proof {
            let cv = cues_view(cues@);
            assert(cv.take(i as int).push(cv[i as int]) =~= cv.take(i as int + 1));
            lemma_render_snoc(cv.take(i as int), cv[i as int], 1);
        }
        i = i + 1;
    }
    assert(cues_view(cues@).take(cues@.len() as int) =~= cues_view(cues@));
    out
}

} // verus!
