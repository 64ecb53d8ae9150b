//! Ordering of cues, deduplication, and sorting.
//!
//! Cues are ordered lexicographically on the tuple `(start, end, text)` as
//! byte strings, with text lines compared element by element and a strict
//! prefix counting as smaller.  Deduplication keeps the first occurrence of
//! each distinct cue value.

use crate::cue::{cues_view, lines_view, bytes_eq, cue_eq, Cue, CueModel};
use vstd::prelude::*;
use vstd::seq_lib::lemma_multiset_commutative;

verus! {

/// Byte-string lexicographic "less than or equal", read from position `i` on:
/// the first differing byte decides, and a strict prefix is smaller.
pub open spec fn bytes_le_from(a: Seq<u8>, b: Seq<u8>, i: int) -> bool
    decreases a.len() - i,
{
    if i >= a.len() {
        true
    } else if i >= b.len() {
        false
    } else if a[i] < b[i] {
        true
    } else if a[i] > b[i] {
        false
    } else {
        bytes_le_from(a, b, i + 1)
    }
}

/// Lexicographic order on byte strings.
pub open spec fn bytes_le(a: Seq<u8>, b: Seq<u8>) -> bool {
    bytes_le_from(a, b, 0)
}

/// Strict lexicographic order on byte strings.
pub open spec fn bytes_lt(a: Seq<u8>, b: Seq<u8>) -> bool {
    bytes_le(a, b) && a != b
}

proof fn lemma_bytes_le_from_total(a: Seq<u8>, b: Seq<u8>, i: int)
    ensures
        bytes_le_from(a, b, i) || bytes_le_from(b, a, i),
    decreases a.len() - i,
{
    if i < a.len() && i < b.len() && a[i] == b[i] {
        lemma_bytes_le_from_total(a, b, i + 1);
    }
}

proof fn lemma_bytes_le_from_antisym(a: Seq<u8>, b: Seq<u8>, i: int)
    requires
        0 <= i <= a.len(),
        i <= b.len(),
        bytes_le_from(a, b, i),
        bytes_le_from(b, a, i),
    ensures
        a.len() == b.len(),
        forall|j: int| i <= j < a.len() ==> a[j] == b[j],
    decreases a.len() - i,
{
    if i < a.len() {
        lemma_bytes_le_from_antisym(a, b, i + 1);
    }
}

proof fn lemma_bytes_le_antisym(a: Seq<u8>, b: Seq<u8>)
    requires
        bytes_le(a, b),
        bytes_le(b, a),
    ensures
        a == b,
{
    lemma_bytes_le_from_antisym(a, b, 0);
    assert(a =~= b);
}

proof fn lemma_bytes_le_from_trans(a: Seq<u8>, b: Seq<u8>, c: Seq<u8>, i: int)
    requires
        bytes_le_from(a, b, i),
        bytes_le_from(b, c, i),
    ensures
        bytes_le_from(a, c, i),
    decreases a.len() - i,
{
    if i < a.len() && i < b.len() && i < c.len() && a[i] == b[i] && b[i] == c[i] {
        lemma_bytes_le_from_trans(a, b, c, i + 1);
    }
}

proof fn lemma_bytes_lt_trans(a: Seq<u8>, b: Seq<u8>, c: Seq<u8>)
    requires
        bytes_lt(a, b),
        bytes_lt(b, c),
    ensures
        bytes_lt(a, c),
{
    lemma_bytes_le_from_trans(a, b, c, 0);
    if a == c {
        lemma_bytes_le_antisym(a, b);
    }
}

/// Lexicographic order on lists of text lines, read from position `i` on:
/// the first differing line decides, and a strict prefix is smaller.
pub open spec fn texts_le_from(a: Seq<Seq<u8>>, b: Seq<Seq<u8>>, i: int) -> bool
    decreases a.len() - i,
{
    if i >= a.len() {
        true
    } else if i >= b.len() {
        false
    } else if a[i] == b[i] {
        texts_le_from(a, b, i + 1)
    } else {
        bytes_lt(a[i], b[i])
    }
}

/// Lexicographic order on lists of text lines.
pub open spec fn texts_le(a: Seq<Seq<u8>>, b: Seq<Seq<u8>>) -> bool {
    texts_le_from(a, b, 0)
}

proof fn lemma_texts_le_from_refl(a: Seq<Seq<u8>>, i: int)
    ensures
        texts_le_from(a, a, i),
    decreases a.len() - i,
{
    if i < a.len() {
        lemma_texts_le_from_refl(a, i + 1);
    }
}

proof fn lemma_texts_le_from_total(a: Seq<Seq<u8>>, b: Seq<Seq<u8>>, i: int)
    ensures
        texts_le_from(a, b, i) || texts_le_from(b, a, i),
    decreases a.len() - i,
{
    if i < a.len() && i < b.len() {
        if a[i] == b[i] {
            lemma_texts_le_from_total(a, b, i + 1);
        } else {
            lemma_bytes_le_from_total(a[i], b[i], 0);
        }
    }
}

proof fn lemma_texts_le_from_antisym(a: Seq<Seq<u8>>, b: Seq<Seq<u8>>, i: int)
    requires
        0 <= i <= a.len(),
        i <= b.len(),
        texts_le_from(a, b, i),
        texts_le_from(b, a, i),
    ensures
        a.len() == b.len(),
        forall|j: int| i <= j < a.len() ==> a[j] == b[j],
    decreases a.len() - i,
{
    if i < a.len() {
        if a[i] == b[i] {
            lemma_texts_le_from_antisym(a, b, i + 1);
        } else {
            lemma_bytes_le_antisym(a[i], b[i]);
        }
    }
}

proof fn lemma_texts_le_antisym(a: Seq<Seq<u8>>, b: Seq<Seq<u8>>)
    requires
        texts_le(a, b),
        texts_le(b, a),
    ensures
        a == b,
{
    lemma_texts_le_from_antisym(a, b, 0);
    assert(a =~= b);
}

proof fn lemma_texts_le_from_trans(a: Seq<Seq<u8>>, b: Seq<Seq<u8>>, c: Seq<Seq<u8>>, i: int)
    requires
        texts_le_from(a, b, i),
        texts_le_from(b, c, i),
    ensures
        texts_le_from(a, c, i),
    decreases a.len() - i,
{
    if i < a.len() && i < b.len() && i < c.len() {
        if a[i] == b[i] && b[i] == c[i] {
            lemma_texts_le_from_trans(a, b, c, i + 1);
        } else if a[i] == b[i] || b[i] == c[i] {
            // exactly one of the two pairs differs; the strict comparison carries over
        } else {
            lemma_bytes_lt_trans(a[i], b[i], c[i]);
        }
    }
}

/// The order on cues: lexicographic on `(start, end, text)`.
pub open spec fn cue_le(a: CueModel, b: CueModel) -> bool {
    if a.start != b.start {
        bytes_lt(a.start, b.start)
    } else if a.end != b.end {
        bytes_lt(a.end, b.end)
    } else {
        texts_le(a.text, b.text)
    }
}

/// Law: the cue order is reflexive.
pub proof fn lemma_cue_le_refl(a: CueModel)
    ensures
        cue_le(a, a),
{
    lemma_texts_le_from_refl(a.text, 0);
}

/// Law: the cue order is total; any two cues are comparable.
pub proof fn lemma_cue_le_total(a: CueModel, b: CueModel)
    ensures
        cue_le(a, b) || cue_le(b, a),
{
    lemma_bytes_le_from_total(a.start, b.start, 0);
    lemma_bytes_le_from_total(a.end, b.end, 0);
    lemma_texts_le_from_total(a.text, b.text, 0);
}

/// Law: the cue order is antisymmetric; two cues each less than or equal
/// to the other are the same cue.
pub proof fn lemma_cue_le_antisym(a: CueModel, b: CueModel)
    requires
        cue_le(a, b),
        cue_le(b, a),
    ensures
        a == b,
{
    if a.start == b.start && a.end == b.end {
        lemma_texts_le_antisym(a.text, b.text);
        assert(a =~= b);
    } else if a.start == b.start {
        lemma_bytes_le_antisym(a.end, b.end);
    } else {
        lemma_bytes_le_antisym(a.start, b.start);
    }
}

/// Law: the cue order is transitive.
pub proof fn lemma_cue_le_trans(a: CueModel, b: CueModel, c: CueModel)
    requires
        cue_le(a, b),
        cue_le(b, c),
    ensures
        cue_le(a, c),
{
    if a.start == b.start && b.start == c.start {
        if a.end == b.end && b.end == c.end {
            lemma_texts_le_from_trans(a.text, b.text, c.text, 0);
        } else if a.end != b.end && b.end != c.end {
            lemma_bytes_lt_trans(a.end, b.end, c.end);
        }
    } else if a.start != b.start && b.start != c.start {
        lemma_bytes_lt_trans(a.start, b.start, c.start);
    }
}

/// Deduplication of a sequence of cues: the first occurrence of each
/// distinct cue value is kept, in order of first appearance.
pub open spec fn dedup_spec(s: Seq<CueModel>) -> Seq<CueModel>
    decreases s.len(),
{
    if s.len() == 0 {
        Seq::empty()
    } else {
        let d = dedup_spec(s.drop_last());
        if d.contains(s.last()) {
            d
        } else {
            d.push(s.last())
        }
    }
}

proof fn lemma_contains_drop_last<T>(s: Seq<T>, x: T)
    requires
        s.len() > 0,
    ensures
        s.contains(x) <==> (s.drop_last().contains(x) || x == s.last()),
{
    if s.contains(x) {
        let i = choose|i: int| 0 <= i < s.len() && s[i] == x;
        if i < s.len() - 1 {
            assert(s.drop_last()[i] == x);
        }
    }
    if s.drop_last().contains(x) {
        let i = choose|i: int| 0 <= i < s.drop_last().len() && s.drop_last()[i] == x;
        assert(s[i] == x);
    }
    if x == s.last() {
        assert(s[s.len() - 1] == x);
    }
}

/// Law: deduplication keeps exactly the cue values that occur in the
/// input; nothing is lost and nothing new appears.
pub proof fn lemma_dedup_contains(s: Seq<CueModel>)
    ensures
        forall|x: CueModel| dedup_spec(s).contains(x) <==> s.contains(x),
    decreases s.len(),
{
    if s.len() > 0 {
        lemma_dedup_contains(s.drop_last());
        let d = dedup_spec(s.drop_last());
        assert forall|x: CueModel| dedup_spec(s).contains(x) <==> s.contains(x) by {
            lemma_contains_drop_last(s, x);
            if !d.contains(s.last()) {
                lemma_contains_drop_last(d.push(s.last()), x);
                assert(d.push(s.last()).drop_last() =~= d);
            }
        }
    }
}

/// Law: deduplication retains exactly one representative per distinct cue
/// value; no two cues of the result are equal.
pub proof fn lemma_dedup_distinct(s: Seq<CueModel>)
    ensures
        forall|i: int, j: int|
            0 <= i < j < dedup_spec(s).len() ==> dedup_spec(s)[i] != dedup_spec(s)[j],
    decreases s.len(),
{
    if s.len() > 0 {
        lemma_dedup_distinct(s.drop_last());
        let d = dedup_spec(s.drop_last());
        if !d.contains(s.last()) {
            assert forall|i: int, j: int|
                0 <= i < j < dedup_spec(s).len() implies dedup_spec(s)[i] != dedup_spec(s)[j] by {
                if j == d.len() {
                    assert(d[i] == dedup_spec(s)[i]);
                    if d[i] == s.last() {
                        assert(d.contains(s.last()));
                    }
                }
            }
        }
    }
}

proof fn lemma_dedup_append_subset(s: Seq<CueModel>, t: Seq<CueModel>)
    requires
        forall|x: CueModel| t.contains(x) ==> s.contains(x),
    ensures
        dedup_spec(s + t) == dedup_spec(s),
    decreases t.len(),
{
    if t.len() == 0 {
        assert(s + t =~= s);
    } else {
        assert forall|x: CueModel| t.drop_last().contains(x) implies s.contains(x) by {
            lemma_contains_drop_last(t, x);
        }
        lemma_dedup_append_subset(s, t.drop_last());
        assert((s + t).drop_last() =~= s + t.drop_last());
        assert((s + t).last() == t.last());
        lemma_dedup_contains(s);
        assert(t[t.len() - 1] == t.last());
        assert(t.contains(t.last()));
        assert(dedup_spec(s).contains(t.last()));
        assert(dedup_spec(s + t) == dedup_spec(s));
    }
}

/// Law: pooling a collection of cues together with an exact copy of itself
/// deduplicates to the very same cues as the collection alone; a second
/// byte-identical input contributes nothing.
pub proof fn lemma_dedup_idempotent(s: Seq<CueModel>)
    ensures
        dedup_spec(s + s) == dedup_spec(s),
{
    lemma_dedup_append_subset(s, s);
}

/// Insertion of a cue into an ordered sequence, before the first element it
/// is less than or equal to.
pub open spec fn insert_sorted(c: CueModel, s: Seq<CueModel>) -> Seq<CueModel>
    decreases s.len(),
{
    if s.len() == 0 {
        seq![c]
    } else if cue_le(c, s.first()) {
        seq![c] + s
    } else {
        seq![s.first()] + insert_sorted(c, s.drop_first())
    }
}

/// Insertion sort over a sequence of cues.
pub open spec fn sort_spec(s: Seq<CueModel>) -> Seq<CueModel>
    decreases s.len(),
{
    if s.len() == 0 {
        Seq::empty()
    } else {
        insert_sorted(s.last(), sort_spec(s.drop_last()))
    }
}

/// A sequence of cues that is in ascending cue order.
pub open spec fn sorted_le(s: Seq<CueModel>) -> bool {
    forall|i: int, j: int| 0 <= i <= j < s.len() ==> cue_le(s[i], s[j])
}

proof fn lemma_insert_sorted_multiset(c: CueModel, s: Seq<CueModel>)
    ensures
        insert_sorted(c, s).to_multiset() == s.to_multiset().insert(c),
    decreases s.len(),
{
    broadcast use vstd::seq_lib::group_to_multiset_ensures;

    if s.len() == 0 {
        assert(seq![c] =~= Seq::<CueModel>::empty().push(c));
        assert(insert_sorted(c, s).to_multiset() =~= s.to_multiset().insert(c));
    } else if cue_le(c, s.first()) {
        lemma_multiset_commutative(seq![c], s);
        assert(seq![c] =~= Seq::<CueModel>::empty().push(c));
        assert(insert_sorted(c, s).to_multiset() =~= s.to_multiset().insert(c));
    } else {
        lemma_insert_sorted_multiset(c, s.drop_first());
        lemma_multiset_commutative(seq![s.first()], insert_sorted(c, s.drop_first()));
        lemma_multiset_commutative(seq![s.first()], s.drop_first());
        assert(seq![s.first()] + s.drop_first() =~= s);
        assert(seq![s.first()] =~= Seq::<CueModel>::empty().push(s.first()));
        assert(insert_sorted(c, s).to_multiset() =~= s.to_multiset().insert(c));
    }
}

proof fn lemma_insert_sorted_contains(c: CueModel, s: Seq<CueModel>, x: CueModel)
    ensures
        insert_sorted(c, s).contains(x) <==> (x == c || s.contains(x)),
{
    broadcast use vstd::seq_lib::group_to_multiset_ensures;
    broadcast use vstd::multiset::group_multiset_axioms;

    lemma_insert_sorted_multiset(c, s);
    let r = insert_sorted(c, s);
    assert(r.to_multiset().count(x) == s.to_multiset().insert(c).count(x));
    if x == c {
        assert(s.to_multiset().insert(c).count(c) == s.to_multiset().count(c) + 1);
        assert(r.to_multiset().count(x) > 0);
    } else {
        assert(s.to_multiset().insert(c).count(x) == s.to_multiset().count(x));
    }
}

proof fn lemma_insert_sorted_sorted(c: CueModel, s: Seq<CueModel>)
    requires
        sorted_le(s),
    ensures
        sorted_le(insert_sorted(c, s)),
    decreases s.len(),
{
    lemma_cue_le_refl(c);
    if s.len() == 0 {
    } else if cue_le(c, s.first()) {
        let r = seq![c] + s;
        assert forall|i: int, j: int| 0 <= i <= j < r.len() implies cue_le(r[i], r[j]) by {
            if i == 0 && j > 0 {
                lemma_cue_le_trans(c, s.first(), s[j - 1]);
            }
        }
    } else {
        assert forall|i: int, j: int|
            0 <= i <= j < s.drop_first().len() implies cue_le(
            s.drop_first()[i],
            s.drop_first()[j],
        ) by {
            assert(s.drop_first()[i] == s[i + 1]);
            assert(s.drop_first()[j] == s[j + 1]);
        }
        lemma_insert_sorted_sorted(c, s.drop_first());
        let tail = insert_sorted(c, s.drop_first());
        let r = seq![s.first()] + tail;
        lemma_cue_le_total(c, s.first());
        assert forall|i: int, j: int| 0 <= i <= j < r.len() implies cue_le(r[i], r[j]) by {
            lemma_cue_le_refl(s.first());
            if i == 0 && j > 0 {
                let x = tail[j - 1];
                assert(tail.contains(x));
                lemma_insert_sorted_contains(c, s.drop_first(), x);
                if x == c {
                    assert(cue_le(s.first(), c));
                } else {
                    let m = choose|m: int|
                        0 <= m < s.drop_first().len() && s.drop_first()[m] == x;
                    assert(s[m + 1] == x);
                    assert(cue_le(s[0], s[m + 1]));
                }
            }
        }
    }
}

/// Law: sorting yields a sequence that is in ascending cue order and is a
/// permutation of its input.
pub proof fn lemma_sort_order(s: Seq<CueModel>)
    ensures
        sorted_le(sort_spec(s)),
        sort_spec(s).to_multiset() == s.to_multiset(),
    decreases s.len(),
{
    broadcast use vstd::seq_lib::group_to_multiset_ensures;

    if s.len() > 0 {
        lemma_sort_order(s.drop_last());
        lemma_insert_sorted_sorted(s.last(), sort_spec(s.drop_last()));
        lemma_insert_sorted_multiset(s.last(), sort_spec(s.drop_last()));
        assert(s.drop_last().push(s.last()) =~= s);
        assert(sort_spec(s).to_multiset() =~= s.to_multiset());
    }
}

/// Decides the lexicographic order between two byte strings.
pub fn bytes_le_exec(a: &Vec<u8>, b: &Vec<u8>) -> (r: bool)
    ensures
        r == bytes_le(a@, b@),
{
    let mut i: usize = 0;
    loop
        invariant
            i <= a.len(),
            i <= b.len(),
            bytes_le(a@, b@) == bytes_le_from(a@, b@, i as int),
        decreases a.len() - i,
    {
        if i == a.len() {
            return true;
        }
        if i == b.len() {
            return false;
        }
        if a[i] < b[i] {
            return true;
        }
        if a[i] > b[i] {
            return false;
        }
        i = i + 1;
    }
}

/// Decides the lexicographic order between two lists of text lines.
pub fn texts_le_exec(a: &Vec<Vec<u8>>, b: &Vec<Vec<u8>>) -> (r: bool)
    ensures
        r == texts_le(lines_view(a@), lines_view(b@)),
{
    let ghost av = lines_view(a@);
    let ghost bv = lines_view(b@);
    let mut i: usize = 0;
    loop
        invariant
            i <= a.len(),
            i <= b.len(),
            av == lines_view(a@),
            bv == lines_view(b@),
            texts_le(av, bv) == texts_le_from(av, bv, i as int),
        decreases a.len() - i,
    {
        if i == a.len() {
            return true;
        }
        if i == b.len() {
            return false;
        }
        if bytes_eq(&a[i], &b[i]) {
            assert(av[i as int] == bv[i as int]);
            i = i + 1;
        } else {
            assert(av[i as int] != bv[i as int]);
            let r = bytes_le_exec(&a[i], &b[i]);
            return r;
        }
    }
}

/// Decides the cue order: lexicographic on `(start, end, text)`.
pub fn cue_le_exec(a: &Cue, b: &Cue) -> (r: bool)
    ensures
        r == cue_le(a@, b@),
{
    if !bytes_eq(&a.start, &b.start) {
        bytes_le_exec(&a.start, &b.start)
    } else if !bytes_eq(&a.end, &b.end) {
        bytes_le_exec(&a.end, &b.end)
    } else {
        texts_le_exec(&a.text, &b.text)
    }
}

/// Does the pool already hold a cue equal to `c`?
pub fn contains_cue(cs: &Vec<Cue>, c: &Cue) -> (r: bool)
    ensures
        r == cues_view(cs@).contains(c@),
{
    let mut i: usize = 0;
    while i < cs.len()
        invariant
            i <= cs.len(),
            forall|j: int| 0 <= j < i ==> cues_view(cs@)[j] != c@,
        decreases cs.len() - i,
    {
        if cue_eq(&cs[i], c) {
            assert(cues_view(cs@)[i as int] == c@);
            return true;
        }
        i = i + 1;
    }
    false
}

/// Adds a cue to the pool unless an equal cue is already there; a later
/// insertion of an equal cue is a no-op.
pub fn insert_cue(cs: &mut Vec<Cue>, c: Cue)
    ensures
        cues_view(final(cs)@) == (if cues_view(old(cs)@).contains(c@) {
            cues_view(old(cs)@)
        } else {
            cues_view(old(cs)@).push(c@)
        }),
{
    if !contains_cue(cs, &c) {
        let ghost before = cues_view(cs@);
        cs.push(c);
        assert(cues_view(cs@) =~= before.push(c@));
    }
}

proof fn lemma_insert_sorted_at(c: CueModel, s: Seq<CueModel>, k: int)
    requires
        0 <= k <= s.len(),
        forall|j: int| 0 <= j < k ==> !cue_le(c, s[j]),
        k < s.len() ==> cue_le(c, s[k]),
    ensures
        insert_sorted(c, s) == s.insert(k, c),
    decreases s.len(),
{
    if s.len() == 0 {
        assert(insert_sorted(c, s) =~= s.insert(0, c));
    } else if k == 0 {
        assert(insert_sorted(c, s) =~= s.insert(0, c));
    } else {
        assert(!cue_le(c, s[0]));
        assert forall|j: int| 0 <= j < k - 1 implies !cue_le(c, s.drop_first()[j]) by {
            assert(s.drop_first()[j] == s[j + 1]);
        }
        assert(k - 1 < s.drop_first().len() ==> cue_le(c, s.drop_first()[k - 1]));
        lemma_insert_sorted_at(c, s.drop_first(), k - 1);
        assert(insert_sorted(c, s) =~= s.insert(k, c));
    }
}

/// Finds the ordered position for `c` in `out`: the index of the first cue
/// that `c` is less than or equal to.
fn find_insert_pos(out: &Vec<Cue>, c: &Cue) -> (k: usize)
    ensures
        k <= out.len(),
        forall|j: int| 0 <= j < k ==> !cue_le(c@, cues_view(out@)[j]),
        k < out.len() ==> cue_le(c@, cues_view(out@)[k as int]),
{
    let mut k: usize = 0;
    while k < out.len()
        invariant
            k <= out.len(),
            forall|j: int| 0 <= j < k ==> !cue_le(c@, cues_view(out@)[j]),
        decreases out.len() - k,
    {
        if cue_le_exec(c, &out[k]) {
            assert(cue_le(c@, cues_view(out@)[k as int]));
            return k;
        }
        k = k + 1;
    }
    k
}

/// Inserts a cue at its ordered place, matching one step of `insert_sorted`.
pub fn insert_cue_sorted(out: &mut Vec<Cue>, c: Cue)
    ensures
        cues_view(final(out)@) == insert_sorted(c@, cues_view(old(out)@)),
{
    let ghost before = cues_view(out@);
    let k = find_insert_pos(out, &c);
    proof {
        lemma_insert_sorted_at(c@, before, k as int);
    }
    out.insert(k, c);
    assert(cues_view(out@) =~= before.insert(k as int, c@));
}

/// Sorts a pool of cues into the lexicographic `(start, end, text)` order by
/// insertion sort.
pub fn sort_cues(cues: Vec<Cue>) -> (r: Vec<Cue>)
    ensures
        cues_view(r@) == sort_spec(cues_view(cues@)),
{
    let ghost cv = cues_view(cues@);
    let mut rest = cues;
    let mut out: Vec<Cue> = Vec::new();
    let ghost mut done: int = 0;
    while rest.len() > 0
        invariant
            0 <= done <= cv.len(),
            cv.len() - done == rest.len(),
            cues_view(rest@) == cv.skip(done),
            cues_view(out@) == sort_spec(cv.take(done)),
        decreases rest.len(),
    {
        let ghost vec_before = rest@;
        let ghost rest_before = cues_view(rest@);
        let c = rest.remove(0);
        proof {
            assert(c@ == rest_before[0]);
            assert(c@ == cv[done]);
            assert(rest@ =~= vec_before.subrange(1, vec_before.len() as int));
            assert forall|j: int| 0 <= j < rest@.len() implies cues_view(rest@)[j] == cv.skip(
                done + 1,
            )[j] by {
                assert(rest@[j] == vec_before[j + 1]);
                assert(cues_view(vec_before)[j + 1] == rest_before[j + 1]);
            }
            assert(cues_view(rest@) =~= cv.skip(done + 1));
        }
        insert_cue_sorted(&mut out, c);
        proof {
            assert(cv.take(done + 1).drop_last() =~= cv.take(done));
            assert(cv.take(done + 1).last() == cv[done]);
            done = done + 1;
        }
    }
    assert(cv.take(done) =~= cv);
    out
}

} // verus!
