//! Word slots, and the pruning of variant pairs that share no document.

use crate::docids::{docid_set, docids_disjoint};
use roaring::RoaringBitmap;
use vstd::prelude::*;

verus! {

/// One acceptable spelling of a query word.
pub struct WordVariant {
    pub word: String,
    /// Carried along; the search does not read it.
    pub typos: u8,
    /// The documents that hold this spelling.
    pub docids: RoaringBitmap,
}

/// One position of the query: its acceptable variants, and the documents of
/// all of them together.
pub struct WordSlot {
    pub variants: Vec<WordVariant>,
    pub docids: RoaringBitmap,
}

/// A variant as the search sees it: its text and its documents.
pub open spec fn variant_view(v: WordVariant) -> (Seq<char>, Set<u32>) {
    (v.word@, docid_set(v.docids))
}

impl WordSlot {
    pub open spec fn variants_view(&self) -> Seq<(Seq<char>, Set<u32>)> {
        self.variants@.map_values(|v: WordVariant| variant_view(v))
    }
}

/// The pairs that variant `a` forms with the variants `s2`, in order, leaving
/// out those that share no document.
pub open spec fn pairs_with(a: (Seq<char>, Set<u32>), s2: Seq<(Seq<char>, Set<u32>)>) -> Seq<
    (Seq<char>, Seq<char>),
>
    decreases s2.len(),
{
    if s2.len() == 0 {
        Seq::empty()
    } else {
        let rest = pairs_with(a, s2.drop_last());
        if a.1.disjoint(s2.last().1) {
            rest
        } else {
            rest.push((a.0, s2.last().0))
        }
    }
}

/// All pairs of a variant of `s1` and a variant of `s2` that share a document,
/// by the order of `s1`, then of `s2`.
pub open spec fn pruned_pairs(s1: Seq<(Seq<char>, Set<u32>)>, s2: Seq<(Seq<char>, Set<u32>)>) -> Seq<
    (Seq<char>, Seq<char>),
>
    decreases s1.len(),
{
    if s1.len() == 0 {
        Seq::empty()
    } else {
        pruned_pairs(s1.drop_last(), s2) + pairs_with(s1.last(), s2)
    }
}

pub open spec fn str_pairs_view(r: Seq<(&str, &str)>) -> Seq<(Seq<char>, Seq<char>)> {
    r.map_values(|p: (&str, &str)| (p.0@, p.1@))
}

/// The pairs of variants of two adjacent slots whose documents intersect.
pub fn words_pair_combinations<'h>(w1: &'h WordSlot, w2: &'h WordSlot) -> (r: Vec<(&'h str, &'h str)>)
    ensures
        str_pairs_view(r@) == pruned_pairs(w1.variants_view(), w2.variants_view()),
{
    let ghost s1 = w1.variants_view();
    let ghost s2 = w2.variants_view();
    let mut pairs: Vec<(&'h str, &'h str)> = Vec::new();
    let mut i: usize = 0;
    while i < w1.variants.len()
        invariant
            i <= w1.variants@.len(),
            s1 == w1.variants_view(),
            s2 == w2.variants_view(),
            str_pairs_view(pairs@) == pruned_pairs(s1.take(i as int), s2),
        decreases w1.variants@.len() - i,
    {
        let a = &w1.variants[i];
        let mut j: usize = 0;
        while j < w2.variants.len()
            invariant
                i < w1.variants@.len(),
                j <= w2.variants@.len(),
                s1 == w1.variants_view(),
                s2 == w2.variants_view(),
                *a == w1.variants@[i as int],
                str_pairs_view(pairs@) == pruned_pairs(s1.take(i as int), s2) + pairs_with(
                    s1[i as int],
                    s2.take(j as int),
                ),
            decreases w2.variants@.len() - j,
        {
            let b = &w2.variants[j];
            let ghost before = pairs@;
            assert(s2.take(j as int + 1).drop_last() =~= s2.take(j as int));
            assert(s2.take(j as int + 1).last() == s2[j as int]);
            assert(s1[i as int] == variant_view(*a));
            assert(s2[j as int] == variant_view(*b));
            if !docids_disjoint(&a.docids, &b.docids) {
                pairs.push((a.word.as_str(), b.word.as_str()));
                assert(str_pairs_view(pairs@) =~= str_pairs_view(before).push((a.word@, b.word@)));
            }
            assert(pairs_with(s1[i as int], s2.take(j as int + 1)) == if s1[i as int].1.disjoint(
                s2[j as int].1,
            ) {
                pairs_with(s1[i as int], s2.take(j as int))
            } else {
                pairs_with(s1[i as int], s2.take(j as int)).push((s1[i as int].0, s2[j as int].0))
            });
            j += 1;
        }
        assert(s2.take(j as int) =~= s2);
        assert(s1.take(i as int + 1).drop_last() =~= s1.take(i as int));
        i += 1;
    }
    assert(s1.take(i as int) =~= s1);
    pairs
}

/// Variant `i` of `s1` and variant `j` of `s2` share a document.
pub open spec fn meets(s1: Seq<(Seq<char>, Set<u32>)>, s2: Seq<(Seq<char>, Set<u32>)>, i: int, j: int) -> bool {
    !s1[i].1.disjoint(s2[j].1)
}

/// `pr` is the pair of words of variant `i` of `s1` and variant `j` of `s2`,
/// and these share a document.
pub open spec fn joins(
    s1: Seq<(Seq<char>, Set<u32>)>,
    s2: Seq<(Seq<char>, Set<u32>)>,
    i: int,
    j: int,
    pr: (Seq<char>, Seq<char>),
) -> bool {
    0 <= i < s1.len() && 0 <= j < s2.len() && meets(s1, s2, i, j) && word_pair(s1, s2, i, j) == pr
}

/// The words of variant `i` of `s1` and variant `j` of `s2`.
pub open spec fn word_pair(s1: Seq<(Seq<char>, Set<u32>)>, s2: Seq<(Seq<char>, Set<u32>)>, i: int, j: int) -> (
    Seq<char>,
    Seq<char>,
) {
    (s1[i].0, s2[j].0)
}

proof fn lemma_pairs_with(a: (Seq<char>, Set<u32>), s2: Seq<(Seq<char>, Set<u32>)>)
    ensures
        forall|k: int|
            #![trigger pairs_with(a, s2)[k]]
            0 <= k < pairs_with(a, s2).len() ==> exists|j: int|
                #![trigger s2[j]]
                0 <= j < s2.len() && !a.1.disjoint(s2[j].1) && (
                    a.0,
                    s2[j].0,
                ) == pairs_with(a, s2)[k],
        forall|j: int|
            0 <= j < s2.len() && !#[trigger] a.1.disjoint(s2[j].1) ==> pairs_with(a, s2).contains(
                (a.0, s2[j].0),
            ),
    decreases s2.len(),
{
    if s2.len() > 0 {
        let t = s2.drop_last();
        lemma_pairs_with(a, t);
        let r = pairs_with(a, s2);
        let rt = pairs_with(a, t);
        assert forall|k: int| #![trigger pairs_with(a, s2)[k]]
            0 <= k < pairs_with(a, s2).len() implies (exists|j: int|
            #![trigger s2[j]]
            0 <= j < s2.len() && !a.1.disjoint(s2[j].1) && (a.0, s2[j].0) == pairs_with(a, s2)[k]) by {
            if k < rt.len() {
                let j = choose|j: int|
                    #![trigger t[j]]
                    0 <= j < t.len() && !a.1.disjoint(t[j].1) && (
                        a.0,
                        t[j].0,
                    ) == rt[k];
                assert(s2[j] == t[j]);
                assert(pairs_with(a, s2)[k] == rt[k]);
            } else {
                assert(s2[s2.len() - 1] == s2.last());
                assert(!a.1.disjoint(s2.last().1));
                assert(pairs_with(a, s2)[k] == (a.0, s2[s2.len() - 1].0));
            }
        }
        assert forall|j: int| 0 <= j < s2.len() && !#[trigger] a.1.disjoint(s2[j].1) implies r.contains(
            (a.0, s2[j].0),
        ) by {
            if j < t.len() {
                assert(t[j] == s2[j]);
                let k = choose|k: int| 0 <= k < rt.len() && rt[k] == (a.0, t[j].0);
                assert(r[k] == rt[k]);
            } else {
                assert(r[r.len() - 1] == (a.0, s2[j].0));
            }
        }
    } else {
        assert(pairs_with(a, s2).len() == 0);
    }
}

/// Pruning keeps only pairs that share a document: the `k`-th pair kept joins
/// a variant of the first slot and one of the second whose documents meet.
pub proof fn lemma_kept_pair_joins(s1: Seq<(Seq<char>, Set<u32>)>, s2: Seq<(Seq<char>, Set<u32>)>, k: int)
    requires
        0 <= k < pruned_pairs(s1, s2).len(),
    ensures
        exists|i: int, j: int| #[trigger] joins(s1, s2, i, j, pruned_pairs(s1, s2)[k]),
    decreases s1.len(),
{
    if s1.len() == 0 {
        assert(pruned_pairs(s1, s2).len() == 0);
    } else {
        let t = s1.drop_last();
        let a = s1.last();
        let r = pruned_pairs(s1, s2);
        let rt = pruned_pairs(t, s2);
        let ra = pairs_with(a, s2);
        assert(r == rt + ra);
        if k < rt.len() {
            lemma_kept_pair_joins(t, s2, k);
            let (i, j) = choose|i: int, j: int| #[trigger] joins(t, s2, i, j, rt[k]);
            assert(s1[i] == t[i]);
            assert(r[k] == rt[k]);
            assert(joins(s1, s2, i, j, r[k]));
        } else {
            lemma_pairs_with(a, s2);
            assert(0 <= k - rt.len() < ra.len());
            let j = choose|j: int|
                #![trigger s2[j]]
                0 <= j < s2.len() && !a.1.disjoint(s2[j].1) && (a.0, s2[j].0) == ra[k - rt.len()];
            assert(s1[s1.len() - 1] == a);
            assert(r[k] == ra[k - rt.len()]);
            assert(joins(s1, s2, s1.len() - 1, j, r[k]));
        }
    }
}

/// Pruning keeps every pair that shares a document: when variant `i` of the
/// first slot and variant `j` of the second share one, their words are kept.
pub proof fn lemma_sharing_pair_kept(
    s1: Seq<(Seq<char>, Set<u32>)>,
    s2: Seq<(Seq<char>, Set<u32>)>,
    i: int,
    j: int,
)
    requires
        0 <= i < s1.len(),
        0 <= j < s2.len(),
        meets(s1, s2, i, j),
    ensures
        pruned_pairs(s1, s2).contains(word_pair(s1, s2, i, j)),
    decreases s1.len(),
{
    let t = s1.drop_last();
    let a = s1.last();
    let r = pruned_pairs(s1, s2);
    let rt = pruned_pairs(t, s2);
    let ra = pairs_with(a, s2);
    assert(r == rt + ra);
    if i < t.len() {
        assert(s1[i] == t[i]);
        lemma_sharing_pair_kept(t, s2, i, j);
        let k = choose|k: int| 0 <= k < rt.len() && rt[k] == word_pair(t, s2, i, j);
        assert(r[k] == rt[k]);
    } else {
        lemma_pairs_with(a, s2);
        assert(s1[i] == a);
        assert(!a.1.disjoint(s2[j].1));
        let k = choose|k: int| 0 <= k < ra.len() && ra[k] == (a.0, s2[j].0);
        assert(r[rt.len() + k] == ra[k]);
    }
}

} // verus!
