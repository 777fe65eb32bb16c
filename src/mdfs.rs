//! The ranked iterator: iterative deepening over the total proximity cost.
//!
//! Each batch holds the documents found at one mana; batches come tightest
//! first and never repeat a document. The store is not reached from here: when
//! the search needs the union of a pair at a proximity, the step machine asks
//! for it, and the caller looks up the pruned variant pairs and hands the
//! results back.

use crate::docids::{
    difference_with, docid_set, docids_empty, empty_docids, lemma_docids_finite,
    union_with,
};
use crate::search::{
    cache_index, cache_view, mdfs_step, search, SearchOutcome, SearchView, ENTRIES_PER_PAIR,
    MAX_PROXIMITY,
};
use crate::words::{pruned_pairs, str_pairs_view, words_pair_combinations, WordSlot};
use roaring::RoaringBitmap;
use vstd::prelude::*;

verus! {

/// The state of a ranked iterator, as the contracts see it.
pub ghost struct MdfsView {
    /// Number of word slots.
    pub n: int,
    pub cache: Seq<Option<Set<u32>>>,
    /// Documents not yet found.
    pub candidates: Set<u32>,
    /// Documents found at the current mana, not yet handed out.
    pub answer: Set<u32>,
    pub mana: int,
    pub max_mana: int,
}

/// What one step of the iterator does, as the contracts see it.
pub ghost enum StepView {
    Searching,
    Batch(Set<u32>),
    Exhausted,
    Lookup(int, int),
}

/// What one step of the iterator does.
pub enum Step {
    /// The state moved on; step again.
    Searching,
    /// The next ranked batch.
    Batch(RoaringBitmap),
    /// No batch is left.
    Exhausted,
    /// The search needs the union of `pair` at `proximity`: look up the pairs
    /// that `lookup_pairs` gives and hand the results to `provide_lookups`.
    Lookup { pair: usize, proximity: u8 },
}

impl Step {
    pub open spec fn view(&self) -> StepView {
        match self {
            Step::Searching => StepView::Searching,
            Step::Batch(b) => StepView::Batch(docid_set(*b)),
            Step::Exhausted => StepView::Exhausted,
            Step::Lookup { pair, proximity } => StepView::Lookup(*pair as int, *proximity as int),
        }
    }
}

/// Number of adjacent pairs among `n` slots.
pub open spec fn pair_count(n: int) -> int {
    if n >= 1 {
        n - 1
    } else {
        0
    }
}

/// The documents not yet handed out.
pub open spec fn unreported(v: MdfsView) -> Set<u32> {
    v.candidates.union(v.answer)
}

pub open spec fn wf_view(v: MdfsView) -> bool {
    &&& 0 <= v.n
    &&& 8 * v.n <= u32::MAX
    &&& v.cache.len() == 7 * pair_count(v.n)
    &&& v.max_mana == 8 * pair_count(v.n)
    &&& pair_count(v.n) <= v.mana <= v.max_mana + 1
    &&& v.answer.disjoint(v.candidates)
    &&& v.n <= 1 ==> v.answer == Set::<u32>::empty()
}

/// A new iterator over `n` slots and the candidates `cands`.
pub open spec fn fresh_view(n: int, cands: Set<u32>) -> MdfsView {
    MdfsView {
        n,
        cache: Seq::new((7 * pair_count(n)) as nat, |k: int| None::<Set<u32>>),
        candidates: cands,
        answer: Set::empty(),
        mana: pair_count(n),
        max_mana: 8 * pair_count(n),
    }
}

/// One step: with 0 or 1 slots, hand out all candidates once; else search at
/// the current mana, keep what is found and search again, and when nothing
/// more is found hand out what was kept and go on to the next mana.
pub open spec fn advance_spec(v: MdfsView) -> (MdfsView, StepView) {
    if v.mana > v.max_mana {
        (v, StepView::Exhausted)
    } else if v.n <= 1 {
        let w = MdfsView { mana: v.mana + 1, candidates: Set::empty(), ..v };
        if v.candidates == Set::<u32>::empty() {
            (w, StepView::Exhausted)
        } else {
            (w, StepView::Batch(v.candidates))
        }
    } else {
        match search(v.cache, v.candidates, v.n, v.mana) {
            SearchView::Docids(a) => (
                MdfsView {
                    candidates: v.candidates.difference(a),
                    answer: v.answer.union(a),
                    ..v
                },
                StepView::Searching,
            ),
            SearchView::Nothing => if v.answer == Set::<u32>::empty() {
                (MdfsView { mana: v.mana + 1, ..v }, StepView::Searching)
            } else {
                (
                    MdfsView { mana: v.mana + 1, answer: Set::empty(), ..v },
                    StepView::Batch(v.answer),
                )
            },
            SearchView::Missing(i, p) => (v, StepView::Lookup(i, p)),
        }
    }
}

/// Steps taken until one does more than search, at most `k + 1` of them.
pub open spec fn run(v: MdfsView, k: nat) -> (MdfsView, StepView)
    decreases k,
{
    let (w, o) = advance_spec(v);
    if k == 0 || o != StepView::Searching {
        (w, o)
    } else {
        run(w, (k - 1) as nat)
    }
}

/// The documents of the unions handed back for one pair and proximity.
pub open spec fn union_found(s: Seq<Option<RoaringBitmap>>) -> Set<u32>
    decreases s.len(),
{
    if s.len() == 0 {
        Set::empty()
    } else {
        let rest = union_found(s.drop_last());
        match s.last() {
            Some(b) => rest.union(docid_set(b)),
            None => rest,
        }
    }
}

/// A run that has only searched so far goes on with one more step.
pub proof fn lemma_run_extend(v: MdfsView, k: nat, w: MdfsView)
    requires
        run(v, k) == (w, StepView::Searching),
    ensures
        run(v, k + 1) == advance_spec(w),
    decreases k,
{
    let (v1, o) = advance_spec(v);
    if k > 0 {
        assert(o == StepView::Searching);
        lemma_run_extend(v1, (k - 1) as nat, w);
        assert(run(v, k + 1) == run(v1, k));
    } else {
        assert(v1 == w && o == StepView::Searching);
        assert(run(v, 1) == run(v1, 0));
    }
}

/// The documents that a step hands out.
pub open spec fn batch_of(o: StepView) -> Set<u32> {
    match o {
        StepView::Batch(b) => b,
        _ => Set::empty(),
    }
}

/// One step keeps the state well formed, hands out a non-empty batch of
/// unreported documents or none, and never lowers the mana; a batch raises it.
pub proof fn lemma_advance_step(v: MdfsView)
    requires
        wf_view(v),
    ensures
        ({
            let (w, o) = advance_spec(v);
            &&& wf_view(w)
            &&& w.n == v.n
            &&& batch_of(o).subset_of(unreported(v))
            &&& unreported(w) == unreported(v).difference(batch_of(o))
            &&& v.mana <= w.mana
            &&& o is Batch ==> w.mana == v.mana + 1 && batch_of(o) != Set::<u32>::empty()
            &&& o is Lookup ==> w == v && 0 <= o->Lookup_0 && o->Lookup_0 + 2 <= v.n && 1
                <= o->Lookup_1 < 8 && v.cache[cache_index(o->Lookup_0, o->Lookup_1)] is None
            &&& o == StepView::Searching ==> (v.mana < w.mana || (v.mana == w.mana
                && w.candidates.len() < v.candidates.len()))
        }),
{
    let (w, o) = advance_spec(v);
    lemma_docids_finite(v.candidates);
    if v.mana <= v.max_mana && v.n > 1 {
        crate::search::lemma_search_outcome(
            v.cache,
            v.candidates,
            v.n,
            0,
            v.mana,
            v.candidates,
            crate::search::min_proximity(v.n, 0, v.mana),
        );
        match search(v.cache, v.candidates, v.n, v.mana) {
            SearchView::Docids(a) => {
                assert(exists|x: u32| a.contains(x)) by {
                    if !(exists|x: u32| a.contains(x)) {
                        assert(a =~= Set::<u32>::empty());
                    }
                }
                let x = a.choose();
                assert(a.contains(x));
                vstd::set_lib::lemma_len_subset(w.candidates, v.candidates.remove(x));
            },
            _ => {},
        }
    }
    assert(unreported(w) =~= unreported(v).difference(batch_of(o)));
}

/// A mana-budgeted depth-first search over a sequence of word slots, handing
/// out the candidates in batches of increasing total proximity.
pub struct Mdfs {
    words: Vec<WordSlot>,
    union_cache: Vec<Option<RoaringBitmap>>,
    candidates: RoaringBitmap,
    answer: RoaringBitmap,
    mana: u32,
    max_mana: u32,
}

impl View for Mdfs {
    type V = MdfsView;

    closed spec fn view(&self) -> MdfsView {
        MdfsView {
            n: self.words@.len() as int,
            cache: cache_view(self.union_cache@),
            candidates: docid_set(self.candidates),
            answer: docid_set(self.answer),
            mana: self.mana as int,
            max_mana: self.max_mana as int,
        }
    }
}

impl Mdfs {
    /// The word slots searched.
    pub closed spec fn slots(&self) -> Seq<WordSlot> {
        self.words@
    }

    pub open spec fn wf(&self) -> bool {
        wf_view(self@)
    }

    /// A new iterator: the mana starts at the number of pairs, where each
    /// pair is as close as can be.
    pub fn new(words: Vec<WordSlot>, candidates: RoaringBitmap) -> (r: Mdfs)
        requires
            8 * words@.len() <= u32::MAX,
        ensures
            r.wf(),
            r@ == fresh_view(words@.len() as int, docid_set(candidates)),
            r.slots() == words@,
    {
        let n = words.len();
        let mana: u32 = if n >= 1 {
            (n - 1) as u32
        } else {
            0
        };
        let mut union_cache: Vec<Option<RoaringBitmap>> = Vec::new();
        let mut k: usize = 0;
        while k < mana as usize * ENTRIES_PER_PAIR
            invariant
                8 * n <= u32::MAX,
                mana as int == pair_count(n as int),
                k <= 7 * mana,
                union_cache@.len() == k,
                forall|j: int| 0 <= j < k ==> union_cache@[j] is None,
            decreases 7 * mana - k,
        {
            union_cache.push(None);
            k += 1;
        }
        let r = Mdfs {
            words,
            union_cache,
            candidates,
            answer: empty_docids(),
            mana,
            max_mana: mana * 8,
        };
        assert(r@.cache =~= fresh_view(n as int, docid_set(r.candidates)).cache);
        r
    }

    /// The documents not yet found.
    pub fn candidates(&self) -> (r: &RoaringBitmap)
        ensures
            docid_set(*r) == self@.candidates,
    {
        &self.candidates
    }

    /// The mana that the next search spends.
    pub fn mana(&self) -> (r: u32)
        ensures
            r == self@.mana,
    {
        self.mana
    }

    /// The variant pairs to look up for `pair`: those of slots `pair` and
    /// `pair + 1` that share a document.
    pub fn lookup_pairs(&self, pair: usize) -> (r: Vec<(&str, &str)>)
        requires
            pair + 1 < self.slots().len(),
        ensures
            str_pairs_view(r@) == pruned_pairs(
                self.slots()[pair as int].variants_view(),
                self.slots()[pair + 1].variants_view(),
            ),
    {
        let n = self.words.len();
        assert(self.slots() == self.words@);
        words_pair_combinations(&self.words[pair], &self.words[pair + 1])
    }

    /// Stores the union of the documents looked up for `pair` at `proximity`.
    pub fn provide_lookups(&mut self, pair: usize, proximity: u8, found: Vec<Option<RoaringBitmap>>)
        requires
            old(self).wf(),
            pair + 2 <= old(self)@.n,
            1 <= proximity < MAX_PROXIMITY,
        ensures
            final(self).wf(),
            final(self).slots() == old(self).slots(),
            final(self)@ == (MdfsView {
                cache: old(self)@.cache.update(
                    cache_index(pair as int, proximity as int),
                    Some(union_found(found@)),
                ),
                ..old(self)@
            }),
    {
        let mut u = empty_docids();
        let mut j: usize = 0;
        while j < found.len()
            invariant
                j <= found@.len(),
                docid_set(u) == union_found(found@.take(j as int)),
            decreases found@.len() - j,
        {
            assert(found@.take(j as int + 1).drop_last() =~= found@.take(j as int));
            match &found[j] {
                Some(b) => union_with(&mut u, b),
                None => {},
            }
            j += 1;
        }
        assert(found@.take(j as int) =~= found@);
        assert(7 * pair + 6 < 7 * (self.words.len() - 1)) by (nonlinear_arith)
            requires
                pair + 2 <= self.words@.len(),
        ;
        let k = ENTRIES_PER_PAIR * pair + (proximity as usize - 1);
        let ghost before = self.union_cache@;
        self.union_cache.set(k, Some(u));
        assert(cache_view(self.union_cache@) =~= cache_view(before).update(
            k as int,
            Some(union_found(found@)),
        ));
    }

    /// One step of the iterator; see `advance_spec`.
    pub fn advance(&mut self) -> (r: Step)
        requires
            old(self).wf(),
        ensures
            final(self).wf(),
            final(self).slots() == old(self).slots(),
            (final(self)@, r.view()) == advance_spec(old(self)@),
    {
        proof {
            lemma_advance_step(self@);
        }
        let ghost v = self@;
        if self.mana > self.max_mana {
            return Step::Exhausted;
        }
        if self.words.len() <= 1 {
            self.mana = self.mana + 1;
            let mut taken = empty_docids();
            std::mem::swap(&mut taken, &mut self.candidates);
            assert(self@ == advance_spec(v).0);
            if docids_empty(&taken) {
                return Step::Exhausted;
            }
            return Step::Batch(taken);
        }
        let n = self.words.len();
        let outcome = mdfs_step(&self.union_cache, n, 0, self.mana, &self.candidates, &self.candidates);
        match outcome {
            SearchOutcome::Found(a) => {
                difference_with(&mut self.candidates, &a);
                union_with(&mut self.answer, &a);
                assert(self@ == advance_spec(v).0);
                Step::Searching
            },
            SearchOutcome::NotFound => {
                self.mana = self.mana + 1;
                if docids_empty(&self.answer) {
                    assert(self@ == advance_spec(v).0);
                    Step::Searching
                } else {
                    let mut taken = empty_docids();
                    std::mem::swap(&mut taken, &mut self.answer);
                    assert(self@ == advance_spec(v).0);
                    Step::Batch(taken)
                }
            },
            SearchOutcome::Missing { pair, proximity } => Step::Lookup { pair, proximity },
        }
    }

    /// Steps until a step does more than search: it hands out a batch, finds
    /// that none is left, or asks for a lookup.
    pub fn next_step(&mut self) -> (r: Step)
        requires
            old(self).wf(),
        ensures
            final(self).wf(),
            final(self).slots() == old(self).slots(),
            r.view() != StepView::Searching,
            r is Lookup ==> r->pair + 2 <= final(self)@.n && 1 <= r->proximity < MAX_PROXIMITY
                && final(self)@.cache[cache_index(r->pair as int, r->proximity as int)] is None,
            exists|k: nat| run(old(self)@, k) == (final(self)@, r.view()),
    {
        let ghost start = self@;
        let ghost mut steps: nat = 0;
        loop
            invariant
                self.wf(),
                self.slots() == old(self).slots(),
                start == old(self)@,
                steps == 0 ==> self@ == start,
                steps > 0 ==> run(start, (steps - 1) as nat) == (self@, StepView::Searching),
            decreases self@.max_mana + 1 - self@.mana, self@.candidates.len(),
        {
            let ghost before = self@;
            proof {
                lemma_advance_step(before);
                if steps > 0 {
                    lemma_run_extend(start, (steps - 1) as nat, before);
                }
            }
            let r = self.advance();
            proof {
                steps = steps + 1;
            }
            match r {
                Step::Searching => {},
                _ => {
                    proof {
                        lemma_advance_step(before);
                    }
                    assert(run(start, (steps - 1) as nat) == (self@, r.view()));
                    return r;
                },
            }
        }
    }
}

} // verus!
