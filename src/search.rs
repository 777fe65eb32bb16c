//! The budgeted depth-first search over per-pair proximity costs.
//!
//! Pair `i` joins slot `i` and slot `i + 1`. The union cache holds, for each
//! pair and each proximity from 1 to 7, the documents that the store records
//! for some pruned variant pair of it at that proximity, once they are known.
//! Proximity 8 puts no constraint on a pair: its documents are the candidates.

use crate::docids::{copy_docids, docid_set, docids_empty, intersect_with};
use roaring::RoaringBitmap;
use vstd::prelude::*;

verus! {

/// Largest proximity; it stands for "no closeness required".
pub const MAX_PROXIMITY: u8 = 8;

/// Number of cache entries per pair: the proximities below the largest.
pub const ENTRIES_PER_PAIR: usize = 7;

/// Where the union of pair `i` at proximity `p` stands in the cache.
pub open spec fn cache_index(i: int, p: int) -> int {
    7 * i + p - 1
}

pub open spec fn cache_view(c: Seq<Option<RoaringBitmap>>) -> Seq<Option<Set<u32>>> {
    c.map_values(
        |o: Option<RoaringBitmap>|
            match o {
                Some(b) => Some(docid_set(b)),
                None => None,
            },
    )
}

/// The documents that pair `i` contributes at proximity `p`, if known.
pub open spec fn pair_docids(cache: Seq<Option<Set<u32>>>, cands: Set<u32>, i: int, p: int) -> Option<
    Set<u32>,
> {
    if p == 8 {
        Some(cands)
    } else {
        cache[cache_index(i, p)]
    }
}

/// Number of pairs after pair `i` among `n` slots.
pub open spec fn children(n: int, i: int) -> int {
    n - 2 - i
}

/// The least proximity pair `i` may take with `mana` left: the pairs after it
/// can take at most 8 each.
pub open spec fn min_proximity(n: int, i: int, mana: int) -> int {
    if mana - 8 * children(n, i) > 1 {
        mana - 8 * children(n, i)
    } else {
        1
    }
}

/// The greatest proximity pair `i` may take with `mana` left: the pairs after
/// it need at least 1 each.
pub open spec fn max_proximity(n: int, i: int, mana: int) -> int {
    if mana - children(n, i) < 8 {
        mana - children(n, i)
    } else {
        8
    }
}

/// What a search comes to.
pub ghost enum SearchView {
    /// The documents of the first assignment found.
    Docids(Set<u32>),
    /// No assignment of this mana leaves a document.
    Nothing,
    /// The search needs the union of this pair at this proximity first.
    Missing(int, int),
}

/// The search over pairs `i..n-1` with `mana` to spend, within the documents
/// `parent`, trying proximities from `p` up for pair `i`. The first proximity
/// whose documents meet `parent` and from which the later pairs find documents
/// decides; those documents are the result.
pub open spec fn search_from(
    cache: Seq<Option<Set<u32>>>,
    cands: Set<u32>,
    n: int,
    i: int,
    mana: int,
    parent: Set<u32>,
    p: int,
) -> SearchView
    decreases n - i, 9 - p,
{
    if i < 0 || i + 2 > n || p < 1 || p > 8 || p > max_proximity(n, i, mana) {
        SearchView::Nothing
    } else {
        match pair_docids(cache, cands, i, p) {
            None => SearchView::Missing(i, p),
            Some(u) => {
                let d = u.intersect(parent);
                if d == Set::<u32>::empty() {
                    search_from(cache, cands, n, i, mana, parent, p + 1)
                } else if i + 2 == n {
                    SearchView::Docids(d)
                } else {
                    match search_from(
                        cache,
                        cands,
                        n,
                        i + 1,
                        mana - p,
                        d,
                        min_proximity(n, i + 1, mana - p),
                    ) {
                        SearchView::Nothing => search_from(cache, cands, n, i, mana, parent, p + 1),
                        found => found,
                    }
                }
            },
        }
    }
}

/// A whole search of `n` slots at `mana`, within the candidates.
pub open spec fn search(cache: Seq<Option<Set<u32>>>, cands: Set<u32>, n: int, mana: int) -> SearchView {
    search_from(cache, cands, n, 0, mana, cands, min_proximity(n, 0, mana))
}

/// What a search finds lies within `parent` and is never empty; a union it
/// asks for is one of a pair it searches, at a proximity below 8, not yet in
/// the cache.
pub proof fn lemma_search_outcome(
    cache: Seq<Option<Set<u32>>>,
    cands: Set<u32>,
    n: int,
    i: int,
    mana: int,
    parent: Set<u32>,
    p: int,
)
    ensures
        search_from(cache, cands, n, i, mana, parent, p) is Docids ==> {
            let d = search_from(cache, cands, n, i, mana, parent, p)->Docids_0;
            d.subset_of(parent) && d != Set::<u32>::empty()
        },
        search_from(cache, cands, n, i, mana, parent, p) is Missing ==> {
            let (j, q) = (
                search_from(cache, cands, n, i, mana, parent, p)->Missing_0,
                search_from(cache, cands, n, i, mana, parent, p)->Missing_1,
            );
            &&& i <= j
            &&& j + 2 <= n
            &&& 1 <= q < 8
            &&& cache[cache_index(j, q)] is None
        },
    decreases n - i, 9 - p,
{
    if i < 0 || i + 2 > n || p < 1 || p > 8 || p > max_proximity(n, i, mana) {
    } else {
        match pair_docids(cache, cands, i, p) {
            None => {},
            Some(u) => {
                let d = u.intersect(parent);
                lemma_search_outcome(cache, cands, n, i, mana, parent, p + 1);
                if d != Set::<u32>::empty() && i + 2 != n {
                    lemma_search_outcome(
                        cache,
                        cands,
                        n,
                        i + 1,
                        mana - p,
                        d,
                        min_proximity(n, i + 1, mana - p),
                    );
                }
            },
        }
    }
}

/// What a search returns.
pub enum SearchOutcome {
    Found(RoaringBitmap),
    NotFound,
    Missing { pair: usize, proximity: u8 },
}

impl SearchOutcome {
    pub open spec fn view(&self) -> SearchView {
        match self {
            SearchOutcome::Found(b) => SearchView::Docids(docid_set(*b)),
            SearchOutcome::NotFound => SearchView::Nothing,
            SearchOutcome::Missing { pair, proximity } => SearchView::Missing(
                *pair as int,
                *proximity as int,
            ),
        }
    }
}

/// Searches pairs `i..n-1` for an assignment of proximities that sums to
/// `mana` and leaves documents within `parent`.
pub fn mdfs_step(
    cache: &Vec<Option<RoaringBitmap>>,
    n: usize,
    i: usize,
    mana: u32,
    candidates: &RoaringBitmap,
    parent: &RoaringBitmap,
) -> (r: SearchOutcome)
    requires
        i + 2 <= n,
        8 * n <= u32::MAX,
        cache@.len() == 7 * (n - 1),
        mana >= n - 1 - i,
    ensures
        r.view() == search_from(
            cache_view(cache@),
            docid_set(*candidates),
            n as int,
            i as int,
            mana as int,
            docid_set(*parent),
            min_proximity(n as int, i as int, mana as int),
        ),
    decreases n - i,
{
    let ghost c = cache_view(cache@);
    let ghost cands = docid_set(*candidates);
    let ghost par = docid_set(*parent);
    let nb_children = (n - 2 - i) as u32;
    let min_p: u32 = if mana > 8 * nb_children + 1 {
        mana - 8 * nb_children
    } else {
        1
    };
    let max_p: u32 = if mana - nb_children < 8 {
        mana - nb_children
    } else {
        8
    };
    let mut p: u32 = min_p;
    while p <= max_p
        invariant
            1 <= p,
            i + 2 <= n,
            8 * n <= u32::MAX,
            cache@.len() == 7 * (n - 1),
            min_p <= p,
            max_p <= 8,
            max_p == max_proximity(n as int, i as int, mana as int),
            min_p == min_proximity(n as int, i as int, mana as int),
            c == cache_view(cache@),
            cands == docid_set(*candidates),
            par == docid_set(*parent),
            search_from(c, cands, n as int, i as int, mana as int, par, min_p as int) == search_from(
                c,
                cands,
                n as int,
                i as int,
                mana as int,
                par,
                p as int,
            ),
        decreases 9 - p,
    {
        let mut docids = if p == 8 {
            copy_docids(candidates)
        } else {
            assert(7 * i + 6 < 7 * (n - 1)) by (nonlinear_arith)
                requires
                    i + 2 <= n,
            ;
            let k = 7 * i + (p as usize - 1);
            match &cache[k] {
                Some(u) => {
                    assert(c[k as int] == Some(docid_set(*u)));
                    copy_docids(u)
                },
                None => {
                    assert(c[k as int] == None::<Set<u32>>);
                    return SearchOutcome::Missing { pair: i, proximity: p as u8 };
                },
            }
        };
        assert(pair_docids(c, cands, i as int, p as int) == Some(docid_set(docids)));
        intersect_with(&mut docids, parent);
        if !docids_empty(&docids) {
            if i + 2 == n {
                return SearchOutcome::Found(docids);
            }
            let sub = mdfs_step(cache, n, i + 1, mana - p, candidates, &docids);
            match sub {
                SearchOutcome::NotFound => {},
                _ => {
                    return sub;
                },
            }
        }
        p += 1;
    }
    SearchOutcome::NotFound
}

} // verus!
