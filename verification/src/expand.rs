//! Multi-layer neighborhood expansion for one leaf.
//!
//! The expansion starts from the leaf's query vector at the seed
//! threshold, then repeatedly expands from each found memory's own vector
//! at a strictly higher threshold, gating neighbors by tag overlap from
//! the second layer on, until the node budget or the depth cap is hit.
//! The storage searches themselves happen at the edge; this state machine
//! takes every search's results as plain values and does all the
//! bookkeeping: visited-set deduplication, the budget, the tag gate and
//! the layer schedule.

use vstd::prelude::*;
use vstd::math::{max, min};

use crate::score::valid_score;
use crate::text::str_eq;
use crate::types::{result_ids, views_of, Memory, QueryResult, QueryResultView};

verus! {

/// The ceiling of the threshold schedule (0.95).
pub const THRESHOLD_CEILING: u32 = 9500;

/// The per-layer threshold step (0.05).
pub const THRESHOLD_STEP: u32 = 500;

/// Parameters of one expansion, derived from the caller's limit and
/// threshold.
#[derive(Debug)]
pub struct ExpandParams {
    pub max_nodes: usize,
    pub branch_limit: usize,
    pub max_depth: usize,
    pub require_tag_overlap: bool,
    pub thresholds: Vec<u32>,
}

impl ExpandParams {
    /// The schedule has one threshold per layer, starts at the seed, and
    /// climbs by one step per layer until the ceiling.
    pub open spec fn wf(self) -> bool {
        &&& self.thresholds@.len() == self.max_depth
        &&& self.max_depth >= 1
        &&& forall|i: int|
            0 <= i < self.thresholds@.len() - 1 ==> #[trigger] self.thresholds@[i + 1] == (
            if self.thresholds@[i] + THRESHOLD_STEP <= THRESHOLD_CEILING {
                (self.thresholds@[i] + THRESHOLD_STEP) as u32
            } else if self.thresholds@[i] <= THRESHOLD_CEILING {
                THRESHOLD_CEILING
            } else {
                self.thresholds@[i]
            })
        &&& forall|i: int|
            0 <= i < self.thresholds@.len() - 1 ==> self.thresholds@[i] < #[trigger] self.thresholds@[i
                + 1] || self.thresholds@[i] >= THRESHOLD_CEILING
    }

    /// Derive the expansion parameters: a candidate budget of at least 50
    /// and ten per requested result, a branch fan-out that spreads the
    /// budget over the layers, three layers, and the tag gate switched
    /// on.
    pub fn new(limit: usize, threshold: u32) -> (r: ExpandParams)
        requires
            limit <= 1000000,
            valid_score(threshold),
        ensures
            r.wf(),
            r.max_nodes == max(50int, limit as int * 10),
            r.max_depth == 3,
            r.branch_limit == max(5int, (r.max_nodes as int + 5) / 6),
            r.require_tag_overlap == true,
            r.thresholds@[0] == threshold,
    {
        let max_nodes: usize = if limit * 10 < 50 {
            50
        } else {
            limit * 10
        };
        let spread = (max_nodes + 5) / 6;
        let branch_limit: usize = if spread < 5 {
            5
        } else {
            spread
        };
        let mut thresholds: Vec<u32> = Vec::new();
        thresholds.push(threshold);
        let mut i: usize = 0;
        while i < 2
            invariant
                i <= 2,
                thresholds@.len() == i + 1,
                thresholds@[0] == threshold,
                forall|j: int| 0 <= j < thresholds@.len() ==> thresholds@[j] <= 20000,
                forall|j: int|
                    0 <= j < thresholds@.len() - 1 ==> #[trigger] thresholds@[j + 1] == (
                    if thresholds@[j] + THRESHOLD_STEP <= THRESHOLD_CEILING {
                        (thresholds@[j] + THRESHOLD_STEP) as u32
                    } else if thresholds@[j] <= THRESHOLD_CEILING {
                        THRESHOLD_CEILING
                    } else {
                        thresholds@[j]
                    }),
                forall|j: int|
                    0 <= j < thresholds@.len() - 1 ==> thresholds@[j] < #[trigger] thresholds@[j
                        + 1] || thresholds@[j] >= THRESHOLD_CEILING,
            decreases 2 - i,
    {
            let last = thresholds[thresholds.len() - 1];
            let next: u32 = if last + THRESHOLD_STEP <= THRESHOLD_CEILING {
                last + THRESHOLD_STEP
            } else if last <= THRESHOLD_CEILING {
                THRESHOLD_CEILING
            } else {
                last
            };
            thresholds.push(next);
            i = i + 1;
        }
        ExpandParams {
            max_nodes,
            branch_limit,
            max_depth: 3,
            require_tag_overlap: true,
            thresholds,
        }
    }
}

/// Result views deduplicated by id, first occurrence kept.
pub open spec fn dedup_by_id(s: Seq<QueryResultView>) -> Seq<QueryResultView>
    decreases s.len(),
{
    if s.len() == 0 {
        Seq::empty()
    } else {
        dedup_by_id(s.drop_last()) + (if result_ids(s.drop_last()).contains(s.last().id) {
            Seq::<QueryResultView>::empty()
        } else {
            seq![s.last()]
        })
    }
}

/// Two tag lists overlap when they share at least one tag.
pub open spec fn tags_overlap(a: Seq<Seq<char>>, b: Seq<Seq<char>>) -> bool {
    exists|t: Seq<char>| a.contains(t) && b.contains(t)
}

/// One branch's results under the overlap requirement: when it is
/// switched on, only neighbors sharing a tag with the expanded memory
/// stay.
pub open spec fn gated(mem_tags: Seq<Seq<char>>, s: Seq<QueryResult>, require: bool) -> Seq<
    QueryResult,
>
    decreases s.len(),
{
    if s.len() == 0 {
        Seq::empty()
    } else {
        gated(mem_tags, s.drop_last(), require) + (if !require || tags_overlap(
            s.last()@.tags,
            mem_tags,
        ) {
            seq![s.last()]
        } else {
            Seq::<QueryResult>::empty()
        })
    }
}

/// Whether the two tag vectors share a tag.
fn tags_overlap_exec(a: &Vec<String>, b: &Vec<String>) -> (r: bool)
    ensures
        r == tags_overlap(
            a@.map_values(|t: String| t@),
            b@.map_values(|t: String| t@),
        ),
{
    let ghost av = a@.map_values(|t: String| t@);
    let ghost bv = b@.map_values(|t: String| t@);
    let n = a.len();
    let mut i: usize = 0;
    while i < n
        invariant
            n == a@.len(),
            av == a@.map_values(|t: String| t@),
            bv == b@.map_values(|t: String| t@),
            forall|ii: int, jj: int|
                #![trigger av[ii], bv[jj]]
                0 <= ii < i && 0 <= jj < bv.len() ==> av[ii] != bv[jj],
        decreases n - i,
    {
        let m = b.len();
        let mut j: usize = 0;
        while j < m
            invariant
                n == a@.len(),
                m == b@.len(),
                i < n,
                av == a@.map_values(|t: String| t@),
                bv == b@.map_values(|t: String| t@),
                forall|jj: int| 0 <= jj < j ==> av[i as int] != #[trigger] bv[jj],
            decreases m - j,
        {
            if str_eq(a[i].as_str(), b[j].as_str()) {
                proof {
                    assert(av[i as int] == bv[j as int]);
                    assert(av.contains(av[i as int]));
                    assert(bv.contains(bv[j as int]));
                }
                return true;
            }
            j = j + 1;
        }
        i = i + 1;
    }
    proof {
        if tags_overlap(av, bv) {
            let t = choose|t: Seq<char>| av.contains(t) && bv.contains(t);
            let ii = choose|ii: int| 0 <= ii < av.len() && av[ii] == t;
            let jj = choose|jj: int| 0 <= jj < bv.len() && bv[jj] == t;
            assert(av[ii] == bv[jj]);
        }
    }
    false
}

/// Apply the tag-overlap gate to one branch's results and keep at most
/// `branch_limit` of them.  From the second layer on a neighbor stays
/// only if it shares a tag with the memory it was expanded from.
pub fn filter_branch(
    memory: &Memory,
    related: Vec<QueryResult>,
    require_tag_overlap: bool,
    branch_limit: usize,
) -> (r: Vec<QueryResult>)
    ensures
        r@ == gated(memory@.tags, related@, require_tag_overlap).take(
            min(
                branch_limit as int,
                gated(memory@.tags, related@, require_tag_overlap).len() as int,
            ),
        ),
{
    let ghost mem_tags = memory@.tags;
    let ghost orig = related@;
    let mut pending = related;
    let mut kept: Vec<QueryResult> = Vec::new();
    let ghost mut k: int = 0;
    proof {
        assert(orig.take(0) =~= Seq::<QueryResult>::empty());
        assert(kept@ =~= gated(mem_tags, orig.take(0), require_tag_overlap));
    }
    while pending.len() > 0
        invariant
            0 <= k <= orig.len(),
            pending@ == orig.skip(k),
            mem_tags == memory@.tags,
            kept@ == gated(mem_tags, orig.take(k), require_tag_overlap),
        decreases pending@.len(),
    {
        let ghost pre = orig.take(k);
        let ghost pre1 = orig.take(k + 1);
        proof {
            assert(pre1.drop_last() =~= pre);
            assert(pre1.last() == orig[k]);
            assert(pending@[0] == orig[k]);
        }
        let x = pending.remove(0);
        proof {
            assert(pending@ =~= orig.skip(k + 1));
        }
        let keep = if require_tag_overlap {
            tags_overlap_exec(&x.tags, &memory.tags)
        } else {
            true
        };
        proof {
            assert(x@.tags == orig[k]@.tags);
        }
        if keep {
            kept.push(x);
            proof {
                assert(kept@ =~= gated(mem_tags, pre1, require_tag_overlap));
            }
        } else {
            proof {
                assert(kept@ =~= gated(mem_tags, pre1, require_tag_overlap));
            }
        }
        proof {
            k = k + 1;
        }
    }
    proof {
        assert(orig.take(orig.len() as int) =~= orig);
    }
    let ghost full = gated(mem_tags, orig, require_tag_overlap);
    kept.truncate(branch_limit);
    proof {
        if branch_limit as int <= full.len() {
            assert(kept@ =~= full.take(min(branch_limit as int, full.len() as int)));
        } else {
            assert(kept@ =~= full.take(min(branch_limit as int, full.len() as int)));
        }
    }
    kept
}

/// The visited-gated absorption of a stream of results: starting from
/// the already-accepted candidates, each new id is appended to both the
/// candidates and the fresh list until the budget is reached.
pub open spec fn absorb_step(
    cands: Seq<QueryResultView>,
    fresh: Seq<QueryResultView>,
    stream: Seq<QueryResultView>,
    max_nodes: int,
) -> (Seq<QueryResultView>, Seq<QueryResultView>)
    decreases stream.len(),
{
    if stream.len() == 0 || cands.len() >= max_nodes {
        (cands, fresh)
    } else {
        let x = stream.first();
        if result_ids(cands).contains(x.id) {
            absorb_step(cands, fresh, stream.drop_first(), max_nodes)
        } else {
            absorb_step(cands.push(x), fresh.push(x), stream.drop_first(), max_nodes)
        }
    }
}

/// All branch outputs of one layer, in branch order.
pub open spec fn concat_all(bs: Seq<Seq<QueryResultView>>) -> Seq<QueryResultView>
    decreases bs.len(),
{
    if bs.len() == 0 {
        Seq::empty()
    } else {
        concat_all(bs.drop_last()) + bs.last()
    }
}

/// The branch views of a layer's outputs.
pub open spec fn branch_views(bs: Seq<Vec<QueryResult>>) -> Seq<Seq<QueryResultView>> {
    bs.map_values(|b: Vec<QueryResult>| views_of(b@))
}

/// One leaf's expansion in flight.  The storage edge drives it: it runs
/// the searches the parameters call for and hands every result list back
/// through [`Expansion::absorb_layer_one`] and
/// [`Expansion::absorb_next_layer`].
pub struct Expansion {
    pub params: ExpandParams,
    pub candidates: Vec<QueryResult>,
    pub frontier: Vec<QueryResult>,
    pub layer: usize,
    /// Every result any search handed in, the provenance of the
    /// candidates.
    pub seen: Ghost<Seq<QueryResultView>>,
}

impl Expansion {
    /// The expansion's invariant: candidate ids are pairwise distinct (the
    /// visited set), every candidate was returned by some layer search,
    /// and the frontier holds candidates.
    pub open spec fn wf(self) -> bool {
        &&& self.params.wf()
        &&& forall|i: int, j: int|
            0 <= i < j < self.candidates@.len() ==> (#[trigger] self.candidates@[i]).id@ != (
            #[trigger] self.candidates@[j]).id@
        &&& forall|i: int|
            0 <= i < self.candidates@.len() ==> self.seen@.contains(
                (#[trigger] self.candidates@[i])@,
            )
        &&& forall|i: int|
            0 <= i < self.frontier@.len() ==> views_of(self.candidates@).contains(
                (#[trigger] self.frontier@[i])@,
            )
        &&& self.layer <= self.params.max_depth
    }

    /// Begin an expansion: no candidates, no searches yet.
    pub fn start(params: ExpandParams) -> (r: Expansion)
        requires
            params.wf(),
        ensures
            r.wf(),
            r.params == params,
            r.candidates@.len() == 0,
            r.frontier@.len() == 0,
            r.layer == 0,
            r.seen@.len() == 0,
    {
        Expansion {
            params,
            candidates: Vec::new(),
            frontier: Vec::new(),
            layer: 0,
            seen: Ghost(Seq::empty()),
        }
    }

    /// Absorb the first layer's search results: deduplicate by id, keep
    /// arrival order, and make the accepted results the next frontier.
    /// An empty first layer leaves the expansion finished and empty.
    pub fn absorb_layer_one(&mut self, results: Vec<QueryResult>)
        requires
            old(self).wf(),
            old(self).layer == 0,
            old(self).candidates@.len() == 0,
        ensures
            final(self).wf(),
            final(self).params == old(self).params,
            views_of(final(self).candidates@) == dedup_by_id(views_of(results@)),
            views_of(final(self).frontier@) == views_of(final(self).candidates@),
            final(self).layer == 1,
            final(self).seen@ == old(self).seen@ + views_of(results@),
    {
        proof {
            self.seen@ = self.seen@ + views_of(results@);
        }
        let ghost orig = views_of(results@);
        let mut pending = results;
        let ghost mut k: int = 0;
        proof {
            assert(orig.take(0) =~= Seq::<QueryResultView>::empty());
            assert(views_of(self.candidates@) =~= dedup_by_id(orig.take(0)));
        }
        while pending.len() > 0
            invariant
                0 <= k <= orig.len(),
                views_of(pending@) == orig.skip(k),
                views_of(self.candidates@) == dedup_by_id(orig.take(k)),
                self.seen@ == old(self).seen@ + orig,
                self.params == old(self).params,
                self.frontier@ == old(self).frontier@,
                self.layer == old(self).layer,
            decreases pending@.len(),
        {
            let ghost pre = orig.take(k);
            let ghost pre1 = orig.take(k + 1);
            proof {
                assert(views_of(pending@).len() == pending@.len());
                assert(k < orig.len());
                assert(pre1.drop_last() =~= pre);
                assert(pre1.last() == orig[k]);
                assert(orig.skip(k) =~= orig.subrange(k, orig.len() as int));
                assert(views_of(pending@)[0] == orig[k]);
                assert(pending@[0]@ == orig[k]);
            }
            let ghost pend0 = pending@;
            let x = pending.remove(0);
            proof {
                assert(x == pend0[0]);
                assert(views_of(pending@) =~= orig.skip(k + 1)) by {
                    assert(orig.skip(k) =~= orig.subrange(k, orig.len() as int));
                    assert(orig.skip(k + 1) =~= orig.subrange(k + 1, orig.len() as int));
                    assert forall|i: int|
                        0 <= i < pending@.len() implies views_of(pending@)[i] == orig.skip(
                        k + 1,
                    )[i] by {
                        assert(pending@[i] == pend0[i + 1]);
                        assert(views_of(pending@)[i] == pending@[i]@);
                        assert(views_of(pend0)[i + 1] == pend0[i + 1]@);
                        assert(views_of(pend0)[i + 1] == orig.skip(k)[i + 1]);
                        assert(orig.skip(k)[i + 1] == orig[k + 1 + i]);
                        assert(orig.skip(k + 1)[i] == orig[k + 1 + i]);
                    }
                    assert(views_of(pending@).len() == orig.skip(k + 1).len());
                }
            }
            let ghost c0 = views_of(self.candidates@);
            if !self.contains_id(x.id.as_str()) {
                proof {
                    lemma_dedup_ids(pre, x.id@);
                }
                self.candidates.push(x);
                proof {
                    assert(views_of(self.candidates@) =~= c0.push(orig[k]));
                    assert(views_of(self.candidates@) =~= dedup_by_id(pre1));
                }
            } else {
                proof {
                    lemma_dedup_ids(pre, x.id@);
                    assert(views_of(self.candidates@) =~= dedup_by_id(pre1));
                }
            }
            proof {
                k = k + 1;
            }
        }
        proof {
            assert(orig.take(orig.len() as int) =~= orig);
        }
        let frontier = clone_results(&self.candidates);
        self.frontier = frontier;
        self.layer = 1;
        proof {
            lemma_dedup_by_id_wf(orig, old(self).seen@);
            assert forall|i: int|
                0 <= i < self.candidates@.len() implies self.seen@.contains(
                (#[trigger] self.candidates@[i])@,
            ) by {
                assert(views_of(self.candidates@)[i] == self.candidates@[i]@);
                assert(dedup_by_id(orig).len() == self.candidates@.len());
                assert(dedup_by_id(orig)[i] == self.candidates@[i]@);
                assert((old(self).seen@ + orig).contains(dedup_by_id(orig)[i]));
                assert forall|w: int|
                    0 <= w < (old(self).seen@ + orig).len() implies self.seen@.contains(
                    (old(self).seen@ + orig)[w],
                ) by {
                    assert(self.seen@ == old(self).seen@ + orig);
                    assert(self.seen@[w] == (old(self).seen@ + orig)[w]);
                }
            }
            assert forall|i: int, j: int|
                0 <= i < j < self.candidates@.len() implies (#[trigger] self.candidates@[i]).id@
                != (#[trigger] self.candidates@[j]).id@ by {
                assert(views_of(self.candidates@)[i] == self.candidates@[i]@);
                assert(views_of(self.candidates@)[j] == self.candidates@[j]@);
            }
            assert forall|i: int|
                0 <= i < self.frontier@.len() implies views_of(self.candidates@).contains(
                (#[trigger] self.frontier@[i])@,
            ) by {
                assert(views_of(self.frontier@)[i] == self.frontier@[i]@);
                assert(views_of(self.candidates@)[i] == views_of(self.frontier@)[i]);
            }
        }
    }

    /// Whether a candidate with this id was already accepted.
    fn contains_id(&self, id: &str) -> (r: bool)
        ensures
            r == result_ids(views_of(self.candidates@)).contains(id@),
    {
        let n = self.candidates.len();
        let mut i: usize = 0;
        while i < n
            invariant
                n == self.candidates@.len(),
                i <= n,
                forall|j: int| 0 <= j < i ==> (#[trigger] self.candidates@[j]).id@ != id@,
            decreases n - i,
        {
            if str_eq(self.candidates[i].id.as_str(), id) {
                proof {
                    assert(result_ids(views_of(self.candidates@))[i as int] == id@);
                }
                return true;
            }
            i = i + 1;
        }
        proof {
            if result_ids(views_of(self.candidates@)).contains(id@) {
                let j = choose|j: int|
                    0 <= j < result_ids(views_of(self.candidates@)).len() && result_ids(
                        views_of(self.candidates@),
                    )[j] == id@;
                assert(self.candidates@[j].id@ == id@);
            }
        }
        false
    }

    /// Whether the schedule asks for another layer: depth left, budget
    /// left, and a frontier to expand from.
    pub fn wants_next_layer(&self) -> (r: bool)
        ensures
            r == (self.layer < self.params.max_depth && self.candidates@.len()
                < self.params.max_nodes && self.frontier@.len() > 0),
    {
        self.layer < self.params.max_depth && self.candidates.len() < self.params.max_nodes
            && self.frontier.len() > 0
    }

    /// The threshold of the next layer.
    pub fn next_threshold(&self) -> (r: u32)
        requires
            self.wf(),
            self.layer < self.params.max_depth,
        ensures
            r == self.params.thresholds@[self.layer as int],
    {
        self.params.thresholds[self.layer]
    }

    /// Absorb one layer of branch results: walk the branches in order,
    /// accept each result whose id is new until the budget is reached,
    /// and make the newly accepted results the next frontier.
    pub fn absorb_next_layer(&mut self, branches: Vec<Vec<QueryResult>>)
        requires
            old(self).wf(),
            1 <= old(self).layer < old(self).params.max_depth,
        ensures
            final(self).wf(),
            final(self).params == old(self).params,
            final(self).layer == old(self).layer + 1,
            final(self).seen@ == old(self).seen@ + concat_all(branch_views(branches@)),
            (views_of(final(self).candidates@), views_of(final(self).frontier@)) == absorb_step(
                views_of(old(self).candidates@),
                Seq::<QueryResultView>::empty(),
                concat_all(branch_views(branches@)),
                old(self).params.max_nodes as int,
            ),
    {
        let stream = flatten_branches(branches);
        let ghost full = views_of(stream@);
        proof {
            self.seen@ = self.seen@ + full;
        }
        let max_nodes = self.params.max_nodes;
        let mut fresh: Vec<QueryResult> = Vec::new();
        let mut pending = stream;
        proof {
            assert(views_of(fresh@) =~= Seq::<QueryResultView>::empty());
            assert(views_of(pending@) == full);
            assert forall|i: int| 0 <= i < pending@.len() implies full.contains(
                (#[trigger] pending@[i])@,
            ) by {
                assert(views_of(pending@)[i] == pending@[i]@);
            }
        }
        while pending.len() > 0 && self.candidates.len() < max_nodes
            invariant
                self.params == old(self).params,
                max_nodes == self.params.max_nodes,
                self.layer == old(self).layer,
                self.frontier@ == old(self).frontier@,
                self.seen@ == old(self).seen@ + full,
                forall|i: int, j: int|
                    0 <= i < j < self.candidates@.len() ==> (#[trigger] self.candidates@[i]).id@
                        != (#[trigger] self.candidates@[j]).id@,
                forall|i: int|
                    0 <= i < self.candidates@.len() ==> old(self).seen@.contains(
                        (#[trigger] self.candidates@[i])@,
                    ) || full.contains(self.candidates@[i]@),
                forall|i: int|
                    0 <= i < fresh@.len() ==> views_of(self.candidates@).contains(
                        (#[trigger] fresh@[i])@,
                    ),
                absorb_step(
                    views_of(self.candidates@),
                    views_of(fresh@),
                    views_of(pending@),
                    max_nodes as int,
                ) == absorb_step(
                    views_of(old(self).candidates@),
                    Seq::<QueryResultView>::empty(),
                    full,
                    max_nodes as int,
                ),
                forall|i: int| 0 <= i < pending@.len() ==> full.contains((#[trigger] pending@[i])@),
            decreases pending@.len(),
        {
            let ghost pend0 = pending@;
            let x = pending.remove(0);
            proof {
                assert(x == pend0[0]);
                assert(views_of(pend0).first() == pend0[0]@);
                assert(views_of(pending@) =~= views_of(pend0).drop_first()) by {
                    assert(forall|i: int|
                        0 <= i < pending@.len() ==> pending@[i] == pend0[i + 1]);
                    assert(forall|i: int|
                        0 <= i < pending@.len() ==> views_of(pending@)[i] == pend0[i + 1]@);
                    assert(forall|i: int|
                        0 <= i < pend0.len() ==> views_of(pend0)[i] == pend0[i]@);
                }
                assert(full.contains(pend0[0]@)) by {
                    assert(pend0.contains(pend0[0]));
                }
            }
            let ghost c0 = views_of(self.candidates@);
            let ghost fr0 = views_of(fresh@);
            if !self.contains_id(x.id.as_str()) {
                let y = x.clone();
                self.candidates.push(x);
                fresh.push(y);
                proof {
                    assert(views_of(self.candidates@) =~= c0.push(pend0[0]@));
                    assert(views_of(fresh@) =~= fr0.push(pend0[0]@));
                    assert forall|i: int, j: int|
                        0 <= i < j < self.candidates@.len() implies (
                    #[trigger] self.candidates@[i]).id@ != (#[trigger] self.candidates@[j]).id@ by {
                        if j == self.candidates@.len() - 1 {
                            assert(!result_ids(c0).contains(pend0[0].id@));
                            assert(result_ids(c0)[i] == c0[i].id);
                            assert(result_ids(c0).contains(result_ids(c0)[i]));
                            assert(c0[i] == self.candidates@[i]@);
                        }
                    }
                    assert forall|i: int|
                        0 <= i < fresh@.len() implies views_of(self.candidates@).contains(
                        (#[trigger] fresh@[i])@,
                    ) by {
                        if i < fresh@.len() - 1 {
                            assert(views_of(fresh@)[i] == fr0[i]);
                            let w = choose|w: int| 0 <= w < c0.len() && c0[w] == fr0[i];
                            assert(views_of(self.candidates@)[w] == c0[w]);
                        } else {
                            assert(views_of(self.candidates@).last() == pend0[0]@);
                            assert(fresh@[i]@ == pend0[0]@);
                        }
                    }
                    assert(absorb_step(
                        views_of(self.candidates@),
                        views_of(fresh@),
                        views_of(pending@),
                        max_nodes as int,
                    ) == absorb_step(
                        views_of(old(self).candidates@),
                        Seq::<QueryResultView>::empty(),
                        full,
                        max_nodes as int,
                    ));
                }
            } else {
                proof {
                    assert(result_ids(c0).contains(pend0[0]@.id));
                    assert(absorb_step(
                        views_of(self.candidates@),
                        views_of(fresh@),
                        views_of(pending@),
                        max_nodes as int,
                    ) == absorb_step(
                        views_of(old(self).candidates@),
                        Seq::<QueryResultView>::empty(),
                        full,
                        max_nodes as int,
                    ));
                }
            }
        }
        proof {
            assert(views_of(self.candidates@).len() == self.candidates@.len());
            if pending@.len() == 0 {
                assert(views_of(pending@) =~= Seq::<QueryResultView>::empty());
            }
            assert(absorb_step(
                views_of(self.candidates@),
                views_of(fresh@),
                views_of(pending@),
                max_nodes as int,
            ) == (views_of(self.candidates@), views_of(fresh@)));
            assert forall|i: int|
                0 <= i < self.candidates@.len() implies self.seen@.contains(
                (#[trigger] self.candidates@[i])@,
            ) by {
                if old(self).seen@.contains(self.candidates@[i]@) {
                    let w = choose|w: int|
                        0 <= w < old(self).seen@.len() && old(self).seen@[w]
                            == self.candidates@[i]@;
                    assert(self.seen@[w] == self.candidates@[i]@);
                } else {
                    let w = choose|w: int| 0 <= w < full.len() && full[w] == self.candidates@[i]@;
                    assert(self.seen@[old(self).seen@.len() + w] == self.candidates@[i]@);
                }
            }
        }
        self.frontier = fresh;
        self.layer = self.layer + 1;
    }
}

/// Copy a result list, view for view.
fn clone_results(v: &Vec<QueryResult>) -> (r: Vec<QueryResult>)
    ensures
        views_of(r@) == views_of(v@),
{
    let n = v.len();
    let mut r: Vec<QueryResult> = Vec::new();
    let mut i: usize = 0;
    while i < n
        invariant
            n == v@.len(),
            i <= n,
            r@.len() == i,
            forall|j: int| 0 <= j < i ==> (#[trigger] r@[j])@ == v@[j]@,
        decreases n - i,
    {
        r.push(v[i].clone());
        i = i + 1;
    }
    proof {
        assert(views_of(r@) =~= views_of(v@)) by {
            assert(forall|j: int| 0 <= j < n ==> views_of(r@)[j] == r@[j]@);
            assert(forall|j: int| 0 <= j < n ==> views_of(v@)[j] == v@[j]@);
        }
    }
    r
}

/// Flatten the branch outputs into one stream, branch order kept.
fn flatten_branches(branches: Vec<Vec<QueryResult>>) -> (r: Vec<QueryResult>)
    ensures
        views_of(r@) == concat_all(branch_views(branches@)),
{
    let ghost model = branch_views(branches@);
    let mut r: Vec<QueryResult> = Vec::new();
    let mut pending = branches;
    let ghost mut k: int = 0;
    proof {
        assert(model.take(0) =~= Seq::<Seq<QueryResultView>>::empty());
        assert(views_of(r@) =~= concat_all(model.take(0)));
    }
    while pending.len() > 0
        invariant
            0 <= k <= model.len(),
            branch_views(pending@) == model.skip(k),
            views_of(r@) == concat_all(model.take(k)),
        decreases pending@.len(),
    {
        let ghost pre = model.take(k);
        let ghost pre1 = model.take(k + 1);
        let ghost pend0 = pending@;
        proof {
            assert(branch_views(pend0).len() == pend0.len());
            assert(k < model.len());
            assert(pre1.drop_last() =~= pre);
            assert(branch_views(pend0)[0] == model.skip(k)[0]);
            assert(model.skip(k) =~= model.subrange(k, model.len() as int));
            assert(model.skip(k)[0] == model[k]);
            assert(branch_views(pend0)[0] == views_of(pend0[0]@));
            assert(pre1.last() == model[k]);
        }
        let mut branch = pending.remove(0);
        proof {
            assert(branch == pend0[0]);
            assert(branch_views(pending@) =~= model.skip(k + 1)) by {
                assert(model.skip(k) =~= model.subrange(k, model.len() as int));
                assert(model.skip(k + 1) =~= model.subrange(k + 1, model.len() as int));
                assert forall|i: int|
                    0 <= i < pending@.len() implies branch_views(pending@)[i] == model.skip(
                    k + 1,
                )[i] by {
                    assert(pending@[i] == pend0[i + 1]);
                    assert(branch_views(pending@)[i] == views_of(pending@[i]@));
                    assert(branch_views(pend0)[i + 1] == views_of(pend0[i + 1]@));
                    assert(branch_views(pend0)[i + 1] == model.skip(k)[i + 1]);
                    assert(model.skip(k)[i + 1] == model[k + 1 + i]);
                    assert(model.skip(k + 1)[i] == model[k + 1 + i]);
                }
                assert(branch_views(pending@).len() == model.skip(k + 1).len());
            }
        }
        let ghost r0 = r@;
        let ghost b0 = branch@;
        r.append(&mut branch);
        proof {
            assert(r@ == r0 + b0);
            assert(views_of(r@) =~= concat_all(pre1)) by {
                assert(views_of(r@) =~= views_of(r0) + views_of(b0)) by {
                    assert(forall|i: int| 0 <= i < r@.len() ==> views_of(r@)[i] == r@[i]@);
                    assert(forall|i: int| 0 <= i < r0.len() ==> views_of(r0)[i] == r0[i]@);
                    assert(forall|i: int| 0 <= i < b0.len() ==> views_of(b0)[i] == b0[i]@);
                }
                assert(views_of(b0) == model[k]);
            }
        }
        proof {
            k = k + 1;
        }
    }
    proof {
        assert(model.take(model.len() as int) =~= model);
    }
    r
}

/// The ids of a deduplicated list are exactly the ids of the input.
proof fn lemma_dedup_ids(s: Seq<QueryResultView>, id: Seq<char>)
    ensures
        result_ids(dedup_by_id(s)).contains(id) <==> result_ids(s).contains(id),
    decreases s.len(),
{
    if s.len() > 0 {
        lemma_dedup_ids(s.drop_last(), id);
        let d = dedup_by_id(s.drop_last());
        assert(result_ids(s).contains(id) <==> (result_ids(s.drop_last()).contains(id)
            || s.last().id == id)) by {
            if result_ids(s).contains(id) {
                let k = choose|k: int| 0 <= k < result_ids(s).len() && result_ids(s)[k] == id;
                assert(result_ids(s)[k] == s[k].id);
                if k < s.len() - 1 {
                    assert(s.drop_last()[k] == s[k]);
                    assert(result_ids(s.drop_last())[k] == s.drop_last()[k].id);
                    assert(result_ids(s.drop_last())[k] == id);
                }
            }
            if result_ids(s.drop_last()).contains(id) {
                let k = choose|k: int|
                    0 <= k < result_ids(s.drop_last()).len() && result_ids(s.drop_last())[k] == id;
                assert(result_ids(s.drop_last())[k] == s.drop_last()[k].id);
                assert(s.drop_last()[k] == s[k]);
                assert(result_ids(s)[k] == s[k].id);
                assert(result_ids(s)[k] == id);
            }
            if s.last().id == id {
                assert(result_ids(s)[s.len() - 1] == s[s.len() - 1].id);
                assert(result_ids(s).contains(id));
            }
        }
        if result_ids(s.drop_last()).contains(s.last().id) {
            assert(dedup_by_id(s) =~= d);
        } else {
            assert(dedup_by_id(s) =~= d.push(s.last()));
            assert(result_ids(dedup_by_id(s)) =~= result_ids(d).push(s.last().id)) by {
                assert(forall|i: int|
                    0 <= i < dedup_by_id(s).len() ==> result_ids(dedup_by_id(s))[i] == dedup_by_id(
                        s,
                    )[i].id);
                assert(forall|i: int| 0 <= i < d.len() ==> result_ids(d)[i] == d[i].id);
            }
            if result_ids(d).contains(id) {
                let k = choose|k: int| 0 <= k < result_ids(d).len() && result_ids(d)[k] == id;
                assert(result_ids(dedup_by_id(s))[k] == id);
            }
            if id == s.last().id {
                assert(result_ids(dedup_by_id(s)).last() == id);
            }
            if result_ids(dedup_by_id(s)).contains(id) {
                let k = choose|k: int|
                    0 <= k < result_ids(dedup_by_id(s)).len() && result_ids(dedup_by_id(s))[k]
                        == id;
                if k < result_ids(d).len() {
                    assert(result_ids(d)[k] == id);
                }
            }
        }
    }
}

/// A deduplicated list has distinct ids, and its entries come from the
/// input.
proof fn lemma_dedup_by_id_wf(s: Seq<QueryResultView>, seen: Seq<QueryResultView>)
    ensures
        forall|i: int, j: int|
            0 <= i < j < dedup_by_id(s).len() ==> (#[trigger] dedup_by_id(s)[i]).id != (
            #[trigger] dedup_by_id(s)[j]).id,
        forall|i: int|
            0 <= i < dedup_by_id(s).len() ==> (seen + s).contains(#[trigger] dedup_by_id(s)[i]),
    decreases s.len(),
{
    if s.len() > 0 {
        lemma_dedup_by_id_wf(s.drop_last(), seen);
        let d = dedup_by_id(s.drop_last());
        assert(forall|i: int|
            0 <= i < d.len() ==> (seen + s.drop_last()).contains(#[trigger] d[i]));
        assert forall|i: int| 0 <= i < dedup_by_id(s).len() implies (seen + s).contains(
            #[trigger] dedup_by_id(s)[i],
        ) by {
            if i < d.len() {
                assert(dedup_by_id(s)[i] == d[i]);
                let k = choose|k: int|
                    0 <= k < (seen + s.drop_last()).len() && (seen + s.drop_last())[k] == d[i];
                assert((seen + s)[k] == d[i]);
            } else {
                assert(dedup_by_id(s)[i] == s.last());
                assert((seen + s)[seen.len() + s.len() - 1] == s.last());
            }
        }
        if !result_ids(s.drop_last()).contains(s.last().id) {
            lemma_dedup_ids(s.drop_last(), s.last().id);
            assert forall|i: int, j: int|
                0 <= i < j < dedup_by_id(s).len() implies (#[trigger] dedup_by_id(s)[i]).id != (
            #[trigger] dedup_by_id(s)[j]).id by {
                if j < dedup_by_id(s).len() - 1 {
                    assert(dedup_by_id(s)[i] == d[i]);
                    assert(dedup_by_id(s)[j] == d[j]);
                } else if dedup_by_id(s).len() > d.len() {
                    assert(dedup_by_id(s)[j] == s.last());
                    assert(dedup_by_id(s)[i] == d[i]);
                    assert(result_ids(d)[i] == d[i].id);
                    assert(result_ids(d).contains(d[i].id));
                }
            }
        }
    }
}

/// The visited set always mirrors the candidate list: the candidate ids
/// are pairwise distinct, so the set of ids ever accepted has exactly
/// the size of the candidate list.
pub proof fn lemma_visited_matches_candidates(e: Expansion)
    requires
        e.wf(),
    ensures
        result_ids(views_of(e.candidates@)).no_duplicates(),
        result_ids(views_of(e.candidates@)).to_set().len() == e.candidates@.len(),
{
    let ids = result_ids(views_of(e.candidates@));
    assert forall|i: int, j: int| 0 <= i < j < ids.len() implies ids[i] != ids[j] by {
        assert(views_of(e.candidates@)[i] == e.candidates@[i]@);
        assert(views_of(e.candidates@)[j] == e.candidates@[j]@);
        assert(ids[i] == e.candidates@[i].id@);
        assert(ids[j] == e.candidates@[j].id@);
    }
    ids.unique_seq_to_set();
}

/// A memory stands among the candidates only if some layer search
/// returned it: the expansion never invents results.
pub proof fn lemma_candidates_from_searches(e: Expansion)
    requires
        e.wf(),
    ensures
        forall|i: int|
            0 <= i < e.candidates@.len() ==> e.seen@.contains((#[trigger] e.candidates@[i])@),
{
}

} // verus!
