//! The vector index: stores one entry per (record, fragment) pair and
//! answers k-nearest-neighbour queries by exact cosine similarity over
//! a linear scan. Insertion is additive and atomic: a set either
//! contributes all its entries or, on a dimensionality mismatch, none.
//! Retrieval deduplicates by record identifier, keeping each record's
//! highest-scoring entry, ranks by descending score and breaks ties by
//! insertion order, earlier first.

use vstd::prelude::*;
use crate::value::{Record, SpecRecord};
use crate::builder::{EmbeddingSet, SpecSet};
use crate::vector::{
    EmbeddingVector, CosineScore, dot_s, norm_s, score_le, score_is_one, positively_parallel,
    NORM_LIMIT, lemma_cauchy_schwarz, lemma_score_le_total, lemma_score_le_trans,
    lemma_score_at_most_one, lemma_score_strictly_below_one,
};
use vstd::relations::{total_ordering, sorted_by};
use vstd::seq_lib::lemma_sorted_unique;

verus! {

broadcast use vstd::std_specs::vec::axiom_spec_len;

/// The similarity measure a result was ranked by.
#[derive(Clone, Copy, PartialEq, Eq, Structural, Debug)]
pub enum DistanceMetric {
    Cosine,
}

/// One stored entry: a record with `n` fragments contributes `n`
/// entries sharing its identifier and summary, with distinct vectors.
pub struct VectorIndexEntry {
    pub record_id: String,
    pub document_summary: Record,
    pub vector: EmbeddingVector,
}

/// The mathematical model of one entry.
pub struct SpecEntry {
    pub record_id: Seq<char>,
    pub document_summary: SpecRecord,
    pub vector: Seq<int>,
}

impl View for VectorIndexEntry {
    type V = SpecEntry;

    open spec fn view(&self) -> SpecEntry {
        SpecEntry {
            record_id: self.record_id@,
            document_summary: self.document_summary@,
            vector: self.vector@,
        }
    }
}

/// Failure of an index operation.
#[derive(Debug)]
pub enum IndexError {
    /// A vector's dimensionality differs from the index's.
    DimensionMismatch { expected: usize, got: usize },
}

/// One ranked answer: the record, its best score, and the measure used.
pub struct SimilarityResult {
    pub record_id: String,
    pub document_summary: Record,
    pub score: CosineScore,
    pub distance_metric_used: DistanceMetric,
}

/// The mathematical model of one ranked answer.
pub struct SpecResult {
    pub record_id: Seq<char>,
    pub document_summary: SpecRecord,
    pub dot: int,
    pub prod: int,
    pub metric: DistanceMetric,
}

impl View for SimilarityResult {
    type V = SpecResult;

    open spec fn view(&self) -> SpecResult {
        SpecResult {
            record_id: self.record_id@,
            document_summary: self.document_summary@,
            dot: self.score.spec_dot(),
            prod: self.score.spec_prod(),
            metric: self.distance_metric_used,
        }
    }
}

/// Entries whose vectors are accepted and share one dimensionality.
pub open spec fn entries_wf(es: Seq<SpecEntry>, dim: int) -> bool {
    forall|i: int|
        0 <= i < es.len() ==> {
            &&& (#[trigger] es[i]).vector.len() == dim
            &&& 1 <= norm_s(es[i].vector) <= NORM_LIMIT
        }
}

/// The entries one embedding set contributes, in fragment order.
pub open spec fn entries_of_set(s: SpecSet) -> Seq<SpecEntry> {
    Seq::new(
        s.fragments.len(),
        |j: int|
            SpecEntry {
                record_id: s.record_id,
                document_summary: s.document_summary,
                vector: s.fragments[j].1,
            },
    )
}

/// Whether a set's vectors all share one dimensionality, matching the
/// index's when the index already holds entries.
pub open spec fn set_dims_ok(n_entries: int, dim: int, s: SpecSet) -> bool {
    &&& forall|j: int|
        0 <= j < s.fragments.len() ==> (#[trigger] s.fragments[j]).1.len() == s.fragments[0].1.len()
    &&& (n_entries > 0 ==> s.fragments[0].1.len() == dim)
}

/// The similarity index: a linear store of entries and the single
/// dimensionality they share.
pub struct VectorIndex {
    entries: Vec<VectorIndexEntry>,
    dim: usize,
}

impl View for VectorIndex {
    type V = Seq<SpecEntry>;

    closed spec fn view(&self) -> Seq<SpecEntry> {
        self.entries@.map_values(|e: VectorIndexEntry| e@)
    }
}

impl VectorIndex {
    /// Every stored vector is accepted, shares the index
    /// dimensionality, and the dimensionality is zero exactly while no
    /// entry is stored.
    pub closed spec fn wf(&self) -> bool {
        &&& forall|i: int| 0 <= i < self.entries@.len() ==> (#[trigger] self.entries@[i]).vector.valid()
        &&& entries_wf(self@, self.dim as int)
        &&& (self.entries@.len() == 0 <==> self.dim == 0)
    }

    /// The dimensionality all current entries share; zero while the
    /// index is empty.
    pub closed spec fn spec_dim(&self) -> int {
        self.dim as int
    }

    /// Well-formedness seen on the model.
    pub proof fn lemma_wf(&self)
        requires
            self.wf(),
        ensures
            entries_wf(self@, self.spec_dim()),
            self@.len() == 0 <==> self.spec_dim() == 0,
    {
        assert(self@.len() == self.entries@.len());
    }

    /// An empty index, its dimensionality not yet fixed.
    pub fn new() -> (r: VectorIndex)
        ensures
            r@ == Seq::<SpecEntry>::empty(),
            r.wf(),
            r.spec_dim() == 0,
    {
        let r = VectorIndex { entries: Vec::new(), dim: 0 };
        proof {
            assert(r@ =~= Seq::<SpecEntry>::empty());
        }
        r
    }

    /// The number of stored entries.
    pub fn len(&self) -> (r: usize)
        ensures
            r == self@.len(),
    {
        proof {
            assert(self@.len() == self.entries@.len());
        }
        self.entries.len()
    }

    /// The dimensionality all current entries share; zero while the
    /// index is empty.
    pub fn dim(&self) -> (r: usize)
        ensures
            r == self.spec_dim(),
    {
        self.dim
    }

    /// Inserts one entry per fragment of the set, atomically: if any
    /// vector's dimensionality differs from the others' or from the
    /// index's, the error names the mismatch and the index is left
    /// exactly as it was, with no partial insert. Duplicate record
    /// identifiers are allowed; both insertions then contribute to
    /// ranking.
    pub fn add(&mut self, set: EmbeddingSet) -> (r: Result<(), IndexError>)
        requires
            old(self).wf(),
            set.wf(),
        ensures
            final(self).wf(),
            r is Ok <==> set_dims_ok(old(self)@.len() as int, old(self).spec_dim(), set@),
            r is Ok ==> final(self)@ == old(self)@ + entries_of_set(set@) && final(self).spec_dim()
                == set@.fragments[0].1.len(),
            r is Err ==> final(self)@ == old(self)@ && final(self).spec_dim() == old(
                self,
            ).spec_dim(),
            r matches Err(IndexError::DimensionMismatch { expected, got }) ==> !set_dims_ok(
                old(self)@.len() as int,
                old(self).spec_dim(),
                set@,
            ),
    {
        proof {
            set.lemma_wf();
            set.lemma_view_fields();
            set.lemma_wf_fields();
            assert(set@.fragments.len() == set.fragments@.len());
            assert(forall|j: int|
                0 <= j < set.fragments@.len() ==> (#[trigger] set@.fragments[j]).1 == (
                set.fragments@[j].1)@);
        }
        let frags = &set.fragments;
        let d0 = frags[0].1.dim();
        // The dimensionality every vector of the set must share.
        let mut j: usize = 1;
        while j < frags.len()
            invariant
                *self == *old(self),
                self.wf(),
                old(self)@.len() == old(self).entries@.len(),
                1 <= j <= frags@.len(),
                set@.fragments.len() == frags@.len(),
                forall|t: int|
                    0 <= t < frags@.len() ==> (#[trigger] set@.fragments[t]).1 == (frags@[t].1)@,
                d0 as int == set@.fragments[0].1.len(),
                forall|t: int| 0 <= t < j ==> (#[trigger] set@.fragments[t]).1.len() == d0 as int,
            decreases frags@.len() - j,
        {
            let dj = frags[j].1.dim();
            if dj != d0 {
                proof {
                    assert(set@.fragments[j as int].1.len() == dj as int);
                    assert(!set_dims_ok(old(self)@.len() as int, old(self).spec_dim(), set@));
                    assert(self.wf());
                }
                return Err(IndexError::DimensionMismatch { expected: d0, got: dj });
            }
            j = j + 1;
        }
        if self.entries.len() > 0 && d0 != self.dim {
            proof {
                assert(old(self)@.len() == old(self).entries@.len());
                assert(!set_dims_ok(old(self)@.len() as int, old(self).spec_dim(), set@));
            }
            return Err(IndexError::DimensionMismatch { expected: self.dim, got: d0 });
        }
        proof {
            set.fragments@[0].1.lemma_valid_view();
            assert(d0 >= 1);
            assert(old(self)@.len() == old(self).entries@.len());
            assert(set_dims_ok(old(self)@.len() as int, old(self).spec_dim(), set@));
        }
        // All checks passed: insert every fragment's entry.
        let ghost old_view = self@;
        let ghost setv = set@;
        let n = frags.len();
        let mut j2: usize = 0;
        while j2 < n
            invariant
                j2 <= n,
                n == set.fragments@.len(),
                n >= 1,
                setv == set@,
                setv.fragments.len() == n,
                setv.record_id == set.record_id@,
                setv.document_summary == set.document_summary@,
                forall|t: int|
                    0 <= t < n ==> (#[trigger] setv.fragments[t]).1 == (set.fragments@[t].1)@,
                forall|t: int| 0 <= t < n ==> (#[trigger] set.fragments@[t]).1.valid(),
                forall|t: int| 0 <= t < n ==> (#[trigger] setv.fragments[t]).1.len() == d0 as int,
                setv.record_id.len() >= 1,
                j2 <= n,
                self.entries@.len() == old(self).entries@.len() + j2,
                self.entries@.take(old(self).entries@.len() as int) == old(self).entries@,
                self.dim == old(self).dim,
                forall|i: int|
                    0 <= i < old(self).entries@.len() ==> (#[trigger] self.entries@[i]) == old(
                        self,
                    ).entries@[i],
                forall|t: int|
                    0 <= t < j2 ==> {
                        let e = #[trigger] self.entries@[old(self).entries@.len() + t];
                        &&& e@.record_id == setv.record_id
                        &&& e@.document_summary == setv.document_summary
                        &&& e@.vector == setv.fragments[t].1
                        &&& e.vector.valid()
                        &&& e.vector@.len() == d0 as int
                    },
                old(self).wf(),
                old(self).entries@.len() > 0 ==> d0 == old(self).dim,
            decreases n - j2,
        {
            let rid = set.record_id.clone();
            let summary = set.document_summary.clone();
            let vector = set.fragments[j2].1.clone();
            let ghost base = old(self).entries@.len() as int;
            self.entries.push(VectorIndexEntry { record_id: rid, document_summary: summary, vector });
            proof {
                let e = self.entries@[base + j2 as int];
                assert(e@.record_id == setv.record_id);
                assert(e@.document_summary == setv.document_summary);
                assert(e@.vector == setv.fragments[j2 as int].1);
                assert(e.vector.valid());
                assert(self.entries@.take(old(self).entries@.len() as int) =~= old(
                    self,
                ).entries@);
            }
            j2 = j2 + 1;
        }
        self.dim = d0;
        proof {
            let base = old(self).entries@.len() as int;
            assert(self@.len() == self.entries@.len());
            assert forall|i: int| 0 <= i < self.entries@.len() implies (
            #[trigger] self.entries@[i]).vector.valid() by {
                if i < base {
                    assert(self.entries@.take(base)[i] == self.entries@[i]);
                    assert(self.entries@[i] == old(self).entries@[i]);
                    assert(old(self).wf());
                } else {
                    let tt = i - base;
                    assert(self.entries@[base + tt].vector.valid());
                }
            }
            assert forall|i: int| 0 <= i < self@.len() implies (#[trigger] self@[i]).vector.len()
                == self.dim as int && 1 <= norm_s(self@[i].vector) <= NORM_LIMIT by {
                assert(self@[i] == self.entries@[i]@);
                if i < base {
                    assert(self.entries@.take(base)[i] == self.entries@[i]);
                    assert(self.entries@[i] == old(self).entries@[i]);
                    assert(old(self)@[i] == old(self).entries@[i]@);
                    assert(entries_wf(old(self)@, old(self).dim as int));
                    assert(old(self)@.len() == old(self).entries@.len());
                    assert(old(self)@[i].vector.len() == old(self).dim as int);
                } else {
                    let tt = i - base;
                    let e = self.entries@[base + tt];
                    assert(e.vector.valid());
                    e.vector.lemma_valid_view();
                    assert(e@.vector == setv.fragments[tt].1);
                    assert(e.vector@.len() == d0 as int);
                }
            }
            assert forall|i: int| 0 <= i < self@.len() implies #[trigger] self@[i] == (old(
                self,
            )@ + entries_of_set(set@))[i] by {
                assert(self@[i] == self.entries@[i]@);
                if i < base {
                    assert(self.entries@.take(base)[i] == self.entries@[i]);
                    assert(self.entries@[i] == old(self).entries@[i]);
                    assert(old(self)@[i] == old(self).entries@[i]@);
                } else {
                    let tt = i - base;
                    let e = self.entries@[base + tt];
                    assert(e@.record_id == setv.record_id);
                    assert(e@.document_summary == setv.document_summary);
                    assert(e@.vector == setv.fragments[tt].1);
                }
            }
            assert(final(self)@ =~= old(self)@ + entries_of_set(set@));
        }
        Ok(())
    }
}

/// The dot product a stored entry scores with the query; zero outside
/// the index.
pub open spec fn cand_dot(es: Seq<SpecEntry>, q: Seq<int>, i: int) -> int {
    if 0 <= i < es.len() {
        dot_s(q, es[i].vector)
    } else {
        0
    }
}

/// The squared-norm product a stored entry scores with the query; one
/// outside the index, so the score order stays total.
pub open spec fn cand_prod(es: Seq<SpecEntry>, qn: int, i: int) -> int {
    if 0 <= i < es.len() {
        qn * norm_s(es[i].vector)
    } else {
        1
    }
}

/// Entry `i` scores strictly higher than entry `j` against the query.
pub open spec fn score_gt_at(es: Seq<SpecEntry>, q: Seq<int>, qn: int, i: int, j: int) -> bool {
    !score_le(cand_dot(es, q, i), cand_prod(es, qn, i), cand_dot(es, q, j), cand_prod(es, qn, j))
}

/// The ranking order on entry indices: higher score first, ties broken
/// by insertion order, the earlier entry first.
pub open spec fn rank_leq(es: Seq<SpecEntry>, q: Seq<int>, qn: int, i: int, j: int) -> bool {
    let di = cand_dot(es, q, i);
    let pi = cand_prod(es, qn, i);
    let dj = cand_dot(es, q, j);
    let pj = cand_prod(es, qn, j);
    if score_le(di, pi, dj, pj) && score_le(dj, pj, di, pi) {
        i <= j
    } else {
        score_le(dj, pj, di, pi)
    }
}

/// The ranking order as a relation.
pub open spec fn rank_order(es: Seq<SpecEntry>, q: Seq<int>, qn: int) -> spec_fn(int, int) -> bool {
    |i: int, j: int| rank_leq(es, q, qn, i, j)
}

/// One candidate per distinct record identifier among the first `n`
/// entries, in first-appearance order, each holding the record's
/// highest-scoring entry; on equal scores the earlier entry stays.
pub open spec fn candidates_upto(es: Seq<SpecEntry>, q: Seq<int>, qn: int, n: int) -> Seq<int>
    decreases n,
{
    if n <= 0 {
        Seq::empty()
    } else {
        let prev = candidates_upto(es, q, qn, n - 1);
        let i = n - 1;
        if exists|k: int|
            0 <= k < prev.len() && es[#[trigger] prev[k]].record_id == es[i].record_id {
            let k = choose|k: int|
                0 <= k < prev.len() && es[#[trigger] prev[k]].record_id == es[i].record_id;
            if score_gt_at(es, q, qn, i, prev[k]) {
                prev.update(k, i)
            } else {
                prev
            }
        } else {
            prev.push(i)
        }
    }
}

/// One candidate per distinct record identifier in the whole index.
pub open spec fn candidates(es: Seq<SpecEntry>, q: Seq<int>, qn: int) -> Seq<int> {
    candidates_upto(es, q, qn, es.len() as int)
}

/// The candidates ranked by descending score, insertion order breaking
/// ties.
pub open spec fn ranked_all(es: Seq<SpecEntry>, q: Seq<int>, qn: int) -> Seq<int> {
    candidates(es, q, qn).sort_by(rank_order(es, q, qn))
}

/// Against well-formed entries, every index's score has a positive
/// denominator within range and a numerator within Cauchy-Schwarz
/// range.
pub proof fn lemma_cand_wf(es: Seq<SpecEntry>, q: Seq<int>, qn: int, dim: int)
    requires
        entries_wf(es, dim),
        q.len() == dim,
        qn == norm_s(q),
        1 <= qn <= NORM_LIMIT,
    ensures
        forall|i: int|
            {
                &&& 1 <= #[trigger] cand_prod(es, qn, i) <= (NORM_LIMIT as int) * (
                NORM_LIMIT as int)
                &&& cand_dot(es, q, i) * cand_dot(es, q, i) <= cand_prod(es, qn, i)
            },
{
    assert forall|i: int|
        {
            &&& 1 <= #[trigger] cand_prod(es, qn, i) <= (NORM_LIMIT as int) * (NORM_LIMIT as int)
            &&& cand_dot(es, q, i) * cand_dot(es, q, i) <= cand_prod(es, qn, i)
        } by {
        if 0 <= i < es.len() {
            let nv = norm_s(es[i].vector);
            assert(1 <= nv <= NORM_LIMIT);
            lemma_cauchy_schwarz(q, es[i].vector);
            assert(1 <= qn * nv <= (NORM_LIMIT as int) * (NORM_LIMIT as int)) by (nonlinear_arith)
                requires
                    1 <= qn <= NORM_LIMIT as int,
                    1 <= nv <= NORM_LIMIT as int,
            ;
        }
    }
}

/// The ranking order is a total order.
pub proof fn lemma_rank_total(es: Seq<SpecEntry>, q: Seq<int>, qn: int, dim: int)
    requires
        entries_wf(es, dim),
        q.len() == dim,
        qn == norm_s(q),
        1 <= qn <= NORM_LIMIT,
    ensures
        total_ordering(rank_order(es, q, qn)),
{
    lemma_cand_wf(es, q, qn, dim);
    let leq = rank_order(es, q, qn);
    assert forall|x: int| #[trigger] leq(x, x) by {
        lemma_score_le_total(cand_dot(es, q, x), cand_prod(es, qn, x), cand_dot(es, q, x),
            cand_prod(es, qn, x));
    }
    assert forall|x: int, y: int| #[trigger] leq(x, y) && #[trigger] leq(y, x) implies x == y by {
    }
    assert forall|x: int, y: int, z: int| #[trigger] leq(x, y) && #[trigger] leq(y, z) implies leq(
        x,
        z,
    ) by {
        let dx = cand_dot(es, q, x);
        let px = cand_prod(es, qn, x);
        let dy = cand_dot(es, q, y);
        let py = cand_prod(es, qn, y);
        let dz = cand_dot(es, q, z);
        let pz = cand_prod(es, qn, z);
        assert(score_le(dy, py, dx, px));
        assert(score_le(dz, pz, dy, py));
        lemma_score_le_trans(dz, pz, dy, py, dx, px);
        if score_le(dx, px, dz, pz) && score_le(dz, pz, dx, px) {
            lemma_score_le_trans(dx, px, dz, pz, dy, py);
            lemma_score_le_trans(dy, py, dx, px, dz, pz);
            assert(x <= y);
            assert(y <= z);
        }
    }
    assert forall|x: int, y: int| #[trigger] leq(x, y) || #[trigger] leq(y, x) by {
        lemma_score_le_total(cand_dot(es, q, x), cand_prod(es, qn, x), cand_dot(es, q, y),
            cand_prod(es, qn, y));
    }
}

/// The candidate list points into the first `n` entries, names each
/// distinct record identifier exactly once, and covers them all.
#[verifier::rlimit(80)]
#[verifier::spinoff_prover]
pub proof fn lemma_candidates_props(es: Seq<SpecEntry>, q: Seq<int>, qn: int, n: int)
    requires
        0 <= n <= es.len(),
    ensures
        ({
            let cs = candidates_upto(es, q, qn, n);
            &&& forall|a: int| 0 <= a < cs.len() ==> 0 <= #[trigger] cs[a] < n
            &&& forall|a: int, b: int|
                0 <= a < b < cs.len() ==> es[#[trigger] cs[a]].record_id != es[#[trigger] cs[b]].record_id
            &&& forall|e: int|
                0 <= e < n ==> exists|a: int|
                    0 <= a < cs.len() && es[#[trigger] cs[a]].record_id == (
                    #[trigger] es[e]).record_id
        }),
    decreases n,
{
    if n > 0 {
        lemma_candidates_props(es, q, qn, n - 1);
        let prev = candidates_upto(es, q, qn, n - 1);
        let cs = candidates_upto(es, q, qn, n);
        let i = n - 1;
        if exists|k: int|
            0 <= k < prev.len() && es[#[trigger] prev[k]].record_id == es[i].record_id {
            let k = choose|k: int|
                0 <= k < prev.len() && es[#[trigger] prev[k]].record_id == es[i].record_id;
            if score_gt_at(es, q, qn, i, prev[k]) {
                assert(cs == prev.update(k, i));
                assert forall|a: int, b: int| 0 <= a < b < cs.len() implies es[
                #[trigger] cs[a]].record_id != es[#[trigger] cs[b]].record_id by {
                    assert(prev[a] == if a == k { prev[k] } else { prev[a] });
                }
                assert forall|e: int| 0 <= e < n implies exists|a: int|
                    0 <= a < cs.len() && es[#[trigger] cs[a]].record_id == (
                #[trigger] es[e]).record_id by {
                    if e == i {
                        assert(es[cs[k]].record_id == es[e].record_id);
                    } else {
                        let a = choose|a: int|
                            0 <= a < prev.len() && es[#[trigger] prev[a]].record_id
                                == es[e].record_id;
                        if a == k {
                            assert(es[cs[k]].record_id == es[e].record_id);
                        } else {
                            assert(es[cs[a]].record_id == es[e].record_id);
                        }
                    }
                }
            } else {
                assert forall|e: int| 0 <= e < n implies exists|a: int|
                    0 <= a < cs.len() && es[#[trigger] cs[a]].record_id == (
                #[trigger] es[e]).record_id by {
                    if e == i {
                        assert(es[cs[k]].record_id == es[e].record_id);
                    } else {
                        let a = choose|a: int|
                            0 <= a < prev.len() && es[#[trigger] prev[a]].record_id
                                == es[e].record_id;
                        assert(es[cs[a]].record_id == es[e].record_id);
                    }
                }
            }
        } else {
            assert(cs == prev.push(i));
            assert forall|a: int, b: int| 0 <= a < b < cs.len() implies es[
            #[trigger] cs[a]].record_id != es[#[trigger] cs[b]].record_id by {
                if b == cs.len() - 1 {
                    if es[cs[a]].record_id == es[i].record_id {
                        assert(0 <= a < prev.len() && es[prev[a]].record_id == es[i].record_id);
                        assert(false);
                    }
                }
            }
            assert forall|e: int| 0 <= e < n implies exists|a: int|
                0 <= a < cs.len() && es[#[trigger] cs[a]].record_id == (#[trigger] es[e]).record_id by {
                if e == i {
                    assert(es[cs[cs.len() - 1]].record_id == es[e].record_id);
                } else {
                    let a = choose|a: int|
                        0 <= a < prev.len() && es[#[trigger] prev[a]].record_id == es[e].record_id;
                    assert(cs[a] == prev[a]);
                    assert(es[cs[a]].record_id == es[e].record_id);
                }
            }
        }
    }
}

/// Each candidate holds its record's best entry: no entry of the same
/// record scores higher, and an entry of equal score has no smaller
/// index.
#[verifier::rlimit(80)]
#[verifier::spinoff_prover]
pub proof fn lemma_candidates_best(es: Seq<SpecEntry>, q: Seq<int>, qn: int, dim: int, n: int)
    requires
        0 <= n <= es.len(),
        entries_wf(es, dim),
        q.len() == dim,
        qn == norm_s(q),
        1 <= qn <= NORM_LIMIT,
    ensures
        ({
            let cs = candidates_upto(es, q, qn, n);
            forall|a: int, e: int|
                0 <= a < cs.len() && 0 <= e < n && es[#[trigger] cs[a]].record_id == (
                #[trigger] es[e]).record_id ==> score_le(
                    cand_dot(es, q, e),
                    cand_prod(es, qn, e),
                    cand_dot(es, q, #[trigger] cs[a]),
                    cand_prod(es, qn, cs[a]),
                ) && (score_le(
                    cand_dot(es, q, cs[a]),
                    cand_prod(es, qn, cs[a]),
                    cand_dot(es, q, e),
                    cand_prod(es, qn, e),
                ) ==> cs[a] <= e)
        }),
    decreases n,
{
    lemma_cand_wf(es, q, qn, dim);
    if n > 0 {
        lemma_candidates_best(es, q, qn, dim, n - 1);
        lemma_candidates_props(es, q, qn, n - 1);
        let prev = candidates_upto(es, q, qn, n - 1);
        let cs = candidates_upto(es, q, qn, n);
        let i = n - 1;
        assert forall|a: int, e: int|
            0 <= a < cs.len() && 0 <= e < n && es[#[trigger] cs[a]].record_id == (
        #[trigger] es[e]).record_id implies score_le(
            cand_dot(es, q, e),
            cand_prod(es, qn, e),
            cand_dot(es, q, #[trigger] cs[a]),
            cand_prod(es, qn, cs[a]),
        ) && (score_le(
            cand_dot(es, q, cs[a]),
            cand_prod(es, qn, cs[a]),
            cand_dot(es, q, e),
            cand_prod(es, qn, e),
        ) ==> cs[a] <= e) by {
            let de = cand_dot(es, q, e);
            let pe = cand_prod(es, qn, e);
            if exists|k: int|
                0 <= k < prev.len() && es[#[trigger] prev[k]].record_id == es[i].record_id {
                let k = choose|k: int|
                    0 <= k < prev.len() && es[#[trigger] prev[k]].record_id == es[i].record_id;
                let db = cand_dot(es, q, prev[k]);
                let pb = cand_prod(es, qn, prev[k]);
                let di = cand_dot(es, q, i);
                let pi = cand_prod(es, qn, i);
                if score_gt_at(es, q, qn, i, prev[k]) {
                    assert(cs == prev.update(k, i));
                    lemma_score_le_total(di, pi, db, pb);
                    assert(score_le(db, pb, di, pi));
                    if a == k {
                        // The new best is i; e is an earlier entry of the
                        // record, or i itself.
                        if e < i {
                            assert(es[prev[k]].record_id == es[e].record_id);
                            assert(score_le(de, pe, db, pb));
                            lemma_score_le_trans(de, pe, db, pb, di, pi);
                            if score_le(di, pi, de, pe) {
                                lemma_score_le_trans(di, pi, de, pe, db, pb);
                                assert(false);
                            }
                        }
                    } else {
                        assert(cs[a] == prev[a]);
                        if e == i {
                            // A different record: ids differ.
                            assert(es[prev[a]].record_id != es[prev[k]].record_id);
                            assert(false);
                        }
                    }
                } else {
                    assert(cs == prev);
                    if e == i {
                        assert(es[cs[a]].record_id == es[i].record_id);
                        assert(0 <= a < prev.len());
                        if a != k {
                            assert(es[prev[a]].record_id != es[prev[k]].record_id);
                            assert(false);
                        }
                        assert(score_le(di, pi, db, pb));
                        assert(prev[k] <= i) by {
                            assert(0 <= prev[k] < n - 1);
                        }
                    }
                }
            } else {
                assert(cs == prev.push(i));
                if a == cs.len() - 1 {
                    assert(cs[a] == i);
                    if e < i {
                        assert(0 <= e < n - 1);
                        lemma_candidates_props(es, q, qn, n - 1);
                        let w = choose|w: int|
                            0 <= w < prev.len() && es[#[trigger] prev[w]].record_id
                                == es[e].record_id;
                        assert(es[prev[w]].record_id == es[i].record_id);
                        assert(false);
                    }
                    lemma_score_le_total(cand_dot(es, q, i), cand_prod(es, qn, i),
                        cand_dot(es, q, i), cand_prod(es, qn, i));
                } else {
                    assert(cs[a] == prev[a]);
                    if e == i {
                        assert(es[prev[a]].record_id == es[i].record_id);
                        assert(false);
                    }
                }
            }
        }
    }
}

/// A record stored at the query vector itself takes the maximum
/// attainable score: its cosine is exactly one, and no other entry
/// ranks above it in the order `top_k` sorts by.
pub proof fn lemma_self_query_ranks_first(es: Seq<SpecEntry>, q: Seq<int>, dim: int, i: int)
    requires
        entries_wf(es, dim),
        q.len() == dim,
        1 <= norm_s(q) <= NORM_LIMIT,
        0 <= i < es.len(),
        es[i].vector == q,
    ensures
        score_is_one(cand_dot(es, q, i), cand_prod(es, norm_s(q), i)),
        forall|j: int|
            score_le(
                #[trigger] cand_dot(es, q, j),
                cand_prod(es, norm_s(q), j),
                cand_dot(es, q, i),
                cand_prod(es, norm_s(q), i),
            ),
{
    let qn = norm_s(q);
    assert(cand_dot(es, q, i) == dot_s(q, q));
    lemma_cand_wf(es, q, qn, dim);
    assert forall|j: int|
        score_le(
            #[trigger] cand_dot(es, q, j),
            cand_prod(es, qn, j),
            cand_dot(es, q, i),
            cand_prod(es, qn, i),
        ) by {
        if 0 <= j < es.len() {
            assert(cand_dot(es, q, j) == dot_s(q, es[j].vector));
            assert(cand_prod(es, qn, j) == qn * norm_s(es[j].vector));
            assert(1 <= norm_s(es[j].vector));
            lemma_score_at_most_one(q, es[j].vector);
        } else {
            assert(cand_dot(es, q, j) == 0 && cand_prod(es, qn, j) == 1);
            assert(qn * qn >= 0) by (nonlinear_arith);
            assert(0 * 0 * (qn * qn) <= qn * qn * 1) by (nonlinear_arith);
        }
    }
}

/// A record stored at the query vector itself scores strictly above
/// every entry whose vector is not a non-negative multiple of the
/// query: among such competitors the self record ranks first, wherever
/// it was inserted.
pub proof fn lemma_self_query_strictly_first(
    es: Seq<SpecEntry>,
    q: Seq<int>,
    dim: int,
    i: int,
    j: int,
)
    requires
        entries_wf(es, dim),
        q.len() == dim,
        1 <= norm_s(q) <= NORM_LIMIT,
        0 <= i < es.len(),
        es[i].vector == q,
        0 <= j < es.len(),
        !positively_parallel(q, es[j].vector),
    ensures
        score_le(
            cand_dot(es, q, j),
            cand_prod(es, norm_s(q), j),
            cand_dot(es, q, i),
            cand_prod(es, norm_s(q), i),
        ),
        !score_le(
            cand_dot(es, q, i),
            cand_prod(es, norm_s(q), i),
            cand_dot(es, q, j),
            cand_prod(es, norm_s(q), j),
        ),
{
    let qn = norm_s(q);
    let w = es[j].vector;
    assert(cand_dot(es, q, i) == dot_s(q, q));
    assert(cand_dot(es, q, j) == dot_s(q, w));
    assert(cand_prod(es, qn, i) == qn * norm_s(q));
    assert(cand_prod(es, qn, j) == qn * norm_s(w));
    assert(1 <= norm_s(w));
    assert(q.len() == w.len());
    lemma_score_strictly_below_one(q, w);
}

/// One working candidate: an entry index with its cached score parts.
#[derive(Clone, Copy)]
pub(crate) struct Cand {
    pub(crate) idx: usize,
    pub(crate) dot: i64,
    pub(crate) prod: u64,
}

/// The entry indices a candidate list holds.
pub(crate) open spec fn cand_idxs(cs: Seq<Cand>) -> Seq<int> {
    cs.map_values(|c: Cand| c.idx as int)
}

/// A candidate whose cached parts match its entry's score against the
/// query.
pub(crate) open spec fn cand_ok(es: Seq<SpecEntry>, q: Seq<int>, qn: int, c: Cand) -> bool {
    &&& (c.idx as int) < es.len()
    &&& c.dot as int == cand_dot(es, q, c.idx as int)
    &&& c.prod as int == cand_prod(es, qn, c.idx as int)
}

/// Compares two candidates in the ranking order.
fn cand_leq(a: &Cand, b: &Cand, Ghost(es): Ghost<Seq<SpecEntry>>, Ghost(q): Ghost<Seq<int>>, Ghost(
    qn,
): Ghost<int>, Ghost(dim): Ghost<int>) -> (r: bool)
    requires
        entries_wf(es, dim),
        q.len() == dim,
        qn == norm_s(q),
        1 <= qn <= NORM_LIMIT,
        cand_ok(es, q, qn, *a),
        cand_ok(es, q, qn, *b),
    ensures
        r == rank_leq(es, q, qn, a.idx as int, b.idx as int),
{
    proof {
        lemma_cand_wf(es, q, qn, dim);
    }
    let sa = CosineScore::make(a.dot, a.prod);
    let sb = CosineScore::make(b.dot, b.prod);
    let ab = sa.le(&sb);
    let ba = sb.le(&sa);
    if ab && ba {
        a.idx <= b.idx
    } else {
        ba
    }
}

impl VectorIndex {
    /// The `k` records most similar to the query, by cosine similarity:
    /// every stored entry is scored; a record with several entries is
    /// returned at most once, under its highest-scoring entry (the
    /// earlier entry on equal scores); results come in non-increasing
    /// score order, ties broken by insertion order, earlier first; at
    /// most `k` results come back, and all distinct records do whenever
    /// `k` is at least their number. A query whose dimensionality
    /// differs from the entries' is an error; the empty index answers
    /// every query with no results.
    #[verifier::rlimit(80)]
    #[verifier::spinoff_prover]
    pub fn top_k(&self, query: &EmbeddingVector, k: usize) -> (r: Result<
        Vec<SimilarityResult>,
        IndexError,
    >)
        requires
            self.wf(),
            query.valid(),
        ensures
            r is Ok <==> (self@.len() == 0 || query@.len() == self.spec_dim()),
            r matches Err(IndexError::DimensionMismatch { expected, got }) ==> self@.len() > 0
                && query@.len() != self.spec_dim() && expected == self.spec_dim() && got == query@.len(),
            r matches Ok(res) ==> ({
                let es = self@;
                let q = query@;
                let qn = norm_s(q);
                let rs = ranked_all(es, q, qn);
                let cut = if k <= candidates(es, q, qn).len() {
                    k as int
                } else {
                    candidates(es, q, qn).len() as int
                };
                &&& res@.len() == cut
                &&& forall|j: int|
                    0 <= j < cut ==> {
                        let e = rs[j];
                        &&& (#[trigger] res@[j])@.record_id == es[e].record_id
                        &&& res@[j]@.document_summary == es[e].document_summary
                        &&& res@[j]@.dot == cand_dot(es, q, e)
                        &&& res@[j]@.prod == cand_prod(es, qn, e)
                        &&& res@[j]@.metric == DistanceMetric::Cosine
                    }
            }),
            r matches Ok(res) ==> res@.len() <= k,
            r matches Ok(res) ==> forall|a: int, b: int|
                0 <= a < b < res@.len() ==> score_le(
                    (#[trigger] res@[b])@.dot,
                    res@[b]@.prod,
                    (#[trigger] res@[a])@.dot,
                    res@[a]@.prod,
                ),
            r matches Ok(res) ==> forall|a: int, b: int|
                0 <= a < b < res@.len() ==> (#[trigger] res@[a])@.record_id != (
                #[trigger] res@[b])@.record_id,
    {
        let ghost es = self@;
        proof {
            assert(es.len() == self.entries@.len());
        }
        if self.entries.len() == 0 {
            let res: Vec<SimilarityResult> = Vec::new();
            proof {
                assert(candidates(es, query@, norm_s(query@)).len() == 0);
                candidates(es, query@, norm_s(query@)).lemma_sort_by_ensures(
                    rank_order(es, query@, norm_s(query@)),
                );
            }
            return Ok(res);
        }
        if query.dim() != self.dim {
            return Err(
                IndexError::DimensionMismatch { expected: self.dim, got: query.dim() },
            );
        }
        let ghost q = query@;
        let ghost qn_spec = norm_s(q);
        let ghost dim = self.spec_dim();
        let qn = query.norm_sq();
        proof {
            query.lemma_valid_view();
            self.lemma_wf();
            lemma_cand_wf(es, q, qn_spec, dim);
            lemma_rank_total(es, q, qn_spec, dim);
        }
        // Deduplicate by record identifier, keeping each record's best
        // entry.
        let n = self.entries.len();
        let mut cands: Vec<Cand> = Vec::new();
        let mut i: usize = 0;
        while i < n
            invariant
                i <= n,
                n == self.entries@.len(),
                es == self@,
                es.len() == n,
                self.wf(),
                query.valid(),
                q == query@,
                qn_spec == norm_s(q),
                qn as int == qn_spec,
                1 <= qn_spec <= NORM_LIMIT,
                dim == self.spec_dim(),
                q.len() == dim,
                cand_idxs(cands@) == candidates_upto(es, q, qn_spec, i as int),
                forall|t: int| 0 <= t < cands@.len() ==> cand_ok(es, q, qn_spec, #[trigger] cands@[t]),
            decreases n - i,
        {
            proof {
                lemma_candidates_props(es, q, qn_spec, i as int);
                assert(self@[i as int] == self.entries@[i as int]@);
                assert(self.entries@[i as int].vector.valid());
                self.entries@[i as int].vector.lemma_valid_view();
            }
            let d = query.dot(&self.entries[i].vector);
            let nv = self.entries[i].vector.norm_sq();
            proof {
                assert(1 <= qn * nv <= (NORM_LIMIT as int) * (NORM_LIMIT as int))
                    by (nonlinear_arith)
                    requires
                        1 <= qn as int <= NORM_LIMIT as int,
                        1 <= nv as int <= NORM_LIMIT as int,
                ;
            }
            let p: u64 = qn * nv;
            let c = Cand { idx: i, dot: d, prod: p };
            proof {
                assert(cand_dot(es, q, i as int) == dot_s(q, es[i as int].vector));
                assert(cand_ok(es, q, qn_spec, c));
            }
            // Look for an existing candidate of the same record.
            let mut j: usize = 0;
            let mut found: bool = false;
            while j < cands.len() && !found
                invariant
                    j <= cands@.len(),
                    es == self@,
                    es.len() == n,
                    i < n,
                    n == self.entries@.len(),
                    forall|t: int| 0 <= t < cands@.len() ==> cand_ok(es, q, qn_spec, #[trigger] cands@[t]),
                    !found ==> forall|t: int|
                        0 <= t < j ==> es[cand_idxs(cands@)[t]].record_id != es[i as int].record_id,
                    found ==> j < cands@.len() && es[cand_idxs(cands@)[j as int]].record_id
                        == es[i as int].record_id,
                decreases cands@.len() - j + (if found { 0int } else { 1int }),
            {
                proof {
                    assert(cands@[j as int].idx as int == cand_idxs(cands@)[j as int]);
                    assert(self@[cands@[j as int].idx as int] == self.entries@[cands@[
                    j as int].idx as int]@);
                    assert(self@[i as int] == self.entries@[i as int]@);
                }
                if self.entries[cands[j].idx].record_id == self.entries[i].record_id {
                    found = true;
                } else {
                    j = j + 1;
                }
            }
            let ghost prev = candidates_upto(es, q, qn_spec, i as int);
            if found {
                proof {
                    assert(es[prev[j as int]].record_id == es[i as int].record_id);
                    assert(exists|kk: int|
                        0 <= kk < prev.len() && es[#[trigger] prev[kk]].record_id == es[
                        i as int].record_id);
                }
                let ghost kk = choose|kk: int|
                    0 <= kk < prev.len() && es[#[trigger] prev[kk]].record_id == es[
                i as int].record_id;
                proof {
                    if kk != j as int {
                        assert(es[prev[kk]].record_id != es[prev[j as int]].record_id);
                        assert(false);
                    }
                }
                let old_c = cands[j];
                proof {
                    lemma_cand_wf(es, q, qn_spec, dim);
                }
                let sc_new = CosineScore::make(c.dot, c.prod);
                let sc_old = CosineScore::make(old_c.dot, old_c.prod);
                let gt = !sc_new.le(&sc_old);
                proof {
                    assert(gt == score_gt_at(es, q, qn_spec, i as int, prev[j as int]));
                }
                if gt {
                    cands.set(j, c);
                    proof {
                        assert(cand_idxs(cands@) =~= prev.update(j as int, i as int));
                        assert(cand_idxs(cands@) =~= candidates_upto(es, q, qn_spec, i + 1));
                    }
                } else {
                    proof {
                        assert(cand_idxs(cands@) =~= candidates_upto(es, q, qn_spec, i + 1));
                    }
                }
            } else {
                proof {
                    if exists|kk: int|
                        0 <= kk < prev.len() && es[#[trigger] prev[kk]].record_id == es[
                    i as int].record_id {
                        let kk = choose|kk: int|
                            0 <= kk < prev.len() && es[#[trigger] prev[kk]].record_id == es[
                        i as int].record_id;
                        assert(es[cand_idxs(cands@)[kk]].record_id != es[i as int].record_id);
                        assert(false);
                    }
                }
                cands.push(c);
                proof {
                    assert(cand_idxs(cands@) =~= prev.push(i as int));
                    assert(cand_idxs(cands@) =~= candidates_upto(es, q, qn_spec, i + 1));
                }
            }
            i = i + 1;
        }
        let ghost cs = candidates(es, q, qn_spec);
        let ghost leq = rank_order(es, q, qn_spec);
        proof {
            assert(cand_idxs(cands@) == cs);
            lemma_candidates_props(es, q, qn_spec, es.len() as int);
        }
        // Rank by descending score, insertion order breaking ties.
        let mut sorted: Vec<Cand> = Vec::new();
        proof {
            assert(cand_idxs(sorted@) =~= Seq::<int>::empty());
            assert(cand_idxs(cands@.take(0)) =~= Seq::<int>::empty());
            assert(cand_idxs(sorted@).to_multiset() =~= cand_idxs(cands@.take(0)).to_multiset());
        }
        let mut t: usize = 0;
        while t < cands.len()
            invariant
                t <= cands@.len(),
                es == self@,
                q == query@,
                qn_spec == norm_s(q),
                1 <= qn_spec <= NORM_LIMIT,
                dim == self.spec_dim(),
                q.len() == dim,
                self.wf(),
                leq == rank_order(es, q, qn_spec),
                total_ordering(leq),
                forall|u: int| 0 <= u < cands@.len() ==> cand_ok(es, q, qn_spec, #[trigger] cands@[u]),
                forall|u: int| 0 <= u < sorted@.len() ==> cand_ok(es, q, qn_spec, #[trigger] sorted@[u]),
                sorted@.len() == t,
                sorted_by(cand_idxs(sorted@), leq),
                cand_idxs(sorted@).to_multiset() == cand_idxs(cands@.take(t as int)).to_multiset(),
            decreases cands@.len() - t,
        {
            let c = cands[t];
            let mut pos: usize = 0;
            while pos < sorted.len() && cand_leq(&sorted[pos], &c, Ghost(es), Ghost(q), Ghost(
                qn_spec,
            ), Ghost(dim))
                invariant
                    pos <= sorted@.len(),
                    es == self@,
                    q == query@,
                    qn_spec == norm_s(q),
                    1 <= qn_spec <= NORM_LIMIT,
                    dim == self.spec_dim(),
                    q.len() == dim,
                    self.wf(),
                    leq == rank_order(es, q, qn_spec),
                    cand_ok(es, q, qn_spec, c),
                    forall|u: int| 0 <= u < sorted@.len() ==> cand_ok(es, q, qn_spec, #[trigger] sorted@[u]),
                    forall|u: int|
                        0 <= u < pos ==> leq(cand_idxs(sorted@)[u], c.idx as int),
                decreases sorted@.len() - pos,
            {
                proof {
                    assert(cand_idxs(sorted@)[pos as int] == sorted@[pos as int].idx as int);
                }
                pos = pos + 1;
            }
            let ghost ms = cand_idxs(sorted@);
            sorted.insert(pos, c);
            proof {
                broadcast use vstd::seq_lib::group_to_multiset_ensures;

                let ms2 = cand_idxs(sorted@);
                assert(ms2 =~= ms.insert(pos as int, c.idx as int));
                ms.insert_ensures(pos as int, c.idx as int);
                // Sortedness around the insertion point.
                if pos < ms.len() {
                    assert(!leq(ms[pos as int], c.idx as int));
                    assert(leq(c.idx as int, ms[pos as int]));
                }
                assert forall|a: int, b: int| 0 <= a < b < ms2.len() implies leq(ms2[a], ms2[b]) by {
                    if b < pos {
                        assert(ms2[a] == ms[a] && ms2[b] == ms[b]);
                    } else if a < pos && b == pos {
                        assert(ms2[a] == ms[a] && ms2[b] == c.idx as int);
                    } else if a < pos && b > pos {
                        assert(ms2[a] == ms[a] && ms2[b] == ms[b - 1]);
                        if a == b - 1 {
                            assert(false);
                        }
                    } else if a == pos {
                        assert(ms2[a] == c.idx as int && ms2[b] == ms[b - 1]);
                        assert(leq(c.idx as int, ms[pos as int]));
                        if b - 1 > pos {
                            assert(leq(ms[pos as int], ms[b - 1]));
                        }
                    } else {
                        assert(ms2[a] == ms[a - 1] && ms2[b] == ms[b - 1]);
                    }
                }
                // Multiset: inserting one candidate adds one index.
                let sub0 = ms.subrange(0, pos as int);
                let sub1 = ms.subrange(pos as int, ms.len() as int);
                assert(ms2 == ms.insert(pos as int, c.idx as int));
                assert(ms.insert(pos as int, c.idx as int) == sub0.push(c.idx as int) + sub1);
                vstd::seq_lib::lemma_multiset_commutative(sub0.push(c.idx as int), sub1);
                vstd::seq_lib::lemma_multiset_commutative(sub0, sub1);
                assert(ms =~= sub0 + sub1);
                assert(ms2.to_multiset() =~= ms.to_multiset().insert(c.idx as int));
                assert(cand_idxs(cands@.take(t + 1)) =~= cand_idxs(cands@.take(t as int)).push(
                    c.idx as int,
                ));
                assert(cand_idxs(cands@.take(t + 1)).to_multiset() =~= cand_idxs(
                    cands@.take(t as int),
                ).to_multiset().insert(c.idx as int));
            }
            t = t + 1;
        }
        proof {
            assert(cands@.take(cands@.len() as int) =~= cands@);
            cs.lemma_sort_by_ensures(leq);
            lemma_sorted_unique(cand_idxs(sorted@), cs.sort_by(leq), leq);
            assert(cand_idxs(sorted@) == ranked_all(es, q, qn_spec));
        }
        // The first k ranked candidates become results.
        let cut = if k <= sorted.len() {
            k
        } else {
            sorted.len()
        };
        let ghost rs = ranked_all(es, q, qn_spec);
        let mut res: Vec<SimilarityResult> = Vec::new();
        let mut w: usize = 0;
        while w < cut
            invariant
                w <= cut,
                cut <= sorted@.len(),
                es == self@,
                es.len() == self.entries@.len(),
                q == query@,
                qn_spec == norm_s(q),
                1 <= qn_spec <= NORM_LIMIT,
                dim == self.spec_dim(),
                q.len() == dim,
                self.wf(),
                query.valid(),
                rs == ranked_all(es, q, qn_spec),
                rs == cand_idxs(sorted@),
                forall|u: int| 0 <= u < sorted@.len() ==> cand_ok(es, q, qn_spec, #[trigger] sorted@[u]),
                res@.len() == w,
                forall|j: int|
                    0 <= j < w ==> {
                        let e = rs[j];
                        &&& (#[trigger] res@[j])@.record_id == es[e].record_id
                        &&& res@[j]@.document_summary == es[e].document_summary
                        &&& res@[j]@.dot == cand_dot(es, q, e)
                        &&& res@[j]@.prod == cand_prod(es, qn_spec, e)
                        &&& res@[j]@.metric == DistanceMetric::Cosine
                    },
            decreases cut - w,
        {
            let c = sorted[w];
            proof {
                self.lemma_wf();
                query.lemma_valid_view();
                lemma_cand_wf(es, q, qn_spec, dim);
                assert(cand_ok(es, q, qn_spec, sorted@[w as int]));
                assert(rs[w as int] == c.idx as int);
                assert(self@[c.idx as int] == self.entries@[c.idx as int]@);
            }
            let entry = &self.entries[c.idx];
            let score = CosineScore::make(c.dot, c.prod);
            res.push(
                SimilarityResult {
                    record_id: entry.record_id.clone(),
                    document_summary: entry.document_summary.clone(),
                    score,
                    distance_metric_used: DistanceMetric::Cosine,
                },
            );
            w = w + 1;
        }
        proof {
            // Scores are non-increasing along the ranking.
            assert forall|a: int, b: int| 0 <= a < b < res@.len() implies score_le(
                (#[trigger] res@[b])@.dot,
                res@[b]@.prod,
                (#[trigger] res@[a])@.dot,
                res@[a]@.prod,
            ) by {
                assert(leq(rs[a], rs[b]));
            }
            // No record identifier appears twice.
            lemma_candidates_props(es, q, qn_spec, es.len() as int);
            assert(cs.no_duplicates()) by {
                assert forall|a: int, b: int|
                    0 <= a < cs.len() && 0 <= b < cs.len() && a != b implies cs[a] != cs[b] by {
                    if a < b {
                        assert(es[cs[a]].record_id != es[cs[b]].record_id);
                    } else {
                        assert(es[cs[b]].record_id != es[cs[a]].record_id);
                    }
                }
            }
            cs.lemma_multiset_has_no_duplicates();
            assert(rs.to_multiset() == cs.to_multiset());
            rs.lemma_multiset_has_no_duplicates_conv();
            assert forall|a: int, b: int| 0 <= a < b < res@.len() implies (
            #[trigger] res@[a])@.record_id != (#[trigger] res@[b])@.record_id by {
                broadcast use vstd::seq_lib::group_to_multiset_ensures;

                assert(rs[a] != rs[b]);
                assert(rs.contains(rs[a]) && rs.contains(rs[b]));
                assert(cs.to_multiset().count(rs[a]) > 0);
                assert(cs.contains(rs[a]));
                assert(cs.contains(rs[b]));
                let pa = choose|p: int| 0 <= p < cs.len() && cs[p] == rs[a];
                let pb = choose|p: int| 0 <= p < cs.len() && cs[p] == rs[b];
                assert(pa != pb);
                if pa < pb {
                    assert(es[cs[pa]].record_id != es[cs[pb]].record_id);
                } else {
                    assert(es[cs[pb]].record_id != es[cs[pa]].record_id);
                }
            }
        }
        Ok(res)
    }
}

} // verus!
