//! The embeddings builder: drains registered record sources, extracts
//! each record's fragments, batches all fragments in one global order,
//! hands the batch to the embedding provider port, and regroups the
//! returned vectors into one embedding set per source record, pairing
//! vectors to fragments by stable positions, never by arrival order.

use vstd::prelude::*;
use crate::value::{Record, SpecRecord};
use crate::schema::{RecordSchema, SpecField, ExtractionError, extract, extract_ok, spec_extract};
use crate::vector::{EmbeddingVector, int_view, norm_s, NORM_LIMIT};
use vstd::string::StrSliceExecFns;

verus! {

broadcast use vstd::std_specs::vec::axiom_spec_len;

/// Failure of the embedding provider port: transient failures may be
/// retried by the caller, permanent ones may not.
#[derive(Debug)]
pub enum ProviderError {
    Transient { message: String },
    Permanent { message: String },
}

/// Failure of a loader collaborator while producing records.
#[derive(Debug)]
pub struct LoaderError {
    pub message: String,
}

/// Failure of one `build` invocation, naming the record or stage that
/// caused it.
#[derive(Debug)]
pub enum BuildError {
    /// A record's extraction failed; no provider call was made.
    Extraction { record_index: usize, error: ExtractionError },
    /// A record extracted to zero fragments: it cannot form an
    /// embedding set.
    EmptyRecord { record_index: usize },
    /// A record carries an empty identifier.
    EmptyRecordId { record_index: usize },
    /// The provider port failed; nothing was committed.
    Provider { error: ProviderError },
    /// The provider returned a vector count different from the
    /// fragment count of the batch.
    ProviderCountMismatch { expected: usize, got: usize },
}

/// The embedding provider port: turns a batch of text fragments into
/// one vector per fragment, preserving order. What the vectors hold is
/// the provider's own affair; every returned vector is an accepted
/// `EmbeddingVector`, so it satisfies that type's validity.
pub trait EmbeddingProvider {
    fn embed_batch(&mut self, texts: &Vec<String>) -> (r: Result<Vec<EmbeddingVector>, ProviderError>)
        ensures
            r matches Ok(vs) ==> forall|i: int| 0 <= i < vs@.len() ==> (#[trigger] vs@[i]).valid(),
    ;
}

/// A loader collaborator: produces the finite record sequence of one
/// declared shape.
pub trait Loader {
    fn load_all(&mut self) -> Result<Vec<Record>, LoaderError>;
}

/// The deterministic components a stub embedding derives from a text:
/// a unit component followed by the text's length reduced mod 100.
pub open spec fn stub_components(s: Seq<char>) -> Seq<int> {
    seq![1int, (s.len() % 100) as int]
}

/// A deterministic provider stub: embeds each fragment from its text
/// alone, so equal batches give equal vectors.
pub struct StubProvider {
}

impl EmbeddingProvider for StubProvider {
    fn embed_batch(&mut self, texts: &Vec<String>) -> (r: Result<
        Vec<EmbeddingVector>,
        ProviderError,
    >)
        ensures
            r matches Ok(vs) ==> vs@.len() == texts@.len() && forall|i: int|
                0 <= i < vs@.len() ==> (#[trigger] vs@[i]).valid() && vs@[i]@ == stub_components(
                    texts@[i]@,
                ),
    {
        let mut vs: Vec<EmbeddingVector> = Vec::new();
        let mut i: usize = 0;
        while i < texts.len()
            invariant
                i <= texts@.len(),
                vs@.len() == i,
                forall|j: int|
                    0 <= j < i ==> (#[trigger] vs@[j]).valid() && vs@[j]@ == stub_components(
                        texts@[j]@,
                    ),
            decreases texts@.len() - i,
        {
            let n = texts[i].as_str().unicode_len();
            let second: i64 = (n % 100) as i64;
            let mut cs: Vec<i64> = Vec::new();
            cs.push(1);
            cs.push(second);
            proof {
                let a = int_view(cs@);
                assert(a =~= seq![1int, second as int]);
                assert(a == seq![1int, second as int]);
                let one = seq![1int];
                assert(a.drop_last() =~= one);
                assert(a.drop_last() == one);
                assert(a.last() == second as int);
                assert(one.drop_last() =~= Seq::<int>::empty());
                assert(one.drop_last() == Seq::<int>::empty());
                assert(one.last() == 1int);
                assert(norm_s(Seq::<int>::empty()) == 0);
                assert(norm_s(one) == 1);
                assert(norm_s(a) == 1 + (second as int) * (second as int));
                assert(0 <= (second as int) * (second as int) <= 100 * 100) by (nonlinear_arith)
                    requires
                        0 <= (second as int) && (second as int) < 100,
                ;
            }
            match EmbeddingVector::new(cs) {
                Ok(v) => {
                    proof {
                        assert(v@ =~= stub_components(texts@[i as int]@));
                    }
                    vs.push(v);
                },
                Err(_) => {
                    proof {
                        assert(false);
                    }
                },
            }
            i = i + 1;
        }
        Ok(vs)
    }
}

/// All fragments and vectors belonging to one source record: the
/// record's identifier, the record itself (retained as the document
/// summary for context rendering) and at least one fragment, each
/// paired with its vector, in extraction order.
pub struct EmbeddingSet {
    pub(crate) record_id: String,
    pub(crate) document_summary: Record,
    pub(crate) fragments: Vec<(String, EmbeddingVector)>,
}

/// The mathematical model of an embedding set.
pub struct SpecSet {
    pub record_id: Seq<char>,
    pub document_summary: SpecRecord,
    pub fragments: Seq<(Seq<char>, Seq<int>)>,
}

impl View for EmbeddingSet {
    type V = SpecSet;

    closed spec fn view(&self) -> SpecSet {
        SpecSet {
            record_id: self.record_id@,
            document_summary: self.document_summary@,
            fragments: self.fragments@.map_values(|f: (String, EmbeddingVector)| (f.0@, f.1@)),
        }
    }
}

/// Failure to form an embedding set directly.
#[derive(Debug)]
pub enum SetError {
    /// A record identifier must be non-empty.
    EmptyRecordId,
    /// An embedding set holds at least one fragment.
    NoFragments,
}

impl EmbeddingSet {
    /// A non-empty identifier, at least one fragment, and accepted
    /// vectors throughout.
    pub closed spec fn wf(&self) -> bool {
        &&& self.record_id@.len() >= 1
        &&& self.fragments@.len() >= 1
        &&& forall|j: int| 0 <= j < self.fragments@.len() ==> (#[trigger] self.fragments@[j]).1.valid()
    }

    /// Well-formedness seen on the model.
    pub proof fn lemma_wf(&self)
        requires
            self.wf(),
        ensures
            self@.record_id.len() >= 1,
            self@.fragments.len() >= 1,
    {
    }

    /// The model of a set, seen on its fields, for this crate's own
    /// modules.
    pub(crate) proof fn lemma_view_fields(&self)
        ensures
            self@.record_id == self.record_id@,
            self@.document_summary == self.document_summary@,
            self@.fragments == self.fragments@.map_values(
                |f: (String, EmbeddingVector)| (f.0@, f.1@),
            ),
            self@.fragments.len() == self.fragments@.len(),
            forall|j: int|
                0 <= j < self.fragments@.len() ==> (#[trigger] self@.fragments[j]) == ((
                self.fragments@[j].0)@, (self.fragments@[j].1)@),
    {
    }

    /// Well-formedness, seen on the fields, for this crate's own
    /// modules.
    pub(crate) proof fn lemma_wf_fields(&self)
        requires
            self.wf(),
        ensures
            self.record_id@.len() >= 1,
            self.fragments@.len() >= 1,
            forall|j: int| 0 <= j < self.fragments@.len() ==> (#[trigger] self.fragments@[j]).1.valid(),
    {
    }

    /// Forms a set from already-paired fragments: the identifier must be
    /// non-empty and at least one fragment must be present.
    pub fn new(record_id: String, document_summary: Record, fragments: Vec<(String, EmbeddingVector)>) -> (r: Result<
        EmbeddingSet,
        SetError,
    >)
        requires
            forall|j: int| 0 <= j < fragments@.len() ==> (#[trigger] fragments@[j]).1.valid(),
        ensures
            r is Ok <==> record_id@.len() >= 1 && fragments@.len() >= 1,
            r matches Ok(s) ==> s.wf() && s@.record_id == record_id@ && s@.document_summary
                == document_summary@ && s@.fragments == fragments@.map_values(
                |f: (String, EmbeddingVector)| (f.0@, f.1@),
            ),
            r matches Err(SetError::EmptyRecordId) ==> record_id@.len() == 0,
            r matches Err(SetError::NoFragments) ==> record_id@.len() >= 1 && fragments@.len()
                == 0,
    {
        if record_id.as_str().unicode_len() == 0 {
            return Err(SetError::EmptyRecordId);
        }
        if fragments.len() == 0 {
            return Err(SetError::NoFragments);
        }
        Ok(EmbeddingSet { record_id, document_summary, fragments })
    }

    /// The record identifier.
    pub fn record_id(&self) -> (r: &String)
        ensures
            r@ == self@.record_id,
    {
        &self.record_id
    }

    /// The retained source record.
    pub fn document_summary(&self) -> (r: &Record)
        ensures
            r@ == self@.document_summary,
    {
        &self.document_summary
    }

    /// The paired fragments, in extraction order.
    pub fn fragments(&self) -> (r: &Vec<(String, EmbeddingVector)>)
        ensures
            r@.map_values(|f: (String, EmbeddingVector)| (f.0@, f.1@)) == self@.fragments,
    {
        &self.fragments
    }
}

/// The models of a sequence of embedding sets.
pub open spec fn set_views(sets: Seq<EmbeddingSet>) -> Seq<SpecSet> {
    sets.map_values(|s: EmbeddingSet| s@)
}

/// The integer views of a vector batch.
pub open spec fn vec_views(vs: Seq<EmbeddingVector>) -> Seq<Seq<int>> {
    vs.map_values(|v: EmbeddingVector| v@)
}

/// Sources formed by pairing one schema with each record of a sequence.
pub open spec fn zip_with_schema(schema_v: Seq<SpecField>, recs: Seq<SpecRecord>) -> Seq<
    (Seq<SpecField>, SpecRecord),
> {
    recs.map_values(|r: SpecRecord| (schema_v, r))
}

/// The fragment sequence one source yields.
pub open spec fn spec_source_frags(s: (Seq<SpecField>, SpecRecord)) -> Seq<Seq<char>> {
    spec_extract(s.0, s.1.fields)
}

/// Whether one source record passes every pre-provider check: its
/// identifier is non-empty, its extraction succeeds, and it yields at
/// least one fragment.
pub open spec fn source_ok(s: (Seq<SpecField>, SpecRecord)) -> bool {
    &&& s.1.id.len() >= 1
    &&& extract_ok(s.0, s.1.fields)
    &&& spec_source_frags(s).len() >= 1
}

/// Whether every registered source passes the pre-provider checks.
pub open spec fn sources_ok(ss: Seq<(Seq<SpecField>, SpecRecord)>) -> bool {
    forall|i: int| 0 <= i < ss.len() ==> source_ok(#[trigger] ss[i])
}

/// The total fragment count of the first `i` sources: the offset at
/// which source `i`'s fragments stand in the global batch.
pub open spec fn total_frags(ss: Seq<(Seq<SpecField>, SpecRecord)>, i: int) -> int
    decreases i,
{
    if i <= 0 {
        0
    } else {
        total_frags(ss, i - 1) + spec_source_frags(ss[i - 1]).len()
    }
}

/// Offsets grow monotonically and stay within the total.
pub proof fn lemma_total_frags_bound(ss: Seq<(Seq<SpecField>, SpecRecord)>, i: int)
    requires
        0 <= i <= ss.len(),
    ensures
        0 <= total_frags(ss, i) <= total_frags(ss, ss.len() as int),
    decreases ss.len() - i,
{
    if i == ss.len() {
        lemma_total_frags_nonneg(ss, i);
    } else {
        lemma_total_frags_bound(ss, i + 1);
        lemma_total_frags_nonneg(ss, i);
    }
}

/// Fragment totals are monotone in the prefix length.
pub proof fn lemma_total_frags_mono(ss: Seq<(Seq<SpecField>, SpecRecord)>, a: int, b: int)
    requires
        0 <= a <= b <= ss.len(),
    ensures
        total_frags(ss, a) <= total_frags(ss, b),
    decreases b - a,
{
    if a < b {
        lemma_total_frags_mono(ss, a, b - 1);
    }
}

/// A fragment total is never negative.
pub proof fn lemma_total_frags_nonneg(ss: Seq<(Seq<SpecField>, SpecRecord)>, i: int)
    requires
        i <= ss.len(),
    ensures
        total_frags(ss, i) >= 0,
    decreases i,
{
    if i > 0 {
        lemma_total_frags_nonneg(ss, i - 1);
    }
}

/// What a successful build returns, given the vector sequence the
/// provider answered with: one set per source, in registration order,
/// each fragment text from extraction and each vector taken from the
/// batch at the source's offset. This pins the output as a function of
/// sources and provider answer alone.
pub open spec fn build_output_matches(
    ss: Seq<(Seq<SpecField>, SpecRecord)>,
    sets: Seq<SpecSet>,
    vs: Seq<Seq<int>>,
) -> bool {
    &&& sets.len() == ss.len()
    &&& vs.len() == total_frags(ss, ss.len() as int)
    &&& forall|i: int|
        0 <= i < ss.len() ==> {
            let frags = spec_source_frags(ss[i]);
            &&& (#[trigger] sets[i]).record_id == ss[i].1.id
            &&& sets[i].document_summary == ss[i].1
            &&& sets[i].fragments.len() == frags.len()
            &&& forall|j: int|
                0 <= j < frags.len() ==> (#[trigger] sets[i].fragments[j]).0 == frags[j]
                    && sets[i].fragments[j].1 == vs[total_frags(ss, i) + j]
        }
}

/// Whether some provider answer explains the sets: what a successful
/// build guarantees about its output.
pub open spec fn some_output_matches(ss: Seq<(Seq<SpecField>, SpecRecord)>, sets: Seq<SpecSet>) -> bool {
    exists|vs: Seq<Seq<int>>| #[trigger] build_output_matches(ss, sets, vs)
}

/// The builder: an ordered collection of (schema, record) sources.
pub struct EmbeddingsBuilder {
    sources: Vec<(RecordSchema, Record)>,
}

impl View for EmbeddingsBuilder {
    type V = Seq<(Seq<SpecField>, SpecRecord)>;

    closed spec fn view(&self) -> Seq<(Seq<SpecField>, SpecRecord)> {
        self.sources@.map_values(|p: (RecordSchema, Record)| (p.0@, p.1@))
    }
}

impl EmbeddingsBuilder {
    /// A builder with no sources.
    pub fn new() -> (r: EmbeddingsBuilder)
        ensures
            r@ == Seq::<(Seq<SpecField>, SpecRecord)>::empty(),
    {
        let r = EmbeddingsBuilder { sources: Vec::new() };
        proof {
            assert(r@ =~= Seq::<(Seq<SpecField>, SpecRecord)>::empty());
        }
        r
    }

    /// The number of registered source records.
    pub fn len(&self) -> (r: usize)
        ensures
            r == self@.len(),
    {
        proof {
            assert(self@.len() == self.sources@.len());
        }
        self.sources.len()
    }

    /// Registers one already-materialized record under its type's
    /// schema.
    pub fn add_record(&mut self, schema: &RecordSchema, record: Record)
        ensures
            final(self)@ == old(self)@.push((schema@, record@)),
    {
        let s = schema.clone();
        self.sources.push((s, record));
        proof {
            assert(self@ =~= old(self)@.push((schema@, record@)));
        }
    }

    /// Registers every given record, in order, under the given schema.
    pub fn register_all(&mut self, schema: &RecordSchema, records: Vec<Record>)
        ensures
            final(self)@ == old(self)@ + records@.map_values(|rec: Record| (schema@, rec@)),
    {
        let ghost base = self@;
        let n = records.len();
        let mut i: usize = 0;
        while i < n
            invariant
                i <= n,
                n == records@.len(),
                self@ =~= base + records@.take(i as int).map_values(
                    |rec: Record| (schema@, rec@),
                ),
            decreases n - i,
        {
            let rec = records[i].clone();
            let s = schema.clone();
            let ghost before = self@;
            self.sources.push((s, rec));
            proof {
                assert(self@ =~= before.push((schema@, records@[i as int]@)));
                assert(records@.take(i + 1).map_values(|rec: Record| (schema@, rec@))
                    =~= records@.take(i as int).map_values(|rec: Record| (schema@, rec@)).push(
                    (schema@, records@[i as int]@),
                ));
                assert(self@ =~= base + records@.take(i + 1).map_values(
                    |rec: Record| (schema@, rec@),
                ));
            }
            i = i + 1;
        }
        proof {
            assert(records@.take(n as int) =~= records@);
            assert(records@.take(n as int).map_values(|rec: Record| (schema@, rec@))
                =~= records@.map_values(|rec: Record| (schema@, rec@)));
            assert(self@ =~= base + records@.map_values(|rec: Record| (schema@, rec@)));
        }
    }

    /// Drains a loader collaborator into the builder: whatever record
    /// sequence the loader produced is registered whole, in production
    /// order, under the given schema, and its length comes back; on
    /// failure the builder is left unchanged and no record of the
    /// failed source is kept.
    pub fn add_from_loader<L: Loader>(&mut self, schema: &RecordSchema, loader: &mut L) -> (r:
        Result<usize, LoaderError>)
        ensures
            r matches Ok(n) ==> exists|recs: Seq<SpecRecord>|
                recs.len() == n && final(self)@ == old(self)@ + #[trigger] zip_with_schema(
                    schema@,
                    recs,
                ),
            r is Err ==> final(self)@ == old(self)@,
    {
        match loader.load_all() {
            Err(e) => Err(e),
            Ok(records) => {
                let n = records.len();
                let ghost rv = records@;
                let ghost recs = records@.map_values(|rec: Record| rec@);
                self.register_all(schema, records);
                proof {
                    assert(zip_with_schema(schema@, recs) =~= rv.map_values(
                        |rec: Record| (schema@, rec@),
                    ));
                    assert(self@ == old(self)@ + zip_with_schema(schema@, recs));
                }
                Ok(n)
            },
        }
    }

    /// Extracts every source, failing fast on the first record whose
    /// identifier is empty, whose extraction fails, or which yields no
    /// fragment; the error names that record and every record before it
    /// passes all three checks. On success, one fragment list per
    /// source, in registration order.
    fn extract_all(&self) -> (r: Result<Vec<Vec<String>>, BuildError>)
        ensures
            r is Ok <==> sources_ok(self@),
            r matches Ok(ex) ==> ex@.len() == self@.len() && forall|t: int|
                0 <= t < self@.len() ==> (#[trigger] ex@[t]).deep_view() == spec_source_frags(
                    self@[t],
                ),
            r matches Err(BuildError::Extraction { record_index, error }) ==> 0 <= record_index
                < self@.len() && !extract_ok(
                self@[record_index as int].0,
                self@[record_index as int].1.fields,
            ) && (forall|j: int| 0 <= j < record_index ==> source_ok(#[trigger] self@[j])),
            r matches Err(BuildError::EmptyRecord { record_index }) ==> 0 <= record_index
                < self@.len() && spec_source_frags(self@[record_index as int]).len() == 0 && (
            forall|j: int| 0 <= j < record_index ==> source_ok(#[trigger] self@[j])),
            r matches Err(BuildError::EmptyRecordId { record_index }) ==> 0 <= record_index
                < self@.len() && self@[record_index as int].1.id.len() == 0 && (forall|j: int|
                0 <= j < record_index ==> source_ok(#[trigger] self@[j])),
            r matches Err(e) ==> e is Extraction || e is EmptyRecord || e is EmptyRecordId,
    {
        let ghost ss = self@;
        let n = self.sources.len();
        proof {
            assert(ss.len() == self.sources@.len());
        }
        let mut extracted: Vec<Vec<String>> = Vec::new();
        let mut i: usize = 0;
        while i < n
            invariant
                i <= n,
                n == self.sources@.len(),
                ss == self@,
                ss.len() == n,
                extracted@.len() == i,
                forall|t: int| 0 <= t < i ==> source_ok(#[trigger] ss[t]),
                forall|t: int|
                    0 <= t < i ==> (#[trigger] extracted@[t]).deep_view() == spec_source_frags(
                        ss[t],
                    ),
            decreases n - i,
        {
            proof {
                assert(ss[i as int] == (self.sources@[i as int].0@, self.sources@[i as int].1@));
            }
            if self.sources[i].1.id.as_str().unicode_len() == 0 {
                return Err(BuildError::EmptyRecordId { record_index: i });
            }
            match extract(&self.sources[i].0, &self.sources[i].1) {
                Err(e) => {
                    return Err(BuildError::Extraction { record_index: i, error: e });
                },
                Ok(frs) => {
                    if frs.len() == 0 {
                        proof {
                            assert(spec_source_frags(ss[i as int]).len() == 0);
                        }
                        return Err(BuildError::EmptyRecord { record_index: i });
                    }
                    extracted.push(frs);
                },
            }
            i = i + 1;
        }
        Ok(extracted)
    }

    /// The globally ordered fragment batch over all sources: every
    /// source's fragments, in registration order, each source's block
    /// standing at its offset. Fails exactly as `extract_all` does.
    pub fn batch(&self) -> (r: Result<Vec<String>, BuildError>)
        ensures
            r is Ok <==> sources_ok(self@),
            r matches Ok(b) ==> b@.len() == total_frags(self@, self@.len() as int) && forall|
                t: int,
                j: int,
            |
                0 <= t < self@.len() && 0 <= j < spec_source_frags(self@[t]).len() ==> (
                #[trigger] b@[total_frags(self@, t) + j])@ == spec_source_frags(self@[t])[j],
            r matches Err(BuildError::Extraction { record_index, error }) ==> 0 <= record_index
                < self@.len() && !extract_ok(
                self@[record_index as int].0,
                self@[record_index as int].1.fields,
            ) && (forall|j: int| 0 <= j < record_index ==> source_ok(#[trigger] self@[j])),
            r matches Err(BuildError::EmptyRecord { record_index }) ==> 0 <= record_index
                < self@.len() && spec_source_frags(self@[record_index as int]).len() == 0 && (
            forall|j: int| 0 <= j < record_index ==> source_ok(#[trigger] self@[j])),
            r matches Err(BuildError::EmptyRecordId { record_index }) ==> 0 <= record_index
                < self@.len() && self@[record_index as int].1.id.len() == 0 && (forall|j: int|
                0 <= j < record_index ==> source_ok(#[trigger] self@[j])),
            r matches Err(e) ==> e is Extraction || e is EmptyRecord || e is EmptyRecordId,
    {
        let ghost ss = self@;
        let extracted = match self.extract_all() {
            Err(e) => {
                return Err(e);
            },
            Ok(ex) => ex,
        };
        let n = self.sources.len();
        proof {
            assert(ss.len() == self.sources@.len());
        }
        let mut batch: Vec<String> = Vec::new();
        let mut i2: usize = 0;
        while i2 < n
            invariant
                i2 <= n,
                n == extracted@.len(),
                ss == self@,
                ss.len() == n,
                sources_ok(ss),
                forall|t: int|
                    0 <= t < n ==> (#[trigger] extracted@[t]).deep_view() == spec_source_frags(
                        ss[t],
                    ),
                batch@.len() == total_frags(ss, i2 as int),
                forall|t: int, j: int|
                    0 <= t < i2 && 0 <= j < spec_source_frags(ss[t]).len() ==> (#[trigger] batch@[
                    total_frags(ss, t) + j])@ == spec_source_frags(ss[t])[j],
            decreases n - i2,
        {
            proof {
                lemma_total_frags_nonneg(ss, i2 as int);
            }
            let frs = &extracted[i2];
            let m = frs.len();
            let mut j: usize = 0;
            while j < m
                invariant
                    j <= m,
                    i2 < n,
                    n == ss.len(),
                    m == frs@.len(),
                    frs.deep_view() == spec_source_frags(ss[i2 as int]),
                    m == spec_source_frags(ss[i2 as int]).len(),
                    0 <= total_frags(ss, i2 as int),
                    batch@.len() == total_frags(ss, i2 as int) + j,
                    forall|t: int, jj: int|
                        0 <= t < i2 && 0 <= jj < spec_source_frags(ss[t]).len() ==> (
                        #[trigger] batch@[total_frags(ss, t) + jj])@ == spec_source_frags(ss[t])[jj],
                    forall|jj: int|
                        0 <= jj < j ==> (#[trigger] batch@[total_frags(ss, i2 as int) + jj])@
                            == spec_source_frags(ss[i2 as int])[jj],
                decreases m - j,
            {
                let ghost batch_before = batch@;
                batch.push(frs[j].clone());
                proof {
                    assert(frs.deep_view()[j as int] == frs@[j as int]@);
                    assert(batch@[total_frags(ss, i2 as int) + j as int]@ == spec_source_frags(
                        ss[i2 as int],
                    )[j as int]);
                    assert forall|t: int, jj: int|
                        0 <= t < i2 && 0 <= jj < spec_source_frags(ss[t]).len() implies (
                    #[trigger] batch@[total_frags(ss, t) + jj])@ == spec_source_frags(ss[t])[jj] by {
                        lemma_total_frags_nonneg(ss, t);
                        assert(total_frags(ss, t + 1) == total_frags(ss, t) + spec_source_frags(
                            ss[t],
                        ).len());
                        lemma_total_frags_mono(ss, t + 1, i2 as int);
                        assert(total_frags(ss, t) + jj < batch_before.len());
                        assert(batch@[total_frags(ss, t) + jj] == batch_before[total_frags(ss, t)
                            + jj]);
                    }
                }
                j = j + 1;
            }
            proof {
                assert(total_frags(ss, i2 + 1) == total_frags(ss, i2 as int) + m);
            }
            i2 = i2 + 1;
        }
        let total = batch.len();
        proof {
            assert(total as int == total_frags(ss, ss.len() as int));
        }
        Ok(batch)
    }

    /// Regroups a provider's vector batch into one embedding set per
    /// source: fragment `j` of source `i` is paired with the vector
    /// standing at source `i`'s offset plus `j`, so the output is
    /// determined by the sources and the given vectors alone. The batch
    /// must hold exactly one vector per fragment of the whole build;
    /// any other count is the counting error, and a bad source is its
    /// own error, as in `build`.
    pub fn regroup(&self, vecs: Vec<EmbeddingVector>) -> (r: Result<Vec<EmbeddingSet>, BuildError>)
        requires
            forall|t: int| 0 <= t < vecs@.len() ==> (#[trigger] vecs@[t]).valid(),
        ensures
            r is Ok <==> sources_ok(self@) && vecs@.len() == total_frags(
                self@,
                self@.len() as int,
            ),
            r matches Ok(sets) ==> build_output_matches(self@, set_views(sets@), vec_views(vecs@)),
            r matches Ok(sets) ==> forall|i: int| 0 <= i < sets@.len() ==> (#[trigger] sets@[i]).wf(),
            r matches Err(BuildError::Extraction { record_index, error }) ==> 0 <= record_index
                < self@.len() && !extract_ok(
                self@[record_index as int].0,
                self@[record_index as int].1.fields,
            ) && (forall|j: int| 0 <= j < record_index ==> source_ok(#[trigger] self@[j])),
            r matches Err(BuildError::EmptyRecord { record_index }) ==> 0 <= record_index
                < self@.len() && spec_source_frags(self@[record_index as int]).len() == 0 && (
            forall|j: int| 0 <= j < record_index ==> source_ok(#[trigger] self@[j])),
            r matches Err(BuildError::EmptyRecordId { record_index }) ==> 0 <= record_index
                < self@.len() && self@[record_index as int].1.id.len() == 0 && (forall|j: int|
                0 <= j < record_index ==> source_ok(#[trigger] self@[j])),
            r matches Err(BuildError::ProviderCountMismatch { expected, got }) ==> sources_ok(
                self@,
            ) && expected == total_frags(self@, self@.len() as int) && got == vecs@.len() && got
                != expected,
            r matches Err(e) ==> !(e is Provider),
    {
        let ghost ss = self@;
        let extracted = match self.extract_all() {
            Err(e) => {
                return Err(e);
            },
            Ok(ex) => ex,
        };
        // The total fragment count, read off the flat batch.
        let flat = match self.batch() {
            Err(_) => {
                proof {
                    assert(false);
                }
                return Err(BuildError::ProviderCountMismatch { expected: 0, got: 0 });
            },
            Ok(b) => b,
        };
        let total = flat.len();
        proof {
            assert(total as int == total_frags(ss, ss.len() as int));
        }
        if vecs.len() != total {
            return Err(BuildError::ProviderCountMismatch { expected: total, got: vecs.len() });
        }
        let n = self.sources.len();
        proof {
            assert(ss.len() == self.sources@.len());
        }
        let ghost vviews = vecs@.map_values(|v: EmbeddingVector| v@);
        let mut sets: Vec<EmbeddingSet> = Vec::new();
        let mut cursor: usize = 0;
        let mut i3: usize = 0;
        while i3 < n
            invariant
                i3 <= n,
                n == extracted@.len(),
                n == self.sources@.len(),
                ss == self@,
                ss.len() == n,
                sources_ok(ss),
                forall|t: int|
                    0 <= t < n ==> (#[trigger] extracted@[t]).deep_view() == spec_source_frags(
                        ss[t],
                    ),
                vecs@.len() == total_frags(ss, ss.len() as int),
                forall|t: int| 0 <= t < vecs@.len() ==> (#[trigger] vecs@[t]).valid(),
                vviews == vecs@.map_values(|v: EmbeddingVector| v@),
                cursor as int == total_frags(ss, i3 as int),
                cursor <= vecs@.len(),
                sets@.len() == i3,
                forall|t: int| 0 <= t < i3 ==> (#[trigger] sets@[t]).wf(),
                forall|t: int|
                    0 <= t < i3 ==> {
                        let frags = spec_source_frags(ss[t]);
                        &&& (#[trigger] sets@[t])@.record_id == ss[t].1.id
                        &&& sets@[t]@.document_summary == ss[t].1
                        &&& sets@[t]@.fragments.len() == frags.len()
                        &&& forall|jj: int|
                            0 <= jj < frags.len() ==> (#[trigger] sets@[t]@.fragments[jj]).0
                                == frags[jj] && sets@[t]@.fragments[jj].1 == vviews[total_frags(
                                ss,
                                t,
                            ) + jj]
                    },
            decreases n - i3,
        {
            proof {
                lemma_total_frags_bound(ss, i3 + 1);
                lemma_total_frags_nonneg(ss, i3 as int);
            }
            let frs = &extracted[i3];
            let m = frs.len();
            proof {
                assert(m == spec_source_frags(ss[i3 as int]).len());
                assert(total_frags(ss, i3 + 1) == cursor as int + m);
            }
            let mut fragments: Vec<(String, EmbeddingVector)> = Vec::new();
            let mut j: usize = 0;
            while j < m
                invariant
                    j <= m,
                    m == frs@.len(),
                    frs.deep_view() == spec_source_frags(ss[i3 as int]),
                    m == spec_source_frags(ss[i3 as int]).len(),
                    0 <= cursor as int == total_frags(ss, i3 as int),
                    cursor + m <= vecs@.len(),
                    forall|t: int| 0 <= t < vecs@.len() ==> (#[trigger] vecs@[t]).valid(),
                    vviews == vecs@.map_values(|v: EmbeddingVector| v@),
                    fragments@.len() == j,
                    forall|jj: int|
                        0 <= jj < j ==> ((#[trigger] fragments@[jj]).0@ == spec_source_frags(
                            ss[i3 as int],
                        )[jj] && fragments@[jj].1@ == vviews[cursor + jj]
                            && fragments@[jj].1.valid()),
                decreases m - j,
            {
                proof {
                    assert(vecs.len() == vecs@.len());
                    assert(cursor + j < vecs@.len());
                }
                let text = frs[j].clone();
                let vector = vecs[cursor + j].clone();
                proof {
                    assert(frs.deep_view()[j as int] == frs@[j as int]@);
                    assert(vviews[cursor + j] == vecs@[cursor + j]@);
                }
                fragments.push((text, vector));
                j = j + 1;
            }
            let rid = self.sources[i3].1.id.clone();
            let summary = self.sources[i3].1.clone();
            proof {
                assert(ss[i3 as int] == (self.sources@[i3 as int].0@, self.sources@[i3 as int].1@));
                assert(rid@ == ss[i3 as int].1.id);
                assert(rid@.len() >= 1);
            }
            let set = EmbeddingSet { record_id: rid, document_summary: summary, fragments };
            proof {
                assert(set@.fragments =~= fragments@.map_values(
                    |f: (String, EmbeddingVector)| (f.0@, f.1@),
                ));
                assert(set.wf());
                assert forall|jj: int| 0 <= jj < m implies (#[trigger] set@.fragments[jj]).0
                    == spec_source_frags(ss[i3 as int])[jj] && set@.fragments[jj].1 == vviews[
                total_frags(ss, i3 as int) + jj] by {
                    assert(set@.fragments[jj] == (fragments@[jj].0@, fragments@[jj].1@));
                }
            }
            sets.push(set);
            proof {
                assert(vecs.len() == vecs@.len());
                assert(cursor + m <= vecs@.len());
            }
            cursor = cursor + m;
            i3 = i3 + 1;
        }
        proof {
            let setviews = set_views(sets@);
            assert forall|t: int| 0 <= t < ss.len() implies {
                let frags = spec_source_frags(ss[t]);
                &&& (#[trigger] setviews[t]).record_id == ss[t].1.id
                &&& setviews[t].document_summary == ss[t].1
                &&& setviews[t].fragments.len() == frags.len()
                &&& forall|jj: int|
                    0 <= jj < frags.len() ==> (#[trigger] setviews[t].fragments[jj]).0 == frags[jj]
                        && setviews[t].fragments[jj].1 == vviews[total_frags(ss, t) + jj]
            } by {
                assert(setviews[t] == sets@[t]@);
            }
            assert(build_output_matches(self@, set_views(sets@), vviews));
        }
        Ok(sets)
    }

    /// Runs one build: extracts every source's fragments (failing fast,
    /// before any provider call, on the first bad record), flattens all
    /// fragments into one globally ordered batch, calls the provider
    /// once with the whole batch, and regroups the returned vectors by
    /// stable offsets into one embedding set per source, through
    /// `regroup`, whose contract pins the output for each value of the
    /// provider's answer. All or nothing: any failure yields no sets at
    /// all.
    pub fn build<P: EmbeddingProvider>(&self, provider: &mut P) -> (r: Result<
        Vec<EmbeddingSet>,
        BuildError,
    >)
        ensures
            r matches Ok(sets) ==> sources_ok(self@),
            r matches Ok(sets) ==> some_output_matches(self@, set_views(sets@)),
            r matches Ok(sets) ==> forall|i: int| 0 <= i < sets@.len() ==> (#[trigger] sets@[i]).wf(),
            !sources_ok(self@) ==> r is Err,
            r matches Err(BuildError::Extraction { record_index, error }) ==> 0 <= record_index
                < self@.len() && !extract_ok(
                self@[record_index as int].0,
                self@[record_index as int].1.fields,
            ) && (forall|j: int| 0 <= j < record_index ==> source_ok(#[trigger] self@[j])),
            r matches Err(BuildError::EmptyRecord { record_index }) ==> 0 <= record_index
                < self@.len() && spec_source_frags(self@[record_index as int]).len() == 0 && (
            forall|j: int| 0 <= j < record_index ==> source_ok(#[trigger] self@[j])),
            r matches Err(BuildError::EmptyRecordId { record_index }) ==> 0 <= record_index
                < self@.len() && self@[record_index as int].1.id.len() == 0 && (forall|j: int|
                0 <= j < record_index ==> source_ok(#[trigger] self@[j])),
            r matches Err(BuildError::Provider { error }) ==> sources_ok(self@),
            r matches Err(BuildError::ProviderCountMismatch { expected, got }) ==> sources_ok(
                self@,
            ) && expected == total_frags(self@, self@.len() as int),
    {
        let texts = match self.batch() {
            Err(e) => {
                return Err(e);
            },
            Ok(b) => b,
        };
        let vecs = match provider.embed_batch(&texts) {
            Err(e) => {
                return Err(BuildError::Provider { error: e });
            },
            Ok(vs) => vs,
        };
        let ghost vv = vecs@;
        match self.regroup(vecs) {
            Err(e) => Err(e),
            Ok(sets) => {
                proof {
                    assert(build_output_matches(self@, set_views(sets@), vec_views(vv)));
                    assert(some_output_matches(self@, set_views(sets@)));
                }
                Ok(sets)
            },
        }
    }
}

/// A build's output is a function of the sources and the provider's
/// answer alone: two outputs that both match the same sources and the
/// same returned vectors are equal. `regroup` pins its output to its
/// vector argument through this predicate, so re-running `build` with
/// the same sources and a deterministic provider yields equal sets.
pub proof fn lemma_build_deterministic(
    ss: Seq<(Seq<SpecField>, SpecRecord)>,
    sets1: Seq<SpecSet>,
    sets2: Seq<SpecSet>,
    vs: Seq<Seq<int>>,
)
    requires
        build_output_matches(ss, sets1, vs),
        build_output_matches(ss, sets2, vs),
    ensures
        sets1 =~~= sets2,
{
    assert forall|i: int| 0 <= i < ss.len() implies sets1[i] =~~= sets2[i] by {
        let frags = spec_source_frags(ss[i]);
        assert(sets1[i].fragments.len() == frags.len());
        assert forall|j: int| 0 <= j < frags.len() implies (#[trigger] sets1[i].fragments[j])
            == sets2[i].fragments[j] by {
            assert(sets1[i].fragments[j].0 == frags[j]);
            assert(sets2[i].fragments[j].0 == frags[j]);
            assert(sets1[i].fragments[j].1 == vs[total_frags(ss, i) + j]);
        }
        assert(sets1[i].fragments =~= sets2[i].fragments);
    }
}

/// A build over `N` sources whose total fragment count is `F` yields
/// exactly `N` sets holding exactly `F` fragments in all, each source's
/// count matching its own extraction.
pub proof fn lemma_build_counts(
    ss: Seq<(Seq<SpecField>, SpecRecord)>,
    sets: Seq<SpecSet>,
    vs: Seq<Seq<int>>,
)
    requires
        build_output_matches(ss, sets, vs),
    ensures
        sets.len() == ss.len(),
        vs.len() == total_frags(ss, ss.len() as int),
        forall|i: int|
            0 <= i < ss.len() ==> (#[trigger] sets[i]).fragments.len() == spec_source_frags(
                ss[i],
            ).len(),
{
}

} // verus!
