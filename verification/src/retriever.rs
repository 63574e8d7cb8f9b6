//! The context retriever: embeds a natural-language query through the
//! provider port as a single fragment, asks the index for the most
//! similar records, and hands back their document summaries in ranked
//! order, ready to be concatenated into a prompt. Stateless: it may be
//! invoked anew each conversational turn with a different `k`.

use vstd::prelude::*;
use crate::value::{Record, SpecRecord};
use crate::builder::{EmbeddingProvider, ProviderError};
use crate::index::{VectorIndex, IndexError, SpecEntry, ranked_all, candidates};
use crate::vector::norm_s;

verus! {

/// Failure of one retrieval.
#[derive(Debug)]
pub enum RetrieveError {
    /// The provider port failed to embed the query.
    Provider { error: ProviderError },
    /// The provider answered with a vector count other than one.
    ProviderCountMismatch { got: usize },
    /// The query vector's dimensionality differs from the index's.
    Index { error: IndexError },
}

/// The document summaries that ranked retrieval yields for a query
/// vector: the top `k` distinct records' summaries, best first.
pub open spec fn spec_context(es: Seq<SpecEntry>, qv: Seq<int>, k: int) -> Seq<SpecRecord> {
    let qn = norm_s(qv);
    let rs = ranked_all(es, qv, qn);
    let cut = if k <= candidates(es, qv, qn).len() {
        k
    } else {
        candidates(es, qv, qn).len() as int
    };
    Seq::new(cut as nat, |j: int| es[rs[j]].document_summary)
}

/// Whether the summaries are the ranked context of some query vector.
pub open spec fn context_of_some_query(es: Seq<SpecEntry>, docs: Seq<SpecRecord>, k: int) -> bool {
    exists|qv: Seq<int>| docs == #[trigger] spec_context(es, qv, k)
}

/// Embeds the query text as one fragment through the provider port,
/// asks the index for the `k` most similar records, and returns their
/// document summaries in ranked order. Whatever vector the provider
/// answered with, the summaries are exactly the ranked context of that
/// vector.
pub fn retrieve_context<P: EmbeddingProvider>(
    provider: &mut P,
    index: &VectorIndex,
    query_text: &String,
    k: usize,
) -> (r: Result<Vec<Record>, RetrieveError>)
    requires
        index.wf(),
    ensures
        r matches Ok(docs) ==> docs@.len() <= k && context_of_some_query(
            index@,
            docs@.map_values(|d: Record| d@),
            k as int,
        ),
        r matches Err(RetrieveError::ProviderCountMismatch { got }) ==> got != 1,
        r matches Err(RetrieveError::Index { error: IndexError::DimensionMismatch { expected, got } })
            ==> index@.len() > 0 && expected == index.spec_dim() && got != expected,
{
    let mut batch: Vec<String> = Vec::new();
    batch.push(query_text.clone());
    let vs = match provider.embed_batch(&batch) {
        Err(e) => {
            return Err(RetrieveError::Provider { error: e });
        },
        Ok(vs) => vs,
    };
    if vs.len() != 1 {
        return Err(RetrieveError::ProviderCountMismatch { got: vs.len() });
    }
    let query = &vs[0];
    let ranked = match index.top_k(query, k) {
        Err(e) => {
            return Err(RetrieveError::Index { error: e });
        },
        Ok(res) => res,
    };
    let ghost es = index@;
    let ghost qv = query@;
    let ghost qn = norm_s(qv);
    let ghost rs = ranked_all(es, qv, qn);
    let ghost cut = if k <= candidates(es, qv, qn).len() {
        k as int
    } else {
        candidates(es, qv, qn).len() as int
    };
    let mut docs: Vec<Record> = Vec::new();
    let mut i: usize = 0;
    let n = ranked.len();
    while i < n
        invariant
            i <= n,
            n == ranked@.len(),
            n as int == cut,
            cut <= k,
            es == index@,
            qv == query@,
            qn == norm_s(qv),
            rs == ranked_all(es, qv, qn),
            forall|j: int|
                0 <= j < cut ==> (#[trigger] ranked@[j])@.document_summary == es[rs[j]].document_summary,
            docs@.len() == i,
            forall|j: int|
                0 <= j < i ==> (#[trigger] docs@[j])@ == es[rs[j]].document_summary,
        decreases n - i,
    {
        docs.push(ranked[i].document_summary.clone());
        i = i + 1;
    }
    proof {
        assert(docs@.map_values(|d: Record| d@) =~= spec_context(es, qv, k as int));
        assert(context_of_some_query(index@, docs@.map_values(|d: Record| d@), k as int));
    }
    Ok(docs)
}

} // verus!
