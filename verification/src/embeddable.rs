//! The `Embeddable` trait: types that can be turned into the list of text
//! fragments for which embeddings are generated, together with its
//! implementations for common scalar types and for vectors of embeddable
//! elements.

use vstd::prelude::*;
use crate::text::{bool_chars, int_chars, bool_fragment, char_fragment, int_fragment};

verus! {

/// The associated type `Kind` on the trait `Embeddable` must implement
/// this trait.
pub trait EmbeddingKind {

}

/// Used for types that contain a single embedding target.
pub struct SingleEmbedding;

impl EmbeddingKind for SingleEmbedding {

}

/// Used for types that contain many embedding targets.
pub struct ManyEmbedding;

impl EmbeddingKind for ManyEmbedding {

}

/// Failure of fragment production, carrying the serializer's message.
#[derive(Debug)]
pub enum EmbeddableError {
    Serde { message: String },
}

impl EmbeddableError {
    /// The carried message.
    pub fn message(&self) -> (r: &String)
        ensures
            *self matches EmbeddableError::Serde { message } && r@ == message@,
    {
        match self {
            EmbeddableError::Serde { message } => message,
        }
    }
}

/// The per-element fragment lists of a sequence of embeddable values.
pub open spec fn fragment_parts<T: Embeddable>(vs: Seq<T>) -> Seq<Seq<Seq<char>>> {
    Seq::new(vs.len(), |i: int| vs[i].spec_fragments())
}

/// The position of the first element whose fragment production fails;
/// the length when none does.
pub open spec fn first_failing<T: Embeddable>(vs: Seq<T>) -> int
    decreases vs.len(),
{
    if vs.len() == 0 {
        0
    } else if !vs[0].spec_can_embed() {
        0
    } else {
        1 + first_failing(vs.drop_first())
    }
}

/// An element that fails, with every earlier element succeeding, is the
/// first failing one.
pub proof fn lemma_first_failing<T: Embeddable>(vs: Seq<T>, i: int)
    requires
        0 <= i < vs.len(),
        !vs[i].spec_can_embed(),
        forall|j: int| 0 <= j < i ==> (#[trigger] vs[j]).spec_can_embed(),
    ensures
        first_failing(vs) == i,
    decreases i,
{
    if i > 0 {
        assert(vs[0].spec_can_embed());
        let rest = vs.drop_first();
        assert(rest[i - 1] == vs[i]);
        assert forall|j: int| 0 <= j < i - 1 implies (#[trigger] rest[j]).spec_can_embed() by {
            assert(rest[j] == vs[j + 1]);
        }
        lemma_first_failing(rest, i - 1);
    }
}

/// Trait for types that can be embedded. `embeddable` returns the list
/// of strings for which embeddings will be generated by the embeddings
/// builder: a single item when `Kind` is `SingleEmbedding`, possibly
/// many when it is `ManyEmbedding`.
pub trait Embeddable {
    type Kind: EmbeddingKind;

    type Error;

    /// Whether fragment production succeeds for this value.
    spec fn spec_can_embed(&self) -> bool;

    /// The fragments this value embeds to, in order.
    spec fn spec_fragments(&self) -> Seq<Seq<char>>;

    /// The error fragment production surfaces when it fails.
    spec fn spec_error(&self) -> Self::Error;

    fn embeddable(&self) -> (r: Result<Vec<String>, Self::Error>)
        ensures
            r is Ok <==> self.spec_can_embed(),
            r matches Ok(v) ==> v.deep_view() == self.spec_fragments(),
            r matches Err(e) ==> e == self.spec_error(),
    ;
}

impl Embeddable for String {
    type Kind = SingleEmbedding;

    type Error = EmbeddableError;

    open spec fn spec_can_embed(&self) -> bool {
        true
    }

    open spec fn spec_fragments(&self) -> Seq<Seq<char>> {
        seq![self@]
    }

    /// Fragment production cannot fail for this type, so no error value
    /// is ever produced.
    open spec fn spec_error(&self) -> EmbeddableError {
        arbitrary()
    }

    fn embeddable(&self) -> (r: Result<Vec<String>, EmbeddableError>) {
        let mut v: Vec<String> = Vec::new();
        v.push(self.clone());
        assert(v.deep_view() =~= seq![self@]);
        Ok(v)
    }
}

impl Embeddable for i8 {
    type Kind = SingleEmbedding;

    type Error = EmbeddableError;

    open spec fn spec_can_embed(&self) -> bool {
        true
    }

    open spec fn spec_fragments(&self) -> Seq<Seq<char>> {
        seq![int_chars(*self as int)]
    }

    /// Fragment production cannot fail for this type, so no error value
    /// is ever produced.
    open spec fn spec_error(&self) -> EmbeddableError {
        arbitrary()
    }

    fn embeddable(&self) -> (r: Result<Vec<String>, EmbeddableError>) {
        let mut v: Vec<String> = Vec::new();
        v.push(int_fragment(*self as i128));
        assert(v.deep_view() =~= seq![int_chars(*self as int)]);
        Ok(v)
    }
}

impl Embeddable for i16 {
    type Kind = SingleEmbedding;

    type Error = EmbeddableError;

    open spec fn spec_can_embed(&self) -> bool {
        true
    }

    open spec fn spec_fragments(&self) -> Seq<Seq<char>> {
        seq![int_chars(*self as int)]
    }

    /// Fragment production cannot fail for this type, so no error value
    /// is ever produced.
    open spec fn spec_error(&self) -> EmbeddableError {
        arbitrary()
    }

    fn embeddable(&self) -> (r: Result<Vec<String>, EmbeddableError>) {
        let mut v: Vec<String> = Vec::new();
        v.push(int_fragment(*self as i128));
        assert(v.deep_view() =~= seq![int_chars(*self as int)]);
        Ok(v)
    }
}

impl Embeddable for i32 {
    type Kind = SingleEmbedding;

    type Error = EmbeddableError;

    open spec fn spec_can_embed(&self) -> bool {
        true
    }

    open spec fn spec_fragments(&self) -> Seq<Seq<char>> {
        seq![int_chars(*self as int)]
    }

    /// Fragment production cannot fail for this type, so no error value
    /// is ever produced.
    open spec fn spec_error(&self) -> EmbeddableError {
        arbitrary()
    }

    fn embeddable(&self) -> (r: Result<Vec<String>, EmbeddableError>) {
        let mut v: Vec<String> = Vec::new();
        v.push(int_fragment(*self as i128));
        assert(v.deep_view() =~= seq![int_chars(*self as int)]);
        Ok(v)
    }
}

impl Embeddable for i64 {
    type Kind = SingleEmbedding;

    type Error = EmbeddableError;

    open spec fn spec_can_embed(&self) -> bool {
        true
    }

    open spec fn spec_fragments(&self) -> Seq<Seq<char>> {
        seq![int_chars(*self as int)]
    }

    /// Fragment production cannot fail for this type, so no error value
    /// is ever produced.
    open spec fn spec_error(&self) -> EmbeddableError {
        arbitrary()
    }

    fn embeddable(&self) -> (r: Result<Vec<String>, EmbeddableError>) {
        let mut v: Vec<String> = Vec::new();
        v.push(int_fragment(*self as i128));
        assert(v.deep_view() =~= seq![int_chars(*self as int)]);
        Ok(v)
    }
}

impl Embeddable for i128 {
    type Kind = SingleEmbedding;

    type Error = EmbeddableError;

    open spec fn spec_can_embed(&self) -> bool {
        true
    }

    open spec fn spec_fragments(&self) -> Seq<Seq<char>> {
        seq![int_chars(*self as int)]
    }

    /// Fragment production cannot fail for this type, so no error value
    /// is ever produced.
    open spec fn spec_error(&self) -> EmbeddableError {
        arbitrary()
    }

    fn embeddable(&self) -> (r: Result<Vec<String>, EmbeddableError>) {
        let mut v: Vec<String> = Vec::new();
        v.push(int_fragment(*self));
        assert(v.deep_view() =~= seq![int_chars(*self as int)]);
        Ok(v)
    }
}

impl Embeddable for bool {
    type Kind = SingleEmbedding;

    type Error = EmbeddableError;

    open spec fn spec_can_embed(&self) -> bool {
        true
    }

    open spec fn spec_fragments(&self) -> Seq<Seq<char>> {
        seq![bool_chars(*self)]
    }

    /// Fragment production cannot fail for this type, so no error value
    /// is ever produced.
    open spec fn spec_error(&self) -> EmbeddableError {
        arbitrary()
    }

    fn embeddable(&self) -> (r: Result<Vec<String>, EmbeddableError>) {
        let mut v: Vec<String> = Vec::new();
        v.push(bool_fragment(*self));
        assert(v.deep_view() =~= seq![bool_chars(*self)]);
        Ok(v)
    }
}

impl Embeddable for char {
    type Kind = SingleEmbedding;

    type Error = EmbeddableError;

    open spec fn spec_can_embed(&self) -> bool {
        true
    }

    open spec fn spec_fragments(&self) -> Seq<Seq<char>> {
        seq![seq![*self]]
    }

    /// Fragment production cannot fail for this type, so no error value
    /// is ever produced.
    open spec fn spec_error(&self) -> EmbeddableError {
        arbitrary()
    }

    fn embeddable(&self) -> (r: Result<Vec<String>, EmbeddableError>) {
        let mut v: Vec<String> = Vec::new();
        v.push(char_fragment(*self));
        assert(v.deep_view() =~= seq![seq![*self]]);
        Ok(v)
    }
}

impl<T: Embeddable> Embeddable for Vec<T> {
    type Kind = ManyEmbedding;

    type Error = T::Error;

    open spec fn spec_can_embed(&self) -> bool {
        forall|i: int| 0 <= i < self@.len() ==> (#[trigger] self@[i]).spec_can_embed()
    }

    open spec fn spec_fragments(&self) -> Seq<Seq<char>> {
        fragment_parts(self@).flatten()
    }

    /// The first failing element's error, propagated unchanged.
    open spec fn spec_error(&self) -> T::Error {
        self@[first_failing(self@)].spec_error()
    }

    fn embeddable(&self) -> (r: Result<Vec<String>, T::Error>) {
        let ghost parts = fragment_parts(self@);
        let mut out: Vec<String> = Vec::new();
        let mut i: usize = 0;
        while i < self.len()
            invariant
                i <= self@.len(),
                parts == fragment_parts(self@),
                forall|j: int| 0 <= j < i ==> (#[trigger] self@[j]).spec_can_embed(),
                out.deep_view() == parts.take(i as int).flatten(),
            decreases self@.len() - i,
        {
            match self[i].embeddable() {
                Ok(frs) => {
                    let ghost shallow_before = out@;
                    let ghost deep_before = out.deep_view();
                    let n = frs.len();
                    let mut k: usize = 0;
                    while k < n
                        invariant
                            k <= n,
                            n == frs@.len(),
                            out@ =~= shallow_before + frs@.take(k as int),
                        decreases n - k,
                    {
                        out.push(frs[k].clone());
                        assert(out@ =~= shallow_before + frs@.take(k + 1));
                        k = k + 1;
                    }
                    proof {
                        assert(frs@.take(n as int) =~= frs@);
                        assert(out@ == shallow_before + frs@);
                        assert forall|m: int| 0 <= m < out@.len() implies out.deep_view()[m] == (
                        deep_before + frs.deep_view())[m] by {
                            if m < shallow_before.len() {
                                assert(out@[m] == shallow_before[m]);
                            } else {
                                assert(out@[m] == frs@[m - shallow_before.len()]);
                            }
                        }
                        assert(out.deep_view() =~= deep_before + frs.deep_view());
                        assert(out.deep_view() =~= deep_before + parts[i as int]);
                        assert(parts.take(i as int).push(parts[i as int]) =~= parts.take(i + 1));
                        parts.take(i as int).lemma_flatten_push(parts[i as int]);
                        assert(out.deep_view() == parts.take(i + 1).flatten());
                    }
                },
                Err(e) => {
                    proof {
                        assert(!(*self).spec_can_embed());
                        lemma_first_failing(self@, i as int);
                        assert(e == self@[i as int].spec_error());
                    }
                    return Err(e);
                },
            }
            i = i + 1;
        }
        proof {
            assert(parts.take(self@.len() as int) =~= parts);
        }
        Ok(out)
    }
}

} // verus!
