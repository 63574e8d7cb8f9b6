//! The field selector: a record type's declared shape as a static schema,
//! and extraction of the ordered fragment sequence of a record instance.
//! Fragments come in field-declaration order; a sequence-valued field
//! contributes its elements' fragments contiguously at the field's
//! position; a field whose shape has no canonical text form aborts the
//! whole record's extraction.

use vstd::prelude::*;
use crate::text::{bool_chars, int_chars, bool_fragment, char_fragment, int_fragment};
use crate::value::{FieldValue, SpecValue, Record, list_views, lemma_list_views};
use crate::json::{json_chars, json_fragment};

verus! {

/// A custom extraction function reference: how an included field is
/// turned into fragments when not taken verbatim.
#[derive(Clone, Copy)]
pub enum Extractor {
    /// Serialize the field value to one JSON fragment.
    Json,
}

/// What becomes of one declared field during extraction.
#[derive(Clone, Copy)]
pub enum FieldMode {
    /// The field is excluded.
    Skip,
    /// The field's value is converted to its canonical text form.
    Embed,
    /// The field goes through a custom extractor.
    EmbedWith(Extractor),
}

/// One declared field of a record type: its name and its extraction mode.
pub struct FieldSpec {
    pub name: String,
    pub mode: FieldMode,
}

/// The model of a declared field.
pub struct SpecField {
    pub name: Seq<char>,
    pub mode: FieldMode,
}

impl View for FieldSpec {
    type V = SpecField;

    open spec fn view(&self) -> SpecField {
        SpecField { name: self.name@, mode: self.mode }
    }
}

impl Clone for FieldSpec {
    fn clone(&self) -> (r: Self)
        ensures
            r@ == self@,
    {
        FieldSpec { name: self.name.clone(), mode: self.mode }
    }
}

/// Failure to derive a schema from a record type's declared shape.
#[derive(Debug)]
pub enum SchemaError {
    /// No declared field participates in embedding.
    NoEmbeddableFields,
}

/// Failure of one record's extraction.
#[derive(Debug)]
pub enum ExtractionError {
    /// The record does not have the declared number of fields.
    ShapeMismatch { expected: usize, got: usize },
    /// A field included verbatim has no canonical text form.
    NonEmbeddableShape { field: String },
}

/// Whether some declared field participates in embedding.
pub open spec fn has_embeddable_field(fields: Seq<SpecField>) -> bool {
    exists|i: int| 0 <= i < fields.len() && !((#[trigger] fields[i]).mode is Skip)
}

/// The derived schema of one record type, built once per distinct shape:
/// its construction fails unless at least one field is embeddable.
pub struct RecordSchema {
    fields: Vec<FieldSpec>,
}

impl View for RecordSchema {
    type V = Seq<SpecField>;

    closed spec fn view(&self) -> Seq<SpecField> {
        self.fields@.map_values(|f: FieldSpec| f@)
    }
}

impl Clone for RecordSchema {
    fn clone(&self) -> (r: Self)
        ensures
            r@ == self@,
    {
        let mut fields: Vec<FieldSpec> = Vec::new();
        let mut i: usize = 0;
        while i < self.fields.len()
            invariant
                i <= self.fields.len(),
                fields@.len() == i,
                forall|j: int| 0 <= j < i ==> (#[trigger] fields@[j])@ == self.fields@[j]@,
            decreases self.fields.len() - i,
        {
            fields.push(self.fields[i].clone());
            i = i + 1;
        }
        let r = RecordSchema { fields };
        assert(r@ =~= self@);
        r
    }
}

impl RecordSchema {
    /// A schema has at least one embeddable field.
    pub open spec fn wf(&self) -> bool {
        has_embeddable_field(self@)
    }

    /// Derives the schema of a record type from its declared fields.
    /// A shape in which no field embeds is a schema error: it can never
    /// produce an embedding set.
    pub fn new(fields: Vec<FieldSpec>) -> (r: Result<RecordSchema, SchemaError>)
        ensures
            r is Ok <==> has_embeddable_field(fields@.map_values(|f: FieldSpec| f@)),
            r matches Ok(s) ==> s@ == fields@.map_values(|f: FieldSpec| f@),
            r matches Err(e) ==> e == SchemaError::NoEmbeddableFields,
    {
        let mut any: bool = false;
        let mut i: usize = 0;
        while i < fields.len()
            invariant
                i <= fields.len(),
                any == exists|j: int| 0 <= j < i && !((#[trigger] fields@[j])@.mode is Skip),
            decreases fields.len() - i,
        {
            match fields[i].mode {
                FieldMode::Skip => {},
                _ => {
                    proof {
                        assert(!(fields@[i as int]@.mode is Skip));
                    }
                    any = true;
                },
            }
            i = i + 1;
        }
        let ghost sf = fields@.map_values(|f: FieldSpec| f@);
        proof {
            assert(sf.len() == fields@.len());
            if any {
                let j = choose|j: int| 0 <= j < fields@.len() && !((#[trigger] fields@[j])@.mode
                    is Skip);
                assert(!(sf[j].mode is Skip));
                assert(has_embeddable_field(sf));
            } else {
                assert forall|j: int| 0 <= j < sf.len() implies ((#[trigger] sf[j]).mode
                    is Skip) by {
                    assert(fields@[j]@.mode is Skip);
                }
            }
        }
        if any {
            Ok(RecordSchema { fields })
        } else {
            Err(SchemaError::NoEmbeddableFields)
        }
    }

    /// The number of declared fields.
    pub fn len(&self) -> (r: usize)
        ensures
            r == self@.len(),
    {
        proof {
            assert(self@.len() == self.fields@.len());
        }
        self.fields.len()
    }
}

/// Whether a value has a canonical text form: scalars do, a list does
/// when all its elements do, an object never does.
pub open spec fn verbatim_ok(v: SpecValue) -> bool
    decreases v,
{
    match v {
        SpecValue::Text(_) => true,
        SpecValue::Int(_) => true,
        SpecValue::Bool(_) => true,
        SpecValue::Char(_) => true,
        SpecValue::List(vs) => verbatim_list_ok(vs),
        SpecValue::Object(_) => false,
    }
}

/// Whether every element of a list has a canonical text form.
pub open spec fn verbatim_list_ok(vs: Seq<SpecValue>) -> bool
    decreases vs,
{
    if vs.len() == 0 {
        true
    } else {
        verbatim_ok(vs[0]) && verbatim_list_ok(vs.drop_first())
    }
}

/// The verbatim fragments of a value: one canonical text for a scalar,
/// the concatenation of the elements' fragments for a list, in element
/// order.
pub open spec fn verbatim_frags(v: SpecValue) -> Seq<Seq<char>>
    decreases v,
{
    match v {
        SpecValue::Text(s) => seq![s],
        SpecValue::Int(n) => seq![int_chars(n)],
        SpecValue::Bool(b) => seq![bool_chars(b)],
        SpecValue::Char(c) => seq![seq![c]],
        SpecValue::List(vs) => verbatim_list_frags(vs),
        SpecValue::Object(_) => Seq::empty(),
    }
}

/// The concatenated verbatim fragments of a list's elements.
pub open spec fn verbatim_list_frags(vs: Seq<SpecValue>) -> Seq<Seq<char>>
    decreases vs,
{
    if vs.len() == 0 {
        Seq::empty()
    } else {
        verbatim_frags(vs[0]) + verbatim_list_frags(vs.drop_first())
    }
}

/// Appending an element appends its fragments, and keeps the list
/// embeddable exactly when the element is.
pub proof fn lemma_verbatim_list_push(vs: Seq<SpecValue>, x: SpecValue)
    ensures
        verbatim_list_frags(vs.push(x)) == verbatim_list_frags(vs) + verbatim_frags(x),
        verbatim_list_ok(vs.push(x)) == (verbatim_list_ok(vs) && verbatim_ok(x)),
    decreases vs.len(),
{
    let w = vs.push(x);
    if vs.len() == 0 {
        assert(w.len() == 1);
        assert(w[0] == x);
        assert(w.drop_first() =~= Seq::<SpecValue>::empty());
        assert(w.drop_first() == Seq::<SpecValue>::empty());
        assert(verbatim_list_frags(Seq::<SpecValue>::empty()) == Seq::<Seq<char>>::empty());
        assert(verbatim_list_ok(Seq::<SpecValue>::empty()));
        assert(verbatim_list_frags(w) =~= verbatim_list_frags(vs) + verbatim_frags(x));
        assert(verbatim_list_ok(w) == (verbatim_list_ok(vs) && verbatim_ok(x)));
    } else {
        assert(w[0] == vs[0]);
        assert(w.drop_first() =~= vs.drop_first().push(x));
        assert(w.drop_first() == vs.drop_first().push(x));
        lemma_verbatim_list_push(vs.drop_first(), x);
        assert(verbatim_list_frags(w) =~= verbatim_list_frags(vs) + verbatim_frags(x));
        assert(verbatim_list_ok(w) == (verbatim_list_ok(vs) && verbatim_ok(x)));
    }
}

/// Whether one included field extracts successfully under its mode.
pub open spec fn mode_ok(m: FieldMode, v: SpecValue) -> bool {
    match m {
        FieldMode::Skip => true,
        FieldMode::Embed => verbatim_ok(v),
        FieldMode::EmbedWith(_) => true,
    }
}

/// The fragments one field contributes under its mode.
pub open spec fn mode_frags(m: FieldMode, v: SpecValue) -> Seq<Seq<char>> {
    match m {
        FieldMode::Skip => Seq::empty(),
        FieldMode::Embed => verbatim_frags(v),
        FieldMode::EmbedWith(Extractor::Json) => seq![json_chars(v)],
    }
}

/// The per-field fragment lists of a record under a schema.
pub open spec fn extract_parts(fields: Seq<SpecField>, vals: Seq<SpecValue>) -> Seq<Seq<Seq<char>>> {
    Seq::new(fields.len(), |i: int| mode_frags(fields[i].mode, vals[i]))
}

/// Whether extraction of a whole record succeeds.
pub open spec fn extract_ok(fields: Seq<SpecField>, vals: Seq<SpecValue>) -> bool {
    &&& fields.len() == vals.len()
    &&& forall|i: int| 0 <= i < fields.len() ==> mode_ok((#[trigger] fields[i]).mode, vals[i])
}

/// The full fragment sequence of a record: the per-field fragment lists
/// concatenated in field-declaration order.
pub open spec fn spec_extract(fields: Seq<SpecField>, vals: Seq<SpecValue>) -> Seq<Seq<char>> {
    extract_parts(fields, vals).flatten()
}

/// The verbatim fragments of one value, or `None` when its shape has no
/// canonical text form.
fn verbatim_fragments(v: &FieldValue) -> (r: Option<Vec<String>>)
    ensures
        r is Some <==> verbatim_ok(v@),
        r matches Some(fr) ==> fr.deep_view() == verbatim_frags(v@),
    decreases *v,
{
    match v {
        FieldValue::Text(s) => {
            let mut out: Vec<String> = Vec::new();
            out.push(s.clone());
            assert(out.deep_view() =~= verbatim_frags(v@));
            Some(out)
        },
        FieldValue::Int(n) => {
            let mut out: Vec<String> = Vec::new();
            out.push(int_fragment(*n));
            assert(out.deep_view() =~= verbatim_frags(v@));
            Some(out)
        },
        FieldValue::Bool(b) => {
            let mut out: Vec<String> = Vec::new();
            out.push(bool_fragment(*b));
            assert(out.deep_view() =~= verbatim_frags(v@));
            Some(out)
        },
        FieldValue::Char(c) => {
            let mut out: Vec<String> = Vec::new();
            out.push(char_fragment(*c));
            assert(out.deep_view() =~= verbatim_frags(v@));
            Some(out)
        },
        FieldValue::Object(_) => None,
        FieldValue::List(vs) => {
            let ghost views = list_views(vs@);
            proof {
                lemma_list_views(vs@);
            }
            let mut out: Vec<String> = Vec::new();
            let mut i: usize = 0;
            while i < vs.len()
                invariant
                    i <= vs.len(),
                    *v == FieldValue::List(*vs),
                    views == list_views(vs@),
                    views.len() == vs@.len(),
                    forall|j: int| 0 <= j < vs@.len() ==> views[j] == (#[trigger] vs@[j])@,
                    verbatim_list_ok(views.take(i as int)),
                    out.deep_view() == verbatim_list_frags(views.take(i as int)),
                decreases vs.len() - i,
            {
                proof {
                    assert(decreases_to!(*v => (*v)->List_0));
                    assert(decreases_to!((*v)->List_0 => (*v)->List_0@));
                    assert(decreases_to!((*v)->List_0@ => (*v)->List_0@[i as int]));
                    assert(decreases_to!(*v => vs@[i as int]));
                }
                match verbatim_fragments(&vs[i]) {
                    Some(mut frs) => {
                        let ghost shallow_before = out@;
                        let ghost deep_before = out.deep_view();
                        let ghost frs_snap = frs@;
                        let ghost frs_deep = frs.deep_view();
                        out.append(&mut frs);
                        proof {
                            assert(out@ == shallow_before + frs_snap);
                            assert forall|m: int| 0 <= m < out@.len() implies out.deep_view()[m]
                                == (deep_before + verbatim_frags(views[i as int]))[m] by {
                                if m < shallow_before.len() {
                                    assert(out@[m] == shallow_before[m]);
                                } else {
                                    assert(out@[m] == frs_snap[m - shallow_before.len()]);
                                    assert(out.deep_view()[m] == frs_deep[m
                                        - shallow_before.len()]);
                                }
                            }
                            assert(out.deep_view() =~= deep_before + verbatim_frags(
                                views[i as int],
                            ));
                            assert(views.take(i as int).push(views[i as int]) =~= views.take(
                                i + 1,
                            ));
                            lemma_verbatim_list_push(views.take(i as int), views[i as int]);
                            assert(out.deep_view() == verbatim_list_frags(views.take(i + 1)));
                        }
                    },
                    None => {
                        proof {
                            assert(views.take(i as int).push(views[i as int]) =~= views.take(
                                i + 1,
                            ));
                            lemma_verbatim_list_push(views.take(i as int), views[i as int]);
                            assert(!verbatim_list_ok(views.take(i + 1)));
                            lemma_verbatim_list_prefix(views, i + 1);
                            assert(!verbatim_ok(v@));
                        }
                        return None;
                    },
                }
                i = i + 1;
            }
            proof {
                assert(views.take(vs@.len() as int) =~= views);
            }
            Some(out)
        },
    }
}

/// A list whose prefix is not embeddable is not embeddable.
proof fn lemma_verbatim_list_prefix(vs: Seq<SpecValue>, i: int)
    requires
        0 <= i <= vs.len(),
        !verbatim_list_ok(vs.take(i)),
    ensures
        !verbatim_list_ok(vs),
    decreases vs.len(),
{
    if i > 0 && vs.len() > 0 {
        assert(vs.take(i)[0] == vs[0]);
        if verbatim_ok(vs[0]) {
            assert(vs.take(i).drop_first() =~= vs.drop_first().take(i - 1));
            lemma_verbatim_list_prefix(vs.drop_first(), i - 1);
        }
    }
}

/// Extraction of one record under a schema: the fragments of the included
/// fields, concatenated in field-declaration order. Fails, returning no
/// fragments at all, when the record does not match the declared shape or
/// when an included field's shape has no canonical text form; the error
/// names the first such field.
pub fn extract(schema: &RecordSchema, record: &Record) -> (r: Result<Vec<String>, ExtractionError>)
    ensures
        r is Ok <==> extract_ok(schema@, record@.fields),
        r matches Ok(v) ==> v.deep_view() == spec_extract(schema@, record@.fields),
        r matches Err(ExtractionError::ShapeMismatch { expected, got }) ==> expected
            == schema@.len() && got == record@.fields.len() && schema@.len()
            != record@.fields.len(),
        schema@.len() != record@.fields.len() ==> (r matches Err(e) && e
            is ShapeMismatch),
        r matches Err(ExtractionError::NonEmbeddableShape { field }) ==> exists|i: int|
            0 <= i < schema@.len() && !mode_ok((#[trigger] schema@[i]).mode, record@.fields[i])
                && field@ == schema@[i].name && (forall|j: int|
                0 <= j < i ==> mode_ok((#[trigger] schema@[j]).mode, record@.fields[j])),
        schema@.len() == record@.fields.len() && !extract_ok(schema@, record@.fields) ==> (
        r matches Err(e) && e is NonEmbeddableShape),
{
    let ghost fields = schema@;
    let ghost vals = record@.fields;
    proof {
        lemma_list_views(record.fields@);
    }
    if schema.fields.len() != record.fields.len() {
        return Err(
            ExtractionError::ShapeMismatch {
                expected: schema.fields.len(),
                got: record.fields.len(),
            },
        );
    }
    let ghost parts = extract_parts(fields, vals);
    let mut out: Vec<String> = Vec::new();
    let mut i: usize = 0;
    while i < schema.fields.len()
        invariant
            i <= schema.fields.len(),
            fields == schema@,
            vals == record@.fields,
            parts == extract_parts(fields, vals),
            schema.fields@.len() == fields.len(),
            record.fields@.len() == vals.len(),
            fields.len() == vals.len(),
            forall|j: int| 0 <= j < vals.len() ==> vals[j] == (#[trigger] record.fields@[j])@,
            forall|j: int| 0 <= j < i ==> mode_ok((#[trigger] fields[j]).mode, vals[j]),
            out.deep_view() == parts.take(i as int).flatten(),
        decreases schema.fields.len() - i,
    {
        let ghost deep_before = out.deep_view();
        let ghost shallow_before = out@;
        match schema.fields[i].mode {
            FieldMode::Skip => {
                proof {
                    assert(parts[i as int] =~= Seq::<Seq<char>>::empty());
                    assert(parts.take(i as int).push(parts[i as int]) =~= parts.take(i + 1));
                    parts.take(i as int).lemma_flatten_push(parts[i as int]);
                    assert(out.deep_view() =~= parts.take(i + 1).flatten());
                }
            },
            FieldMode::Embed => {
                match verbatim_fragments(&record.fields[i]) {
                    Some(mut frs) => {
                        let ghost frs_snap = frs@;
                        let ghost frs_deep = frs.deep_view();
                        out.append(&mut frs);
                        proof {
                            assert(out@ == shallow_before + frs_snap);
                            assert forall|m: int| 0 <= m < out@.len() implies out.deep_view()[m]
                                == (deep_before + parts[i as int])[m] by {
                                if m < shallow_before.len() {
                                    assert(out@[m] == shallow_before[m]);
                                } else {
                                    assert(out@[m] == frs_snap[m - shallow_before.len()]);
                                    assert(out.deep_view()[m] == frs_deep[m
                                        - shallow_before.len()]);
                                }
                            }
                            assert(out.deep_view() =~= deep_before + parts[i as int]);
                            assert(parts.take(i as int).push(parts[i as int]) =~= parts.take(
                                i + 1,
                            ));
                            parts.take(i as int).lemma_flatten_push(parts[i as int]);
                            assert(out.deep_view() == parts.take(i + 1).flatten());
                        }
                    },
                    None => {
                        return Err(
                            ExtractionError::NonEmbeddableShape {
                                field: schema.fields[i].name.clone(),
                            },
                        );
                    },
                }
            },
            FieldMode::EmbedWith(Extractor::Json) => {
                let f = json_fragment(&record.fields[i]);
                out.push(f);
                proof {
                    assert(parts[i as int] =~= seq![json_chars(vals[i as int])]);
                    assert forall|m: int| 0 <= m < out@.len() implies out.deep_view()[m] == (
                    deep_before + parts[i as int])[m] by {
                        if m < shallow_before.len() {
                            assert(out@[m] == shallow_before[m]);
                        }
                    }
                    assert(out.deep_view() =~= deep_before + parts[i as int]);
                    assert(parts.take(i as int).push(parts[i as int]) =~= parts.take(i + 1));
                    parts.take(i as int).lemma_flatten_push(parts[i as int]);
                    assert(out.deep_view() == parts.take(i + 1).flatten());
                }
            },
        }
        i = i + 1;
    }
    proof {
        assert(parts.take(fields.len() as int) =~= parts);
    }
    Ok(out)
}

/// Fragments come in field-declaration order: field `i`'s fragments stand
/// contiguously in the extracted sequence, at the offset given by the
/// total fragment count of the fields declared before it. In particular a
/// sequence-valued field of length `n` contributes its `n` fragments as
/// one contiguous block at its declared position.
pub proof fn lemma_extract_field_positions(fields: Seq<SpecField>, vals: Seq<SpecValue>, i: int)
    requires
        fields.len() == vals.len(),
        0 <= i < fields.len(),
    ensures
        ({
            let parts = extract_parts(fields, vals);
            let off = parts.take(i).flatten().len() as int;
            &&& 0 <= off
            &&& off + parts[i].len() <= spec_extract(fields, vals).len()
            &&& spec_extract(fields, vals).subrange(off, off + parts[i].len()) == parts[i]
        }),
{
    let parts = extract_parts(fields, vals);
    let pre = parts.take(i);
    let mid = seq![parts[i]];
    let post = parts.skip(i + 1);
    assert(parts =~= pre + mid + post);
    vstd::seq_lib::lemma_flatten_concat(pre + mid, post);
    vstd::seq_lib::lemma_flatten_concat(pre, mid);
    assert(mid.len() == 1);
    mid.lemma_flatten_singleton();
    assert(parts.flatten() == pre.flatten() + parts[i] + post.flatten());
    let off = pre.flatten().len() as int;
    assert(spec_extract(fields, vals).subrange(off, off + parts[i].len()) =~= parts[i]);
}

} // verus!
