//! Dynamic field values: the shapes a declared record field can take.
//! A record instance is its identifier plus one `FieldValue` per declared
//! field, in declaration order. The mathematical model of a value is
//! `SpecValue`, reached through `@`.

use vstd::prelude::*;

verus! {

/// The value of one record field. Scalars have a canonical text form;
/// a `List` expands element by element during extraction; an `Object`
/// has no verbatim text form and can only be embedded through a custom
/// extractor, such as the JSON one.
pub enum FieldValue {
    Text(String),
    Int(i128),
    Bool(bool),
    Char(char),
    List(Vec<FieldValue>),
    Object(Vec<(String, FieldValue)>),
}

/// The mathematical model of a field value.
pub enum SpecValue {
    Text(Seq<char>),
    Int(int),
    Bool(bool),
    Char(char),
    List(Seq<SpecValue>),
    Object(Seq<(Seq<char>, SpecValue)>),
}

/// The model of a field value.
pub open spec fn value_view(v: FieldValue) -> SpecValue
    decreases v,
{
    match v {
        FieldValue::Text(s) => SpecValue::Text(s@),
        FieldValue::Int(n) => SpecValue::Int(n as int),
        FieldValue::Bool(b) => SpecValue::Bool(b),
        FieldValue::Char(c) => SpecValue::Char(c),
        FieldValue::List(vs) => SpecValue::List(list_views(vs@)),
        FieldValue::Object(fs) => SpecValue::Object(object_views(fs@)),
    }
}

/// The models of the elements of a list value.
pub open spec fn list_views(vs: Seq<FieldValue>) -> Seq<SpecValue>
    decreases vs,
{
    if vs.len() == 0 {
        Seq::empty()
    } else {
        seq![value_view(vs[0])] + list_views(vs.drop_first())
    }
}

/// The models of the named members of an object value.
pub open spec fn object_views(fs: Seq<(String, FieldValue)>) -> Seq<(Seq<char>, SpecValue)>
    decreases fs,
{
    if fs.len() == 0 {
        Seq::empty()
    } else {
        seq![(fs[0].0@, value_view(fs[0].1))] + object_views(fs.drop_first())
    }
}

impl View for FieldValue {
    type V = SpecValue;

    open spec fn view(&self) -> SpecValue {
        value_view(*self)
    }
}

/// `list_views` is the elementwise model of a list.
pub proof fn lemma_list_views(vs: Seq<FieldValue>)
    ensures
        list_views(vs).len() == vs.len(),
        forall|i: int| 0 <= i < vs.len() ==> list_views(vs)[i] == value_view(#[trigger] vs[i]),
    decreases vs,
{
    if vs.len() > 0 {
        lemma_list_views(vs.drop_first());
        assert forall|i: int| 0 <= i < vs.len() implies list_views(vs)[i] == value_view(
            #[trigger] vs[i],
        ) by {
            if i > 0 {
                assert(vs.drop_first()[i - 1] == vs[i]);
            }
        }
    }
}

/// `object_views` is the memberwise model of an object.
pub proof fn lemma_object_views(fs: Seq<(String, FieldValue)>)
    ensures
        object_views(fs).len() == fs.len(),
        forall|i: int|
            0 <= i < fs.len() ==> object_views(fs)[i] == (
            #[trigger] fs[i].0@,
            value_view(fs[i].1),
            ),
    decreases fs,
{
    if fs.len() > 0 {
        lemma_object_views(fs.drop_first());
        assert forall|i: int| 0 <= i < fs.len() implies object_views(fs)[i] == (
        #[trigger] fs[i].0@,
        value_view(fs[i].1),
        ) by {
            if i > 0 {
                assert(fs.drop_first()[i - 1] == fs[i]);
            }
        }
    }
}

impl Clone for FieldValue {
    fn clone(&self) -> (r: Self)
        ensures
            r@ == self@,
        decreases *self,
    {
        match self {
            FieldValue::Text(s) => FieldValue::Text(s.clone()),
            FieldValue::Int(n) => FieldValue::Int(*n),
            FieldValue::Bool(b) => FieldValue::Bool(*b),
            FieldValue::Char(c) => FieldValue::Char(*c),
            FieldValue::List(vs) => {
                let mut out: Vec<FieldValue> = Vec::new();
                let mut i: usize = 0;
                while i < vs.len()
                    invariant
                        i <= vs.len(),
                        out@.len() == i,
                        *self == FieldValue::List(*vs),
                        forall|j: int| 0 <= j < i ==> (#[trigger] out@[j])@ == vs@[j]@,
                    decreases vs.len() - i,
                {
                    proof {
                        assert(decreases_to!(*self => (*self)->List_0));
                        assert(decreases_to!((*self)->List_0 => (*self)->List_0@));
                        assert(decreases_to!((*self)->List_0@ => (*self)->List_0@[i as int]));
                        assert(decreases_to!(*self => vs@[i as int]));
                    }
                    out.push(vs[i].clone());
                    i = i + 1;
                }
                proof {
                    lemma_list_views(out@);
                    lemma_list_views(vs@);
                    assert forall|j: int| 0 <= j < vs@.len() implies list_views(out@)[j]
                        == list_views(vs@)[j] by {
                        assert(out@[j]@ == vs@[j]@);
                    }
                    assert(list_views(out@) =~= list_views(vs@));
                }
                FieldValue::List(out)
            },
            FieldValue::Object(fs) => {
                let mut out: Vec<(String, FieldValue)> = Vec::new();
                let mut i: usize = 0;
                while i < fs.len()
                    invariant
                        i <= fs.len(),
                        out@.len() == i,
                        *self == FieldValue::Object(*fs),
                        forall|j: int|
                            0 <= j < i ==> (#[trigger] out@[j]).0@ == fs@[j].0@ && out@[j].1@
                                == fs@[j].1@,
                    decreases fs.len() - i,
                {
                    proof {
                        assert(decreases_to!(*self => (*self)->Object_0));
                        assert(decreases_to!((*self)->Object_0 => (*self)->Object_0@));
                        assert(decreases_to!((*self)->Object_0@ => (*self)->Object_0@[i as int]));
                        assert(decreases_to!((*self)->Object_0@[i as int] => (*self)->Object_0@[i as int].1));
                        assert(decreases_to!(*self => fs@[i as int].1));
                    }
                    let name = fs[i].0.clone();
                    let value = fs[i].1.clone();
                    out.push((name, value));
                    i = i + 1;
                }
                proof {
                    lemma_object_views(out@);
                    lemma_object_views(fs@);
                    assert forall|j: int| 0 <= j < fs@.len() implies object_views(out@)[j]
                        == object_views(fs@)[j] by {
                        assert(out@[j].0@ == fs@[j].0@ && out@[j].1@ == fs@[j].1@);
                    }
                    assert(object_views(out@) =~= object_views(fs@));
                }
                FieldValue::Object(out)
            },
        }
    }
}

/// One source record: a stable identifier plus the declared fields'
/// values in declaration order.
pub struct Record {
    pub id: String,
    pub fields: Vec<FieldValue>,
}

/// The mathematical model of a record.
pub struct SpecRecord {
    pub id: Seq<char>,
    pub fields: Seq<SpecValue>,
}

impl View for Record {
    type V = SpecRecord;

    open spec fn view(&self) -> SpecRecord {
        SpecRecord { id: self.id@, fields: list_views(self.fields@) }
    }
}

impl Clone for Record {
    fn clone(&self) -> (r: Self)
        ensures
            r@ == self@,
    {
        let mut fields: Vec<FieldValue> = Vec::new();
        let mut i: usize = 0;
        while i < self.fields.len()
            invariant
                i <= self.fields.len(),
                fields@.len() == i,
                forall|j: int| 0 <= j < i ==> (#[trigger] fields@[j])@ == self.fields@[j]@,
            decreases self.fields.len() - i,
        {
            fields.push(self.fields[i].clone());
            i = i + 1;
        }
        proof {
            lemma_list_views(fields@);
            lemma_list_views(self.fields@);
            assert forall|j: int| 0 <= j < self.fields@.len() implies list_views(fields@)[j]
                == list_views(self.fields@)[j] by {
                assert(fields@[j]@ == self.fields@[j]@);
            }
            assert(list_views(fields@) =~= list_views(self.fields@));
        }
        Record { id: self.id.clone(), fields }
    }
}

} // verus!
