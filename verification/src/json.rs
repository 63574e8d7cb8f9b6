//! JSON rendering of field values, used by the serializing custom
//! extractor: an object's members and a list's elements keep their
//! declared order, and strings are escaped as JSON requires.

use vstd::prelude::*;
use crate::text::{bool_chars, digit_char, int_chars, push_char, bool_fragment, int_fragment};
use crate::value::{FieldValue, SpecValue, list_views, object_views, lemma_list_views,
    lemma_object_views};
use vstd::string::StrSliceExecFns;

verus! {

/// The character for one hexadecimal digit value.
pub open spec fn hex_char(d: int) -> char {
    if d < 10 {
        digit_char(d)
    } else if d == 10 {
        'a'
    } else if d == 11 {
        'b'
    } else if d == 12 {
        'c'
    } else if d == 13 {
        'd'
    } else if d == 14 {
        'e'
    } else {
        'f'
    }
}

/// The JSON escape of one character inside a string literal.
pub open spec fn escape_char(c: char) -> Seq<char> {
    if c == '"' {
        seq!['\\', '"']
    } else if c == '\\' {
        seq!['\\', '\\']
    } else if c == '\u{8}' {
        seq!['\\', 'b']
    } else if c == '\u{c}' {
        seq!['\\', 'f']
    } else if c == '\n' {
        seq!['\\', 'n']
    } else if c == '\r' {
        seq!['\\', 'r']
    } else if c == '\t' {
        seq!['\\', 't']
    } else if (c as u32) < 0x20 {
        seq!['\\', 'u', '0', '0', hex_char(c as u32 as int / 16), hex_char(c as u32 as int % 16)]
    } else {
        seq![c]
    }
}

/// The JSON escape of a whole string body.
pub open spec fn escape_seq(s: Seq<char>) -> Seq<char>
    decreases s.len(),
{
    if s.len() == 0 {
        Seq::empty()
    } else {
        escape_seq(s.drop_last()) + escape_char(s.last())
    }
}

/// A JSON string literal: quotes around the escaped body.
pub open spec fn quoted(s: Seq<char>) -> Seq<char> {
    seq!['"'] + escape_seq(s) + seq!['"']
}

/// The JSON text of a field value.
pub open spec fn json_chars(v: SpecValue) -> Seq<char>
    decreases v,
{
    match v {
        SpecValue::Text(s) => quoted(s),
        SpecValue::Int(n) => int_chars(n),
        SpecValue::Bool(b) => bool_chars(b),
        SpecValue::Char(c) => quoted(seq![c]),
        SpecValue::List(vs) => seq!['['] + json_items(vs) + seq![']'],
        SpecValue::Object(fs) => seq!['{'] + json_members(fs) + seq!['}'],
    }
}

/// The comma-separated JSON texts of a list's elements.
pub open spec fn json_items(vs: Seq<SpecValue>) -> Seq<char>
    decreases vs,
{
    if vs.len() == 0 {
        Seq::empty()
    } else if vs.len() == 1 {
        json_chars(vs[0])
    } else {
        json_chars(vs[0]) + seq![','] + json_items(vs.drop_first())
    }
}

/// The comma-separated JSON members of an object, each a quoted name,
/// a colon and the member's value.
pub open spec fn json_members(fs: Seq<(Seq<char>, SpecValue)>) -> Seq<char>
    decreases fs,
{
    if fs.len() == 0 {
        Seq::empty()
    } else if fs.len() == 1 {
        quoted(fs[0].0) + seq![':'] + json_chars(fs[0].1)
    } else {
        quoted(fs[0].0) + seq![':'] + json_chars(fs[0].1) + seq![','] + json_members(
            fs.drop_first(),
        )
    }
}

/// Appending an element extends the rendered list by a comma (when the
/// list was not empty) and the element's text.
pub proof fn lemma_json_items_push(vs: Seq<SpecValue>, x: SpecValue)
    ensures
        json_items(vs.push(x)) == if vs.len() == 0 {
            json_chars(x)
        } else {
            json_items(vs) + seq![','] + json_chars(x)
        },
    decreases vs.len(),
{
    let w = vs.push(x);
    if vs.len() == 0 {
        assert(w.len() == 1);
        assert(w[0] == x);
    } else {
        assert(w[0] == vs[0]);
        assert(w.drop_first() =~= vs.drop_first().push(x));
        lemma_json_items_push(vs.drop_first(), x);
        if vs.len() == 1 {
            assert(json_items(vs) == json_chars(vs[0]));
            assert(json_items(w) =~= json_items(vs) + seq![','] + json_chars(x));
        } else {
            assert(json_items(w) =~= json_items(vs) + seq![','] + json_chars(x));
        }
    }
}

/// Appending a member extends the rendered object by a comma (when the
/// object was not empty) and the member's text.
pub proof fn lemma_json_members_push(fs: Seq<(Seq<char>, SpecValue)>, x: (Seq<char>, SpecValue))
    ensures
        json_members(fs.push(x)) == if fs.len() == 0 {
            quoted(x.0) + seq![':'] + json_chars(x.1)
        } else {
            json_members(fs) + seq![','] + quoted(x.0) + seq![':'] + json_chars(x.1)
        },
    decreases fs.len(),
{
    let w = fs.push(x);
    if fs.len() == 0 {
        assert(w.len() == 1);
        assert(w[0] == x);
    } else {
        assert(w[0] == fs[0]);
        assert(w.drop_first() =~= fs.drop_first().push(x));
        lemma_json_members_push(fs.drop_first(), x);
        if fs.len() == 1 {
            assert(json_members(w) =~= json_members(fs) + seq![','] + quoted(x.0) + seq![':']
                + json_chars(x.1));
        } else {
            assert(json_members(w) =~= json_members(fs) + seq![','] + quoted(x.0) + seq![':']
                + json_chars(x.1));
        }
    }
}

/// The character for one hexadecimal digit value below sixteen.
fn hex_to_char(d: u32) -> (c: char)
    requires
        d < 16,
    ensures
        c == hex_char(d as int),
{
    if d == 0 {
        '0'
    } else if d == 1 {
        '1'
    } else if d == 2 {
        '2'
    } else if d == 3 {
        '3'
    } else if d == 4 {
        '4'
    } else if d == 5 {
        '5'
    } else if d == 6 {
        '6'
    } else if d == 7 {
        '7'
    } else if d == 8 {
        '8'
    } else if d == 9 {
        '9'
    } else if d == 10 {
        'a'
    } else if d == 11 {
        'b'
    } else if d == 12 {
        'c'
    } else if d == 13 {
        'd'
    } else if d == 14 {
        'e'
    } else {
        'f'
    }
}

/// Appends the JSON escape of one character.
fn append_escaped_char(s: &mut String, c: char)
    ensures
        final(s)@ == old(s)@ + escape_char(c),
{
    if c == '"' {
        push_char(s, '\\');
        push_char(s, '"');
        assert(s@ =~= old(s)@ + escape_char(c));
    } else if c == '\\' {
        push_char(s, '\\');
        push_char(s, '\\');
        assert(s@ =~= old(s)@ + escape_char(c));
    } else if c == '\u{8}' {
        push_char(s, '\\');
        push_char(s, 'b');
        assert(s@ =~= old(s)@ + escape_char(c));
    } else if c == '\u{c}' {
        push_char(s, '\\');
        push_char(s, 'f');
        assert(s@ =~= old(s)@ + escape_char(c));
    } else if c == '\n' {
        push_char(s, '\\');
        push_char(s, 'n');
        assert(s@ =~= old(s)@ + escape_char(c));
    } else if c == '\r' {
        push_char(s, '\\');
        push_char(s, 'r');
        assert(s@ =~= old(s)@ + escape_char(c));
    } else if c == '\t' {
        push_char(s, '\\');
        push_char(s, 't');
        assert(s@ =~= old(s)@ + escape_char(c));
    } else if (c as u32) < 0x20 {
        push_char(s, '\\');
        push_char(s, 'u');
        push_char(s, '0');
        push_char(s, '0');
        push_char(s, hex_to_char((c as u32) / 16));
        push_char(s, hex_to_char((c as u32) % 16));
        assert(s@ =~= old(s)@ + escape_char(c));
    } else {
        push_char(s, c);
        assert(s@ =~= old(s)@ + escape_char(c));
    }
}

/// Appends a JSON string literal: quotes around the escaped body.
fn append_quoted(s: &mut String, t: &str)
    ensures
        final(s)@ == old(s)@ + quoted(t@),
{
    push_char(s, '"');
    let n = t.unicode_len();
    let mut i: usize = 0;
    while i < n
        invariant
            i <= n,
            n == t@.len(),
            s@ == old(s)@ + seq!['"'] + escape_seq(t@.take(i as int)),
        decreases n - i,
    {
        let c = t.get_char(i);
        append_escaped_char(s, c);
        proof {
            assert(t@.take(i + 1).drop_last() =~= t@.take(i as int));
            assert(t@.take(i + 1).last() == t@[i as int]);
            assert(s@ =~= old(s)@ + seq!['"'] + escape_seq(t@.take(i + 1)));
        }
        i = i + 1;
    }
    push_char(s, '"');
    proof {
        assert(t@.take(n as int) =~= t@);
        assert(s@ =~= old(s)@ + quoted(t@));
    }
}

/// Appends the JSON text of a field value.
fn append_json(s: &mut String, v: &FieldValue)
    ensures
        final(s)@ == old(s)@ + json_chars(v@),
    decreases *v,
{
    match v {
        FieldValue::Text(t) => {
            append_quoted(s, t.as_str());
        },
        FieldValue::Int(n) => {
            let f = int_fragment(*n);
            s.append(f.as_str());
        },
        FieldValue::Bool(b) => {
            let f = bool_fragment(*b);
            s.append(f.as_str());
        },
        FieldValue::Char(c) => {
            push_char(s, '"');
            append_escaped_char(s, *c);
            push_char(s, '"');
            proof {
                let one = seq![*c];
                assert(one.len() == 1);
                assert(one.last() == *c);
                assert(one.drop_last() =~= Seq::<char>::empty());
                assert(one.drop_last() == Seq::<char>::empty());
                assert(escape_seq(Seq::<char>::empty()) == Seq::<char>::empty());
                assert(escape_seq(one) == escape_seq(one.drop_last()) + escape_char(one.last()));
                assert(escape_seq(one) =~= escape_char(*c));
                assert(s@ =~= old(s)@ + quoted(seq![*c]));
            }
        },
        FieldValue::List(vs) => {
            push_char(s, '[');
            let ghost views = list_views(vs@);
            proof {
                lemma_list_views(vs@);
            }
            let mut i: usize = 0;
            while i < vs.len()
                invariant
                    i <= vs.len(),
                    *v == FieldValue::List(*vs),
                    views == list_views(vs@),
                    views.len() == vs@.len(),
                    forall|j: int| 0 <= j < vs@.len() ==> views[j] == (#[trigger] vs@[j])@,
                    s@ == old(s)@ + seq!['['] + json_items(views.take(i as int)),
                decreases vs.len() - i,
            {
                proof {
                    assert(decreases_to!(*v => (*v)->List_0));
                    assert(decreases_to!((*v)->List_0 => (*v)->List_0@));
                    assert(decreases_to!((*v)->List_0@ => (*v)->List_0@[i as int]));
                    assert(decreases_to!(*v => vs@[i as int]));
                }
                if i > 0 {
                    push_char(s, ',');
                }
                append_json(s, &vs[i]);
                proof {
                    assert(views.take(i as int).push(views[i as int]) =~= views.take(i + 1));
                    lemma_json_items_push(views.take(i as int), views[i as int]);
                    assert(s@ =~= old(s)@ + seq!['['] + json_items(views.take(i + 1)));
                }
                i = i + 1;
            }
            push_char(s, ']');
            proof {
                assert(views.take(vs@.len() as int) =~= views);
                assert(s@ =~= old(s)@ + json_chars(v@));
            }
        },
        FieldValue::Object(fs) => {
            push_char(s, '{');
            let ghost views = object_views(fs@);
            proof {
                lemma_object_views(fs@);
            }
            let mut i: usize = 0;
            while i < fs.len()
                invariant
                    i <= fs.len(),
                    *v == FieldValue::Object(*fs),
                    views == object_views(fs@),
                    views.len() == fs@.len(),
                    forall|j: int|
                        0 <= j < fs@.len() ==> views[j] == ((#[trigger] fs@[j]).0@, fs@[j].1@),
                    s@ == old(s)@ + seq!['{'] + json_members(views.take(i as int)),
                decreases fs.len() - i,
            {
                proof {
                    assert(decreases_to!(*v => (*v)->Object_0));
                    assert(decreases_to!((*v)->Object_0 => (*v)->Object_0@));
                    assert(decreases_to!((*v)->Object_0@ => (*v)->Object_0@[i as int]));
                    assert(decreases_to!((*v)->Object_0@[i as int] => (*v)->Object_0@[i as int].1));
                    assert(decreases_to!(*v => fs@[i as int].1));
                }
                if i > 0 {
                    push_char(s, ',');
                }
                append_quoted(s, fs[i].0.as_str());
                push_char(s, ':');
                append_json(s, &fs[i].1);
                proof {
                    assert(views.take(i as int).push(views[i as int]) =~= views.take(i + 1));
                    lemma_json_members_push(views.take(i as int), views[i as int]);
                    assert(s@ =~= old(s)@ + seq!['{'] + json_members(views.take(i + 1)));
                }
                i = i + 1;
            }
            push_char(s, '}');
            proof {
                assert(views.take(fs@.len() as int) =~= views);
                assert(s@ =~= old(s)@ + json_chars(v@));
            }
        },
    }
}

/// The JSON text of a field value, as the serializing extractor emits it.
pub fn json_fragment(v: &FieldValue) -> (r: String)
    ensures
        r@ == json_chars(v@),
{
    let mut s = String::new();
    append_json(&mut s, v);
    proof {
        assert(s@ =~= json_chars(v@));
    }
    s
}

} // verus!
