use vstd::prelude::*;

verus! {

broadcast use vstd::std_specs::vec::axiom_vec_index_decreases;

/// A value of the format: a tagged union of six shapes.
///
/// A `Number` holds the decimal text of the number; the parser gives it in
/// the form `canonical_decimal` describes, and rendering writes it as it
/// stands. The parser takes only numbers that a finite 64-bit float can
/// hold (`in_float_range`), but the text keeps every digit: it is not
/// rounded to the nearest float, so `0.1000000000000000000001` renders as
/// written, not as `0.1`. An `Object` holds its entries with pairwise distinct keys (see
/// `well_formed`); `object_insert` sets one, keeping a key's first place.
#[derive(Debug, PartialEq)]
pub enum JsonValue {
    Number(String),
    String(String),
    Array(Vec<JsonValue>),
    Object(Vec<(String, JsonValue)>),
    Boolean(bool),
    Null,
}

/// The mathematical model of a `JsonValue`: strings become character
/// sequences and vectors become sequences.
pub enum Json {
    Number(Seq<char>),
    Text(Seq<char>),
    List(Seq<Json>),
    Object(Seq<(Seq<char>, Json)>),
    Boolean(bool),
    Null,
}

/// Whether no two entries share a key.
pub open spec fn keys_unique(es: Seq<(Seq<char>, Json)>) -> bool {
    forall|i: int, j: int| 0 <= i < j < es.len() ==> es[i].0 != es[j].0
}

/// The invariant of a value: every object in it, at any depth, has
/// pairwise distinct keys.
pub open spec fn well_formed(j: Json) -> bool
    decreases j,
{
    match j {
        Json::List(xs) => forall|i: int| 0 <= i < xs.len() ==> well_formed(#[trigger] xs[i]),
        Json::Object(es) => keys_unique(es) && forall|i: int|
            0 <= i < es.len() ==> well_formed(#[trigger] es[i].1),
        _ => true,
    }
}

/// The models of a sequence of values, element by element.
pub open spec fn view_items(items: Seq<JsonValue>) -> Seq<Json>
    decreases items, 0nat,
{
    if items.len() == 0 {
        Seq::empty()
    } else {
        view_items(items.drop_last()).push(items.last().view_rec())
    }
}

/// The models of a sequence of entries, entry by entry.
pub open spec fn view_entries(entries: Seq<(String, JsonValue)>) -> Seq<(Seq<char>, Json)>
    decreases entries, 0nat,
{
    if entries.len() == 0 {
        Seq::empty()
    } else {
        view_entries(entries.drop_last()).push(
            (entries.last().0@, entries.last().1.view_rec()),
        )
    }
}

impl JsonValue {
    pub open spec fn view_rec(self) -> Json
        decreases self, 1nat,
    {
        match self {
            JsonValue::Number(t) => Json::Number(t@),
            JsonValue::String(t) => Json::Text(t@),
            JsonValue::Array(items) => Json::List(view_items(items@)),
            JsonValue::Object(entries) => Json::Object(view_entries(entries@)),
            JsonValue::Boolean(b) => Json::Boolean(b),
            JsonValue::Null => Json::Null,
        }
    }
}

impl View for JsonValue {
    type V = Json;

    open spec fn view(&self) -> Json {
        self.view_rec()
    }
}


/// Facts about `view_items`: it keeps the length and maps each element to
/// its model.
pub proof fn lemma_view_items(items: Seq<JsonValue>)
    ensures
        view_items(items).len() == items.len(),
        forall|i: int| 0 <= i < items.len() ==> #[trigger] view_items(items)[i] == items[i]@,
    decreases items.len(),
{
    if items.len() > 0 {
        lemma_view_items(items.drop_last());
    }
}

/// Facts about `view_entries`: it keeps the length and maps each entry to
/// its key's characters and its value's model.
pub proof fn lemma_view_entries(entries: Seq<(String, JsonValue)>)
    ensures
        view_entries(entries).len() == entries.len(),
        forall|i: int|
            0 <= i < entries.len() ==> #[trigger] view_entries(entries)[i] == (
            entries[i].0@,
            entries[i].1@,
        ),
    decreases entries.len(),
{
    if entries.len() > 0 {
        lemma_view_entries(entries.drop_last());
    }
}

/// A copy of `v`, with the same model.
pub fn copy_value(v: &JsonValue) -> (r: JsonValue)
    ensures
        r@ == v@,
    decreases *v,
{
    match v {
        JsonValue::Number(n) => JsonValue::Number(n.clone()),
        JsonValue::String(t) => JsonValue::String(t.clone()),
        JsonValue::Array(items) => {
            let mut out: Vec<JsonValue> = Vec::new();
            let mut i: usize = 0;
            proof {
                lemma_view_items(items@);
            }
            while i < items.len()
                invariant
                    i <= items.len(),
                    *v == JsonValue::Array(*items),
                    view_items(out@) == view_items(items@).take(i as int),
                    view_items(items@).len() == items.len(),
                    forall|k: int| 0 <= k < items.len() ==> #[trigger] view_items(items@)[k] == items@[k]@,
                decreases items.len() - i,
            {
                proof {
                    assert(decreases_to!(*v => v->Array_0));
                    assert(decreases_to!(*items => items@[i as int]));
                }
                let c = copy_value(&items[i]);
                let ghost before = out@;
                out.push(c);
                assert(out@.drop_last() =~= before);
                assert(view_items(items@).take(i + 1) =~= view_items(items@).take(i as int).push(
                    items@[i as int]@,
                ));
                i = i + 1;
            }
            assert(view_items(items@).take(i as int) =~= view_items(items@));
            JsonValue::Array(out)
        },
        JsonValue::Object(entries) => {
            let mut out: Vec<(String, JsonValue)> = Vec::new();
            let mut i: usize = 0;
            proof {
                lemma_view_entries(entries@);
            }
            while i < entries.len()
                invariant
                    i <= entries.len(),
                    *v == JsonValue::Object(*entries),
                    view_entries(out@) == view_entries(entries@).take(i as int),
                    view_entries(entries@).len() == entries.len(),
                    forall|k: int|
                        0 <= k < entries.len() ==> #[trigger] view_entries(entries@)[k] == (
                        entries@[k].0@,
                        entries@[k].1@,
                    ),
                decreases entries.len() - i,
            {
                proof {
                    assert(decreases_to!(*v => v->Object_0));
                    assert(decreases_to!(*entries => entries@[i as int]));
                    assert(decreases_to!(entries@[i as int] => entries@[i as int].1));
                }
                let (key, item) = &entries[i];
                let c = copy_value(item);
                let k = key.clone();
                let ghost before = out@;
                out.push((k, c));
                assert(out@.drop_last() =~= before);
                assert(view_entries(entries@).take(i + 1) =~= view_entries(entries@).take(
                    i as int,
                ).push((entries@[i as int].0@, entries@[i as int].1@)));
                i = i + 1;
            }
            assert(view_entries(entries@).take(i as int) =~= view_entries(entries@));
            JsonValue::Object(out)
        },
        JsonValue::Boolean(b) => JsonValue::Boolean(*b),
        JsonValue::Null => JsonValue::Null,
    }
}

impl Clone for JsonValue {
    fn clone(&self) -> Self {
        copy_value(self)
    }
}

/// `n` space characters.
pub open spec fn spaces(n: nat) -> Seq<char> {
    Seq::new(n, |_i: int| ' ')
}

/// `t` between double quotes.
pub open spec fn quoted(t: Seq<char>) -> Seq<char> {
    seq!['"'] + t + seq!['"']
}

/// `a + b`, held at `usize::MAX` where the sum would exceed it.
pub open spec fn grow(a: nat, b: nat) -> nat {
    if a + b <= usize::MAX {
        a + b
    } else {
        usize::MAX as nat
    }
}

/// The indent of an object's entry lines: the running indent, raised by one
/// step where it is below one step.
pub open spec fn entry_indent(current: nat, step: nat) -> nat {
    if current < step {
        grow(current, step)
    } else {
        current
    }
}

/// The text of a value that stands inside a list or an object rendered at
/// indent `current`: nested containers go one step deeper, and text is
/// quoted.
pub open spec fn item_text(current: nat, step: nat, v: Json) -> Seq<char>
    decreases v, 1nat,
{
    match v {
        Json::Number(n) => n,
        Json::Text(t) => quoted(t),
        Json::List(xs) => list_text(grow(current, step), step, xs),
        Json::Object(es) => object_text(grow(current, step), step, es),
        Json::Boolean(b) => bool_text(b),
        Json::Null => null_text(),
    }
}

pub open spec fn bool_text(b: bool) -> Seq<char> {
    if b {
        seq!['t', 'r', 'u', 'e']
    } else {
        seq!['f', 'a', 'l', 's', 'e']
    }
}

pub open spec fn null_text() -> Seq<char> {
    seq!['N', 'u', 'l', 'l']
}

/// The elements of a list at indent `current`, separated by `", "`.
pub open spec fn list_body(current: nat, step: nat, xs: Seq<Json>) -> Seq<char>
    decreases xs, 0nat,
{
    if xs.len() == 0 {
        Seq::empty()
    } else {
        let sep = if xs.len() > 1 {
            seq![',', ' ']
        } else {
            Seq::empty()
        };
        list_body(current, step, xs.drop_last()) + sep + item_text(current, step, xs.last())
    }
}

/// A list rendered at indent `current`: all on one line, between brackets.
pub open spec fn list_text(current: nat, step: nat, xs: Seq<Json>) -> Seq<char>
    decreases xs, 1nat,
{
    seq!['['] + list_body(current, step, xs) + seq![']']
}

/// One line per entry, each `<indent>"<key>": <value>,` and a line break.
pub open spec fn object_body(indent: nat, step: nat, es: Seq<(Seq<char>, Json)>) -> Seq<char>
    decreases es, 0nat,
{
    if es.len() == 0 {
        Seq::empty()
    } else {
        object_body(indent, step, es.drop_last()) + spaces(indent) + quoted(es.last().0) + seq![
            ':',
            ' ',
        ] + item_text(indent, step, es.last().1) + seq![',', '\n']
    }
}

/// An object rendered at indent `current`: `{`, a line break, its entry
/// lines at `entry_indent`, then `}` one step to the left of them.
pub open spec fn object_text(current: nat, step: nat, es: Seq<(Seq<char>, Json)>) -> Seq<char>
    decreases es, 1nat,
{
    let indent = entry_indent(current, step);
    seq!['{', '\n'] + object_body(indent, step, es) + spaces((indent - step) as nat) + seq!['}']
}

/// The text of a value standing alone: scalars bare (text unquoted, null as
/// `Null`), containers at indent 0 with a step of 2.
pub open spec fn text_of(v: Json) -> Seq<char> {
    match v {
        Json::Number(n) => n,
        Json::Text(t) => t,
        Json::List(xs) => list_text(0, 2, xs),
        Json::Object(es) => object_text(0, 2, es),
        Json::Boolean(b) => bool_text(b),
        Json::Null => null_text(),
    }
}

/// What `array_as_string` gives: a list's text, or `[]` for any other value.
pub open spec fn array_text(current: nat, step: nat, v: Json) -> Seq<char> {
    match v {
        Json::List(xs) => list_text(current, step, xs),
        _ => list_text(current, step, Seq::empty()),
    }
}

/// What `object_as_string` gives: an object's text, or that of an empty
/// object for any other value.
pub open spec fn object_as_text(current: nat, step: nat, v: Json) -> Seq<char> {
    match v {
        Json::Object(es) => object_text(current, step, es),
        _ => object_text(current, step, Seq::empty()),
    }
}

/// Relies on `String::push`: appends one character.
#[verifier::external_body]
pub(crate) fn push_char(out: &mut String, c: char)
    ensures
        final(out)@ == old(out)@.push(c),
{
    out.push(c);
}

fn push_spaces(out: &mut String, n: usize)
    ensures
        final(out)@ == old(out)@ + spaces(n as nat),
{
    let ghost start = out@;
    let mut i: usize = 0;
    while i < n
        invariant
            i <= n,
            out@ == start + spaces(i as nat),
        decreases n - i,
    {
        push_char(out, ' ');
        i = i + 1;
        assert(out@ =~= start + spaces(i as nat));
    }
}

fn push_quoted(out: &mut String, t: &String)
    ensures
        final(out)@ == old(out)@ + quoted(t@),
{
    let ghost start = out@;
    push_char(out, '"');
    out.append(t.as_str());
    push_char(out, '"');
    assert(out@ =~= start + quoted(t@));
}

fn push_bool(out: &mut String, b: bool)
    ensures
        final(out)@ == old(out)@ + bool_text(b),
{
    let ghost start = out@;
    if b {
        push_char(out, 't');
        push_char(out, 'r');
        push_char(out, 'u');
        push_char(out, 'e');
    } else {
        push_char(out, 'f');
        push_char(out, 'a');
        push_char(out, 'l');
        push_char(out, 's');
        push_char(out, 'e');
    }
    assert(out@ =~= start + bool_text(b));
}

fn push_null(out: &mut String)
    ensures
        final(out)@ == old(out)@ + null_text(),
{
    let ghost start = out@;
    push_char(out, 'N');
    push_char(out, 'u');
    push_char(out, 'l');
    push_char(out, 'l');
    assert(out@ =~= start + null_text());
}

/// Appends the text of `item` as it stands inside a container rendered at
/// indent `current`.
fn push_item(current: usize, step: usize, item: &JsonValue, out: &mut String)
    ensures
        final(out)@ == old(out)@ + item_text(current as nat, step as nat, item@),
    decreases *item, 1nat,
{
    match item {
        JsonValue::Number(n) => {
            out.append(n.as_str());
        },
        JsonValue::String(t) => {
            push_quoted(out, t);
        },
        JsonValue::Array(_) => {
            let s = array_as_string(current.saturating_add(step), step, item);
            out.append(s.as_str());
        },
        JsonValue::Object(_) => {
            let s = object_as_string(current.saturating_add(step), step, item);
            out.append(s.as_str());
        },
        JsonValue::Boolean(b) => {
            push_bool(out, *b);
        },
        JsonValue::Null => {
            push_null(out);
        },
    }
}

/// Renders a value standing alone: a scalar as its bare text (a text value
/// without quotes, null as `Null`), a list or an object at indent 0 with a
/// step of 2.
pub fn as_string(value: &JsonValue) -> (r: String)
    ensures
        r@ == text_of(value@),
{
    let mut out = String::new();
    match value {
        JsonValue::Number(n) => {
            out.append(n.as_str());
        },
        JsonValue::String(t) => {
            out.append(t.as_str());
        },
        JsonValue::Array(_) => {
            out = array_as_string(0, 2, value);
        },
        JsonValue::Object(_) => {
            out = object_as_string(0, 2, value);
        },
        JsonValue::Boolean(b) => {
            push_bool(&mut out, *b);
        },
        JsonValue::Null => {
            push_null(&mut out);
        },
    }
    out
}

/// Renders a list on one line: `[`, its elements separated by `", "`, `]`.
/// Text elements are quoted; nested lists and objects are rendered one
/// `indent` step deeper than `current_indent`. Any other value gives `[]`.
pub fn array_as_string(current_indent: usize, indent: usize, arr: &JsonValue) -> (r: String)
    ensures
        r@ == array_text(current_indent as nat, indent as nat, arr@),
    decreases *arr, 0nat,
{
    let mut out = String::new();
    push_char(&mut out, '[');
    if let JsonValue::Array(items) = arr {
        let ghost xs = view_items(items@);
        proof {
            lemma_view_items(items@);
        }
        let mut i: usize = 0;
        while i < items.len()
            invariant
                i <= items.len(),
                *arr == JsonValue::Array(*items),
                xs == view_items(items@),
                xs.len() == items.len(),
                forall|k: int| 0 <= k < items.len() ==> #[trigger] xs[k] == items@[k]@,
                out@ == seq!['['] + list_body(current_indent as nat, indent as nat, xs.take(i as int)),
            decreases items.len() - i,
        {
            if i > 0 {
                push_char(&mut out, ',');
                push_char(&mut out, ' ');
            }
            proof {
                assert(decreases_to!(*arr => arr->Array_0));
                assert(decreases_to!(*items => items@[i as int]));
            }
            push_item(current_indent, indent, &items[i], &mut out);
            proof {
                let ys = xs.take(i + 1);
                assert(ys.drop_last() =~= xs.take(i as int));
                assert(ys.last() == items@[i as int]@);
            }
            i = i + 1;
            assert(out@ =~= seq!['['] + list_body(current_indent as nat, indent as nat, xs.take(i as int)));
        }
        assert(xs.take(i as int) =~= xs);
    } else {
        assert(out@ =~= seq!['['] + list_body(current_indent as nat, indent as nat, Seq::empty()));
    }
    push_char(&mut out, ']');
    out
}

/// Renders an object: `{` and a line break, then one line per entry,
/// `<indent>"<key>": <value>,` (the last entry keeps its comma too), then `}`
/// one step to the left of the entries. Entries are indented by
/// `current_indent`, raised by one `iindent` step where it is below one step;
/// text values are quoted and nested containers go one step deeper. Any
/// other value renders as an empty object.
pub fn object_as_string(current_indent: usize, iindent: usize, object: &JsonValue) -> (r: String)
    ensures
        r@ == object_as_text(current_indent as nat, iindent as nat, object@),
    decreases *object, 0nat,
{
    let indent: usize = if current_indent < iindent {
        current_indent.saturating_add(iindent)
    } else {
        current_indent
    };
    assert(indent as nat == entry_indent(current_indent as nat, iindent as nat));
    let mut out = String::new();
    push_char(&mut out, '{');
    push_char(&mut out, '\n');
    let ghost es: Seq<(Seq<char>, Json)> = match object@ {
        Json::Object(es) => es,
        _ => Seq::empty(),
    };
    if let JsonValue::Object(entries) = object {
        proof {
            lemma_view_entries(entries@);
        }
        let mut i: usize = 0;
        while i < entries.len()
            invariant
                i <= entries.len(),
                *object == JsonValue::Object(*entries),
                es == view_entries(entries@),
                es.len() == entries.len(),
                forall|k: int|
                    0 <= k < entries.len() ==> #[trigger] es[k] == (entries@[k].0@, entries@[k].1@),
                out@ == seq!['{', '\n'] + object_body(indent as nat, iindent as nat, es.take(i as int)),
            decreases entries.len() - i,
        {
            let (key, item) = &entries[i];
            push_spaces(&mut out, indent);
            push_quoted(&mut out, key);
            push_char(&mut out, ':');
            push_char(&mut out, ' ');
            proof {
                assert(decreases_to!(*object => object->Object_0));
                assert(decreases_to!(*entries => entries@[i as int]));
                assert(decreases_to!(entries@[i as int] => entries@[i as int].1));
            }
            push_item(indent, iindent, item, &mut out);
            push_char(&mut out, ',');
            push_char(&mut out, '\n');
            proof {
                let ys = es.take(i + 1);
                assert(ys.drop_last() =~= es.take(i as int));
                assert(ys.last() == es[i as int]);
            }
            i = i + 1;
            assert(out@ =~= seq!['{', '\n'] + object_body(indent as nat, iindent as nat, es.take(i as int)));
        }
        assert(es.take(i as int) =~= es);
    } else {
        assert(out@ =~= seq!['{', '\n'] + object_body(indent as nat, iindent as nat, es));
    }
    push_spaces(&mut out, indent - iindent);
    push_char(&mut out, '}');
    out
}

} // verus!
