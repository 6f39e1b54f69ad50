//! Typed UI values that modules expose for editing, and the path editor
//! that changes one value inside a tree of them.
use vstd::prelude::*;

verus! {

broadcast use vstd::seq::axiom_seq_index_decreases, vstd::std_specs::vec::axiom_vec_decreases_to_view,
    vstd::std_specs::vec::axiom_vec_index_decreases;

/// The payload of a UI value.
pub enum UIFieldValue {
    /// A header or separator, with no data.
    Header,
    Bool(bool),
    Integer(i64),
    UnsignedInteger(u64),
    Text(String),
    /// Red, green, blue and alpha.
    Color(u8, u8, u8, u8),
    /// A file path.
    Path(String),
    /// One tag out of an enumerated set: the options and the selected one.
    Choice(Vec<String>, String),
    /// An ordered array: the template new elements are made from, and the elements.
    Array(Box<UIValue>, Vec<UIValue>),
    /// A labelled group of named fields.
    Group(Vec<UIValue>),
}

/// A named, described UI value.
pub struct UIValue {
    pub name: String,
    pub display_name: String,
    pub description: String,
    pub read_only: bool,
    pub value: UIFieldValue,
}

pub enum FieldView {
    Header,
    Bool(bool),
    Integer(i64),
    UnsignedInteger(u64),
    Text(Seq<char>),
    Color(u8, u8, u8, u8),
    Path(Seq<char>),
    Choice(Seq<Seq<char>>, Seq<char>),
    Array(Box<ValueView>, Seq<ValueView>),
    Group(Seq<ValueView>),
}

pub struct ValueView {
    pub name: Seq<char>,
    pub display_name: Seq<char>,
    pub description: Seq<char>,
    pub read_only: bool,
    pub value: FieldView,
}

pub open spec fn value_view(v: &UIValue) -> ValueView
    decreases v,
{
    ValueView {
        name: v.name@,
        display_name: v.display_name@,
        description: v.description@,
        read_only: v.read_only,
        value: match &v.value {
            UIFieldValue::Header => FieldView::Header,
            UIFieldValue::Bool(b) => FieldView::Bool(*b),
            UIFieldValue::Integer(i) => FieldView::Integer(*i),
            UIFieldValue::UnsignedInteger(i) => FieldView::UnsignedInteger(*i),
            UIFieldValue::Text(s) => FieldView::Text(s@),
            UIFieldValue::Color(r, g, b, a) => FieldView::Color(*r, *g, *b, *a),
            UIFieldValue::Path(s) => FieldView::Path(s@),
            UIFieldValue::Choice(o, s) => FieldView::Choice(o@.map_values(|x: String| x@), s@),
            UIFieldValue::Array(t, e) => FieldView::Array(Box::new(value_view(&**t)), values_view(e@)),
            UIFieldValue::Group(f) => FieldView::Group(values_view(f@)),
        },
    }
}

pub open spec fn values_view(s: Seq<UIValue>) -> Seq<ValueView>
    decreases s,
{
    Seq::new(s.len(), |i: int| if 0 <= i < s.len() { value_view(&s[i]) } else { arbitrary() })
}

/// A value together with the path it stands at in a tree of values.
pub struct UIPathValue {
    pub path: String,
    pub value: UIValue,
}

/// One step of a path: `.name` into a field of a group, `[i]` into an
/// element of an array.
pub enum PathSegment {
    Field(String),
    Index(usize),
}

/// The view of a path step.
pub enum SegView {
    Field(Seq<char>),
    Index(usize),
}

/// The view of a path.
pub open spec fn path_view(p: Seq<PathSegment>) -> Seq<SegView> {
    p.map_values(|s: PathSegment| match s {
        PathSegment::Field(n) => SegView::Field(n@),
        PathSegment::Index(i) => SegView::Index(i),
    })
}

/// A change at the end of a path.
pub enum PathEdit {
    /// Replace the payload of the value with that of the given value, whose
    /// variant must be the same.
    SetValue(UIValue),
    /// Append a copy of the array's template.
    ArrayAdd,
    /// Remove the element at this index.
    ArrayRemove(usize),
}

/// The view of a change.
pub enum EditView {
    SetValue(ValueView),
    ArrayAdd,
    ArrayRemove(usize),
}

/// The view of a change.
pub open spec fn edit_view(e: &PathEdit) -> EditView {
    match e {
        PathEdit::SetValue(v) => EditView::SetValue(value_view(v)),
        PathEdit::ArrayAdd => EditView::ArrayAdd,
        PathEdit::ArrayRemove(i) => EditView::ArrayRemove(*i),
    }
}

/// Index of the first value of that name.
pub open spec fn find_named(vals: Seq<ValueView>, n: Seq<char>) -> Option<int> {
    value_names(vals).index_of_first(n)
}

/// The names of a list of values.
pub open spec fn value_names(vals: Seq<ValueView>) -> Seq<Seq<char>> {
    vals.map_values(|v: ValueView| v.name)
}

/// Two payloads are of the same variant.
pub open spec fn same_kind(a: FieldView, b: FieldView) -> bool {
    match (a, b) {
        (FieldView::Header, FieldView::Header) => true,
        (FieldView::Bool(_), FieldView::Bool(_)) => true,
        (FieldView::Integer(_), FieldView::Integer(_)) => true,
        (FieldView::UnsignedInteger(_), FieldView::UnsignedInteger(_)) => true,
        (FieldView::Text(_), FieldView::Text(_)) => true,
        (FieldView::Color(..), FieldView::Color(..)) => true,
        (FieldView::Path(_), FieldView::Path(_)) => true,
        (FieldView::Choice(..), FieldView::Choice(..)) => true,
        (FieldView::Array(..), FieldView::Array(..)) => true,
        (FieldView::Group(_), FieldView::Group(_)) => true,
        _ => false,
    }
}

/// The value reached from `v` by following `rest`.
pub open spec fn get_rest(v: ValueView, rest: Seq<SegView>) -> Option<ValueView>
    decreases rest.len(),
{
    if rest.len() == 0 {
        Some(v)
    } else {
        match (v.value, rest[0]) {
            (FieldView::Group(fs), SegView::Field(n)) => match find_named(fs, n) {
                Some(k) => get_rest(fs[k], rest.drop_first()),
                None => None,
            },
            (FieldView::Array(_, es), SegView::Index(i)) => if i < es.len() {
                get_rest(es[i as int], rest.drop_first())
            } else {
                None
            },
            _ => None,
        }
    }
}

/// The value at `path` in a list of top-level values; the first step names
/// one of them.
pub open spec fn get_path(vals: Seq<ValueView>, path: Seq<SegView>) -> Option<ValueView> {
    if path.len() > 0 && path[0] is Field {
        match find_named(vals, path[0]->Field_0) {
            Some(k) => get_rest(vals[k], path.drop_first()),
            None => None,
        }
    } else {
        None
    }
}

/// The change applied to the value itself, where it is allowed.
pub open spec fn apply_edit(v: ValueView, e: EditView) -> Option<ValueView> {
    if v.read_only {
        None
    } else {
        match e {
            EditView::SetValue(w) => if same_kind(v.value, w.value) {
                Some(ValueView { value: w.value, ..v })
            } else {
                None
            },
            EditView::ArrayAdd => match v.value {
                FieldView::Array(t, es) => Some(ValueView { value: FieldView::Array(t, es.push(*t)), ..v }),
                _ => None,
            },
            EditView::ArrayRemove(i) => match v.value {
                FieldView::Array(t, es) => if i < es.len() {
                    Some(ValueView { value: FieldView::Array(t, es.remove(i as int)), ..v })
                } else {
                    None
                },
                _ => None,
            },
        }
    }
}

/// `v` with the change applied at the end of `rest`, or `None` where the
/// path does not resolve or the change is refused.
pub open spec fn edit_rest(v: ValueView, rest: Seq<SegView>, e: EditView) -> Option<ValueView>
    decreases rest.len(),
{
    if rest.len() == 0 {
        apply_edit(v, e)
    } else {
        match (v.value, rest[0]) {
            (FieldView::Group(fs), SegView::Field(n)) => match find_named(fs, n) {
                Some(k) => match edit_rest(fs[k], rest.drop_first(), e) {
                    Some(c) => Some(ValueView { value: FieldView::Group(fs.update(k, c)), ..v }),
                    None => None,
                },
                None => None,
            },
            (FieldView::Array(t, es), SegView::Index(i)) => if i < es.len() {
                match edit_rest(es[i as int], rest.drop_first(), e) {
                    Some(c) => Some(ValueView { value: FieldView::Array(t, es.update(i as int, c)), ..v }),
                    None => None,
                }
            } else {
                None
            },
            _ => None,
        }
    }
}

/// The list of top-level values with the change applied at `path`.
pub open spec fn edit_path(vals: Seq<ValueView>, path: Seq<SegView>, e: EditView) -> Option<Seq<ValueView>> {
    if path.len() > 0 && path[0] is Field {
        match find_named(vals, path[0]->Field_0) {
            Some(k) => match edit_rest(vals[k], path.drop_first(), e) {
                Some(c) => Some(vals.update(k, c)),
                None => None,
            },
            None => None,
        }
    } else {
        None
    }
}

/// A deep copy of a list of strings.
fn copy_string_list(v: &Vec<String>) -> (r: Vec<String>)
    ensures
        r@.map_values(|x: String| x@) == v@.map_values(|x: String| x@),
{
    let r = crate::panel::copy_strings(v);
    assert(r@.map_values(|x: String| x@) =~= crate::panel::strings_view(r@));
    assert(v@.map_values(|x: String| x@) =~= crate::panel::strings_view(v@));
    r
}

/// A deep copy of a value.
pub fn copy_value(v: &UIValue) -> (r: UIValue)
    ensures
        value_view(&r) == value_view(v),
    decreases v,
{
    let value = match &v.value {
        UIFieldValue::Header => UIFieldValue::Header,
        UIFieldValue::Bool(b) => UIFieldValue::Bool(*b),
        UIFieldValue::Integer(i) => UIFieldValue::Integer(*i),
        UIFieldValue::UnsignedInteger(i) => UIFieldValue::UnsignedInteger(*i),
        UIFieldValue::Text(s) => UIFieldValue::Text(s.clone()),
        UIFieldValue::Color(r, g, b, a) => UIFieldValue::Color(*r, *g, *b, *a),
        UIFieldValue::Path(s) => UIFieldValue::Path(s.clone()),
        UIFieldValue::Choice(o, s) => UIFieldValue::Choice(copy_string_list(o), s.clone()),
        UIFieldValue::Array(t, es) => {
            let t2 = copy_value(&**t);
            UIFieldValue::Array(Box::new(t2), copy_values(es))
        },
        UIFieldValue::Group(fs) => UIFieldValue::Group(copy_values(fs)),
    };
    let r = UIValue {
        name: v.name.clone(),
        display_name: v.display_name.clone(),
        description: v.description.clone(),
        read_only: v.read_only,
        value,
    };
    assert(value_view(&r).value == value_view(v).value);
    r
}

/// A deep copy of a list of values.
pub fn copy_values(vs: &Vec<UIValue>) -> (r: Vec<UIValue>)
    ensures
        values_view(r@) == values_view(vs@),
    decreases vs,
{
    let mut r: Vec<UIValue> = Vec::new();
    let mut i: usize = 0;
    while i < vs.len()
        invariant
            i <= vs@.len(),
            r@.len() == i,
            forall|j: int| 0 <= j < i ==> value_view(&#[trigger] r@[j]) == value_view(&vs@[j]),
        decreases vs@.len() - i,
    {
        assert(decreases_to!(vs => vs@[i as int]));
        let c = copy_value(&vs[i]);
        r.push(c);
        i += 1;
    }
    assert(values_view(r@) =~= values_view(vs@));
    r
}

/// Index of the first value of that name.
pub fn find_value(vals: &Vec<UIValue>, name: &String) -> (r: Option<usize>)
    ensures
        match r {
            Some(k) => k < vals@.len() && find_named(values_view(vals@), name@) == Some(k as int),
            None => find_named(values_view(vals@), name@) is None,
        },
{
    let ghost names = value_names(values_view(vals@));
    proof { names.index_of_first_ensures(name@); }
    let mut i: usize = 0;
    while i < vals.len()
        invariant
            i <= vals@.len(),
            names == value_names(values_view(vals@)),
            forall|j: int| 0 <= j < i ==> names[j] != name@,
        decreases vals@.len() - i,
    {
        assert(names[i as int] == vals@[i as int].name@);
        if vals[i].name == *name {
            proof {
                names.index_of_first_ensures(name@);
                let f = names.index_of_first(name@);
                assert(names[i as int] == name@);
                assert(names.contains(name@));
                if f is Some && f.unwrap() > i {
                    assert(names[i as int] != name@);
                }
            }
            return Some(i);
        }
        i += 1;
    }
    proof {
        names.index_of_first_ensures(name@);
        let f = names.index_of_first(name@);
        if f is Some {
            assert(names[f.unwrap()] == name@);
        }
        if names.contains(name@) {
            let j = choose|j: int| 0 <= j < names.len() && names[j] == name@;
            assert(names[j] != name@);
        }
    }
    None
}

/// Tells whether two payloads are of the same variant.
pub fn same_variant(a: &UIFieldValue, b: &UIFieldValue) -> (r: bool)
    ensures
        r == same_kind(field_view(a), field_view(b)),
{
    match (a, b) {
        (UIFieldValue::Header, UIFieldValue::Header) => true,
        (UIFieldValue::Bool(_), UIFieldValue::Bool(_)) => true,
        (UIFieldValue::Integer(_), UIFieldValue::Integer(_)) => true,
        (UIFieldValue::UnsignedInteger(_), UIFieldValue::UnsignedInteger(_)) => true,
        (UIFieldValue::Text(_), UIFieldValue::Text(_)) => true,
        (UIFieldValue::Color(..), UIFieldValue::Color(..)) => true,
        (UIFieldValue::Path(_), UIFieldValue::Path(_)) => true,
        (UIFieldValue::Choice(..), UIFieldValue::Choice(..)) => true,
        (UIFieldValue::Array(..), UIFieldValue::Array(..)) => true,
        (UIFieldValue::Group(_), UIFieldValue::Group(_)) => true,
        _ => false,
    }
}

/// The view of a payload.
pub open spec fn field_view(f: &UIFieldValue) -> FieldView {
    value_view(&UIValue { name: arbitrary(), display_name: arbitrary(), description: arbitrary(), read_only: false, value: *f }).value
}

/// Applies a change to the value itself; hands the value back unchanged
/// with `false` where the change is refused.
fn apply_value_edit(v: UIValue, e: &PathEdit) -> (r: (UIValue, bool))
    ensures
        match apply_edit(value_view(&v), edit_view(e)) {
            Some(nv) => r.1 && value_view(&r.0) == nv,
            None => !r.1 && value_view(&r.0) == value_view(&v),
        },
{
    if v.read_only {
        return (v, false);
    }
    let ghost vv = value_view(&v);
    match e {
        PathEdit::SetValue(w) => {
            if same_variant(&v.value, &w.value) {
                let c = copy_value(w);
                let r = UIValue { value: c.value, ..v };
                assert(value_view(&r) == ValueView { value: value_view(w).value, ..vv });
                (r, true)
            } else {
                (v, false)
            }
        },
        PathEdit::ArrayAdd => {
            let UIValue { name, display_name, description, read_only, value } = v;
            match value {
                UIFieldValue::Array(t, mut es) => {
                    let ghost ev = values_view(es@);
                    let n = copy_value(&*t);
                    es.push(n);
                    assert(values_view(es@) =~= ev.push(value_view(&*t)));
                    (UIValue { name, display_name, description, read_only, value: UIFieldValue::Array(t, es) }, true)
                },
                other => (UIValue { name, display_name, description, read_only, value: other }, false),
            }
        },
        PathEdit::ArrayRemove(i) => {
            let UIValue { name, display_name, description, read_only, value } = v;
            match value {
                UIFieldValue::Array(t, mut es) => {
                    if *i < es.len() {
                        let ghost ev = values_view(es@);
                        es.remove(*i);
                        assert(values_view(es@) =~= ev.remove(*i as int));
                        (UIValue { name, display_name, description, read_only, value: UIFieldValue::Array(t, es) }, true)
                    } else {
                        (UIValue { name, display_name, description, read_only, value: UIFieldValue::Array(t, es) }, false)
                    }
                },
                other => (UIValue { name, display_name, description, read_only, value: other }, false),
            }
        },
    }
}

/// Replaces element `k` of a list of values by the result of `f`-like
/// editing; the element view becomes `c`.
proof fn lemma_values_view_update(s: Seq<UIValue>, k: int, c: UIValue)
    requires
        0 <= k < s.len(),
    ensures
        values_view(s.update(k, c)) == values_view(s).update(k, value_view(&c)),
{
    assert(values_view(s.update(k, c)) =~= values_view(s).update(k, value_view(&c)));
}

/// Follows `path` from step `at` inside `v` and applies the change there.
#[verifier::rlimit(100)]
fn edit_value(v: UIValue, path: &Vec<PathSegment>, at: usize, e: &PathEdit) -> (r: (UIValue, bool))
    requires
        at <= path@.len(),
    ensures
        match edit_rest(value_view(&v), path_view(path@).subrange(at as int, path@.len() as int), edit_view(e)) {
            Some(nv) => r.1 && value_view(&r.0) == nv,
            None => !r.1 && value_view(&r.0) == value_view(&v),
        },
    decreases path@.len() - at,
{
    let ghost rest = path_view(path@).subrange(at as int, path@.len() as int);
    if at == path.len() {
        return apply_value_edit(v, e);
    }
    assert(rest.drop_first() =~= path_view(path@).subrange(at + 1, path@.len() as int));
    assert(rest[0] == path_view(path@)[at as int]);
    let ghost vv = value_view(&v);
    assert(vv.value == field_view(&v.value));
    let UIValue { name, display_name, description, read_only, value } = v;
    match (value, &path[at]) {
        (UIFieldValue::Group(mut fs), PathSegment::Field(n)) => {
            match find_value(&fs, n) {
                Some(k) => {
                    let ghost fv = fs@;
                    assert(vv.value == FieldView::Group(values_view(fv)));
                    assert(rest[0] == SegView::Field(n@));
                    assert(values_view(fv)[k as int] == value_view(&fv[k as int]));
                    let child = fs.remove(k);
                    let (c, ok) = edit_value(child, path, at + 1, e);
                    fs.insert(k, c);
                    assert(fs@ =~= fv.update(k as int, c));
                    proof { lemma_values_view_update(fv, k as int, c); }
                    proof {
                        if !ok {
                            assert(values_view(fs@) =~= values_view(fv));
                        }
                    }
                    (UIValue { name, display_name, description, read_only, value: UIFieldValue::Group(fs) }, ok)
                },
                None => {
                    assert(vv.value == FieldView::Group(values_view(fs@)));
                    assert(rest[0] == SegView::Field(n@));
                    (UIValue { name, display_name, description, read_only, value: UIFieldValue::Group(fs) }, false)
                },
            }
        },
        (UIFieldValue::Array(t, mut es), PathSegment::Index(i)) => {
            let i = *i;
            assert(rest[0] == SegView::Index(i));
            assert(vv.value == FieldView::Array(Box::new(value_view(&*t)), values_view(es@)));
            if i < es.len() {
                let ghost ev = es@;
                assert(values_view(ev)[i as int] == value_view(&ev[i as int]));
                let child = es.remove(i);
                let (c, ok) = edit_value(child, path, at + 1, e);
                es.insert(i, c);
                assert(es@ =~= ev.update(i as int, c));
                proof { lemma_values_view_update(ev, i as int, c); }
                proof {
                    if !ok {
                        assert(values_view(es@) =~= values_view(ev));
                    }
                }
                (UIValue { name, display_name, description, read_only, value: UIFieldValue::Array(t, es) }, ok)
            } else {
                (UIValue { name, display_name, description, read_only, value: UIFieldValue::Array(t, es) }, false)
            }
        },
        (other, _) => (UIValue { name, display_name, description, read_only, value: other }, false),
    }
}

/// Applies a change at `path` in a list of top-level values. Returns the
/// new list and `true`, or the list unchanged and `false` where the path
/// does not resolve, the target is read-only, or the change does not fit
/// the target (another variant, not an array, an index out of range).
pub fn change_from_path(path: &Vec<PathSegment>, values: Vec<UIValue>, e: &PathEdit) -> (r: (Vec<UIValue>, bool))
    ensures
        match edit_path(values_view(values@), path_view(path@), edit_view(e)) {
            Some(t) => r.1 && values_view(r.0@) == t,
            None => !r.1 && values_view(r.0@) == values_view(values@),
        },
{
    let mut values = values;
    if path.len() == 0 {
        return (values, false);
    }
    assert(path_view(path@).drop_first() =~= path_view(path@).subrange(1, path@.len() as int));
    match &path[0] {
        PathSegment::Field(n) => {
            match find_value(&values, n) {
                Some(k) => {
                    let ghost vs = values@;
                    let child = values.remove(k);
                    let (c, ok) = edit_value(child, path, 1, e);
                    values.insert(k, c);
                    assert(values@ =~= vs.update(k as int, c));
                    proof { lemma_values_view_update(vs, k as int, c); }
                    proof {
                        if !ok {
                            assert(values_view(values@) =~= values_view(vs));
                        }
                    }
                    (values, ok)
                },
                None => (values, false),
            }
        },
        PathSegment::Index(_) => (values, false),
    }
}

/// Neither path is a prefix of the other: they part at some step.
pub open spec fn diverges(a: Seq<SegView>, b: Seq<SegView>) -> bool {
    exists|i: int| 0 <= i < a.len() && 0 <= i < b.len() && #[trigger] a[i] != #[trigger] b[i]
}

/// An edit keeps the name of the value it is made in.
pub proof fn lemma_edit_keeps_name(v: ValueView, rest: Seq<SegView>, e: EditView)
    requires
        edit_rest(v, rest, e) is Some,
    ensures
        edit_rest(v, rest, e).unwrap().name == v.name,
    decreases rest.len(),
{
}

/// Editing element `k` keeps the names of a list, so lookups by name.
proof fn lemma_update_keeps_names(fs: Seq<ValueView>, k: int, c: ValueView)
    requires
        0 <= k < fs.len(),
        c.name == fs[k].name,
    ensures
        value_names(fs.update(k, c)) == value_names(fs),
        forall|n: Seq<char>| #[trigger] find_named(fs.update(k, c), n) == find_named(fs, n),
{
    assert(value_names(fs.update(k, c)) =~= value_names(fs));
}

/// After a set at the end of `rest`, following `rest` reaches the target
/// with the new payload.
pub proof fn lemma_set_then_get_rest(v: ValueView, rest: Seq<SegView>, w: ValueView)
    requires
        edit_rest(v, rest, EditView::SetValue(w)) is Some,
    ensures
        get_rest(v, rest) is Some,
        get_rest(edit_rest(v, rest, EditView::SetValue(w)).unwrap(), rest)
            == Some(ValueView { value: w.value, ..get_rest(v, rest).unwrap() }),
    decreases rest.len(),
{
    if rest.len() > 0 {
        let nv = edit_rest(v, rest, EditView::SetValue(w)).unwrap();
        match (v.value, rest[0]) {
            (FieldView::Group(fs), SegView::Field(n)) => {
                let k = find_named(fs, n).unwrap();
                value_names(fs).index_of_first_ensures(n);
                let c = edit_rest(fs[k], rest.drop_first(), EditView::SetValue(w)).unwrap();
                lemma_edit_keeps_name(fs[k], rest.drop_first(), EditView::SetValue(w));
                lemma_update_keeps_names(fs, k, c);
                lemma_set_then_get_rest(fs[k], rest.drop_first(), w);
                assert(fs.update(k, c)[k] == c);
            },
            (FieldView::Array(t, es), SegView::Index(i)) => {
                let c = edit_rest(es[i as int], rest.drop_first(), EditView::SetValue(w)).unwrap();
                lemma_set_then_get_rest(es[i as int], rest.drop_first(), w);
                assert(es.update(i as int, c)[i as int] == c);
            },
            _ => {},
        }
    }
}

/// After an edit at the end of `rest`, every path that parts from `rest`
/// reaches what it reached before.
pub proof fn lemma_edit_keeps_others_rest(v: ValueView, rest: Seq<SegView>, q: Seq<SegView>, e: EditView)
    requires
        edit_rest(v, rest, e) is Some,
        diverges(rest, q),
    ensures
        get_rest(edit_rest(v, rest, e).unwrap(), q) == get_rest(v, q),
    decreases rest.len(),
{
    let nv = edit_rest(v, rest, e).unwrap();
    let d = choose|i: int| 0 <= i < rest.len() && 0 <= i < q.len() && #[trigger] rest[i] != #[trigger] q[i];
    match (v.value, rest[0]) {
        (FieldView::Group(fs), SegView::Field(n)) => {
            let k = find_named(fs, n).unwrap();
            value_names(fs).index_of_first_ensures(n);
            let c = edit_rest(fs[k], rest.drop_first(), e).unwrap();
            lemma_edit_keeps_name(fs[k], rest.drop_first(), e);
            lemma_update_keeps_names(fs, k, c);
            match q[0] {
                SegView::Field(m) => {
                    if m == n {
                        assert(rest.drop_first()[d - 1] == rest[d]);
                        assert(q.drop_first()[d - 1] == q[d]);
                        lemma_edit_keeps_others_rest(fs[k], rest.drop_first(), q.drop_first(), e);
                    } else {
                        match find_named(fs, m) {
                            Some(k2) => {
                                value_names(fs).index_of_first_ensures(m);
                                assert(k2 != k);
                                assert(fs.update(k, c)[k2] == fs[k2]);
                            },
                            None => {},
                        }
                    }
                },
                SegView::Index(_) => {},
            }
        },
        (FieldView::Array(t, es), SegView::Index(i)) => {
            let c = edit_rest(es[i as int], rest.drop_first(), e).unwrap();
            match q[0] {
                SegView::Index(j) => {
                    if j == i {
                        assert(rest.drop_first()[d - 1] == rest[d]);
                        assert(q.drop_first()[d - 1] == q[d]);
                        lemma_edit_keeps_others_rest(es[i as int], rest.drop_first(), q.drop_first(), e);
                    } else if j < es.len() {
                        assert(es.update(i as int, c)[j as int] == es[j as int]);
                    }
                },
                SegView::Field(_) => {},
            }
        },
        _ => {},
    }
}

/// Setting a value at a path: reading that path afterwards gives the new
/// payload (name, description and flags stay those of the target), and
/// every path that parts from it reads as before.
pub proof fn lemma_set_then_get(vals: Seq<ValueView>, path: Seq<SegView>, w: ValueView)
    requires
        edit_path(vals, path, EditView::SetValue(w)) is Some,
    ensures
        get_path(vals, path) is Some,
        get_path(edit_path(vals, path, EditView::SetValue(w)).unwrap(), path)
            == Some(ValueView { value: w.value, ..get_path(vals, path).unwrap() }),
        forall|q: Seq<SegView>| diverges(path, q) ==>
            #[trigger] get_path(edit_path(vals, path, EditView::SetValue(w)).unwrap(), q) == get_path(vals, q),
        edit_path(vals, path, EditView::SetValue(w)).unwrap().len() == vals.len(),
        value_names(edit_path(vals, path, EditView::SetValue(w)).unwrap()) == value_names(vals),
{
    let n = path[0]->Field_0;
    let k = find_named(vals, n).unwrap();
    value_names(vals).index_of_first_ensures(n);
    let e = EditView::SetValue(w);
    let c = edit_rest(vals[k], path.drop_first(), e).unwrap();
    lemma_edit_keeps_name(vals[k], path.drop_first(), e);
    lemma_update_keeps_names(vals, k, c);
    lemma_set_then_get_rest(vals[k], path.drop_first(), w);
    assert(vals.update(k, c)[k] == c);
    assert forall|q: Seq<SegView>| diverges(path, q) implies
        #[trigger] get_path(edit_path(vals, path, e).unwrap(), q) == get_path(vals, q) by {
        let d = choose|i: int| 0 <= i < path.len() && 0 <= i < q.len() && #[trigger] path[i] != #[trigger] q[i];
        if q[0] is Field {
            let m = q[0]->Field_0;
            if m == n {
                assert(path[0] == q[0]);
                assert(path.drop_first()[d - 1] == path[d]);
                assert(q.drop_first()[d - 1] == q[d]);
                lemma_edit_keeps_others_rest(vals[k], path.drop_first(), q.drop_first(), e);
            } else {
                match find_named(vals, m) {
                    Some(k2) => {
                        value_names(vals).index_of_first_ensures(m);
                        assert(k2 != k);
                        assert(vals.update(k, c)[k2] == vals[k2]);
                    },
                    None => {},
                }
            }
        }
    }
}

/// The decimal digit character of `d`.
pub open spec fn digit_char(d: nat) -> char {
    if d == 0 { '0' } else if d == 1 { '1' } else if d == 2 { '2' } else if d == 3 { '3' }
    else if d == 4 { '4' } else if d == 5 { '5' } else if d == 6 { '6' } else if d == 7 { '7' }
    else if d == 8 { '8' } else { '9' }
}

/// `n` written in decimal, without leading zeros.
pub open spec fn decimal(n: nat) -> Seq<char>
    decreases n,
{
    if n < 10 {
        seq![digit_char(n)]
    } else {
        decimal(n / 10).push(digit_char(n % 10))
    }
}

/// A field name: not empty, and free of the characters that separate steps.
pub open spec fn valid_name(n: Seq<char>) -> bool {
    n.len() > 0 && forall|i: int| 0 <= i < n.len() ==> #[trigger] n[i] != '.' && n[i] != '[' && n[i] != ']'
}

/// How a step is written: `name` first, `.name` later, `[i]` anywhere after
/// the first.
pub open spec fn step_text(s: SegView, first: bool) -> Seq<char> {
    match s {
        SegView::Field(n) => if first { n } else { seq!['.'] + n },
        SegView::Index(i) => seq!['['] + decimal(i as nat) + seq![']'],
    }
}

/// How a path is written, as in `group.field[2].sub`.
pub open spec fn path_text(p: Seq<SegView>) -> Seq<char>
    decreases p.len(),
{
    if p.len() == 0 {
        Seq::empty()
    } else {
        path_text(p.drop_last()) + step_text(p.last(), p.len() == 1)
    }
}

/// A path that can be written and read back: it starts with a field, and
/// every field name is valid.
pub open spec fn valid_path(p: Seq<SegView>) -> bool {
    &&& p.len() > 0
    &&& p[0] is Field
    &&& forall|i: int| 0 <= i < p.len() && (#[trigger] p[i]) is Field ==> valid_name(p[i]->Field_0)
}

/// A decimal digit character.
pub open spec fn is_digit(c: char) -> bool {
    '0' <= c && c <= '9'
}

/// `t` stands in `chars` from `start`, followed by the end or a non-digit.
pub open spec fn digit_run_at(chars: Seq<char>, start: int, t: Seq<char>) -> bool {
    &&& start + t.len() <= chars.len()
    &&& chars.subrange(start, start + t.len()) == t
    &&& (start + t.len() == chars.len() || !is_digit(chars[start + t.len()]))
}

proof fn lemma_decimal_digits(n: nat)
    ensures
        decimal(n).len() >= 1,
        forall|i: int| 0 <= i < decimal(n).len() ==> is_digit(#[trigger] decimal(n)[i]),
        (decimal(n).len() >= 2) == (n >= 10),
        n >= 10 ==> decimal(n)[0] != '0',
    decreases n,
{
    if n >= 10 {
        lemma_decimal_digits(n / 10);
        assert(decimal(n) == decimal(n / 10).push(digit_char(n % 10)));
        assert(decimal(n)[0] == decimal(n / 10)[0]);
        if n / 10 < 10 {
            assert(n / 10 != 0);
        }
    }
}

proof fn lemma_decimal_injective(a: nat, b: nat)
    requires
        decimal(a) == decimal(b),
    ensures
        a == b,
    decreases a,
{
    lemma_decimal_digits(a);
    lemma_decimal_digits(b);
    if a >= 10 {
        assert(b >= 10);
        assert(decimal(a) == decimal(a / 10).push(digit_char(a % 10)));
        assert(decimal(b) == decimal(b / 10).push(digit_char(b % 10)));
        assert(decimal(a).drop_last() =~= decimal(a / 10));
        assert(decimal(b).drop_last() =~= decimal(b / 10));
        lemma_decimal_injective(a / 10, b / 10);
        assert(decimal(a).last() == digit_char(a % 10));
        assert(decimal(b).last() == digit_char(b % 10));
        assert(a % 10 == b % 10);
        assert(a == (a / 10) * 10 + a % 10) by (nonlinear_arith);
        assert(b == (b / 10) * 10 + b % 10) by (nonlinear_arith);
    } else {
        assert(b < 10);
        assert(decimal(a)[0] == digit_char(a));
        assert(decimal(b)[0] == digit_char(b));
    }
}

/// A number whose digits begin another's is not larger.
proof fn lemma_decimal_prefix_le(w: nat, n: nat)
    requires
        decimal(w).len() <= decimal(n).len(),
        decimal(n).subrange(0, decimal(w).len() as int) == decimal(w),
    ensures
        w <= n,
    decreases n,
{
    lemma_decimal_digits(n);
    if decimal(w).len() == decimal(n).len() {
        assert(decimal(n).subrange(0, decimal(n).len() as int) =~= decimal(n));
        lemma_decimal_injective(w, n);
    } else {
        assert(n >= 10);
        assert(decimal(n) == decimal(n / 10).push(digit_char(n % 10)));
        assert(decimal(n / 10).subrange(0, decimal(w).len() as int) =~= decimal(n).subrange(0, decimal(w).len() as int));
        lemma_decimal_prefix_le(w, n / 10);
    }
}

/// Reads a run of decimal digits from `start`, up to a character that is
/// not a digit. Fails on no digit, a leading zero before more digits, or a
/// value that does not fit.
fn read_index(chars: &Vec<char>, start: usize) -> (r: Option<(usize, usize)>)
    requires
        start <= chars@.len(),
    ensures
        match r {
            Some((v, end)) => start < end <= chars@.len() && chars@.subrange(start as int, end as int) == decimal(v as nat)
                && (end == chars@.len() || !('0' <= chars@[end as int] && chars@[end as int] <= '9')),
            None => forall|n: nat| n <= usize::MAX ==> !#[trigger] digit_run_at(chars@, start as int, decimal(n)),
        },
{
    let ghost some_n = exists|n: nat| n <= usize::MAX && #[trigger] digit_run_at(chars@, start as int, decimal(n));
    let ghost n: nat = if some_n { choose|n: nat| n <= usize::MAX && #[trigger] digit_run_at(chars@, start as int, decimal(n)) } else { 0 };
    proof {
        lemma_decimal_digits(n);
    }
    let mut i = start;
    let mut v: usize = 0;
    while i < chars.len() && '0' <= chars[i] && chars[i] <= '9'
        invariant
            start <= i <= chars@.len(),
            i > start ==> chars@.subrange(start as int, i as int) == decimal(v as nat),
            i == start ==> v == 0,
            i > start + 1 ==> v >= 10,
            i == start + 1 ==> v < 10,
            some_n ==> n <= usize::MAX && digit_run_at(chars@, start as int, decimal(n)),
            !some_n ==> forall|m: nat| m <= usize::MAX ==> !#[trigger] digit_run_at(chars@, start as int, decimal(m)),
            some_n ==> i - start <= decimal(n).len(),
            some_n ==> chars@.subrange(start as int, i as int) == decimal(n).subrange(0, i - start),
            decimal(n).len() >= 1,
            forall|k: int| 0 <= k < decimal(n).len() ==> is_digit(#[trigger] decimal(n)[k]),
            n >= 10 ==> decimal(n)[0] != '0',
            (decimal(n).len() >= 2) == (n >= 10),
        decreases chars@.len() - i,
    {
        proof {
            if some_n {
                if i - start == decimal(n).len() {
                    assert(!is_digit(chars@[i as int]));
                }
                assert(chars@.subrange(start as int, i + 1) =~= decimal(n).subrange(0, i + 1 - start)) by {
                    assert(chars@.subrange(start as int, start + decimal(n).len())[i - start] == chars@[i as int]);
                }
            }
        }
        let c = chars[i];
        let d: usize = if c == '0' { 0 } else if c == '1' { 1 } else if c == '2' { 2 } else if c == '3' { 3 }
            else if c == '4' { 4 } else if c == '5' { 5 } else if c == '6' { 6 } else if c == '7' { 7 }
            else if c == '8' { 8 } else { 9 };
        assert(digit_char(d as nat) == c);
        if i > start && v == 0 {
            proof {
                if some_n {
                    assert(i - start < decimal(n).len());
                    assert(decimal(0nat) =~= seq!['0']);
                    assert(chars@.subrange(start as int, i as int)[0] == chars@[start as int]);
                    assert(chars@[start as int] == '0');
                    assert(decimal(n).subrange(0, i - start)[0] == decimal(n)[0]);
                    assert(decimal(n)[0] == '0');
                    assert(decimal(n).len() >= 2);
                    assert(false);
                }
            }
            return None;
        }
        proof {
            if some_n {
                assert(i - start < decimal(n).len());
                assert(nv_bound(v as nat, d as nat, n)) by {
                    let w = (v * 10 + d) as nat;
                    assert(w / 10 == v as nat && w % 10 == d as nat) by (nonlinear_arith)
                        requires w == v * 10 + d, d < 10;
                    if i > start {
                        assert(v >= 1);
                        assert(w >= 10);
                        assert(decimal(w) == decimal(v as nat).push(c));
                        assert(decimal(w) =~= chars@.subrange(start as int, i + 1));
                    } else {
                        assert(w == d);
                        assert(decimal(w) =~= seq![c]);
                        assert(decimal(w) =~= chars@.subrange(start as int, i + 1));
                    }
                    lemma_decimal_prefix_le(w, n);
                }
            }
        }
        if v > (usize::MAX - d) / 10 {
            proof {
                if some_n {
                    assert(v * 10 + d > usize::MAX) by (nonlinear_arith)
                        requires v > (usize::MAX - d) / 10, d < 10, v >= 0;
                    assert(nv_bound(v as nat, d as nat, n));
                    assert(false);
                }
            }
            return None;
        }
        let nv = v * 10 + d;
        proof {
            assert(nv as nat / 10 == v as nat && nv as nat % 10 == d as nat) by (nonlinear_arith)
                requires nv == v * 10 + d, d < 10;
            if i > start {
                assert(v >= 1);
                assert(nv >= 10);
                assert(decimal(nv as nat) == decimal(v as nat).push(c));
                assert(chars@.subrange(start as int, i + 1) =~= chars@.subrange(start as int, i as int).push(c));
            } else {
                assert(nv == d);
                assert(chars@.subrange(start as int, i + 1) =~= seq![c]);
            }
        }
        v = nv;
        i += 1;
    }
    if i == start {
        proof {
            if some_n {
                assert(chars@.subrange(start as int, start + decimal(n).len())[0] == chars@[start as int]);
                assert(is_digit(decimal(n)[0]));
            }
        }
        None
    } else {
        proof {
            if some_n {
                if i - start < decimal(n).len() {
                    assert(chars@.subrange(start as int, start + decimal(n).len())[i - start] == chars@[i as int]);
                    assert(is_digit(decimal(n)[i - start]));
                }
                assert(decimal(n).subrange(0, i - start) =~= decimal(n));
                lemma_decimal_injective(v as nat, n);
            }
        }
        Some((v, i))
    }
}

/// The next value of a run of digits stays within the number it spells.
pub open spec fn nv_bound(v: nat, d: nat, n: nat) -> bool {
    v * 10 + d <= n
}

/// Reads a field name from `start` up to the next `.`, `[` or `]`.
fn read_name(chars: &Vec<char>, start: usize) -> (r: (Vec<char>, usize))
    requires
        start <= chars@.len(),
    ensures
        start <= r.1 <= chars@.len(),
        r.0@ == chars@.subrange(start as int, r.1 as int),
        forall|i: int| 0 <= i < r.0@.len() ==> #[trigger] r.0@[i] != '.' && r.0@[i] != '[' && r.0@[i] != ']',
        r.1 == chars@.len() || chars@[r.1 as int] == '.' || chars@[r.1 as int] == '[' || chars@[r.1 as int] == ']',
{
    let mut name: Vec<char> = Vec::new();
    let mut i = start;
    while i < chars.len() && chars[i] != '.' && chars[i] != '[' && chars[i] != ']'
        invariant
            start <= i <= chars@.len(),
            name@ == chars@.subrange(start as int, i as int),
            forall|k: int| 0 <= k < name@.len() ==> #[trigger] name@[k] != '.' && name@[k] != '[' && name@[k] != ']',
        decreases chars@.len() - i,
    {
        name.push(chars[i]);
        i += 1;
        assert(name@ =~= chars@.subrange(start as int, i as int));
    }
    (name, i)
}

/// The path a well-formed path text reads as.
pub open spec fn parsed_path(t: Seq<char>) -> Seq<SegView> {
    choose|p: Seq<SegView>| valid_path(p) && #[trigger] path_text(p) == t
}

/// The text is a well-formed path.
pub open spec fn is_path_text(t: Seq<char>) -> bool {
    exists|p: Seq<SegView>| valid_path(p) && #[trigger] path_text(p) == t
}

proof fn lemma_text_step(p: Seq<SegView>, k: int)
    requires
        0 <= k < p.len(),
    ensures
        path_text(p.subrange(0, k + 1)) == path_text(p.subrange(0, k)) + step_text(p[k], k == 0),
{
    assert(p.subrange(0, k + 1).drop_last() =~= p.subrange(0, k));
}

proof fn lemma_text_prefix(p: Seq<SegView>, m: int)
    requires
        0 <= m <= p.len(),
    ensures
        path_text(p.subrange(0, m)).len() <= path_text(p).len(),
        path_text(p).subrange(0, path_text(p.subrange(0, m)).len() as int) == path_text(p.subrange(0, m)),
    decreases p.len() - m,
{
    if m == p.len() {
        assert(p.subrange(0, m) =~= p);
        assert(path_text(p).subrange(0, path_text(p).len() as int) =~= path_text(p));
    } else {
        lemma_text_prefix(p, m + 1);
        lemma_text_step(p, m);
        let a = path_text(p.subrange(0, m));
        let b = path_text(p.subrange(0, m + 1));
        assert(b.subrange(0, a.len() as int) =~= a);
        assert(path_text(p).subrange(0, a.len() as int) =~= b.subrange(0, a.len() as int));
    }
}

/// In a valid path's text, what follows the text of its first `k + 1`
/// steps is the end or the start of the next step, a `.` or a `[`.
proof fn lemma_text_next(p: Seq<SegView>, k: int)
    requires
        valid_path(p),
        0 <= k < p.len(),
    ensures
        ({
            let e = path_text(p.subrange(0, k + 1)).len() as int;
            e == path_text(p).len() || (e < path_text(p).len() && (path_text(p)[e] == '.' || path_text(p)[e] == '['))
        }),
{
    if k + 1 < p.len() {
        lemma_text_prefix(p, k + 2);
        lemma_text_step(p, k + 1);
        let a = path_text(p.subrange(0, k + 1));
        let b = path_text(p.subrange(0, k + 2));
        assert(b[a.len() as int] == step_text(p[k + 1], false)[0]);
        assert(path_text(p).subrange(0, b.len() as int)[a.len() as int] == path_text(p)[a.len() as int]);
        if p[k + 1] is Field {
            assert(valid_name(p[k + 1]->Field_0));
        }
    } else {
        assert(p.subrange(0, k + 1) =~= p);
    }
}

/// Reads a path such as `group.field[2].sub`. It succeeds exactly on the
/// texts of valid paths (so not on an empty name or index, a path that does
/// not start with a name, a stray `]`, a leading zero or an index that does
/// not fit), and what it returns writes back to the same text.
pub fn parse_path(path: &str) -> (r: Option<Vec<PathSegment>>)
    ensures
        match r {
            Some(p) => valid_path(path_view(p@)) && path_text(path_view(p@)) == path@
                && path_view(p@) == parsed_path(path@),
            None => !is_path_text(path@),
        },
{
    let n = path.unicode_len();
    let mut chars: Vec<char> = Vec::new();
    let mut k: usize = 0;
    while k < n
        invariant
            n == path@.len(),
            k <= n,
            chars@ == path@.subrange(0, k as int),
        decreases n - k,
    {
        chars.push(path.get_char(k));
        k += 1;
        assert(chars@ =~= path@.subrange(0, k as int));
    }
    assert(chars@ =~= path@);
    let ghost has_p = is_path_text(path@);
    let ghost gp: Seq<SegView> = parsed_path(path@);
    let (first, mut i) = read_name(&chars, 0);
    proof {
        if has_p {
            lemma_text_step(gp, 0);
            lemma_text_prefix(gp, 1);
            lemma_text_next(gp, 0);
            assert(path_text(gp.subrange(0, 0)) == Seq::<char>::empty()) by {
                assert(gp.subrange(0, 0) =~= Seq::<SegView>::empty());
            }
            let n0 = gp[0]->Field_0;
            assert(valid_name(n0));
            assert(path_text(gp.subrange(0, 1)) =~= n0);
            let e = n0.len() as int;
            assert(chars@.subrange(0, e) == n0);
            if i < e {
                assert(chars@.subrange(0, e)[i as int] == chars@[i as int]);
            }
            if i > e {
                assert(first@[e] == chars@[e]);
            }
            assert(i == e);
            assert(first@ =~= n0);
        }
    }
    if first.len() == 0 {
        return None;
    }
    let mut segs: Vec<PathSegment> = Vec::new();
    segs.push(PathSegment::Field(path.substring_char(0, i).to_owned()));
    assert(path_view(segs@).drop_last() =~= Seq::<SegView>::empty());
    assert(path_view(segs@).last() == SegView::Field(chars@.subrange(0, i as int)));
    assert(path_text(Seq::<SegView>::empty()) == Seq::<char>::empty());
    assert(path_text(path_view(segs@)) =~= chars@.subrange(0, i as int));
    let ghost mut k: int = 1;
    proof {
        if has_p {
            assert(path_view(segs@) =~= gp.subrange(0, 1));
        }
    }
    while i < chars.len()
        invariant
            chars@ == path@,
            0 < i <= chars@.len(),
            valid_path(path_view(segs@)),
            path_text(path_view(segs@)) == chars@.subrange(0, i as int),
            has_p ==> valid_path(gp) && path_text(gp) == path@,
            has_p ==> 1 <= k <= gp.len() && path_view(segs@) == gp.subrange(0, k)
                && i == path_text(gp.subrange(0, k)).len(),
            !has_p ==> !is_path_text(path@),
        decreases chars@.len() - i,
    {
        let ghost before = path_view(segs@);
        proof {
            if has_p {
                if k == gp.len() {
                    assert(gp.subrange(0, k) =~= gp);
                }
                assert(k < gp.len());
                lemma_text_step(gp, k);
                lemma_text_prefix(gp, k + 1);
                lemma_text_next(gp, k);
                let a = path_text(gp.subrange(0, k));
                let t = step_text(gp[k], false);
                assert(chars@.subrange(i as int, i + t.len()) =~= t) by {
                    assert forall|j: int| 0 <= j < t.len() implies chars@.subrange(i as int, i + t.len())[j] == t[j] by {
                        assert(path_text(gp.subrange(0, k + 1))[a.len() + j] == t[j]);
                        assert(path_text(gp).subrange(0, path_text(gp.subrange(0, k + 1)).len() as int)[a.len() + j]
                            == path_text(gp)[a.len() + j]);
                    }
                }
                assert(chars@[i as int] == t[0]) by {
                    assert(chars@.subrange(i as int, i + t.len())[0] == chars@[i as int]);
                }
            }
        }
        if chars[i] == '.' {
            let (name, end) = read_name(&chars, i + 1);
            proof {
                if has_p {
                    let t = step_text(gp[k], false);
                    assert(gp[k] is Field);
                    let nm = gp[k]->Field_0;
                    assert(valid_name(nm));
                    assert(t =~= seq!['.'] + nm);
                    let e = i + 1 + nm.len();
                    assert forall|j: int| i + 1 <= j < e implies chars@[j] == nm[j - i - 1] by {
                        assert(chars@.subrange(i as int, i + t.len())[j - i] == chars@[j]);
                    }
                    lemma_text_step(gp, k);
                    if end < e {
                        assert(chars@[end as int] == nm[end - i - 1]);
                    }
                    if end > e {
                        assert(name@[e - i - 1] == chars@[e]);
                    }
                    assert(end == e);
                    assert(name@ =~= nm);
                }
            }
            if name.len() == 0 {
                return None;
            }
            let seg = PathSegment::Field(path.substring_char(i + 1, end).to_owned());
            segs.push(seg);
            proof {
                assert(path_view(segs@) =~= before.push(SegView::Field(name@)));
                assert(path_view(segs@).drop_last() =~= before);
                assert(chars@.subrange(0, end as int) =~= chars@.subrange(0, i as int) + seq!['.'] + name@);
                if has_p {
                    assert(path_view(segs@) =~= gp.subrange(0, k + 1));
                    lemma_text_step(gp, k);
                }
                k = k + 1;
            }
            i = end;
        } else if chars[i] == '[' {
            proof {
                if has_p {
                    let t = step_text(gp[k], false);
                    assert(gp[k] is Index);
                    let v0 = gp[k]->Index_0;
                    let dv = decimal(v0 as nat);
                    assert(t =~= seq!['['] + dv + seq![']']);
                    lemma_decimal_digits(v0 as nat);
                    assert(chars@.subrange(i + 1, i + 1 + dv.len()) =~= dv) by {
                        assert forall|j: int| 0 <= j < dv.len() implies chars@.subrange(i + 1, i + 1 + dv.len())[j] == dv[j] by {
                            assert(chars@.subrange(i as int, i + t.len())[j + 1] == chars@[i + 1 + j]);
                        }
                    }
                    assert(chars@[i + 1 + dv.len()] == ']') by {
                        assert(chars@.subrange(i as int, i + t.len())[dv.len() as int + 1] == chars@[i + 1 + dv.len()]);
                    }
                    assert(digit_run_at(chars@, i + 1, dv));
                }
            }
            match read_index(&chars, i + 1) {
                Some((v, end)) => {
                    proof {
                        if has_p {
                            let t = step_text(gp[k], false);
                            let v0 = gp[k]->Index_0;
                            let dv = decimal(v0 as nat);
                            let e0 = i + 1 + dv.len();
                            lemma_decimal_digits(v as nat);
                            if end < e0 {
                                assert(chars@.subrange(i + 1, e0)[end - i - 1] == chars@[end as int]);
                                assert(is_digit(dv[end - i - 1]));
                            }
                            if end > e0 {
                                assert(chars@.subrange(i + 1, end as int)[e0 - i - 1] == chars@[e0]);
                                assert(is_digit(decimal(v as nat)[e0 - i - 1]));
                            }
                            assert(end == e0);
                            assert(decimal(v as nat) == dv);
                            lemma_decimal_injective(v as nat, v0 as nat);
                        }
                    }
                    if end >= chars.len() || chars[end] != ']' {
                        return None;
                    }
                    segs.push(PathSegment::Index(v));
                    proof {
                        assert(path_view(segs@) =~= before.push(SegView::Index(v)));
                        assert(path_view(segs@).drop_last() =~= before);
                        assert(chars@.subrange(0, end + 1) =~= chars@.subrange(0, i as int) + seq!['['] + decimal(v as nat) + seq![']']);
                        if has_p {
                            assert(path_view(segs@) =~= gp.subrange(0, k + 1));
                            lemma_text_step(gp, k);
                        }
                        k = k + 1;
                    }
                    i = end + 1;
                },
                None => return None,
            }
        } else {
            return None;
        }
    }
    assert(chars@.subrange(0, i as int) =~= chars@);
    proof {
        if has_p && k < gp.len() {
            lemma_text_prefix(gp, k + 1);
            lemma_text_step(gp, k);
            if gp[k] is Field {
                assert(valid_name(gp[k]->Field_0));
            }
            assert(step_text(gp[k], k == 0).len() > 0);
        }
        if has_p {
            assert(gp.subrange(0, k) =~= gp);
        }
    }
    Some(segs)
}

} // verus!
