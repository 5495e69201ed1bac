//! Reading and writing the attributes of an element.
//!
//! Attributes are found by local name. Storage may hold one name several
//! times: a single lookup answers with the first occurrence, a lookup of many
//! names with the last one.

use crate::model::{
    attrs_view, in_dom, plain_name, with_data, Attribute, AttributeView, Dom, DomView, NodeData,
    NodeDataView, NodeId, QualName,
};
use crate::strings::{same, text_of};
use vstd::hash_map::StringHashMap;
use vstd::prelude::*;

verus! {

/// Index of the first attribute whose local name is `name`.
pub open spec fn position(attrs: Seq<AttributeView>, name: Seq<char>) -> Option<int>
    decreases attrs.len(),
{
    if attrs.len() == 0 {
        None
    } else if attrs.first().name.local == name {
        Some(0int)
    } else {
        match position(attrs.drop_first(), name) {
            Some(i) => Some(i + 1),
            None => None,
        }
    }
}

/// Value of the first attribute whose local name is `name`.
pub open spec fn first_value(attrs: Seq<AttributeView>, name: Seq<char>) -> Option<Seq<char>> {
    match position(attrs, name) {
        Some(i) => Some(attrs[i].value),
        None => None,
    }
}

/// Value of the last attribute whose local name is `name`.
pub open spec fn last_value(attrs: Seq<AttributeView>, name: Seq<char>) -> Option<Seq<char>>
    decreases attrs.len(),
{
    if attrs.len() == 0 {
        None
    } else if attrs.last().name.local == name {
        Some(attrs.last().value)
    } else {
        last_value(attrs.drop_last(), name)
    }
}

/// Number of attributes whose local name is `name`.
pub open spec fn count_named(attrs: Seq<AttributeView>, name: Seq<char>) -> nat
    decreases attrs.len(),
{
    if attrs.len() == 0 {
        0
    } else {
        count_named(attrs.drop_last(), name) + if attrs.last().name.local == name {
            1nat
        } else {
            0nat
        }
    }
}

/// Whether `name` is one of `names`.
pub open spec fn listed(names: Seq<&str>, name: Seq<char>) -> bool {
    exists|i: int| 0 <= i < names.len() && (#[trigger] names[i])@ == name
}

/// The attributes picked by `names`: each listed name that occurs in `attrs`,
/// with the value of its last occurrence.
pub open spec fn selected(names: Seq<&str>, attrs: Seq<AttributeView>) -> Map<
    Seq<char>,
    Seq<char>,
> {
    Map::new(
        |k: Seq<char>| listed(names, k) && last_value(attrs, k) is Some,
        |k: Seq<char>| last_value(attrs, k)->0,
    )
}

/// The characters of each value of a map of strings.
pub open spec fn values_view(m: Map<Seq<char>, String>) -> Map<Seq<char>, Seq<char>> {
    m.map_values(|v: String| v@)
}

/// `attrs` after a write of `value` under `name`: the first attribute of that
/// name gets the value and keeps its place and its qualified name; without
/// one, an attribute with the plain name is added at the end.
pub open spec fn attrs_with(attrs: Seq<AttributeView>, name: Seq<char>, value: Seq<char>) -> Seq<
    AttributeView,
> {
    match position(attrs, name) {
        Some(i) => attrs.update(i, AttributeView { name: attrs[i].name, value }),
        None => attrs.push(AttributeView { name: plain_name(name), value }),
    }
}

/// The attributes of node `id`; none unless it is an element.
pub open spec fn attrs_of(m: DomView, id: int) -> Seq<AttributeView> {
    if in_dom(m, id) && m[id].data is Element {
        m[id].data->attrs
    } else {
        Seq::empty()
    }
}

/// Value of attribute `name` of node `id`; `None` unless `id` is an element
/// that has one.
pub open spec fn attr_of(m: DomView, id: int, name: Seq<char>) -> Option<Seq<char>> {
    first_value(attrs_of(m, id), name)
}

/// The document after a write of `value` under `name` at node `id`. Only an
/// element changes, and only in its attributes.
pub open spec fn attr_set(m: DomView, id: int, name: Seq<char>, value: Seq<char>) -> DomView {
    if in_dom(m, id) && m[id].data is Element {
        with_data(
            m,
            id,
            NodeDataView::Element {
                name: m[id].data->name,
                attrs: attrs_with(m[id].data->attrs, name, value),
            },
        )
    } else {
        m
    }
}

/// `position` answers with the least index that carries the name, and with
/// `None` exactly when no index does.
pub proof fn lemma_position(attrs: Seq<AttributeView>, name: Seq<char>)
    ensures
        match position(attrs, name) {
            Some(i) => 0 <= i < attrs.len() && attrs[i].name.local == name && forall|j: int|
                0 <= j < i ==> attrs[j].name.local != name,
            None => forall|j: int| 0 <= j < attrs.len() ==> attrs[j].name.local != name,
        },
    decreases attrs.len(),
{
    if attrs.len() > 0 && attrs.first().name.local != name {
        let rest = attrs.drop_first();
        lemma_position(rest, name);
        match position(rest, name) {
            Some(i) => {
                assert forall|j: int| 0 <= j < i + 1 implies attrs[j].name.local != name by {
                    if j > 0 {
                        assert(attrs[j] == rest[j - 1]);
                    }
                }
            },
            None => {
                assert forall|j: int| 0 <= j < attrs.len() implies attrs[j].name.local
                    != name by {
                    if j > 0 {
                        assert(attrs[j] == rest[j - 1]);
                    }
                }
            },
        }
    }
}

/// The least index that carries the name is what `position` answers with.
pub proof fn lemma_position_is(attrs: Seq<AttributeView>, name: Seq<char>, i: int)
    requires
        0 <= i < attrs.len(),
        attrs[i].name.local == name,
        forall|j: int| 0 <= j < i ==> attrs[j].name.local != name,
    ensures
        position(attrs, name) == Some(i),
{
    lemma_position(attrs, name);
}

/// A list in which no attribute carries the name has no position for it.
pub proof fn lemma_position_none(attrs: Seq<AttributeView>, name: Seq<char>)
    requires
        forall|j: int| 0 <= j < attrs.len() ==> attrs[j].name.local != name,
    ensures
        position(attrs, name) is None,
{
    lemma_position(attrs, name);
}

proof fn lemma_count_same_names(a: Seq<AttributeView>, b: Seq<AttributeView>, name: Seq<char>)
    requires
        a.len() == b.len(),
        forall|j: int| 0 <= j < a.len() ==> a[j].name.local == b[j].name.local,
    ensures
        count_named(a, name) == count_named(b, name),
    decreases a.len(),
{
    if a.len() > 0 {
        lemma_count_same_names(a.drop_last(), b.drop_last(), name);
    }
}

proof fn lemma_count_zero(attrs: Seq<AttributeView>, name: Seq<char>)
    ensures
        count_named(attrs, name) == 0 <==> forall|j: int|
            0 <= j < attrs.len() ==> attrs[j].name.local != name,
    decreases attrs.len(),
{
    if attrs.len() > 0 {
        let front = attrs.drop_last();
        lemma_count_zero(front, name);
        if count_named(attrs, name) == 0 {
            assert forall|j: int| 0 <= j < attrs.len() implies attrs[j].name.local != name by {
                if j < front.len() {
                    assert(attrs[j] == front[j]);
                }
            }
        } else if attrs.last().name.local != name {
            let j = choose|j: int| 0 <= j < front.len() && front[j].name.local == name;
            assert(attrs[j] == front[j]);
        }
    }
}

/// A write under a name leaves exactly one attribute of that name where there
/// was at most one, and never adds to those that were there.
pub proof fn lemma_write_adds_no_duplicate(
    attrs: Seq<AttributeView>,
    name: Seq<char>,
    value: Seq<char>,
)
    ensures
        count_named(attrs_with(attrs, name, value), name) == if count_named(attrs, name) == 0 {
            1nat
        } else {
            count_named(attrs, name)
        },
        first_value(attrs_with(attrs, name, value), name) == Some(value),
{
    lemma_position(attrs, name);
    lemma_count_zero(attrs, name);
    let after = attrs_with(attrs, name, value);
    match position(attrs, name) {
        Some(i) => {
            lemma_count_same_names(attrs, after, name);
            lemma_position_is(after, name, i);
        },
        None => {
            assert(after.drop_last() =~= attrs);
            assert forall|j: int| 0 <= j < attrs.len() implies after[j].name.local != name by {
                assert(after[j] == attrs[j]);
            }
            lemma_position_is(after, name, attrs.len() as int);
        },
    }
}

/// Writing the same value under the same name a second time changes nothing.
pub proof fn lemma_write_twice(attrs: Seq<AttributeView>, name: Seq<char>, value: Seq<char>)
    ensures
        attrs_with(attrs_with(attrs, name, value), name, value) == attrs_with(attrs, name, value),
{
    lemma_position(attrs, name);
    let after = attrs_with(attrs, name, value);
    match position(attrs, name) {
        Some(i) => {
            lemma_position_is(after, name, i);
            assert(attrs_with(after, name, value) =~= after);
        },
        None => {
            assert forall|j: int| 0 <= j < attrs.len() implies after[j].name.local != name by {
                assert(after[j] == attrs[j]);
            }
            lemma_position_is(after, name, attrs.len() as int);
            assert(attrs_with(after, name, value) =~= after);
        },
    }
}

/// Setting an attribute twice to the same value is the same as setting it
/// once. On an element the write leaves the value readable under the name,
/// and exactly one attribute of the name where there was at most one before.
pub proof fn lemma_set_attr_idempotent(m: DomView, id: int, name: Seq<char>, value: Seq<char>)
    ensures
        attr_set(attr_set(m, id, name, value), id, name, value) == attr_set(m, id, name, value),
        in_dom(m, id) && m[id].data is Element ==> {
            let before = attrs_of(m, id);
            let after = attrs_of(attr_set(m, id, name, value), id);
            &&& attr_of(attr_set(m, id, name, value), id, name) == Some(value)
            &&& count_named(before, name) <= 1 ==> count_named(after, name) == 1
            &&& count_named(before, name) > 1 ==> count_named(after, name) == count_named(
                before,
                name,
            )
        },
{
    if in_dom(m, id) && m[id].data is Element {
        let attrs = m[id].data->attrs;
        lemma_write_twice(attrs, name, value);
        lemma_write_adds_no_duplicate(attrs, name, value);
        let once = attr_set(m, id, name, value);
        assert(attr_set(once, id, name, value) =~= once);
    }
}

/// Index of the first attribute whose local name is `name`.
pub fn find_attr(name: &str, attrs: &Vec<Attribute>) -> (r: Option<usize>)
    ensures
        match r {
            Some(i) => i < attrs@.len() && position(attrs_view(attrs@), name@) == Some(i as int),
            None => position(attrs_view(attrs@), name@) is None,
        },
{
    let mut i: usize = 0;
    while i < attrs.len()
        invariant
            i <= attrs.len(),
            forall|j: int| 0 <= j < i ==> attrs_view(attrs@)[j].name.local != name@,
        decreases attrs.len() - i,
    {
        if same(attrs[i].name.local.as_str(), name) {
            proof {
                lemma_position_is(attrs_view(attrs@), name@, i as int);
            }
            return Some(i);
        }
        i += 1;
    }
    proof {
        lemma_position_none(attrs_view(attrs@), name@);
    }
    None
}

/// Value of the first attribute whose local name is `name`.
pub fn get_attr(name: &str, attrs: &Vec<Attribute>) -> (r: Option<String>)
    ensures
        text_of(r) == first_value(attrs_view(attrs@), name@),
{
    match find_attr(name, attrs) {
        Some(i) => Some(attrs[i].value.clone()),
        None => None,
    }
}

/// Whether `name` is one of `names`.
pub fn is_listed(names: &Vec<&str>, name: &str) -> (r: bool)
    ensures
        r == listed(names@, name@),
{
    let mut i: usize = 0;
    while i < names.len()
        invariant
            i <= names.len(),
            forall|j: int| 0 <= j < i ==> (#[trigger] names@[j])@ != name@,
        decreases names.len() - i,
    {
        if same(names[i], name) {
            return true;
        }
        i += 1;
    }
    false
}

proof fn lemma_last_value_step(attrs: Seq<AttributeView>, i: int, name: Seq<char>)
    requires
        0 <= i < attrs.len(),
    ensures
        last_value(attrs.take(i + 1), name) == if attrs[i].name.local == name {
            Some(attrs[i].value)
        } else {
            last_value(attrs.take(i), name)
        },
{
    assert(attrs.take(i + 1).drop_last() =~= attrs.take(i));
}

/// The attributes whose local name is one of `names`, keyed by local name.
/// Where a name occurs more than once, its last value stands.
pub fn get_attrs(names: Vec<&str>, attrs: &Vec<Attribute>) -> (r: StringHashMap<String>)
    ensures
        values_view(r@) == selected(names@, attrs_view(attrs@)),
{
    let mut map: StringHashMap<String> = StringHashMap::new();
    let ghost all = attrs_view(attrs@);
    let mut i: usize = 0;
    assert(values_view(map@) =~= selected(names@, all.take(0)));
    while i < attrs.len()
        invariant
            i <= attrs.len(),
            all == attrs_view(attrs@),
            values_view(map@) == selected(names@, all.take(i as int)),
        decreases attrs.len() - i,
    {
        let ghost before = map@;
        let attr = &attrs[i];
        if is_listed(&names, attr.name.local.as_str()) {
            map.insert(attr.name.local.clone(), attr.value.clone());
        }
        proof {
            let prev = selected(names@, all.take(i as int));
            let want = selected(names@, all.take(i + 1));
            let now = values_view(map@);
            assert forall|k: Seq<char>| now.contains_key(k) == want.contains_key(k) by {
                lemma_last_value_step(all, i as int, k);
                assert(values_view(before).contains_key(k) == prev.contains_key(k));
            }
            assert forall|k: Seq<char>| now.contains_key(k) implies now[k] == want[k] by {
                lemma_last_value_step(all, i as int, k);
                if all[i as int].name.local != k || !listed(names@, k) {
                    assert(values_view(before).contains_key(k));
                    assert(values_view(before)[k] == prev[k]);
                }
            }
            assert(now =~= want);
        }
        i += 1;
    }
    assert(all.take(attrs.len() as int) =~= all);
    map
}

/// Value of attribute `name` of node `handle`; `None` for a node that is no
/// element or has no such attribute.
pub fn get_attr_by_name(dom: &Dom, handle: NodeId, name: &str) -> (r: Option<String>)
    ensures
        text_of(r) == attr_of(dom@, handle as int, name@),
{
    match dom.node(handle) {
        Some(node) => match &node.data {
            NodeData::Element { attrs, .. } => get_attr(name, attrs),
            _ => None,
        },
        None => None,
    }
}

/// Writes `value` under `name` at element `handle`, and tells whether there
/// was an element to write to. The first attribute of that name is overwritten
/// in place; without one a new attribute is appended. Any other node is left
/// alone.
pub fn try_set_attr(dom: &mut Dom, handle: NodeId, name: &str, value: &str) -> (written: bool)
    ensures
        written == (in_dom(old(dom)@, handle as int) && old(dom)@[handle as int].data is Element),
        final(dom)@ == attr_set(old(dom)@, handle as int, name@, value@),
{
    let found = match dom.node(handle) {
        Some(node) => match &node.data {
            NodeData::Element { attrs, .. } => Some(find_attr(name, attrs)),
            _ => None,
        },
        None => None,
    };
    match found {
        Some(Some(index)) => {
            dom.put_attr_value(handle, index, value.to_owned());
            true
        },
        Some(None) => {
            dom.push_attr(handle, Attribute { name: QualName::plain(name), value: value.to_owned() });
            true
        },
        None => false,
    }
}

/// Writes `value` under `name` at element `handle`: the first attribute of
/// that name is overwritten in place, and without one a new attribute is
/// appended. On any other node nothing happens, and nothing is reported.
pub fn set_attr(dom: &mut Dom, handle: NodeId, name: &str, value: &str)
    ensures
        final(dom)@ == attr_set(old(dom)@, handle as int, name@, value@),
{
    let _ = try_set_attr(dom, handle, name, value);
}

} // verus!
