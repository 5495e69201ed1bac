//! Finding elements by tag name.
//!
//! A query walks the elements below a node in document order. A match does
//! not end the walk: what lies below a matching element is searched as well.

use crate::model::{
    children_of, in_dom, well_formed, Dom, DomView, NodeData, NodeDataView, NodeId,
};
use crate::strings::{lowercase, same, text_of, to_lowercase};
use vstd::prelude::*;

verus! {

/// Whether node `c` is an element whose local name, in lower case, is
/// `lowered`.
pub open spec fn tagged(m: DomView, c: int, lowered: Seq<char>) -> bool {
    in_dom(m, c) && m[c].data is Element && lowercase(m[c].data->name.local) == lowered
}

/// The elements named `lowered` that are reached from the first `k` children
/// of `id` through elements alone, in document order: each element child
/// before what lies below it, and the children from first to last.
pub open spec fn tagged_upto(m: DomView, id: int, lowered: Seq<char>, k: int) -> Seq<NodeId>
    decreases m.len() - id, k,
{
    if in_dom(m, id) && 0 < k <= m[id].children.len() {
        let before = tagged_upto(m, id, lowered, k - 1);
        let c = m[id].children[k - 1];
        if id < c < m.len() && m[c as int].data is Element {
            let below = tagged_upto(m, c as int, lowered, m[c as int].children.len() as int);
            if tagged(m, c as int, lowered) {
                before.push(c) + below
            } else {
                before + below
            }
        } else {
            before
        }
    } else {
        Seq::empty()
    }
}

/// All elements named `lowered` below `id`; see [`tagged_upto`].
pub open spec fn tagged_below(m: DomView, id: int, lowered: Seq<char>) -> Seq<NodeId> {
    tagged_upto(m, id, lowered, children_of(m, id).len() as int)
}

/// The name under which node `id` is known: `document` for the root marker,
/// the lower-case local name for an element, none for any other node.
pub open spec fn tag_name(m: DomView, id: int) -> Option<Seq<char>> {
    if in_dom(m, id) {
        match m[id].data {
            NodeDataView::Document => Some("document"@),
            NodeDataView::Element { name, .. } => Some(lowercase(name.local)),
            _ => None,
        }
    } else {
        None
    }
}

/// Every node that a query finds is an element of the wanted name, and lies
/// below the node at which the query started.
pub proof fn lemma_found_are_tagged(m: DomView, id: int, lowered: Seq<char>, k: int, j: int)
    requires
        0 <= j < tagged_upto(m, id, lowered, k).len(),
    ensures
        tagged(m, tagged_upto(m, id, lowered, k)[j] as int, lowered),
        id < tagged_upto(m, id, lowered, k)[j],
    decreases m.len() - id, k,
{
    if in_dom(m, id) && 0 < k <= m[id].children.len() {
        let before = tagged_upto(m, id, lowered, k - 1);
        let c = m[id].children[k - 1];
        if j < before.len() {
            lemma_found_are_tagged(m, id, lowered, k - 1, j);
        } else if id < c < m.len() && m[c as int].data is Element {
            let below = tagged_upto(m, c as int, lowered, m[c as int].children.len() as int);
            if tagged(m, c as int, lowered) {
                if j > before.len() {
                    lemma_found_are_tagged(
                        m,
                        c as int,
                        lowered,
                        m[c as int].children.len() as int,
                        j - before.len() - 1,
                    );
                }
            } else {
                lemma_found_are_tagged(
                    m,
                    c as int,
                    lowered,
                    m[c as int].children.len() as int,
                    j - before.len(),
                );
            }
        }
    }
}

/// Appends to `nodes` every element below `handle` whose local name, in lower
/// case, is `lowered`. The tag is taken as given: the caller hands it over in
/// lower case.
pub fn collect_tagged(dom: &Dom, handle: NodeId, lowered: &str, nodes: &mut Vec<NodeId>)
    ensures
        final(nodes)@ == old(nodes)@ + tagged_below(dom@, handle as int, lowered@),
    decreases dom@.len() - handle,
{
    let node = match dom.node(handle) {
        Some(node) => node,
        None => {
            assert(nodes@ =~= old(nodes)@ + tagged_below(dom@, handle as int, lowered@));
            return ;
        },
    };
    proof {
        use_type_invariant(dom);
    }
    let mut i: usize = 0;
    assert(nodes@ =~= old(nodes)@ + tagged_upto(dom@, handle as int, lowered@, 0));
    while i < node.children.len()
        invariant
            i <= node.children.len(),
            in_dom(dom@, handle as int),
            node@ == dom@[handle as int],
            well_formed(dom@),
            nodes@ == old(nodes)@ + tagged_upto(dom@, handle as int, lowered@, i as int),
        decreases node.children.len() - i,
    {
        let c = node.children[i];
        let ghost before = tagged_upto(dom@, handle as int, lowered@, i as int);
        assert(handle < dom@[handle as int].children[i as int] < dom@.len());
        match dom.node(c) {
            Some(child) => match &child.data {
                NodeData::Element { name, .. } => {
                    let ghost below = tagged_below(dom@, c as int, lowered@);
                    if same(to_lowercase(name.local.as_str()).as_str(), lowered) {
                        nodes.push(c);
                        collect_tagged(dom, c, lowered, nodes);
                        assert(nodes@ =~= old(nodes)@ + (before.push(c) + below));
                    } else {
                        collect_tagged(dom, c, lowered, nodes);
                        assert(nodes@ =~= old(nodes)@ + (before + below));
                    }
                },
                _ => {},
            },
            None => {},
        }
        i += 1;
    }
}

/// Appends to `nodes` every element below `handle` whose local name equals
/// `tag_name` without regard to case, in document order, and tells whether
/// `nodes` then holds anything.
pub fn query_by_tagname(dom: &Dom, handle: NodeId, tag_name: &str, nodes: &mut Vec<NodeId>) -> (r:
    bool)
    ensures
        final(nodes)@ == old(nodes)@ + tagged_below(dom@, handle as int, lowercase(tag_name@)),
        r == (final(nodes)@.len() > 0),
        forall|j: int|
            old(nodes)@.len() <= j < final(nodes)@.len() ==> tagged(
                dom@,
                #[trigger] final(nodes)@[j] as int,
                lowercase(tag_name@),
            ),
{
    let lowered = to_lowercase(tag_name);
    collect_tagged(dom, handle, lowered.as_str(), nodes);
    proof {
        let found = tagged_below(dom@, handle as int, lowered@);
        assert forall|j: int| old(nodes)@.len() <= j < nodes@.len() implies tagged(
            dom@,
            #[trigger] nodes@[j] as int,
            lowered@,
        ) by {
            lemma_found_are_tagged(
                dom@,
                handle as int,
                lowered@,
                children_of(dom@, handle as int).len() as int,
                j - old(nodes)@.len(),
            );
        }
    }
    nodes.len() > 0
}

/// The name under which node `handle` is known: `document` for the root
/// marker, the lower-case local name for an element, none for any other
/// node.
pub fn get_tag_name(dom: &Dom, handle: NodeId) -> (r: Option<String>)
    ensures
        text_of(r) == tag_name(dom@, handle as int),
{
    match dom.node(handle) {
        Some(node) => match &node.data {
            NodeData::Document => Some("document".to_owned()),
            NodeData::Element { name, .. } => Some(to_lowercase(name.local.as_str())),
            _ => None,
        },
        None => None,
    }
}

} // verus!
