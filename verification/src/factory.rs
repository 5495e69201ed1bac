//! Making new elements.

use crate::model::{
    attrs_view, leaf, plain_name, Attribute, Dom, NodeData, NodeDataView, NodeId, QualName,
};
use vstd::prelude::*;

verus! {

/// Adds to `dom` an element with the local name `name`, no prefix, no
/// namespace, the attributes `attrs` and no children, and returns its index.
/// The element is detached: no node has it as a child.
pub fn create_element(dom: &mut Dom, name: &str, attrs: Vec<Attribute>) -> (r: NodeId)
    ensures
        r == old(dom)@.len(),
        final(dom)@ == old(dom)@.push(
            leaf(NodeDataView::Element { name: plain_name(name@), attrs: attrs_view(attrs@) }),
        ),
{
    dom.create(NodeData::Element { name: QualName::plain(name), attrs })
}

} // verus!
