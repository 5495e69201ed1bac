//! Reading a document from bytes.
//!
//! The bytes are parsed by `html5ever` into its reference-counted tree, and
//! that tree is copied node by node into a [`Dom`]. What the parser builds
//! and what its nodes hold is not defined here: each has a name, and the
//! contracts say over those names that the document is a copy of the tree.

use crate::model::{
    attrs_view, in_dom, Attribute, AttributeView, Dom, DomView, NodeData, NodeDataView, NodeId,
    QualName, QualNameView,
};
use crate::strings::text_of;
use html5ever::tendril::TendrilSink;
use markup5ever_rcdom::RcDom;
use std::rc::Rc;
use vstd::prelude::*;

verus! {

/// `markup5ever_rcdom::Node`, a node of the parser's tree. It is read through
/// the functions below, and what they read has a name each. A node keeps its
/// children, its text and its attributes in cells, and the names speak of the
/// node as it is while it is read: nothing in this library writes to a node.
#[verifier::external_type_specification]
#[verifier::external_body]
pub struct ExNode(markup5ever_rcdom::Node);

/// A node of the parser's tree.
pub type ParsedNode = Rc<markup5ever_rcdom::Node>;

/// `std::io::Error`, with which reading the input may end.
#[verifier::external_type_specification]
#[verifier::external_body]
pub struct ExIoError(std::io::Error);

/// The most bytes that one run of text, one comment or one attribute value
/// may take in the parser's tree. The parser keeps each in a string whose
/// capacity is a power of two that a `u32` holds.
pub const RUN_LIMIT: usize = 0x8000_0000;

/// How many bytes of text one byte of input can become at most: a byte that
/// is no UTF-8 is replaced by a character of three bytes.
pub const GROWTH: usize = 3;

/// The longest input that [`parse_from`] takes, in bytes: no text that the
/// parser makes of it is longer than [`RUN_LIMIT`].
pub const INPUT_LIMIT: usize = RUN_LIMIT / GROWTH;

/// Why no document came out of the input.
#[derive(Clone, Copy, Debug, PartialEq, Eq)]
pub enum ParseError {
    /// The input could not be read to its end.
    Read,
    /// The input is longer than [`INPUT_LIMIT`] bytes.
    TooLong,
}

impl ParseError {
    /// The failure in words.
    pub fn message(&self) -> (r: String)
        ensures
            r@ == match *self {
                ParseError::Read => "the input could not be read to its end"@,
                ParseError::TooLong => "the input is too long to be parsed"@,
            },
    {
        match self {
            ParseError::Read => "the input could not be read to its end".to_owned(),
            ParseError::TooLong => "the input is too long to be parsed".to_owned(),
        }
    }
}

/// The root of the tree that `html5ever` builds from `input`, taken as
/// UTF-8. The same bytes give a tree of the same shape and contents, and it
/// is by these that a tree is taken here.
pub uninterp spec fn parsed_root(input: Seq<u8>) -> ParsedNode;

/// The children that a node of the parser's tree holds, in their order.
pub uninterp spec fn parsed_children(node: ParsedNode) -> Seq<ParsedNode>;

/// Whether a node of the parser's tree is a `Document`.
pub uninterp spec fn parsed_is_document(node: ParsedNode) -> bool;

/// The name of a node of the parser's tree that is an `Element`, and `None`
/// for any other node.
pub uninterp spec fn parsed_name(node: ParsedNode) -> Option<QualNameView>;

/// The attributes of a node of the parser's tree that is an `Element`, in
/// their order.
pub uninterp spec fn parsed_attrs(node: ParsedNode) -> Seq<AttributeView>;

/// The contents of a node of the parser's tree that is a `Text`, and `None`
/// for any other node.
pub uninterp spec fn parsed_text(node: ParsedNode) -> Option<Seq<char>>;

/// The view of an optional name.
pub open spec fn name_of(o: Option<QualName>) -> Option<QualNameView> {
    match o {
        Some(name) => Some(name@),
        None => None,
    }
}

/// `html5ever::parse_document` into a fresh `RcDom`, fed with `input` as
/// UTF-8 through `read_from`; gives the root of the parsed tree, which is the
/// one that `parsed_root` names. `read_from` fails only where its reader
/// does, and a slice can always be read, so the result is `Ok`. Longer input
/// is left out: the parser panics when one of its strings outgrows
/// [`RUN_LIMIT`].
#[verifier::external_body]
fn read_document(input: &[u8]) -> (r: Result<ParsedNode, std::io::Error>)
    requires
        input@.len() <= INPUT_LIMIT,
    ensures
        r is Ok,
        r matches Ok(root) ==> root == parsed_root(input@),
{
    let mut bytes = input;
    html5ever::parse_document(RcDom::default(), Default::default())
        .from_utf8()
        .read_from(&mut bytes)
        .map(|dom| dom.document)
}

/// The `children` of a node of the parsed tree, in their order: what
/// `parsed_children` names.
#[verifier::external_body]
fn child_handles(handle: &ParsedNode) -> (r: Vec<ParsedNode>)
    ensures
        r@ == parsed_children(*handle),
{
    handle.children.borrow().iter().cloned().collect()
}

/// Whether the `data` of a node of the parsed tree is `Document`: what
/// `parsed_is_document` names.
#[verifier::external_body]
fn is_document(handle: &ParsedNode) -> (r: bool)
    ensures
        r == parsed_is_document(*handle),
{
    match handle.data {
        markup5ever_rcdom::NodeData::Document => true,
        _ => false,
    }
}

/// The name of an `Element` of the parsed tree, its three parts as strings;
/// `None` for a node of any other kind. It is what `parsed_name` names.
#[verifier::external_body]
fn element_name(handle: &ParsedNode) -> (r: Option<QualName>)
    ensures
        name_of(r) == parsed_name(*handle),
{
    match handle.data {
        markup5ever_rcdom::NodeData::Element { ref name, .. } => Some(
            QualName {
                prefix: name.prefix.as_ref().map(|p| p.to_string()),
                ns: name.ns.to_string(),
                local: name.local.to_string(),
            },
        ),
        _ => None,
    }
}

/// The attributes of an `Element` of the parsed tree, in their order, names
/// and values as strings; none for a node of any other kind. They are what
/// `parsed_attrs` names.
#[verifier::external_body]
fn element_attrs(handle: &ParsedNode) -> (r: Vec<Attribute>)
    ensures
        attrs_view(r@) == parsed_attrs(*handle),
{
    match handle.data {
        markup5ever_rcdom::NodeData::Element { ref attrs, .. } => attrs.borrow().iter().map(
            |a| Attribute {
                name: QualName {
                    prefix: a.name.prefix.as_ref().map(|p| p.to_string()),
                    ns: a.name.ns.to_string(),
                    local: a.name.local.to_string(),
                },
                value: a.value.to_string(),
            },
        ).collect(),
        _ => Vec::new(),
    }
}

/// The contents of a `Text` node of the parsed tree; `None` for a node of
/// any other kind. They are what `parsed_text` names.
#[verifier::external_body]
fn text_contents(handle: &ParsedNode) -> (r: Option<String>)
    ensures
        text_of(r) == parsed_text(*handle),
{
    match handle.data {
        markup5ever_rcdom::NodeData::Text { ref contents } => Some(contents.borrow().to_string()),
        _ => None,
    }
}

/// What a node of the parser's tree is, as this library holds it: an element
/// where it has a name, else a text node where it has contents, else the root
/// marker where it is a `Document`, else [`NodeDataView::Other`].
pub open spec fn parsed_data(node: ParsedNode) -> NodeDataView {
    match parsed_name(node) {
        Some(name) => NodeDataView::Element { name, attrs: parsed_attrs(node) },
        None => match parsed_text(node) {
            Some(contents) => NodeDataView::Text { contents },
            None => if parsed_is_document(node) {
                NodeDataView::Document
            } else {
                NodeDataView::Other
            },
        },
    }
}

/// The children `children` as they are put on the stack of pending nodes:
/// last child first, each with `parent` beside it.
pub open spec fn deferred(children: Seq<ParsedNode>, parent: NodeId) -> Seq<(ParsedNode, NodeId)> {
    Seq::new(children.len(), |i: int| (children[children.len() - 1 - i], parent))
}

/// What a node of the parsed tree is, as this library holds it. Doctypes,
/// comments and processing instructions all become [`NodeData::Other`].
fn import_data(handle: &ParsedNode) -> (r: NodeData)
    ensures
        r@ == parsed_data(*handle),
{
    match element_name(handle) {
        Some(name) => NodeData::Element { name, attrs: element_attrs(handle) },
        None => match text_contents(handle) {
            Some(contents) => NodeData::Text { contents },
            None => if is_document(handle) {
                NodeData::Document
            } else {
                NodeData::Other
            },
        },
    }
}

/// Moves the children of `handle` to the end of `pending`, last child first,
/// each with `parent` as the node under which it will be copied.
fn defer_children(pending: &mut Vec<(ParsedNode, NodeId)>, handle: &ParsedNode, parent: NodeId)
    ensures
        final(pending)@ == old(pending)@ + deferred(parsed_children(*handle), parent),
{
    let mut children = child_handles(handle);
    let ghost all = parsed_children(*handle);
    assert(pending@ =~= old(pending)@ + deferred(all, parent).take(0));
    while children.len() > 0
        invariant
            children@.len() <= all.len(),
            children@ == all.take(children@.len() as int),
            pending@ == old(pending)@ + deferred(all, parent).take(all.len() - children@.len()),
        decreases children.len(),
    {
        let ghost left = children@.len();
        let ghost before = pending@;
        match children.pop() {
            Some(child) => {
                pending.push((child, parent));
                proof {
                    assert(child == all[left - 1]);
                    assert(children@ =~= all.take(left - 1));
                    assert(pending@ =~= old(pending)@ + deferred(all, parent).take(
                        all.len() - left + 1,
                    ));
                }
            },
            None => {},
        }
    }
    assert(deferred(all, parent).take(all.len() as int) =~= deferred(all, parent));
}

/// Whether slot `id` of `m` is listed as a child of some slot.
pub open spec fn attached(m: DomView, id: int) -> bool {
    exists|p: int, k: int|
        in_dom(m, p) && 0 <= k < m[p].children.len() && #[trigger] m[p].children[k] == id
}

/// Whether `m` is a copy of the tree below `root`, where `origin` tells for
/// each slot the node of the parser's tree that it stands for. The first slot
/// stands for `root` and holds the root marker; every other slot holds what
/// its node is, and is the child of some slot; and the children of a slot
/// stand for the children of its node, one for one and in their order.
pub open spec fn copies_by(m: DomView, origin: Seq<ParsedNode>, root: ParsedNode) -> bool {
    &&& origin.len() == m.len()
    &&& m.len() > 0
    &&& origin[0] == root
    &&& m[0].data is Document
    &&& forall|id: int| 0 < id < m.len() ==> (#[trigger] m[id]).data == parsed_data(origin[id])
    &&& forall|id: int| 0 < id < m.len() ==> #[trigger] attached(m, id)
    &&& forall|id: int|
        0 <= id < m.len() ==> (#[trigger] m[id]).children.len() == parsed_children(
            origin[id],
        ).len()
    &&& forall|id: int, k: int|
        0 <= id < m.len() && 0 <= k < m[id].children.len() ==> 0 <= #[trigger] m[id].children[k]
            < m.len() && origin[m[id].children[k] as int] == parsed_children(origin[id])[k]
}

/// Whether `m` is a copy of the tree below `root`; see [`copies_by`].
pub open spec fn copies(m: DomView, root: ParsedNode) -> bool {
    exists|origin: Seq<ParsedNode>| copies_by(m, origin, root)
}

/// The nodes on the stack that are to be copied under `parent`, from the
/// bottom of the stack to its top.
spec fn waiting(pending: Seq<(ParsedNode, NodeId)>, parent: NodeId) -> Seq<ParsedNode>
    decreases pending.len(),
{
    if pending.len() == 0 {
        Seq::empty()
    } else {
        let below = waiting(pending.drop_last(), parent);
        if pending.last().1 == parent {
            below.push(pending.last().0)
        } else {
            below
        }
    }
}

/// The children from index `from` on, last child first.
spec fn reversed_from(children: Seq<ParsedNode>, from: int) -> Seq<ParsedNode> {
    Seq::new((children.len() - from) as nat, |i: int| children[children.len() - 1 - i])
}

/// What holds while a tree is copied: every slot stands for a node, holds
/// what that node is, and has as children the copies of the first children of
/// its node; the children that are still to come wait on the stack, the next
/// one on top.
spec fn copying(
    m: DomView,
    origin: Seq<ParsedNode>,
    pending: Seq<(ParsedNode, NodeId)>,
    root: ParsedNode,
) -> bool {
    &&& origin.len() == m.len()
    &&& m.len() > 0
    &&& origin[0] == root
    &&& m[0].data is Document
    &&& forall|id: int| 0 < id < m.len() ==> (#[trigger] m[id]).data == parsed_data(origin[id])
    &&& forall|id: int| 0 < id < m.len() ==> #[trigger] attached(m, id)
    &&& forall|id: int|
        0 <= id < m.len() ==> (#[trigger] m[id]).children.len() <= parsed_children(
            origin[id],
        ).len()
    &&& forall|id: int, k: int|
        0 <= id < m.len() && 0 <= k < m[id].children.len() ==> 0 <= #[trigger] m[id].children[k]
            < m.len() && origin[m[id].children[k] as int] == parsed_children(origin[id])[k]
    &&& forall|p: NodeId|
        p < m.len() ==> #[trigger] waiting(pending, p) == reversed_from(
            parsed_children(origin[p as int]),
            m[p as int].children.len() as int,
        )
    &&& forall|j: int| 0 <= j < pending.len() ==> (#[trigger] pending[j]).1 < m.len()
}

proof fn lemma_waiting_none(pending: Seq<(ParsedNode, NodeId)>, parent: NodeId)
    requires
        forall|j: int| 0 <= j < pending.len() ==> (#[trigger] pending[j]).1 != parent,
    ensures
        waiting(pending, parent) == Seq::<ParsedNode>::empty(),
    decreases pending.len(),
{
    if pending.len() > 0 {
        let below = pending.drop_last();
        assert forall|j: int| 0 <= j < below.len() implies (#[trigger] below[j]).1 != parent by {
            assert(below[j] == pending[j]);
        }
        lemma_waiting_none(below, parent);
        assert(pending.last() == pending[pending.len() - 1]);
    }
}

proof fn lemma_waiting_deferred(
    pending: Seq<(ParsedNode, NodeId)>,
    children: Seq<ParsedNode>,
    parent: NodeId,
    other: NodeId,
    n: int,
)
    requires
        0 <= n <= children.len(),
    ensures
        waiting(pending + deferred(children, parent).take(n), other) == if other == parent {
            waiting(pending, other) + reversed_from(children, 0).take(n)
        } else {
            waiting(pending, other)
        },
    decreases n,
{
    let added = deferred(children, parent);
    if n == 0 {
        assert(pending + added.take(0) =~= pending);
        assert(waiting(pending, other) + reversed_from(children, 0).take(0) =~= waiting(
            pending,
            other,
        ));
    } else {
        lemma_waiting_deferred(pending, children, parent, other, n - 1);
        let now = pending + added.take(n);
        assert(now.drop_last() =~= pending + added.take(n - 1));
        assert(now.last() == added[n - 1]);
        assert(added[n - 1] == (children[children.len() - n], parent));
        if other == parent {
            assert(reversed_from(children, 0).take(n) =~= reversed_from(children, 0).take(
                n - 1,
            ).push(children[children.len() - n]));
            assert(waiting(now, other) =~= waiting(pending, other) + reversed_from(
                children,
                0,
            ).take(n));
        }
    }
}

proof fn lemma_copying_starts(root: ParsedNode)
    ensures
        copying(
            seq![crate::model::leaf(NodeDataView::Document)],
            seq![root],
            deferred(parsed_children(root), 0),
            root,
        ),
{
    let m = seq![crate::model::leaf(NodeDataView::Document)];
    let kids = parsed_children(root);
    let pending = deferred(kids, 0);
    let none = Seq::<(ParsedNode, NodeId)>::empty();
    lemma_waiting_deferred(none, kids, 0, 0, kids.len() as int);
    assert(none + pending.take(kids.len() as int) =~= pending);
    assert(waiting(none, 0) + reversed_from(kids, 0).take(kids.len() as int) =~= reversed_from(
        kids,
        0,
    ));
    assert forall|p: NodeId| p < m.len() implies #[trigger] waiting(pending, p) == reversed_from(
        parsed_children(seq![root][p as int]),
        m[p as int].children.len() as int,
    ) by {
        assert(p == 0);
    }
}

proof fn lemma_copying_step(
    m: DomView,
    origin: Seq<ParsedNode>,
    pending: Seq<(ParsedNode, NodeId)>,
    root: ParsedNode,
    data: NodeDataView,
)
    requires
        copying(m, origin, pending, root),
        pending.len() > 0,
        m.len() < usize::MAX,
        data == parsed_data(pending.last().0),
    ensures
        copying(
            crate::model::with_child(m, pending.last().1 as int, data),
            origin.push(pending.last().0),
            pending.drop_last() + deferred(parsed_children(pending.last().0), m.len() as usize),
            root,
        ),
{
    let handle = pending.last().0;
    let parent = pending.last().1;
    let n = m.len() as int;
    let fresh = n as usize;
    let below = pending.drop_last();
    let kids = parsed_children(origin[parent as int]);
    let done = m[parent as int].children.len() as int;
    let m2 = crate::model::with_child(m, parent as int, data);
    let origin2 = origin.push(handle);
    let pending2 = below + deferred(parsed_children(handle), fresh);

    assert(pending.last() == pending[pending.len() - 1]);
    assert(parent < n);
    // The node on top of the stack is the next child of its parent.
    assert(waiting(pending, parent) == waiting(below, parent).push(handle));
    assert(waiting(pending, parent) == reversed_from(kids, done));
    assert(reversed_from(kids, done).len() > 0);
    assert(done < kids.len());
    assert(reversed_from(kids, done).last() == kids[done]);
    assert(handle == kids[done]);
    assert(waiting(below, parent) =~= reversed_from(kids, done + 1)) by {
        assert(waiting(below, parent) =~= waiting(pending, parent).drop_last());
    }

    assert forall|j: int| 0 <= j < below.len() implies (#[trigger] below[j]).1 != fresh by {
        assert(below[j] == pending[j]);
    }
    lemma_waiting_none(below, fresh);

    assert forall|id: int| 0 < id < m2.len() implies (#[trigger] m2[id]).data == parsed_data(
        origin2[id],
    ) by {
        if id < n {
            assert(m2[id].data == m[id].data);
        }
    }
    assert forall|id: int| 0 < id < m2.len() implies #[trigger] attached(m2, id) by {
        if id < n {
            assert(attached(m, id));
            let (p, k) = choose|p: int, k: int|
                in_dom(m, p) && 0 <= k < m[p].children.len() && #[trigger] m[p].children[k] == id;
            assert(m2[p].children[k] == id);
        } else {
            assert(m2[parent as int].children[done] == id);
        }
    }
    assert forall|id: int| 0 <= id < m2.len() implies (#[trigger] m2[id]).children.len()
        <= parsed_children(origin2[id]).len() by {
        if id < n && id != parent {
            assert(m2[id].children == m[id].children);
        }
    }
    assert forall|id: int, k: int|
        0 <= id < m2.len() && 0 <= k < m2[id].children.len() implies 0
        <= #[trigger] m2[id].children[k] < m2.len() && origin2[m2[id].children[k] as int]
        == parsed_children(origin2[id])[k] by {
        if id == parent {
            if k < done {
                assert(m2[id].children[k] == m[id].children[k]);
            }
        } else {
            assert(m2[id].children[k] == m[id].children[k]);
        }
    }
    assert forall|p: NodeId| p < m2.len() implies #[trigger] waiting(pending2, p) == reversed_from(
        parsed_children(origin2[p as int]),
        m2[p as int].children.len() as int,
    ) by {
        let added = parsed_children(handle);
        lemma_waiting_deferred(below, added, fresh, p, added.len() as int);
        assert(deferred(added, fresh).take(added.len() as int) =~= deferred(added, fresh));
        if p == fresh {
            assert(reversed_from(added, 0).take(added.len() as int) =~= reversed_from(added, 0));
            assert(waiting(pending2, p) =~= reversed_from(added, 0));
        } else if p != parent {
            assert(waiting(pending, p) == waiting(below, p));
            assert(m2[p as int].children == m[p as int].children);
        }
    }
    assert forall|j: int| 0 <= j < pending2.len() implies (#[trigger] pending2[j]).1
        < m2.len() by {
        if j < below.len() {
            assert(pending2[j] == pending[j]);
        }
    }
}

proof fn lemma_copying_ends(m: DomView, origin: Seq<ParsedNode>, root: ParsedNode)
    requires
        copying(m, origin, Seq::empty(), root),
        m.len() <= usize::MAX,
    ensures
        copies_by(m, origin, root),
{
    assert forall|id: int| 0 <= id < m.len() implies (#[trigger] m[id]).children.len()
        == parsed_children(origin[id]).len() by {
        let p = id as usize;
        assert(p as int == id);
        assert(waiting(Seq::<(ParsedNode, NodeId)>::empty(), p) =~= Seq::<ParsedNode>::empty());
        assert(reversed_from(parsed_children(origin[id]), m[id].children.len() as int).len()
            == 0);
    }
}

/// Copies what lies below `root` into a new document. The new document has
/// its own root marker in the first slot; below it every node of the parsed
/// tree stands under the copy of its parent, in the order it had there.
pub fn import_document(root: &ParsedNode) -> (dom: Dom)
    ensures
        copies(dom@, *root),
{
    let mut dom = Dom::new();
    let mut pending: Vec<(ParsedNode, NodeId)> = Vec::new();
    let ghost mut origin: Seq<ParsedNode> = seq![*root];
    defer_children(&mut pending, root, 0);
    proof {
        lemma_copying_starts(*root);
        assert(pending@ =~= deferred(parsed_children(*root), 0));
    }
    while pending.len() > 0
        invariant
            dom@.len() <= usize::MAX,
            copying(dom@, origin, pending@, *root),
        decreases usize::MAX - dom@.len(),
    {
        let ghost before = dom@;
        let ghost stack = pending@;
        match pending.pop() {
            Some((handle, parent)) => {
                assert(stack.last() == (handle, parent));
                assert(pending@ =~= stack.drop_last());
                match dom.append(parent, import_data(&handle)) {
                    Some(id) => {
                        let grown: usize = dom.len();
                        assert(before.len() + 1 == grown);
                        defer_children(&mut pending, &handle, id);
                        proof {
                            lemma_copying_step(before, origin, stack, *root, parsed_data(handle));
                            origin = origin.push(handle);
                        }
                    },
                    None => {},
                }
            },
            None => {},
        }
    }
    proof {
        assert(pending@ =~= Seq::<(ParsedNode, NodeId)>::empty());
        lemma_copying_ends(dom@, origin, *root);
    }
    dom
}

/// The document for what a parser gave back: a copy of the parsed tree, or
/// [`ParseError::Read`] where reading ended in an error and there is no tree.
pub fn document_from(parsed: Result<ParsedNode, std::io::Error>) -> (r: Result<Dom, ParseError>)
    ensures
        match parsed {
            Ok(root) => r matches Ok(dom) && copies(dom@, root),
            Err(_) => r == Err::<Dom, ParseError>(ParseError::Read),
        },
{
    match parsed {
        Ok(root) => Ok(import_document(&root)),
        Err(_) => Err(ParseError::Read),
    }
}

/// Parses `input` as an HTML document: the result is a copy of the tree that
/// the parser builds from the bytes. The parser takes any bytes, so the only
/// failure is input of more than [`INPUT_LIMIT`] bytes, which is not handed
/// to the parser.
pub fn parse_from(input: &[u8]) -> (r: Result<Dom, ParseError>)
    ensures
        input@.len() <= INPUT_LIMIT ==> (r matches Ok(dom) && copies(dom@, parsed_root(input@))),
        input@.len() > INPUT_LIMIT ==> r == Err::<Dom, ParseError>(ParseError::TooLong),
{
    if input.len() > INPUT_LIMIT {
        return Err(ParseError::TooLong);
    }
    document_from(read_document(input))
}

} // verus!
