//! The node model: a document held as an arena of typed nodes.
//!
//! A node is addressed by its index in the arena ([`NodeId`]). Every child
//! index is larger than the index of its parent, so every walk that follows
//! child links ends, and no node has two parents. Text is stored as it was
//! given; trimming is left to the aggregation policies that read it.

use vstd::prelude::*;

verus! {

/// Index of a node in its [`Dom`].
pub type NodeId = usize;

/// A tag or attribute name: a local name with an optional prefix and a
/// namespace. Lookups go by the local name alone.
#[derive(Clone, Debug)]
pub struct QualName {
    pub prefix: Option<String>,
    pub ns: String,
    pub local: String,
}

/// One attribute of an element.
#[derive(Clone, Debug)]
pub struct Attribute {
    pub name: QualName,
    pub value: String,
}

/// What a node is.
#[derive(Clone, Debug)]
pub enum NodeData {
    /// The root marker of a document.
    Document,
    /// An element with its name and its attributes, in insertion order.
    Element { name: QualName, attrs: Vec<Attribute> },
    /// A text node; the payload is raw.
    Text { contents: String },
    /// A comment, a doctype or a processing instruction: opaque to every
    /// query and text operation.
    Other,
}

/// A node of the arena: its data and the indices of its children in document
/// order.
#[derive(Debug)]
pub struct DomNode {
    pub data: NodeData,
    pub children: Vec<NodeId>,
}

/// A document: the arena that owns every node.
#[derive(Debug)]
pub struct Dom {
    nodes: Vec<DomNode>,
}

pub struct QualNameView {
    pub prefix: Option<Seq<char>>,
    pub ns: Seq<char>,
    pub local: Seq<char>,
}

pub struct AttributeView {
    pub name: QualNameView,
    pub value: Seq<char>,
}

pub enum NodeDataView {
    Document,
    Element { name: QualNameView, attrs: Seq<AttributeView> },
    Text { contents: Seq<char> },
    Other,
}

pub struct NodeView {
    pub data: NodeDataView,
    pub children: Seq<NodeId>,
}

/// The mathematical model of a [`Dom`]: one [`NodeView`] per arena slot.
pub type DomView = Seq<NodeView>;

impl View for QualName {
    type V = QualNameView;

    open spec fn view(&self) -> QualNameView {
        QualNameView {
            prefix: match self.prefix {
                Some(p) => Some(p@),
                None => None,
            },
            ns: self.ns@,
            local: self.local@,
        }
    }
}

impl View for Attribute {
    type V = AttributeView;

    open spec fn view(&self) -> AttributeView {
        AttributeView { name: self.name@, value: self.value@ }
    }
}

/// The views of a list of attributes, in the same order.
pub open spec fn attrs_view(attrs: Seq<Attribute>) -> Seq<AttributeView> {
    attrs.map_values(|a: Attribute| a@)
}

impl View for NodeData {
    type V = NodeDataView;

    open spec fn view(&self) -> NodeDataView {
        match *self {
            NodeData::Document => NodeDataView::Document,
            NodeData::Element { name, attrs } => NodeDataView::Element {
                name: name@,
                attrs: attrs_view(attrs@),
            },
            NodeData::Text { contents } => NodeDataView::Text { contents: contents@ },
            NodeData::Other => NodeDataView::Other,
        }
    }
}

impl View for DomNode {
    type V = NodeView;

    open spec fn view(&self) -> NodeView {
        NodeView { data: self.data@, children: self.children@ }
    }
}

/// The name that a synthesized element or attribute gets: no prefix, the
/// empty namespace, and the given local name.
pub open spec fn plain_name(local: Seq<char>) -> QualNameView {
    QualNameView { prefix: None, ns: Seq::empty(), local }
}

/// A node without children.
pub open spec fn leaf(data: NodeDataView) -> NodeView {
    NodeView { data, children: Seq::empty() }
}

/// Every child index lies in the arena and is larger than its parent's.
pub open spec fn links_descend(m: DomView) -> bool {
    forall|i: int, k: int|
        0 <= i < m.len() && 0 <= k < m[i].children.len() ==> i < #[trigger] m[i].children[k]
            < m.len()
}

/// No node is listed as a child twice, be it under one parent or under two.
pub open spec fn single_parent(m: DomView) -> bool {
    forall|i: int, k: int, j: int, l: int|
        0 <= i < m.len() && 0 <= k < m[i].children.len() && 0 <= j < m.len() && 0 <= l
            < m[j].children.len() && #[trigger] m[i].children[k] == #[trigger] m[j].children[l]
            ==> i == j && k == l
}

/// The arena holds trees: child links lead further down the arena, and every
/// node has at most one parent.
pub open spec fn well_formed(m: DomView) -> bool {
    links_descend(m) && single_parent(m)
}

/// Whether `id` addresses a node of `m`.
pub open spec fn in_dom(m: DomView, id: int) -> bool {
    0 <= id < m.len()
}

/// The children of node `id`; none for an index outside the arena.
pub open spec fn children_of(m: DomView, id: int) -> Seq<NodeId> {
    if in_dom(m, id) {
        m[id].children
    } else {
        Seq::empty()
    }
}

/// `m` with a new childless node appended as the last child of `parent`.
pub open spec fn with_child(m: DomView, parent: int, data: NodeDataView) -> DomView {
    m.push(leaf(data)).update(
        parent,
        NodeView { data: m[parent].data, children: m[parent].children.push(m.len() as usize) },
    )
}

/// `m` with the data of node `id` replaced; the children stay.
pub open spec fn with_data(m: DomView, id: int, data: NodeDataView) -> DomView {
    m.update(id, NodeView { data, children: m[id].children })
}

/// A model that keeps every child list of a well-formed model, and adds at
/// most nodes without children, is well formed.
proof fn lemma_same_links(o: DomView, m: DomView)
    requires
        well_formed(o),
        o.len() <= m.len(),
        forall|i: int| 0 <= i < o.len() ==> #[trigger] m[i].children == o[i].children,
        forall|i: int| o.len() <= i < m.len() ==> #[trigger] m[i].children.len() == 0,
    ensures
        well_formed(m),
{
    assert forall|i: int, k: int| 0 <= i < m.len() && 0 <= k < m[i].children.len() implies i
        < #[trigger] m[i].children[k] < m.len() by {
        assert(m[i].children[k] == o[i].children[k]);
    }
    assert forall|i: int, k: int, j: int, l: int|
        0 <= i < m.len() && 0 <= k < m[i].children.len() && 0 <= j < m.len() && 0 <= l
            < m[j].children.len() && #[trigger] m[i].children[k]
            == #[trigger] m[j].children[l] implies i == j && k == l by {
        assert(m[i].children[k] == o[i].children[k]);
        assert(m[j].children[l] == o[j].children[l]);
    }
}

/// Appending a new node under a node of a well-formed model keeps the model
/// well formed.
proof fn lemma_with_child_well_formed(o: DomView, parent: int, data: NodeDataView)
    requires
        well_formed(o),
        in_dom(o, parent),
        o.len() < usize::MAX,
    ensures
        well_formed(with_child(o, parent, data)),
{
    let m = with_child(o, parent, data);
    assert forall|i: int, k: int| 0 <= i < m.len() && 0 <= k < m[i].children.len() implies i
        < #[trigger] m[i].children[k] < m.len() by {
        if i == parent {
            if k < o[i].children.len() {
                assert(m[i].children[k] == o[i].children[k]);
            }
        } else {
            assert(m[i].children[k] == o[i].children[k]);
        }
    }
    assert forall|i: int, k: int, j: int, l: int|
        0 <= i < m.len() && 0 <= k < m[i].children.len() && 0 <= j < m.len() && 0 <= l
            < m[j].children.len() && #[trigger] m[i].children[k]
            == #[trigger] m[j].children[l] implies i == j && k == l by {
        let fresh_i = i == parent && k == o[parent].children.len();
        let fresh_j = j == parent && l == o[parent].children.len();
        if !fresh_i {
            assert(m[i].children[k] == o[i].children[k]);
        }
        if !fresh_j {
            assert(m[j].children[l] == o[j].children[l]);
        }
    }
}

impl View for Dom {
    type V = DomView;

    closed spec fn view(&self) -> DomView {
        self.nodes@.map_values(|n: DomNode| n@)
    }
}

impl QualName {
    /// A name without prefix and namespace.
    pub fn plain(local: &str) -> (r: QualName)
        ensures
            r@ == plain_name(local@),
    {
        QualName { prefix: None, ns: String::new(), local: local.to_owned() }
    }
}

impl Default for Dom {
    fn default() -> (r: Dom)
        ensures
            r@ == seq![leaf(NodeDataView::Document)],
    {
        Dom::new()
    }
}

impl Dom {
    /// The arena holds trees.
    #[verifier::type_invariant]
    pub open spec fn inv(&self) -> bool {
        well_formed(self@)
    }

    /// A document that holds its root marker and nothing else.
    pub fn new() -> (r: Dom)
        ensures
            r@ == seq![leaf(NodeDataView::Document)],
    {
        let mut nodes: Vec<DomNode> = Vec::new();
        nodes.push(DomNode { data: NodeData::Document, children: Vec::new() });
        let r = Dom { nodes };
        assert(r@ =~= seq![leaf(NodeDataView::Document)]);
        r
    }

    /// Number of nodes in the arena.
    pub fn len(&self) -> (r: usize)
        ensures
            r == self@.len(),
    {
        self.nodes.len()
    }

    /// The slot of the root marker: the first of the arena, which is where
    /// [`Dom::new`] puts it.
    pub fn document(&self) -> (r: NodeId)
        ensures
            r == 0,
    {
        0
    }

    /// The node behind `id`, if the arena has one.
    pub fn node(&self, id: NodeId) -> (r: Option<&DomNode>)
        ensures
            match r {
                Some(n) => in_dom(self@, id as int) && n@ == self@[id as int],
                None => !in_dom(self@, id as int),
            },
    {
        if id < self.nodes.len() {
            Some(&self.nodes[id])
        } else {
            None
        }
    }

    /// Adds a childless node that no other node refers to, and returns its
    /// index.
    pub fn create(&mut self, data: NodeData) -> (r: NodeId)
        ensures
            r == old(self)@.len(),
            final(self)@ == old(self)@.push(leaf(data@)),
    {
        proof {
            use_type_invariant(&*self);
        }
        let mut nodes: Vec<DomNode> = Vec::new();
        core::mem::swap(&mut self.nodes, &mut nodes);
        let id = nodes.len();
        nodes.push(DomNode { data, children: Vec::new() });
        proof {
            let m = nodes@.map_values(|n: DomNode| n@);
            let o = old(self)@;
            assert(m =~= o.push(leaf(data@)));
            assert forall|i: int| 0 <= i < o.len() implies #[trigger] m[i].children
                == o[i].children by {}
            lemma_same_links(o, m);
        }
        core::mem::swap(&mut self.nodes, &mut nodes);
        id
    }

    /// Adds a childless node as the last child of `parent` and returns its
    /// index. Without such a parent the document stays as it is.
    pub fn append(&mut self, parent: NodeId, data: NodeData) -> (r: Option<NodeId>)
        ensures
            in_dom(old(self)@, parent as int) ==> r == Some(old(self)@.len() as usize) && final(self)@
                == with_child(old(self)@, parent as int, data@),
            !in_dom(old(self)@, parent as int) ==> r is None && final(self)@ == old(self)@,
    {
        proof {
            use_type_invariant(&*self);
        }
        if parent >= self.nodes.len() {
            return None;
        }
        let mut nodes: Vec<DomNode> = Vec::new();
        core::mem::swap(&mut self.nodes, &mut nodes);
        let id = nodes.len();
        nodes.push(DomNode { data, children: Vec::new() });
        let grown: usize = nodes.len();
        nodes[parent].children.push(id);
        proof {
            let m = nodes@.map_values(|n: DomNode| n@);
            let o = old(self)@;
            assert(m =~= with_child(o, parent as int, data@));
            assert(o.len() + 1 == grown);
            lemma_with_child_well_formed(o, parent as int, data@);
        }
        core::mem::swap(&mut self.nodes, &mut nodes);
        Some(id)
    }

    /// Overwrites the value of attribute `index` of element `id`; the
    /// attribute keeps its place and its name.
    pub(crate) fn put_attr_value(&mut self, id: NodeId, index: usize, value: String)
        requires
            in_dom(old(self)@, id as int),
            old(self)@[id as int].data is Element,
            index < old(self)@[id as int].data->attrs.len(),
        ensures
            final(self)@ == with_data(
                old(self)@,
                id as int,
                NodeDataView::Element {
                    name: old(self)@[id as int].data->name,
                    attrs: old(self)@[id as int].data->attrs.update(
                        index as int,
                        AttributeView {
                            name: old(self)@[id as int].data->attrs[index as int].name,
                            value: value@,
                        },
                    ),
                },
            ),
    {
        proof {
            use_type_invariant(&*self);
        }
        let mut nodes: Vec<DomNode> = Vec::new();
        core::mem::swap(&mut self.nodes, &mut nodes);
        match &mut nodes[id].data {
            NodeData::Element { attrs, .. } => {
                attrs[index].value = value;
            },
            _ => {},
        }
        proof {
            let m = nodes@.map_values(|n: DomNode| n@);
            let o = old(self)@;
            assert(m[id as int].data->attrs =~= o[id as int].data->attrs.update(
                index as int,
                AttributeView {
                    name: o[id as int].data->attrs[index as int].name,
                    value: value@,
                },
            ));
            assert(m =~= with_data(
                o,
                id as int,
                NodeDataView::Element {
                    name: o[id as int].data->name,
                    attrs: o[id as int].data->attrs.update(
                        index as int,
                        AttributeView {
                            name: o[id as int].data->attrs[index as int].name,
                            value: value@,
                        },
                    ),
                },
            ));
            assert forall|i: int| 0 <= i < o.len() implies #[trigger] m[i].children
                == o[i].children by {}
            lemma_same_links(o, m);
        }
        core::mem::swap(&mut self.nodes, &mut nodes);
    }

    /// Appends `attr` to the attributes of element `id`.
    pub(crate) fn push_attr(&mut self, id: NodeId, attr: Attribute)
        requires
            in_dom(old(self)@, id as int),
            old(self)@[id as int].data is Element,
        ensures
            final(self)@ == with_data(
                old(self)@,
                id as int,
                NodeDataView::Element {
                    name: old(self)@[id as int].data->name,
                    attrs: old(self)@[id as int].data->attrs.push(attr@),
                },
            ),
    {
        proof {
            use_type_invariant(&*self);
        }
        let mut nodes: Vec<DomNode> = Vec::new();
        core::mem::swap(&mut self.nodes, &mut nodes);
        match &mut nodes[id].data {
            NodeData::Element { attrs, .. } => {
                attrs.push(attr);
            },
            _ => {},
        }
        proof {
            let m = nodes@.map_values(|n: DomNode| n@);
            let o = old(self)@;
            assert(m[id as int].data->attrs =~= o[id as int].data->attrs.push(attr@));
            assert(m =~= with_data(
                o,
                id as int,
                NodeDataView::Element {
                    name: o[id as int].data->name,
                    attrs: o[id as int].data->attrs.push(attr@),
                },
            ));
            assert forall|i: int| 0 <= i < o.len() implies #[trigger] m[i].children
                == o[i].children by {}
            lemma_same_links(o, m);
        }
        core::mem::swap(&mut self.nodes, &mut nodes);
    }
}

} // verus!
