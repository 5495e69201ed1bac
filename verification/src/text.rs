//! Text aggregation: four policies that read the text below a node.
//!
//! The policies differ in how far they descend, in whether a text node counts
//! trimmed or raw, and in what they return for a node without text. They are
//! kept apart because their callers use them for different ends.

use crate::model::{
    children_of, in_dom, well_formed, Dom, DomView, NodeData, NodeDataView, NodeId,
};
use crate::strings::{
    byte_len, byte_length, lemma_byte_len_add, lemma_trimmed_shorter, trim, trimmed,
};
use vstd::prelude::*;
use vstd::string::StringExecFns;

verus! {

/// Trimmed length, in bytes, from which a text child counts as substantial.
pub const SUBSTANTIAL_LEN: usize = 20;

/// Text of the first `k` children of `id`, every text node trimmed, every
/// other node replaced by the text below it.
pub open spec fn deep_text_upto(m: DomView, id: int, k: int) -> Seq<char>
    decreases m.len() - id, k,
{
    if in_dom(m, id) && 0 < k <= m[id].children.len() {
        let before = deep_text_upto(m, id, k - 1);
        let c = m[id].children[k - 1] as int;
        if id < c < m.len() {
            match m[c].data {
                NodeDataView::Text { contents } => before + trimmed(contents),
                _ => before + deep_text_upto(m, c, m[c].children.len() as int),
            }
        } else {
            before
        }
    } else {
        Seq::empty()
    }
}

/// All text below `id`: the trimmed values of its text descendants, joined in
/// document order without a separator.
pub open spec fn deep_text(m: DomView, id: int) -> Seq<char> {
    deep_text_upto(m, id, children_of(m, id).len() as int)
}

/// `s`, or the fallback title where `s` is empty.
pub open spec fn or_untitled(s: Seq<char>) -> Seq<char> {
    if s.len() == 0 {
        "Untitled"@
    } else {
        s
    }
}

/// The text content of `id`: all text below it, or the fallback title where
/// there is none.
pub open spec fn text_content(m: DomView, id: int) -> Seq<char> {
    or_untitled(deep_text(m, id))
}

/// Text of the first `k` children of `id`: a text child gives its trimmed
/// value; an element child gives, by the same rule, the text of its own
/// children, and only where `deep` is set; any other child gives nothing.
pub open spec fn children_text_upto(m: DomView, id: int, deep: bool, k: int) -> Seq<char>
    decreases m.len() - id, k,
{
    if in_dom(m, id) && 0 < k <= m[id].children.len() {
        let before = children_text_upto(m, id, deep, k - 1);
        let c = m[id].children[k - 1] as int;
        if id < c < m.len() {
            match m[c].data {
                NodeDataView::Text { contents } => before + trimmed(contents),
                NodeDataView::Element { .. } => if deep {
                    before + children_text_upto(m, c, deep, m[c].children.len() as int)
                } else {
                    before
                },
                _ => before,
            }
        } else {
            before
        }
    } else {
        Seq::empty()
    }
}

/// Text of the children of `id`; see [`children_text_upto`].
pub open spec fn children_text(m: DomView, id: int, deep: bool) -> Seq<char> {
    children_text_upto(m, id, deep, children_of(m, id).len() as int)
}

/// Raw length in bytes of the text under the first `k` children of `id`: a
/// text child gives the length of its value as stored, an element child the
/// text length below it, any other child nothing.
pub open spec fn text_len_upto(m: DomView, id: int, k: int) -> nat
    decreases m.len() - id, k,
{
    if in_dom(m, id) && 0 < k <= m[id].children.len() {
        let before = text_len_upto(m, id, k - 1);
        let c = m[id].children[k - 1] as int;
        if id < c < m.len() {
            match m[c].data {
                NodeDataView::Text { contents } => before + byte_len(contents),
                NodeDataView::Element { .. } => before + text_len_upto(
                    m,
                    c,
                    m[c].children.len() as int,
                ),
                _ => before,
            }
        } else {
            before
        }
    } else {
        0
    }
}

/// Raw length in bytes of all text below `id`; see [`text_len_upto`].
pub open spec fn text_len(m: DomView, id: int) -> nat {
    text_len_upto(m, id, children_of(m, id).len() as int)
}

/// `n` as a `usize`, or the largest `usize` where `n` does not fit.
pub open spec fn clipped(n: nat) -> usize {
    if n <= usize::MAX {
        n as usize
    } else {
        usize::MAX
    }
}

/// Whether node `c` is a text node whose trimmed value is at least
/// [`SUBSTANTIAL_LEN`] bytes long.
pub open spec fn substantial(m: DomView, c: int) -> bool {
    in_dom(m, c) && m[c].data is Text && byte_len(trimmed(m[c].data->contents)) >= SUBSTANTIAL_LEN
}

/// Number of substantial text nodes among the children of `id`. Only the
/// children themselves are looked at, never what lies below them.
pub open spec fn substantial_count(m: DomView, id: int) -> nat {
    children_of(m, id).filter(|c: NodeId| substantial(m, c as int)).len()
}

/// Whether every text node that the deep walk reaches from the first `k`
/// children of `id` is empty once trimmed.
pub open spec fn blank_upto(m: DomView, id: int, k: int) -> bool
    decreases m.len() - id, k,
{
    if in_dom(m, id) && 0 < k <= m[id].children.len() {
        let c = m[id].children[k - 1] as int;
        blank_upto(m, id, k - 1) && if id < c < m.len() {
            match m[c].data {
                NodeDataView::Text { contents } => trimmed(contents).len() == 0,
                _ => blank_upto(m, c, m[c].children.len() as int),
            }
        } else {
            true
        }
    } else {
        true
    }
}

/// Whether all text below `id` is white space, or there is none.
pub open spec fn blank_below(m: DomView, id: int) -> bool {
    blank_upto(m, id, children_of(m, id).len() as int)
}

proof fn lemma_blank_upto_is_empty(m: DomView, id: int, k: int)
    requires
        blank_upto(m, id, k),
    ensures
        deep_text_upto(m, id, k).len() == 0,
    decreases m.len() - id, k,
{
    if in_dom(m, id) && 0 < k <= m[id].children.len() {
        let c = m[id].children[k - 1] as int;
        lemma_blank_upto_is_empty(m, id, k - 1);
        if id < c < m.len() && !(m[c].data is Text) {
            lemma_blank_upto_is_empty(m, c, m[c].children.len() as int);
        }
    }
}

/// The text content of a node below which all text is white space, or which
/// has no text below it at all, is exactly `"Untitled"`.
pub proof fn lemma_blank_text_is_untitled(m: DomView, id: int)
    requires
        blank_below(m, id),
    ensures
        text_content(m, id) == "Untitled"@,
{
    lemma_blank_upto_is_empty(m, id, children_of(m, id).len() as int);
}

proof fn lemma_children_text_within_len(m: DomView, id: int, deep: bool, k: int)
    ensures
        byte_len(children_text_upto(m, id, deep, k)) <= text_len_upto(m, id, k),
    decreases m.len() - id, k,
{
    if in_dom(m, id) && 0 < k <= m[id].children.len() {
        let before = children_text_upto(m, id, deep, k - 1);
        let c = m[id].children[k - 1] as int;
        lemma_children_text_within_len(m, id, deep, k - 1);
        if id < c < m.len() {
            match m[c].data {
                NodeDataView::Text { contents } => {
                    lemma_trimmed_shorter(contents);
                    lemma_byte_len_add(before, trimmed(contents));
                },
                NodeDataView::Element { .. } => {
                    if deep {
                        let below = children_text_upto(m, c, deep, m[c].children.len() as int);
                        lemma_children_text_within_len(m, c, deep, m[c].children.len() as int);
                        lemma_byte_len_add(before, below);
                    }
                },
                _ => {},
            }
        }
    } else {
        assert(byte_len(Seq::<char>::empty()) == 0) by {
            reveal_with_fuel(vstd::utf8::encode_utf8, 1);
        }
    }
}

/// The text length of a node is at least the length in bytes of the text
/// that its children give, deep or not: trimming only ever shortens. The
/// same holds of what [`get_text_len`] returns, for any such text that a
/// string can hold.
pub proof fn lemma_text_len_covers_children_text(m: DomView, id: int, deep: bool)
    ensures
        byte_len(children_text(m, id, deep)) <= text_len(m, id),
        byte_len(children_text(m, id, deep)) <= usize::MAX ==> byte_len(children_text(m, id, deep))
            <= clipped(text_len(m, id)),
{
    lemma_children_text_within_len(m, id, deep, children_of(m, id).len() as int);
}

/// A node none of whose children is a substantial text node has a count of
/// zero, whatever lies below those children.
pub proof fn lemma_only_text_children_count(m: DomView, id: int)
    requires
        forall|k: int|
            0 <= k < children_of(m, id).len() ==> !substantial(
                m,
                #[trigger] children_of(m, id)[k] as int,
            ),
    ensures
        substantial_count(m, id) == 0,
{
    let kids = children_of(m, id);
    let pred = |c: NodeId| substantial(m, c as int);
    let kept = kids.filter(pred);
    if kept.len() > 0 {
        kids.lemma_filter_pred(pred, 0);
        assert(kept.contains(kept[0]));
        kids.lemma_filter_contains_rev(pred, kept[0]);
        let k = choose|k: int| 0 <= k < kids.len() && kids[k] == kept[0];
        assert(!substantial(m, kids[k] as int));
    }
}

/// Whether a trimmed text is long enough to count as substantial.
pub fn is_substantial(text: &str) -> (r: bool)
    ensures
        r == (byte_len(text@) >= SUBSTANTIAL_LEN),
{
    byte_length(text) >= SUBSTANTIAL_LEN
}

/// Appends to `text` all text below `handle`, trimmed node by node.
fn collect_text(dom: &Dom, handle: NodeId, text: &mut String)
    ensures
        final(text)@ == old(text)@ + deep_text(dom@, handle as int),
    decreases dom@.len() - handle,
{
    let node = match dom.node(handle) {
        Some(node) => node,
        None => {
            assert(text@ =~= old(text)@ + deep_text(dom@, handle as int));
            return ;
        },
    };
    proof {
        use_type_invariant(dom);
    }
    let mut i: usize = 0;
    assert(text@ =~= old(text)@ + deep_text_upto(dom@, handle as int, 0));
    while i < node.children.len()
        invariant
            i <= node.children.len(),
            in_dom(dom@, handle as int),
            node@ == dom@[handle as int],
            well_formed(dom@),
            text@ == old(text)@ + deep_text_upto(dom@, handle as int, i as int),
        decreases node.children.len() - i,
    {
        let c = node.children[i];
        let ghost before = deep_text_upto(dom@, handle as int, i as int);
        assert(handle < dom@[handle as int].children[i as int] < dom@.len());
        match dom.node(c) {
            Some(child) => match &child.data {
                NodeData::Text { contents } => {
                    text.append(trim(contents.as_str()));
                    assert(text@ =~= old(text)@ + (before + trimmed(contents@)));
                },
                _ => {
                    collect_text(dom, c, text);
                    assert(text@ =~= old(text)@ + (before + deep_text(dom@, c as int)));
                },
            },
            None => {},
        }
        i += 1;
    }
}

/// Appends to `text` all text below `handle`: the value of every text
/// descendant, trimmed, in document order and without a separator. Where
/// `text` is still empty after that, it is set to `"Untitled"`.
pub fn get_text_content(dom: &Dom, handle: NodeId, text: &mut String)
    ensures
        final(text)@ == or_untitled(old(text)@ + deep_text(dom@, handle as int)),
        old(text)@.len() == 0 ==> final(text)@ == text_content(dom@, handle as int),
{
    assert(old(text)@.len() == 0 ==> old(text)@ + deep_text(dom@, handle as int) =~= deep_text(
        dom@,
        handle as int,
    ));
    collect_text(dom, handle, text);
    if text.as_str().is_empty() {
        text.append("Untitled");
        assert(text@ =~= "Untitled"@);
    }
}

/// Appends to `text` the text of the children of `handle`: the trimmed value
/// of every text child and, where `deep` is set, what the same rule gives for
/// every element child. An empty result stays empty.
pub fn get_children_text_content(dom: &Dom, handle: NodeId, text: &mut String, deep: bool)
    ensures
        final(text)@ == old(text)@ + children_text(dom@, handle as int, deep),
    decreases dom@.len() - handle,
{
    let node = match dom.node(handle) {
        Some(node) => node,
        None => {
            assert(text@ =~= old(text)@ + children_text(dom@, handle as int, deep));
            return ;
        },
    };
    proof {
        use_type_invariant(dom);
    }
    let mut i: usize = 0;
    assert(text@ =~= old(text)@ + children_text_upto(dom@, handle as int, deep, 0));
    while i < node.children.len()
        invariant
            i <= node.children.len(),
            in_dom(dom@, handle as int),
            node@ == dom@[handle as int],
            well_formed(dom@),
            text@ == old(text)@ + children_text_upto(dom@, handle as int, deep, i as int),
        decreases node.children.len() - i,
    {
        let c = node.children[i];
        let ghost before = children_text_upto(dom@, handle as int, deep, i as int);
        assert(handle < dom@[handle as int].children[i as int] < dom@.len());
        match dom.node(c) {
            Some(child) => match &child.data {
                NodeData::Text { contents } => {
                    text.append(trim(contents.as_str()));
                    assert(text@ =~= old(text)@ + (before + trimmed(contents@)));
                },
                NodeData::Element { .. } => {
                    if deep {
                        get_children_text_content(dom, c, text, deep);
                        assert(text@ =~= old(text)@ + (before + children_text(
                            dom@,
                            c as int,
                            deep,
                        )));
                    }
                },
                _ => {},
            },
            None => {},
        }
        i += 1;
    }
}

/// Raw length in bytes of all text below `handle`: the length of every text
/// descendant that is reached through elements alone, white space included.
/// A sum that does not fit a `usize` is given as `usize::MAX`.
pub fn get_text_len(dom: &Dom, handle: NodeId) -> (r: usize)
    ensures
        r == clipped(text_len(dom@, handle as int)),
    decreases dom@.len() - handle,
{
    let node = match dom.node(handle) {
        Some(node) => node,
        None => {
            return 0;
        },
    };
    proof {
        use_type_invariant(dom);
    }
    let mut len: usize = 0;
    let mut i: usize = 0;
    while i < node.children.len()
        invariant
            i <= node.children.len(),
            in_dom(dom@, handle as int),
            node@ == dom@[handle as int],
            well_formed(dom@),
            len == clipped(text_len_upto(dom@, handle as int, i as int)),
        decreases node.children.len() - i,
    {
        let c = node.children[i];
        assert(handle < dom@[handle as int].children[i as int] < dom@.len());
        match dom.node(c) {
            Some(child) => match &child.data {
                NodeData::Text { contents } => {
                    len = len.saturating_add(byte_length(contents.as_str()));
                },
                NodeData::Element { .. } => {
                    len = len.saturating_add(get_text_len(dom, c));
                },
                _ => {},
            },
            None => {},
        }
        i += 1;
    }
    len
}

/// Number of text children of `handle` whose trimmed value is at least
/// [`SUBSTANTIAL_LEN`] bytes long. Text inside child elements is not counted.
pub fn get_text_children_count(dom: &Dom, handle: NodeId) -> (r: usize)
    ensures
        r == substantial_count(dom@, handle as int),
{
    let node = match dom.node(handle) {
        Some(node) => node,
        None => {
            assert(children_of(dom@, handle as int).filter(
                |c: NodeId| substantial(dom@, c as int),
            ).len() == 0) by {
                reveal(Seq::filter);
            }
            return 0;
        },
    };
    let ghost kids = children_of(dom@, handle as int);
    let ghost pred = |c: NodeId| substantial(dom@, c as int);
    let mut count: usize = 0;
    let mut i: usize = 0;
    proof {
        reveal(Seq::filter);
        assert(kids.take(0).filter(pred).len() == 0);
    }
    while i < node.children.len()
        invariant
            i <= node.children.len(),
            kids == node.children@,
            kids == children_of(dom@, handle as int),
            pred == |c: NodeId| substantial(dom@, c as int),
            count == kids.take(i as int).filter(pred).len(),
            count <= i,
        decreases node.children.len() - i,
    {
        let c = node.children[i];
        proof {
            assert(kids.take(i + 1) =~= kids.take(i as int).push(c));
            kids.take(i as int).lemma_filter_len_push(pred, c);
        }
        match dom.node(c) {
            Some(child) => match &child.data {
                NodeData::Text { contents } => {
                    if is_substantial(trim(contents.as_str())) {
                        count += 1;
                    }
                },
                _ => {},
            },
            None => {},
        }
        i += 1;
    }
    assert(kids.take(node.children.len() as int) =~= kids);
    count
}

} // verus!
