//! Rewriting the source of an image against the address of its page.

use crate::attr::{attr_of, attr_set, get_attr_by_name, set_attr};
use crate::model::{Dom, DomView, NodeId};
use crate::strings::{starts_with, text_of};
use url::Url;
use vstd::prelude::*;

verus! {

/// `url::Url`, an absolute address. It is handed to `Url::join` and not
/// looked into.
#[verifier::external_type_specification]
#[verifier::external_body]
pub struct ExUrl(url::Url);

/// What `Url::join` makes of `reference` against `base`, in serialized form;
/// `None` where the reference cannot be resolved.
pub uninterp spec fn joined(base: Url, reference: Seq<char>) -> Option<Seq<char>>;

/// `Url::join`, with the resolved address given as `Url::as_str` serializes
/// it. The result is the value that `joined` names.
#[verifier::external_body]
fn join(base: &Url, reference: &str) -> (r: Option<String>)
    ensures
        text_of(r) == joined(*base, reference@),
{
    base.join(reference).ok().map(|resolved| resolved.as_str().to_owned())
}

/// Whether a source is rewritten: it starts with `https://`, and with
/// neither `//` nor `http://`. A source without a scheme, such as a bare
/// path, is therefore left as it is.
pub open spec fn rewritable(src: Seq<char>) -> bool {
    !"//"@.is_prefix_of(src) && !"http://"@.is_prefix_of(src) && "https://"@.is_prefix_of(src)
}

/// The document after the source of node `id` has been handled: where the
/// node has a rewritable `src` and `resolved` holds an address, the address
/// is written to `src`; in every other case nothing changes.
pub open spec fn img_path_fixed(m: DomView, id: int, resolved: Option<Seq<char>>) -> DomView {
    match attr_of(m, id, "src"@) {
        Some(src) => if rewritable(src) {
            match resolved {
                Some(address) => attr_set(m, id, "src"@, address),
                None => m,
            }
        } else {
            m
        },
        None => m,
    }
}

/// Whether a source is rewritten; see [`rewritable`].
pub fn is_rewritable(src: &str) -> (r: bool)
    ensures
        r == rewritable(src@),
{
    !starts_with(src, "//") && !starts_with(src, "http://") && starts_with(src, "https://")
}

/// Writes a resolved address to the `src` of `handle`; without an address
/// the document stays as it is.
pub fn put_img_path(dom: &mut Dom, handle: NodeId, resolved: Option<String>)
    ensures
        final(dom)@ == match text_of(resolved) {
            Some(address) => attr_set(old(dom)@, handle as int, "src"@, address),
            None => old(dom)@,
        },
{
    match resolved {
        Some(address) => set_attr(dom, handle, "src", address.as_str()),
        None => {},
    }
}

/// Makes the `src` of `handle` absolute. Returns `false`, and changes
/// nothing, where the node has no `src`. Otherwise returns `true`; a source
/// that is rewritable is resolved against `url` and, where that succeeds,
/// overwritten with the result.
pub fn fix_img_path(dom: &mut Dom, handle: NodeId, url: &Url) -> (r: bool)
    ensures
        r == attr_of(old(dom)@, handle as int, "src"@) is Some,
        final(dom)@ == match attr_of(old(dom)@, handle as int, "src"@) {
            Some(src) => img_path_fixed(old(dom)@, handle as int, joined(*url, src)),
            None => old(dom)@,
        },
{
    let src = match get_attr_by_name(dom, handle, "src") {
        Some(src) => src,
        None => {
            return false;
        },
    };
    if is_rewritable(src.as_str()) {
        put_img_path(dom, handle, join(url, src.as_str()));
    }
    true
}

} // verus!
