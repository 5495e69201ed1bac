//! String primitives shared by the traversal code: trimming, lower-casing,
//! prefix tests and the UTF-8 length of a character sequence.

use vstd::prelude::*;
use vstd::utf8::encode_utf8;

verus! {

/// Whether `c` carries the Unicode `White_Space` property, by which
/// `char::is_whitespace` and `str::trim` go: the controls from tab to carriage
/// return, the space, next line, the no-break spaces, the Ogham space mark,
/// the spaces of fixed width, the line and paragraph separators, the medium
/// mathematical space and the ideographic space.
pub open spec fn white_space(c: char) -> bool {
    let code = c as u32;
    ||| 0x0009 <= code <= 0x000D
    ||| code == 0x0020
    ||| code == 0x0085
    ||| code == 0x00A0
    ||| code == 0x1680
    ||| 0x2000 <= code <= 0x200A
    ||| code == 0x2028
    ||| code == 0x2029
    ||| code == 0x202F
    ||| code == 0x205F
    ||| code == 0x3000
}

/// The lower-case form of `s`, as `str::to_lowercase` computes it.
pub uninterp spec fn lowercase(s: Seq<char>) -> Seq<char>;

/// Number of white-space characters at the front of `s`.
pub open spec fn leading_white(s: Seq<char>) -> nat
    decreases s.len(),
{
    if s.len() > 0 && white_space(s.first()) {
        1 + leading_white(s.drop_first())
    } else {
        0
    }
}

/// Number of white-space characters at the back of `s`.
pub open spec fn trailing_white(s: Seq<char>) -> nat
    decreases s.len(),
{
    if s.len() > 0 && white_space(s.last()) {
        1 + trailing_white(s.drop_last())
    } else {
        0
    }
}

/// `s` without its leading and trailing white space.
pub open spec fn trimmed(s: Seq<char>) -> Seq<char> {
    let rest = s.skip(leading_white(s) as int);
    rest.take(rest.len() - trailing_white(rest))
}

/// The characters of an optional string.
pub open spec fn text_of(o: Option<String>) -> Option<Seq<char>> {
    match o {
        Some(s) => Some(s@),
        None => None,
    }
}

/// Length in bytes of the UTF-8 encoding of `s`, which is what `str::len`
/// measures.
pub open spec fn byte_len(s: Seq<char>) -> nat {
    encode_utf8(s).len()
}

/// `str::trim`: the slice of `s` between its leading and its trailing white
/// space, where white space is what `white_space` says.
#[verifier::external_body]
pub(crate) fn trim(s: &str) -> (r: &str)
    ensures
        r@ == trimmed(s@),
{
    s.trim()
}

/// `str::to_lowercase`: the result is the value that `lowercase` names.
#[verifier::external_body]
pub(crate) fn to_lowercase(s: &str) -> (r: String)
    ensures
        r@ == lowercase(s@),
{
    s.to_lowercase()
}

/// `str::starts_with` for a string pattern: whether `prefix` is an initial
/// segment of `s`.
#[verifier::external_body]
pub(crate) fn starts_with(s: &str, prefix: &str) -> (r: bool)
    ensures
        r == prefix@.is_prefix_of(s@),
{
    s.starts_with(prefix)
}

/// `str` equality: two slices are equal when they hold the same characters.
pub assume_specification[ <str as PartialEq>::eq ](a: &str, b: &str) -> (r: bool)
    ensures
        r == (a@ == b@),
;

/// Whether two slices hold the same characters.
pub fn same(a: &str, b: &str) -> (r: bool)
    ensures
        r == (a@ == b@),
{
    *a == *b
}

/// Length of `s` in bytes.
pub fn byte_length(s: &str) -> (r: usize)
    ensures
        r == byte_len(s@),
{
    s.as_bytes().len()
}

/// The encoding of a concatenation is as long as the encodings of its parts
/// together.
pub proof fn lemma_byte_len_add(a: Seq<char>, b: Seq<char>)
    ensures
        byte_len(a + b) == byte_len(a) + byte_len(b),
    decreases a.len(),
{
    if a.len() == 0 {
        assert(a + b =~= b);
    } else {
        lemma_byte_len_add(a.drop_first(), b);
        assert((a + b).drop_first() =~= a.drop_first() + b);
    }
}

proof fn lemma_after_leading_white(s: Seq<char>)
    ensures
        leading_white(s) <= s.len(),
        leading_white(s) < s.len() ==> !white_space(s[leading_white(s) as int]),
    decreases s.len(),
{
    if s.len() > 0 && white_space(s.first()) {
        let rest = s.drop_first();
        lemma_after_leading_white(rest);
        if leading_white(rest) < rest.len() {
            assert(s[leading_white(s) as int] == rest[leading_white(rest) as int]);
        }
    }
}

proof fn lemma_before_trailing_white(s: Seq<char>)
    ensures
        trailing_white(s) <= s.len(),
        trailing_white(s) < s.len() ==> !white_space(s[s.len() - 1 - trailing_white(s)]),
    decreases s.len(),
{
    if s.len() > 0 && white_space(s.last()) {
        let rest = s.drop_last();
        lemma_before_trailing_white(rest);
        if trailing_white(rest) < rest.len() {
            assert(s[s.len() - 1 - trailing_white(s)] == rest[rest.len() - 1 - trailing_white(
                rest,
            )]);
        }
    }
}

/// A trimmed string that is not empty neither starts nor ends with white
/// space.
pub proof fn lemma_trimmed_ends(s: Seq<char>)
    ensures
        trimmed(s).len() > 0 ==> !white_space(trimmed(s).first()) && !white_space(
            trimmed(s).last(),
        ),
{
    lemma_after_leading_white(s);
    let rest = s.skip(leading_white(s) as int);
    lemma_before_trailing_white(rest);
    if trimmed(s).len() > 0 {
        assert(trimmed(s).first() == s[leading_white(s) as int]);
        assert(trimmed(s).last() == rest[rest.len() - 1 - trailing_white(rest)]);
    }
}

/// Trimming never lengthens a string, in characters or in bytes.
pub proof fn lemma_trimmed_shorter(s: Seq<char>)
    ensures
        trimmed(s).len() <= s.len(),
        byte_len(trimmed(s)) <= byte_len(s),
{
    lemma_after_leading_white(s);
    let lead = leading_white(s) as int;
    let rest = s.skip(lead);
    lemma_before_trailing_white(rest);
    let keep = rest.len() - trailing_white(rest);
    assert(s =~= s.take(lead) + rest);
    assert(rest =~= rest.take(keep) + rest.skip(keep));
    lemma_byte_len_add(s.take(lead), rest);
    lemma_byte_len_add(rest.take(keep), rest.skip(keep));
}

} // verus!
