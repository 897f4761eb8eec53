//! Helpers shared by the per-language extractors: quote stripping, node text
//! and signatures.
use vstd::prelude::*;
use vstd::string::*;
use vstd::slice::slice_subrange;
use vstd::utf8::*;

use crate::syntax::{decode, SyntaxNode};
use crate::text;
use crate::text::{cut_before, find, chars_of, fit, trim};

verus! {

/// The most bytes that a signature keeps.
pub const MAX_SIGNATURE_LEN: usize = 200;

/// The children of `node`, in source order.
pub fn children(node: &SyntaxNode) -> (r: &Vec<SyntaxNode>)
    ensures
        *r == node.children,
{
    &node.children
}

/// `s` is at least two characters long and stands between two quotes `q`.
pub open spec fn quoted_by(s: Seq<char>, q: char) -> bool {
    s.len() >= 2 && s[0] == q && s.last() == q
}

/// `s` trimmed and, where it is then a quoted text, without its quotes.
pub open spec fn unquoted(s: Seq<char>) -> Seq<char> {
    let t = text::trimmed(s);
    if quoted_by(t, '"') || quoted_by(t, '\'') {
        t.subrange(1, t.len() - 1)
    } else {
        t
    }
}

/// Trims `s` and strips one pair of matching quotes.
pub fn unquote(s: &str) -> (r: String)
    ensures
        r@ == unquoted(s@),
{
    let t = trim(s);
    let n: usize = t.unicode_len();
    if n >= 2 {
        let first = t.get_char(0);
        let last = t.get_char(n - 1);
        if (first == '"' && last == '"') || (first == '\'' && last == '\'') {
            return t.substring_char(1, n - 1).to_owned();
        }
    }
    t.to_owned()
}

/// Unquoting gives back any text that was put between two quotes of one kind.
pub proof fn law_unquote_undoes_quoting(s: Seq<char>, q: char)
    requires
        q == '"' || q == '\'',
    ensures
        unquoted(seq![q] + s + seq![q]) == s,
{
    let t = seq![q] + s + seq![q];
    assert(!text::white_space(q));
    assert(text::trimmed_start(t) == t);
    assert(t.last() == q);
    assert(text::trimmed_end(t) == t);
    assert(t.subrange(1, t.len() - 1) == s);
}

/// The text of a signature: `s` cut to the longest prefix within the limit.
pub open spec fn signature_of(s: Seq<char>) -> Option<Seq<char>> {
    if s.len() == 0 {
        None
    } else {
        Some(text::fitting(s, MAX_SIGNATURE_LEN as int))
    }
}

/// The trimmed first line of `s`.
pub open spec fn first_line(s: Seq<char>) -> Seq<char> {
    text::trimmed(text::before(s, '\n'))
}

/// What stands before the first opening brace of `s`, trimmed; the trimmed
/// first line where there is no brace.
pub open spec fn before_brace_or_line(s: Seq<char>) -> Seq<char> {
    if text::position(s, '{') < s.len() {
        text::trimmed(text::before(s, '{'))
    } else {
        first_line(s)
    }
}

/// Whether an optional string is the optional text `t`.
pub open spec fn is_text(r: Option<String>, t: Option<Seq<char>>) -> bool {
    text::optional_text(r) == t
}

/// Cuts `s` to the signature limit, at a character boundary.
pub fn truncate_at_char_boundary<'a>(s: &'a str) -> (r: &'a str)
    ensures
        r@ == text::fitting(s@, MAX_SIGNATURE_LEN as int),
{
    fit(s, MAX_SIGNATURE_LEN)
}

/// The first line of `text` as a signature: `None` where it is blank.
pub fn first_line_signature_str(text: &str) -> (r: Option<String>)
    ensures
        is_text(r, signature_of(first_line(text@))),
{
    let line = trim(cut_before(text, '\n'));
    if line.is_empty() {
        return None;
    }
    Some(truncate_at_char_boundary(line).to_owned())
}

/// The text before the first brace, or else the first line, as a signature:
/// `None` where that is blank.
pub fn brace_or_first_line_signature_str(text: &str) -> (r: Option<String>)
    ensures
        is_text(r, signature_of(before_brace_or_line(text@))),
{
    let v = chars_of(text);
    let sig = if find(&v, '{') < v.len() {
        trim(cut_before(text, '{'))
    } else {
        trim(cut_before(text, '\n'))
    };
    if sig.is_empty() {
        return None;
    }
    Some(truncate_at_char_boundary(sig).to_owned())
}

/// A signature is never empty and never longer than the limit.
pub proof fn law_signature_is_short_and_not_empty(s: Seq<char>)
    ensures
        signature_of(s) matches Some(sig) ==> 0 < sig.len() && text::byte_len(sig)
            <= MAX_SIGNATURE_LEN && sig.is_prefix_of(s),
{
    if s.len() > 0 {
        text::lemma_fitting(s, MAX_SIGNATURE_LEN as int);
        if text::fitting(s, MAX_SIGNATURE_LEN as int).len() == 0 {
            assert(s.take(1) == Seq::<char>::empty().push(s[0]));
            text::lemma_byte_len_push(Seq::<char>::empty(), s[0]);
            assert(text::byte_len(Seq::<char>::empty()) == 0);
        }
    }
}

/// The bytes of `source` that `node` spans, cut off at the end of `source`.
pub open spec fn node_bytes(node: SyntaxNode, source: Seq<u8>) -> Seq<u8> {
    source.subrange(
        node.start_byte as int,
        if node.end_byte <= source.len() {
            node.end_byte as int
        } else {
            source.len() as int
        },
    )
}

/// The text of `node`: `None` where its bytes are no well-formed UTF-8.
pub open spec fn decoded(node: SyntaxNode, source: Seq<u8>) -> Option<Seq<char>> {
    if valid_utf8(node_bytes(node, source)) {
        Some(decode_utf8(node_bytes(node, source)))
    } else {
        None
    }
}

/// The text of `node`, or the empty text.
pub open spec fn text_or_empty(node: SyntaxNode, source: Seq<u8>) -> Seq<char> {
    match decoded(node, source) {
        Some(t) => t,
        None => Seq::empty(),
    }
}

/// Reads the text of `node`.
pub fn node_text_opt<'a>(node: &SyntaxNode, source: &'a [u8]) -> (r: Option<&'a str>)
    requires
        node.bytes_fit(source@.len() as int),
    ensures
        match r {
            Some(s) => decoded(*node, source@) == Some(s@),
            None => decoded(*node, source@) is None,
        },
{
    let start: usize = node.start_byte;
    let end: usize = if node.end_byte <= source.len() {
        node.end_byte
    } else {
        source.len()
    };
    decode(slice_subrange(source, start, end))
}

/// Reads the text of `node`, with the empty text in place of bytes that are no
/// well-formed UTF-8.
pub fn node_text(node: &SyntaxNode, source: &[u8]) -> (r: String)
    requires
        node.bytes_fit(source@.len() as int),
    ensures
        r@ == text_or_empty(*node, source@),
{
    match node_text_opt(node, source) {
        Some(s) => s.to_owned(),
        None => String::new(),
    }
}

/// The first-line signature of a node.
pub open spec fn node_first_line_signature(node: SyntaxNode, source: Seq<u8>) -> Option<Seq<char>> {
    match decoded(node, source) {
        Some(t) => signature_of(first_line(t)),
        None => None,
    }
}

/// The brace-or-first-line signature of a node.
pub open spec fn node_brace_signature(node: SyntaxNode, source: Seq<u8>) -> Option<Seq<char>> {
    match decoded(node, source) {
        Some(t) => signature_of(before_brace_or_line(t)),
        None => None,
    }
}

/// The first line of a node as its signature.
pub fn first_line_signature(node: &SyntaxNode, source: &[u8]) -> (r: Option<String>)
    requires
        node.bytes_fit(source@.len() as int),
    ensures
        is_text(r, node_first_line_signature(*node, source@)),
{
    match node_text_opt(node, source) {
        Some(text) => first_line_signature_str(text),
        None => None,
    }
}

/// What stands before the first brace of a node, or else its first line, as
/// its signature.
pub fn brace_or_first_line_signature(node: &SyntaxNode, source: &[u8]) -> (r: Option<String>)
    requires
        node.bytes_fit(source@.len() as int),
    ensures
        is_text(r, node_brace_signature(*node, source@)),
{
    match node_text_opt(node, source) {
        Some(text) => brace_or_first_line_signature_str(text),
        None => None,
    }
}

/// The first line of a text is what stands before its first line break, or all of it,
/// without the white space around it.
pub proof fn law_first_line(line: Seq<char>, rest: Seq<char>)
    requires
        !line.contains('\n'),
    ensures
        first_line(line + seq!['\n'] + rest) == text::trimmed(line),
        first_line(line) == text::trimmed(line),
{
    let whole = line + seq!['\n'] + rest;
    let n = line.len() as int;
    assert forall|k: int| 0 <= k < n implies #[trigger] line[k] != '\n' by {
        assert(line.contains(line[k]));
    }
    assert forall|k: int| 0 <= k < n implies #[trigger] whole[k] != '\n' by {
        assert(whole[k] == line[k]);
    }
    text::lemma_position(whole, '\n', n);
    text::lemma_position(line, '\n', n);
    assert(whole.take(n) == line);
    assert(line.take(n) == line);
}

/// The signature of a block is what stands before its first brace, even over several
/// lines; without a brace it is the first line.
pub proof fn law_before_brace(front: Seq<char>, rest: Seq<char>)
    requires
        !front.contains('{'),
    ensures
        before_brace_or_line(front + seq!['{'] + rest) == text::trimmed(front),
        before_brace_or_line(front) == first_line(front),
{
    let whole = front + seq!['{'] + rest;
    let n = front.len() as int;
    assert forall|k: int| 0 <= k < n implies #[trigger] front[k] != '{' by {
        assert(front.contains(front[k]));
    }
    assert forall|k: int| 0 <= k < n implies #[trigger] whole[k] != '{' by {
        assert(whole[k] == front[k]);
    }
    text::lemma_position(whole, '{', n);
    text::lemma_position(front, '{', n);
    assert(whole.take(n) == front);
}

/// A short text is its own signature; of a longer one as many characters are kept as
/// fit in two hundred bytes.
pub proof fn law_signature_keeps_what_fits(s: Seq<char>)
    ensures
        s.len() == 0 <==> signature_of(s) is None,
        s.len() > 0 && text::byte_len(s) <= 200 ==> signature_of(s) == Some(s),
        s.len() > 0 && text::byte_len(s) > 200 ==> ({
            let kept = signature_of(s)->0;
            kept.is_prefix_of(s) && kept.len() < s.len() && text::byte_len(kept) <= 200
                && text::byte_len(s.take(kept.len() as int + 1)) > 200
        }),
{
    let kept = text::fitting(s, MAX_SIGNATURE_LEN as int);
    text::lemma_fitting(s, MAX_SIGNATURE_LEN as int);
    assert(kept == s.subrange(0, kept.len() as int));
    if kept.len() == s.len() {
        assert(kept == s);
    }
}

/// A text that is not between two equal quotes is only trimmed.
pub proof fn law_other_texts_are_trimmed(s: Seq<char>)
    requires
        ({
            let t = text::trimmed(s);
            t.len() < 2 || t[0] != t.last() || t[0] != '"' && t[0] != '\''
        }),
    ensures
        unquoted(s) == text::trimmed(s),
{
}

/// The text of a node is that of its bytes, as far as the source has them.
pub proof fn law_node_text(node: SyntaxNode, source: Seq<u8>)
    requires
        node.start_byte <= node.end_byte,
        node.start_byte <= source.len(),
    ensures
        ({
            let end = if node.end_byte <= source.len() {
                node.end_byte as int
            } else {
                source.len() as int
            };
            let bytes = source.subrange(node.start_byte as int, end);
            &&& valid_utf8(bytes) ==> decoded(node, source) == Some(decode_utf8(bytes))
                && text_or_empty(node, source) == decode_utf8(bytes)
            &&& !valid_utf8(bytes) ==> decoded(node, source) is None && text_or_empty(
                node,
                source,
            ).len() == 0
        }),
{
}

}
