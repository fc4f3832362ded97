//! Character classes used by the tokenizer, and the few `std` text
//! operations whose behaviour is taken on trust.

use vstd::prelude::*;

verus! {

/// What `char::is_alphanumeric` answers for `c`: whether Unicode classes the
/// character as alphabetic or numeric.
pub uninterp spec fn unicode_alphanumeric(c: char) -> bool;

/// What `char::is_whitespace` answers for a character other than the space
/// U+0020: whether the character has the Unicode property `White_Space`.
pub uninterp spec fn unicode_whitespace(c: char) -> bool;

/// Whether `c` separates words: the space, or any other Unicode whitespace.
pub open spec fn is_space(c: char) -> bool {
    c == ' ' || unicode_whitespace(c)
}

/// Whether the tokenizer retains `c`: alphanumeric characters and
/// whitespace stay, everything else is discarded.
pub open spec fn is_retained(c: char) -> bool {
    unicode_alphanumeric(c) || is_space(c)
}

/// Whether `c` can occur inside a token.
pub open spec fn is_word_char(c: char) -> bool {
    unicode_alphanumeric(c) && !is_space(c)
}

/// `char::is_alphanumeric` is a fixed table lookup; its answer is named, not
/// spelled out.
pub assume_specification[ char::is_alphanumeric ](c: char) -> (r: bool)
    ensures
        r == unicode_alphanumeric(c),
;

/// `char::is_whitespace` answers by the `White_Space` property. That the
/// space U+0020 has the property is the one fact stated here; the rest is
/// named.
pub assume_specification[ char::is_whitespace ](c: char) -> (r: bool)
    ensures
        r == (c == ' ' || unicode_whitespace(c)),
;

/// What `str::to_lowercase` returns for the text `s`.
pub uninterp spec fn lowercase_of(s: Seq<char>) -> Seq<char>;

/// `str::to_lowercase` maps a text to its lowercase form by the Unicode
/// tables; the result depends on the text alone and is named.
pub assume_specification[ str::to_lowercase ](s: &str) -> (r: String)
    ensures
        r@ == lowercase_of(s@),
;

/// `String::push` appends one character to the end of the string.
pub assume_specification[ String::push ](s: &mut String, c: char)
    ensures
        final(s)@ == old(s)@.push(c),
;

} // verus!
