use vstd::prelude::*;

verus! {

/// Appends one character to a `String` (std's `String::push`).
/// Trusted: the resulting text is the old text followed by `c`.
#[verifier::external_body]
pub(crate) fn push_char(s: &mut String, c: char)
    ensures
        final(s)@ == old(s)@.push(c),
{
    s.push(c);
}

} // verus!

verus! {

/// What `unescape::unescape` gives for a text: the text with its backslash
/// escapes decoded, or nothing when an escape is malformed.
pub uninterp spec fn unescaped(s: Seq<char>) -> Option<Seq<char>>;

/// The text of an optional string.
pub open spec fn opt_view(o: Option<String>) -> Option<Seq<char>> {
    match o {
        Some(r) => Some(r@),
        None => None,
    }
}

/// Whether a text holds a backslash.
pub open spec fn has_backslash(s: Seq<char>) -> bool {
    s.contains('\\')
}

/// A text with its backslash escapes decoded when they are well formed: a
/// text without backslashes is itself, and one whose escapes are malformed is
/// kept as it is.
pub open spec fn decoded(s: Seq<char>) -> Seq<char> {
    if !has_backslash(s) {
        s
    } else {
        match unescaped(s) {
            Some(u) => u,
            None => s,
        }
    }
}

/// Decodes backslash escapes (`unescape::unescape`). Trusted: the result is
/// `unescaped` of the argument, and a text without backslashes comes back
/// unchanged (the crate copies every other character as it is). What the
/// escapes decode to is not stated.
#[verifier::external_body]
pub(crate) fn unescape_text(s: &str) -> (res: Option<String>)
    ensures
        unescaped(s@) == opt_view(res),
        !has_backslash(s@) ==> opt_view(res) == Some(s@),
{
    unescape::unescape(s)
}

} // verus!

verus! {

/// The texts of the successive, non-overlapping, left-most-first matches of
/// the regular expression `pattern` in `text`, as the `regex` crate finds
/// them; no match at all when `pattern` does not compile.
pub uninterp spec fn regex_found(pattern: Seq<char>, text: Seq<char>) -> Seq<Seq<char>>;

/// Finds the matches of a regular expression (`regex::Regex::new` and
/// `Regex::find_iter`). Trusted: the texts returned are `regex_found` of the
/// pattern and the text. Which texts the regular expression matches is not
/// stated.
#[verifier::external_body]
pub(crate) fn regex_matches(pattern: &str, text: &str) -> (res: Vec<String>)
    ensures
        crate::text::views(res@) == regex_found(pattern@, text@),
{
    match regex::Regex::new(pattern) {
        Ok(re) => re.find_iter(text).map(|m| m.as_str().to_string()).collect(),
        Err(_) => Vec::new(),
    }
}

} // verus!

verus! {

/// What `strip_ansi_escapes::strip` gives for the bytes of a text: the bytes
/// without their ANSI escape sequences, or nothing when it reports an error.
pub uninterp spec fn ansi_stripped(text: Seq<char>) -> Option<Seq<u8>>;

/// The bytes of an optional byte vector.
pub open spec fn opt_bytes(o: Option<Vec<u8>>) -> Option<Seq<u8>> {
    match o {
        Some(b) => Some(b@),
        None => None,
    }
}

/// Removes the ANSI escape sequences from the bytes of a text
/// (`strip_ansi_escapes::strip`). Trusted: the result is `ansi_stripped` of
/// the text. Which bytes are kept is not stated.
#[verifier::external_body]
pub(crate) fn strip_ansi(text: &str) -> (res: Option<Vec<u8>>)
    ensures
        opt_bytes(res) == ansi_stripped(text@),
{
    strip_ansi_escapes::strip(text).ok()
}

/// The text that UTF-8 bytes encode, or nothing when they are not UTF-8.
pub open spec fn utf8_text(bytes: Seq<u8>) -> Option<Seq<char>> {
    if vstd::utf8::valid_utf8(bytes) { Some(vstd::utf8::decode_utf8(bytes)) } else { None }
}

/// Decodes UTF-8 (std's `String::from_utf8`). Trusted: it succeeds exactly on
/// valid UTF-8 and then gives the characters the bytes encode.
#[verifier::external_body]
pub(crate) fn utf8_string(bytes: Vec<u8>) -> (res: Option<String>)
    ensures
        opt_view(res) == utf8_text(bytes@),
{
    String::from_utf8(bytes).ok()
}

} // verus!
