use vstd::prelude::*;

verus! {

/// Appends one character to a string.
/// Trusted: `String::push`, documented as appending the given char to the end of the string.
#[verifier::external_body]
pub(crate) fn push_char(s: &mut String, c: char)
    ensures
        final(s)@ == old(s)@.push(c),
{
    s.push(c);
}

/// The string that the bytes encode, if they are valid UTF-8.
/// Trusted: `String::from_utf8`, documented to return the string when the
/// bytes are valid UTF-8 and an error otherwise.
#[verifier::external_body]
pub(crate) fn utf8_string(bytes: Vec<u8>) -> (r: Option<String>)
    ensures
        r is Some <==> vstd::utf8::valid_utf8(bytes@),
        r matches Some(s) ==> s@ == vstd::utf8::decode_utf8(bytes@),
{
    match String::from_utf8(bytes) {
        Ok(s) => Some(s),
        Err(_) => None,
    }
}


/// What `str::to_uppercase` gives for a string.
pub uninterp spec fn uppercase(s: Seq<char>) -> Seq<char>;

/// The string in upper case.
/// Trusted: `str::to_uppercase`; its result is named `uppercase` of the
/// argument, since the Unicode case tables take pages to state.
#[verifier::external_body]
pub(crate) fn to_upper(s: &str) -> (r: String)
    ensures
        r@ == uppercase(s@),
{
    s.to_uppercase()
}

/// What compiling `pattern` with `regex::Regex::new` and testing `text` with
/// `Regex::is_match` gives: `None` where the pattern does not compile.
pub uninterp spec fn regex_match(pattern: Seq<char>, text: Seq<char>) -> Option<bool>;

/// Whether the regular expression matches somewhere in `text`.
/// Trusted: `regex::Regex::new` followed by `regex::Regex::is_match`; the
/// result is named `regex_match` of the pattern and the text, since the
/// regular-expression semantics takes pages to state. Of one pattern more is
/// claimed, as the crate's syntax documentation gives it: `_lang\.php$`
/// (literal characters, `\.` a literal dot, `$` the end of the haystack)
/// compiles, and matches exactly the texts that end with `_lang.php`.
#[verifier::external_body]
pub(crate) fn regex_is_match(pattern: &str, text: &str) -> (r: Option<bool>)
    ensures
        r == regex_match(pattern@, text@),
        pattern@ == "_lang\\.php$"@ ==> r == Some(crate::text::ends_with(text@, "_lang.php"@)),
{
    match regex::Regex::new(pattern) {
        Ok(re) => Some(re.is_match(text)),
        Err(_) => None,
    }
}

/// The bytes that the form encoding keeps as they are.
pub open spec fn form_unreserved(b: u8) -> bool {
    b == 0x2A || b == 0x2D || b == 0x2E || b == 0x5F || (0x30 <= b <= 0x39) || (0x41 <= b <= 0x5A)
        || (0x61 <= b <= 0x7A)
}

/// An upper-case hexadecimal digit.
pub open spec fn hex_digit(d: u8) -> char {
    if d < 10 {
        (d + 0x30) as char
    } else {
        (d - 10 + 0x41) as char
    }
}

/// How the form encoding writes one byte: kept, `+` for a space, else `%XX`.
pub open spec fn form_byte(b: u8) -> Seq<char> {
    if form_unreserved(b) {
        seq![b as char]
    } else if b == 0x20 {
        seq!['+']
    } else {
        seq!['%', hex_digit(b / 16), hex_digit(b % 16)]
    }
}

/// The `application/x-www-form-urlencoded` form of a byte sequence.
pub open spec fn form_encoded(bytes: Seq<u8>) -> Seq<char>
    decreases bytes.len(),
{
    if bytes.len() == 0 {
        Seq::empty()
    } else {
        form_encoded(bytes.drop_last()) + form_byte(bytes.last())
    }
}

/// The string's UTF-8 bytes in the `application/x-www-form-urlencoded` form.
/// Trusted: `url::form_urlencoded::byte_serialize`, whose source keeps
/// `*-._`, digits and ASCII letters, writes a space as `+` and every other
/// byte as `%` and two upper-case hexadecimal digits.
#[verifier::external_body]
pub(crate) fn form_urlencode(s: &str) -> (r: String)
    ensures
        r@ == form_encoded(vstd::utf8::encode_utf8(s@)),
{
    url::form_urlencoded::byte_serialize(s.as_bytes()).collect::<String>()
}

} // verus!
