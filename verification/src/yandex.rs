use vstd::prelude::*;
use crate::text;
use crate::outside;

verus! {

/// The answer of the translation service.
pub struct YandeAnswer {
    pub code: i32,
    pub lang: String,
    pub text: Vec<String>,
}

impl YandeAnswer {
    /// The translated texts, when the service answered with code 200.
    pub fn translation(self) -> (r: Option<Vec<String>>)
        ensures
            r == if self.code == 200 {
                Some(self.text)
            } else {
                None
            },
    {
        if self.code == 200 {
            Some(self.text)
        } else {
            None
        }
    }
}

/// The address of a request: the service's address with the key and the
/// direction (`from-to`).
pub open spec fn request_url(lang_to_lang: Seq<char>, key: Seq<char>) -> Seq<char> {
    "https://translate.yandex.net/api/v1.5/tr.json/translate?key="@ + key + "&lang="@ + lang_to_lang
}

/// One `text` field of the request body.
pub open spec fn text_field(w: Seq<char>) -> Seq<char> {
    "text="@ + outside::form_encoded(vstd::utf8::encode_utf8(w))
}

/// The request body: a form with one `text` field per word, in order.
pub open spec fn request_body(words: Seq<Seq<char>>) -> Seq<char> {
    text::join_seq(words.map_values(|w: Seq<char>| text_field(w)), "&"@)
}

/// The address to send a translation request to.
pub fn yandex_url(lang_to_lang: &str, key: &str) -> (r: String)
    ensures
        r@ == request_url(lang_to_lang@, key@),
{
    let mut r = text::copy_str("https://translate.yandex.net/api/v1.5/tr.json/translate?key=");
    text::append_str(&mut r, key);
    text::append_str(&mut r, "&lang=");
    text::append_str(&mut r, lang_to_lang);
    r
}

/// The form body of a translation request for the words.
pub fn yandex_form_body(words: &Vec<String>) -> (r: String)
    ensures
        r@ == request_body(words.deep_view()),
{
    let mut fields: Vec<String> = Vec::new();
    let mut i: usize = 0;
    while i < words.len()
        invariant
            i <= words@.len(),
            fields.deep_view() == words.deep_view().take(i as int).map_values(|w: Seq<char>| text_field(w)),
        decreases words.len() - i,
    {
        let mut f = text::copy_str("text=");
        let enc = outside::form_urlencode(words[i].as_str());
        text::append_str(&mut f, enc.as_str());
        let ghost old_f = fields.deep_view();
        fields.push(f);
        assert(fields.deep_view() =~= old_f.push(f@));
        assert(words.deep_view().take(i + 1).map_values(|w: Seq<char>| text_field(w)) =~= words.deep_view().take(
            i as int,
        ).map_values(|w: Seq<char>| text_field(w)).push(text_field(words@[i as int]@)));
        i = i + 1;
    }
    assert(words.deep_view().take(words@.len() as int) =~= words.deep_view());
    text::join(&fields, "&")
}

/// The direction of a translation: `from-to`.
pub fn direction(lang_from: &str, lang_to: &str) -> (r: String)
    ensures
        r@ == lang_from@ + "-"@ + lang_to@,
{
    let mut r = text::copy_str(lang_from);
    text::append_str(&mut r, "-");
    text::append_str(&mut r, lang_to);
    r
}

} // verus!
