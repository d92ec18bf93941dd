use citool::yandex::{direction, yandex_form_body, yandex_url, YandeAnswer};

#[test]
fn url_has_key_and_direction() {
    assert_eq!(
        yandex_url("ru-en", "trnsl.1.1"),
        "https://translate.yandex.net/api/v1.5/tr.json/translate?key=trnsl.1.1&lang=ru-en"
    );
    assert_eq!(direction("ru", "en"), "ru-en");
}

#[test]
fn form_body_encodes_each_text() {
    let words = vec!["привет мир".to_string(), "a&b=c".to_string(), "x*-._y~".to_string()];
    assert_eq!(
        yandex_form_body(&words),
        "text=%D0%BF%D1%80%D0%B8%D0%B2%D0%B5%D1%82+%D0%BC%D0%B8%D1%80&text=a%26b%3Dc&text=x*-._y%7E"
    );
    assert_eq!(yandex_form_body(&Vec::new()), "");
}

#[test]
fn form_body_agrees_with_url_serializer() {
    let words = vec!["It's 100% done!".to_string(), "".to_string()];
    let mut s = url::form_urlencoded::Serializer::new(String::new());
    for w in &words {
        s.append_pair("text", w);
    }
    assert_eq!(yandex_form_body(&words), s.finish());
}

#[test]
fn answer_gives_texts_on_success_only() {
    let ok = YandeAnswer { code: 200, lang: "ru-en".to_string(), text: vec!["Hello".to_string()] };
    assert_eq!(ok.translation(), Some(vec!["Hello".to_string()]));
    let bad = YandeAnswer { code: 401, lang: "ru-en".to_string(), text: vec![] };
    assert_eq!(bad.translation(), None);
}
