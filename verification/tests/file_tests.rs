use citool::file::{decode_lang_output, escape_text, parse_lang_output, CILangsToolsFile};
use citool::row::CILangsToolsRow;
use citool::strmap::StrMap;

fn smap(pairs: &[(&str, &str)]) -> StrMap<String> {
    let mut m = StrMap::new();
    for (k, v) in pairs {
        m.insert(k.to_string(), v.to_string());
    }
    m
}

fn pairs(m: &StrMap<String>) -> Vec<(String, String)> {
    m.entries.iter().map(|(k, v)| (k.clone(), v.clone())).collect()
}

fn file_record(langs: &[(&str, &str)]) -> CILangsToolsFile {
    CILangsToolsFile {
        root_path: "/p/application/language/".to_string(),
        index: "/site/main_lang.php".to_string(),
        files: smap(langs),
    }
}

#[test]
fn parse_reads_each_entry() {
    let out = "hello<=====>Привет###----###\nbye<=====>Пока###----###\n";
    let m = parse_lang_output(out).unwrap();
    assert_eq!(
        pairs(&m),
        vec![("hello".to_string(), "Привет".to_string()), ("bye".to_string(), "Пока".to_string())]
    );
}

#[test]
fn parse_trims_pieces_and_skips_bad_ones() {
    let out = "  a<=====>x  ###----###\nnot an entry###----###   ###----###b<=====>y<=====>z###----###";
    let m = parse_lang_output(out).unwrap();
    assert_eq!(pairs(&m), vec![("a".to_string(), "x".to_string()), ("b".to_string(), "y".to_string())]);
}

#[test]
fn parse_later_entry_wins() {
    let m = parse_lang_output("k<=====>1###----###k<=====>2###----###").unwrap();
    assert_eq!(pairs(&m), vec![("k".to_string(), "2".to_string())]);
}

#[test]
fn parse_without_entries_is_none() {
    assert!(parse_lang_output("").is_none());
    assert!(parse_lang_output("PHP Warning: no such file").is_none());
    assert!(parse_lang_output("###----###\n###----###").is_none());
}

#[test]
fn decode_rejects_invalid_utf8() {
    assert!(decode_lang_output(vec![0xff, 0xfe, b'a']).is_none());
    let m = decode_lang_output("ключ<=====>значение###----###".as_bytes().to_vec()).unwrap();
    assert_eq!(pairs(&m), vec![("ключ".to_string(), "значение".to_string())]);
}

#[test]
fn get_key_value_merges_languages() {
    let f = file_record(&[("ru", "/p/ru/site/main_lang.php"), ("en", "/p/en/site/main_lang.php")]);
    let reads = vec![
        Some(smap(&[("hello", "Привет"), ("bye", "Пока")])),
        Some(smap(&[("hello", "Hello"), ("extra", "Extra")])),
    ];
    let rows = f.get_key_value(&reads);
    let keys: Vec<String> = rows.entries.iter().map(|(k, _)| k.clone()).collect();
    assert_eq!(keys, vec!["hello", "bye", "extra"]);
    let hello = rows.get("hello").unwrap();
    assert_eq!(hello.index, "hello");
    assert_eq!(hello.file, "/site/main_lang.php");
    assert_eq!(pairs(&hello.translate), vec![("ru".to_string(), "Привет".to_string()), ("en".to_string(), "Hello".to_string())]);
    assert_eq!(pairs(&rows.get("bye").unwrap().translate), vec![("ru".to_string(), "Пока".to_string())]);
    assert_eq!(pairs(&rows.get("extra").unwrap().translate), vec![("en".to_string(), "Extra".to_string())]);
}

#[test]
fn get_key_value_skips_unreadable_languages() {
    let f = file_record(&[("ru", "/a"), ("en", "/b")]);
    let rows = f.get_key_value(&vec![None, Some(smap(&[("k", "v")]))]);
    assert_eq!(rows.entries.len(), 1);
    assert_eq!(pairs(&rows.get("k").unwrap().translate), vec![("en".to_string(), "v".to_string())]);
    let none = f.get_key_value(&vec![None, None]);
    assert!(none.entries.is_empty());
}

#[test]
fn save_path_known_and_new() {
    let f = file_record(&[("ru", "/p/ru/site/main_lang.php")]);
    assert_eq!(f.save_path("ru"), ("/p/ru/site/main_lang.php".to_string(), false));
    assert_eq!(
        f.save_path("en"),
        ("/p/application/language//en//site/main_lang.php".to_string(), true)
    );
}

#[test]
fn save_content_writes_rows_with_text() {
    let f = file_record(&[("en", "/x")]);
    let mut rows: StrMap<CILangsToolsRow> = StrMap::new();
    rows.insert(
        "greet".to_string(),
        CILangsToolsRow::new("/site/main_lang.php".to_string(), "greet".to_string(), smap(&[("en", "It's me"), ("ru", "Это я")])),
    );
    rows.insert(
        "only_ru".to_string(),
        CILangsToolsRow::new("/site/main_lang.php".to_string(), "only_ru".to_string(), smap(&[("ru", "Только")])),
    );
    rows.insert(
        "bye".to_string(),
        CILangsToolsRow::new("/site/main_lang.php".to_string(), "bye".to_string(), smap(&[("en", "Bye")])),
    );
    let content = f.save_content("en", &rows);
    assert_eq!(
        content,
        "<?php defined('BASEPATH') OR exit('No direct script access allowed');/* autogenerate */\n$lang['greet'] = 'It&#39;s me';\r\n$lang['bye'] = 'Bye';"
    );
    let empty = f.save_content("uz", &rows);
    assert_eq!(empty, "<?php defined('BASEPATH') OR exit('No direct script access allowed');/* autogenerate */\n");
}

#[test]
fn escape_text_replaces_quotes() {
    assert_eq!(escape_text("a'b''"), "a&#39;b&#39;&#39;");
    assert_eq!(escape_text("plain"), "plain");
}

#[test]
fn file_copy_keeps_fields() {
    let f = file_record(&[("ru", "/a")]);
    let g = f.copy();
    assert_eq!(g.root_path, f.root_path);
    assert_eq!(g.index, f.index);
    assert_eq!(pairs(&g.files), pairs(&f.files));
}

#[test]
fn dump_of_entries_is_read_back() {
    let entries = vec![
        ("title".to_string(), "Заголовок".to_string()),
        ("a#b".to_string(), "x = y < z".to_string()),
        ("".to_string(), "".to_string()),
        ("last".to_string(), "end".to_string()),
    ];
    let mut dump = String::new();
    for (k, v) in &entries {
        dump += &format!("{}<=====>{}###----###\n", k, v);
    }
    let m = parse_lang_output(&dump).unwrap();
    assert_eq!(pairs(&m), entries);
}
