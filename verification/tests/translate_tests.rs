use citool::file::CILangsToolsFile;
use citool::langs::{CILangsTools, FileRows};
use citool::row::CILangsToolsRow;
use citool::strmap::StrMap;
use citool::translate::{apply_translation, chunk, rows_to_translate, texts_of, Phase, TranslateRun, TranslateStep};

fn strings(v: &[&str]) -> Vec<String> {
    v.iter().map(|s| s.to_string()).collect()
}

fn smap(pairs: &[(&str, &str)]) -> StrMap<String> {
    let mut m = StrMap::new();
    for (k, v) in pairs {
        m.insert(k.to_string(), v.to_string());
    }
    m
}

fn rows(name: &str, data: &[(&str, &[(&str, &str)])]) -> StrMap<CILangsToolsRow> {
    let mut r = StrMap::new();
    for (k, t) in data {
        r.insert(k.to_string(), CILangsToolsRow::new(name.to_string(), k.to_string(), smap(t)));
    }
    r
}

fn file_rows(name: &str, data: &[(&str, &[(&str, &str)])]) -> FileRows {
    FileRows {
        name: name.to_string(),
        file: CILangsToolsFile { root_path: "/p/application/language/".to_string(), index: name.to_string(), files: smap(&[("ru", "/f")]) },
        rows: rows(name, data),
    }
}

fn text(r: &StrMap<CILangsToolsRow>, k: &str, l: &str) -> Option<String> {
    r.get(k).unwrap().translate.get(l).cloned()
}

#[test]
fn rows_to_translate_picks_rows_with_source_and_no_target() {
    let r = rows("/a", &[("x", &[("ru", "Икс")]), ("y", &[("ru", "Игрек"), ("en", "Y")]), ("z", &[("en", "Z")])]);
    assert_eq!(rows_to_translate(&r, "ru", "en"), strings(&["x"]));
    assert_eq!(rows_to_translate(&r, "en", "ru"), strings(&["z"]));
    assert_eq!(texts_of(&r, &strings(&["x", "y"]), "ru"), strings(&["Икс", "Игрек"]));
}

#[test]
fn chunk_cuts_into_pieces() {
    let keys: Vec<String> = (0..45).map(|i| format!("k{}", i)).collect();
    let pieces = chunk(&keys, 20);
    assert_eq!(pieces.len(), 3);
    assert_eq!(pieces[0].len(), 20);
    assert_eq!(pieces[1].len(), 20);
    assert_eq!(pieces[2].len(), 5);
    assert_eq!(pieces.concat(), keys);
    assert!(chunk(&Vec::new(), 20).is_empty());
}

#[test]
fn apply_translation_sets_texts() {
    let mut r = rows("/a", &[("x", &[("ru", "Икс")]), ("y", &[("ru", "Игрек")])]);
    apply_translation(&mut r, &strings(&["y", "x"]), &"en".to_string(), &strings(&["Y", "X", "extra"]));
    assert_eq!(text(&r, "x", "en"), Some("X".to_string()));
    assert_eq!(text(&r, "y", "en"), Some("Y".to_string()));
    assert_eq!(text(&r, "x", "ru"), Some("Икс".to_string()));
}

#[test]
fn translation_run_translates_saves_and_reports() {
    let all = vec![file_rows("/a_lang.php", &[("hello", &[("ru", "Привет"), ("en", "Hello")]), ("bye", &[("ru", "Пока")])])];
    let mut run = CILangsTools::yandex_translate_files(all, strings(&["ru", "en"]), "k".to_string());
    match run.next() {
        TranslateStep::Translate { texts, direction, key } => {
            assert_eq!(texts, strings(&["Пока"]));
            assert_eq!(direction, "ru-en");
            assert_eq!(key, "k");
        },
        _ => panic!("expected a piece to translate"),
    }
    assert_eq!(run.pending_len(), 1);
    run.answer(Some(strings(&["Bye"])));
    match run.next() {
        TranslateStep::Save { file, lang, rows } => {
            assert_eq!(file.index, "/a_lang.php");
            assert_eq!(lang, "en");
            assert_eq!(text(&rows, "bye", "en"), Some("Bye".to_string()));
            assert_eq!(text(&rows, "hello", "en"), Some("Hello".to_string()));
        },
        _ => panic!("expected a file to write"),
    }
    run.saved();
    match run.next() {
        TranslateStep::Done(report) => assert_eq!(report, "[en] /a_lang.php \n"),
        _ => panic!("expected the end"),
    }
    assert!(run.phase == Phase::Finished);
}

#[test]
fn translation_run_without_answers_reports_nothing_translated() {
    let all = vec![file_rows("/a_lang.php", &[("bye", &[("ru", "Пока")])])];
    let mut run = TranslateRun::new(all, strings(&["ru", "en"]), "k".to_string());
    match run.next() {
        TranslateStep::Translate { .. } => {},
        _ => panic!("expected a piece to translate"),
    }
    run.answer(None);
    match run.next() {
        TranslateStep::Save { lang, rows, .. } => {
            assert_eq!(lang, "en");
            assert_eq!(text(&rows, "bye", "en"), None);
        },
        _ => panic!("expected a file to write"),
    }
    run.saved();
    match run.next() {
        TranslateStep::Done(report) => assert_eq!(report, "Всё переведенно"),
        _ => panic!("expected the end"),
    }
}

#[test]
fn translation_run_with_nothing_to_do() {
    let all = vec![file_rows("/a", &[("x", &[("ru", "Икс"), ("en", "X")])]), file_rows("/b", &[])];
    let mut run = TranslateRun::new(all, strings(&["ru", "en"]), "k".to_string());
    match run.next() {
        TranslateStep::Done(report) => assert_eq!(report, "Всё переведенно"),
        _ => panic!("expected the end"),
    }
    let mut empty = TranslateRun::new(Vec::new(), strings(&["ru"]), "k".to_string());
    match empty.next() {
        TranslateStep::Done(report) => assert_eq!(report, "Всё переведенно"),
        _ => panic!("expected the end"),
    }
}

#[test]
fn translation_run_goes_both_ways_and_in_pieces() {
    let mut data: Vec<(String, Vec<(&str, String)>)> = Vec::new();
    for i in 0..25 {
        data.push((format!("r{}", i), vec![("ru", format!("т{}", i))]));
    }
    let mut rs: StrMap<CILangsToolsRow> = StrMap::new();
    for (k, t) in &data {
        let mut m = StrMap::new();
        for (l, v) in t {
            m.insert(l.to_string(), v.clone());
        }
        rs.insert(k.clone(), CILangsToolsRow::new("/a".to_string(), k.clone(), m));
    }
    rs.insert("e".to_string(), CILangsToolsRow::new("/a".to_string(), "e".to_string(), smap(&[("en", "only en")])));
    let f = FileRows { name: "/a".to_string(), file: CILangsToolsFile { root_path: "/r".to_string(), index: "/a".to_string(), files: StrMap::new() }, rows: rs };
    let mut run = TranslateRun::new(vec![f], strings(&["ru", "en"]), "k".to_string());
    let mut sizes = Vec::new();
    let mut saves = Vec::new();
    loop {
        match run.next() {
            TranslateStep::Translate { texts, direction, .. } => {
                sizes.push((direction, texts.len()));
                let n = run.pending_len();
                run.answer(Some(texts.iter().map(|t| format!("<{}>", t)).collect::<Vec<String>>().into_iter().take(n).collect()));
            },
            TranslateStep::Save { lang, rows, .. } => {
                saves.push((lang, rows.entries.len()));
                if saves.len() == 1 {
                    assert_eq!(text(&rows, "r0", "en"), Some("<т0>".to_string()));
                } else {
                    assert_eq!(text(&rows, "e", "ru"), Some("<only en>".to_string()));
                    assert_eq!(text(&rows, "r24", "en"), Some("<т24>".to_string()));
                }
                run.saved();
            },
            TranslateStep::Done(report) => {
                assert_eq!(report, "[en] /a \n[ru] /a \n");
                break;
            },
        }
    }
    assert_eq!(
        sizes,
        vec![("ru-en".to_string(), 20), ("ru-en".to_string(), 5), ("en-ru".to_string(), 1)]
    );
    assert_eq!(saves, vec![("en".to_string(), 26), ("ru".to_string(), 26)]);
}

#[test]
fn blank_targets_are_translated_like_missing_ones() {
    let r = rows("/a", &[("x", &[("ru", "Икс"), ("en", "")]), ("y", &[("ru", "Игрек"), ("en", "  ")]), ("z", &[("ru", "Зет"), ("en", "Z")])]);
    assert_eq!(rows_to_translate(&r, "ru", "en"), strings(&["x", "y"]));
    let all = vec![file_rows("/a_lang.php", &[("x", &[("ru", "x"), ("en", "")])])];
    let mut run = TranslateRun::new(all, strings(&["ru", "en"]), "k".to_string());
    match run.next() {
        TranslateStep::Translate { texts, direction, .. } => {
            assert_eq!(texts, strings(&["x"]));
            assert_eq!(direction, "ru-en");
        },
        _ => panic!("expected a piece to translate"),
    }
    run.answer(Some(strings(&["X"])));
    match run.next() {
        TranslateStep::Save { rows, .. } => assert_eq!(text(&rows, "x", "en"), Some("X".to_string())),
        _ => panic!("expected a file to write"),
    }
    run.saved();
    match run.next() {
        TranslateStep::Done(report) => assert_eq!(report, "[en] /a_lang.php \n"),
        _ => panic!("expected the end"),
    }
}
