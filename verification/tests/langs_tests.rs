use citool::file::CILangsToolsFile;
use citool::langs::{CILangsTools, FileRows, LangListing};
use citool::strmap::StrMap;

const RULE: &str = "=============================================\n";
const WRULE: &str = "=======================================================================================================\n";

fn strings(v: &[&str]) -> Vec<String> {
    v.iter().map(|s| s.to_string()).collect()
}

fn smap(pairs: &[(&str, &str)]) -> StrMap<String> {
    let mut m = StrMap::new();
    for (k, v) in pairs {
        m.insert(k.to_string(), v.to_string());
    }
    m
}

fn listings() -> Vec<LangListing> {
    vec![
        LangListing {
            canonical_root: "/p/application/language/ru".to_string(),
            paths: strings(&[
                "/p/application/language/ru/site/a_lang.php",
                "/p/application/language/ru/index.html",
            ]),
        },
        LangListing {
            canonical_root: "/p/application/language/en".to_string(),
            paths: strings(&[
                "/p/application/language/en/site/a_lang.php",
                "/p/application/language/en/b_lang.php",
                "/p/application/language/en/b_lang.php.bak",
            ]),
        },
    ]
}

fn all_files() -> StrMap<CILangsToolsFile> {
    CILangsTools::get_all_langs_files("/p".to_string(), strings(&["ru", "en"]), &listings())
}

#[test]
fn new_keeps_the_path() {
    assert_eq!(CILangsTools::new("/p".to_string()).ci_path, "/p");
    assert_eq!(CILangsTools::lang_root_path("/p"), "/p/application/language/");
}

#[test]
fn select_lang_files_keeps_translation_files() {
    let paths = strings(&["a/x_lang.php", "a/y.php", "b_lang.phpx", "c/d/e_lang.php", "_lang.php", "x_langXphp"]);
    assert_eq!(
        CILangsTools::select_lang_files(&paths),
        strings(&["a/x_lang.php", "c/d/e_lang.php", "_lang.php"])
    );
}

#[test]
fn all_langs_files_groups_by_index() {
    let files = all_files();
    let keys: Vec<String> = files.entries.iter().map(|(k, _)| k.clone()).collect();
    assert_eq!(keys, strings(&["/site/a_lang.php", "/b_lang.php"]));
    let a = files.get("/site/a_lang.php").unwrap();
    assert_eq!(a.index, "/site/a_lang.php");
    assert_eq!(a.root_path, "/p/application/language/");
    let a_files: Vec<(String, String)> = a.files.entries.clone();
    assert_eq!(
        a_files,
        vec![
            ("ru".to_string(), "/p/application/language/ru/site/a_lang.php".to_string()),
            ("en".to_string(), "/p/application/language/en/site/a_lang.php".to_string()),
        ]
    );
    let b = files.get("/b_lang.php").unwrap();
    assert_eq!(b.files.entries.len(), 1);
    assert_eq!(b.files.get("en").unwrap(), "/p/application/language/en/b_lang.php");
}

#[test]
fn conver_files_adds_to_existing_records() {
    let mut result: StrMap<CILangsToolsFile> = StrMap::new();
    let root = "/r/".to_string();
    CILangsTools::conver_list_files_to_citoolsfiles(&root, &"ru".to_string(), &strings(&["/c/ru/x_lang.php"]), &"/c/ru".to_string(), &mut result);
    CILangsTools::conver_list_files_to_citoolsfiles(&root, &"en".to_string(), &strings(&["/c/en/x_lang.php", "/c/en/y_lang.php"]), &"/c/en".to_string(), &mut result);
    assert_eq!(result.entries.len(), 2);
    let x = result.get("/x_lang.php").unwrap();
    assert_eq!(x.files.entries.len(), 2);
    assert_eq!(x.root_path, "/r/");
    assert_eq!(result.get("/y_lang.php").unwrap().files.get("en").unwrap(), "/c/en/y_lang.php");
}

#[test]
fn wasnt_translate_files_are_those_missing_a_language() {
    let files = all_files();
    let missing = CILangsTools::get_wasnt_translate_files(&files, &strings(&["ru", "en"]));
    let keys: Vec<String> = missing.entries.iter().map(|(k, _)| k.clone()).collect();
    assert_eq!(keys, strings(&["/b_lang.php"]));
    let none = CILangsTools::get_wasnt_translate_files(&files, &strings(&["en"]));
    assert!(none.entries.is_empty());
}

#[test]
fn print_wasnt_translate_files_formats_a_table() {
    let files = all_files();
    let report = CILangsTools::get_print_wasnt_translate_files(&files, &strings(&["ru", "en"]));
    let expected = format!(
        "{}{:>40}{:^10}{:^10}\n{:>40}{:^10}{:^10}\n{}",
        RULE, "INDEX", "RU", "EN", "/b_lang.php", "-", "+", RULE
    );
    assert_eq!(report, expected);
}

#[test]
fn print_files_report_sorts_and_shortens_indexes() {
    let mut list: StrMap<CILangsToolsFile> = StrMap::new();
    let long = "/very/long/directory/name/for/testing/the_lang.php";
    for idx in ["/z_lang.php", long, "/a_lang.php"] {
        list.insert(
            idx.to_string(),
            CILangsToolsFile { root_path: "/r/".to_string(), index: idx.to_string(), files: smap(&[("ß", "/f")]) },
        );
    }
    let report = CILangsTools::print_files_report(&list, &strings(&["ß", "uz"]));
    let count = long.chars().count();
    let shown = "...".to_string() + &long.chars().skip(count - 30).collect::<String>();
    let line = |k: &str| format!("{:>40}{:^10}{:^10}\n", k, "+", "-");
    let expected = format!(
        "{}{:>40}{:^10}{:^10}\n{}{}{}{}",
        RULE,
        "INDEX",
        "ß".to_uppercase(),
        "UZ",
        line("/a_lang.php"),
        line(&shown),
        line("/z_lang.php"),
        RULE
    );
    assert_eq!(report, expected);
}

#[test]
fn empty_files_report_has_only_the_head() {
    let list: StrMap<CILangsToolsFile> = StrMap::new();
    let report = CILangsTools::print_files_report(&list, &strings(&["ru"]));
    assert_eq!(report, format!("{}{:>40}{:^10}\n{}", RULE, "INDEX", "RU", RULE));
}

fn file_rows() -> Vec<FileRows> {
    let files = all_files();
    let reads = vec![
        vec![
            Some(smap(&[("hello", "Привет"), ("long_index_name_that_is_more_than_thirty", "Очень длинный перевод фразы")])),
            Some(smap(&[("hello", "Hello")])),
        ],
        vec![Some(smap(&[("done", "Done"), ("blank", "  ")]))],
    ];
    CILangsTools::get_all_translates(&files, &reads)
}

#[test]
fn all_translates_gives_rows_per_file() {
    let all = file_rows();
    assert_eq!(all.len(), 2);
    assert_eq!(all[0].name, "/site/a_lang.php");
    assert_eq!(all[0].file.index, "/site/a_lang.php");
    assert_eq!(all[0].rows.entries.len(), 2);
    assert_eq!(all[1].name, "/b_lang.php");
    assert_eq!(all[1].rows.get("done").unwrap().translate.get("en").unwrap(), "Done");
}

#[test]
fn wasnt_translate_words_keeps_rows_missing_a_language() {
    let all = file_rows();
    let words = CILangsTools::get_wasnt_translate_words(&all, &strings(&["ru", "en"]));
    let names: Vec<String> = words.entries.iter().map(|(k, _)| k.clone()).collect();
    assert_eq!(names, strings(&["/site/a_lang.php", "/b_lang.php"]));
    let a = words.get("/site/a_lang.php").unwrap();
    let keys: Vec<String> = a.rows.entries.iter().map(|(k, _)| k.clone()).collect();
    assert_eq!(keys, strings(&["long_index_name_that_is_more_than_thirty"]));
    let b = words.get("/b_lang.php").unwrap();
    let keys: Vec<String> = b.rows.entries.iter().map(|(k, _)| k.clone()).collect();
    assert_eq!(keys, strings(&["done", "blank"]));
    let en_only = CILangsTools::get_wasnt_translate_words(&all, &strings(&["en"]));
    let names: Vec<String> = en_only.entries.iter().map(|(k, _)| k.clone()).collect();
    assert_eq!(names, strings(&["/site/a_lang.php", "/b_lang.php"]));
    let b = en_only.get("/b_lang.php").unwrap();
    assert_eq!(b.rows.entries.len(), 1);
}

#[test]
fn print_wasnt_translate_words_formats_each_file() {
    let all = file_rows();
    let langs = strings(&["ru", "en"]);
    let report = CILangsTools::get_print_wasnt_translate_words(&all, &langs);
    let head = format!("{1:>0$} |{3:^2$} |{4:^2$} |\n", 35, "INDEX", 20, "RU", "EN");
    let line = |k: &str, a: &str, b: &str| format!("{1:>0$} | {2:<3$}| {4:<3$}|\n", 35, k, a, 20, b);
    let expected = format!(
        "Файл - /site/a_lang.php :\n{w}{h}{w}{l1}{w}\nФайл - /b_lang.php :\n{w}{h}{w}{l2}{l3}{w}\n",
        w = WRULE,
        h = head,
        l1 = line("long_index_name_that_is_more_t..", "Очень длинный п..", "null"),
        l2 = line("done", "null", "Done"),
        l3 = line("blank", "null", "  "),
    );
    assert_eq!(report, expected);
}

#[test]
fn print_wasnt_translate_words_when_all_done() {
    let all = file_rows();
    assert_eq!(CILangsTools::get_print_wasnt_translate_words(&all, &strings(&[])), "Всё переведенно");
    assert_eq!(CILangsTools::get_print_wasnt_translate_words(&Vec::new(), &strings(&["ru"])), "Всё переведенно");
}

#[test]
fn strip_string_maxlen_cuts() {
    assert_eq!(CILangsTools::strip_string_maxlen(&"abcdef".to_string(), 4), "abcd..");
    assert_eq!(CILangsTools::strip_string_maxlen(&"abc".to_string(), 4), "abc");
}

#[test]
fn langs_by_path_takes_directory_names() {
    let t = CILangsTools::new("/p".to_string());
    let entries = Some(vec![
        ("/p/application/language/english".to_string(), true),
        ("/p/application/language/README".to_string(), false),
        ("/p/application/language/uz".to_string(), true),
    ]);
    assert_eq!(t.get_langs_by_path(&entries), Ok(strings(&["english", "uz"])));
    assert_eq!(t.get_langs_by_path(&Some(vec![])), Ok(vec![]));
    assert_eq!(
        t.get_langs_by_path(&None),
        Err("Не корректный путь. Папки не существует".to_string())
    );
}

#[test]
fn conver_drops_the_root_length_in_bytes() {
    let mut result: StrMap<CILangsToolsFile> = StrMap::new();
    CILangsTools::conver_list_files_to_citoolsfiles(
        &"/r/".to_string(),
        &"ru".to_string(),
        &strings(&["/abc"]),
        &"/é".to_string(),
        &mut result,
    );
    let keys: Vec<String> = result.entries.iter().map(|(k, _)| k.clone()).collect();
    assert_eq!(keys, strings(&["c"]));
    let mut other: StrMap<CILangsToolsFile> = StrMap::new();
    CILangsTools::conver_list_files_to_citoolsfiles(
        &"/r/".to_string(),
        &"ru".to_string(),
        &strings(&["/é"]),
        &"abc".to_string(),
        &mut other,
    );
    let keys: Vec<String> = other.entries.iter().map(|(k, _)| k.clone()).collect();
    assert_eq!(keys, strings(&[""]));
}

#[test]
fn non_ascii_project_paths_keep_their_index() {
    let listings = vec![LangListing {
        canonical_root: "/проект/application/language/ru".to_string(),
        paths: strings(&["/проект/application/language/ru/сайт/a_lang.php"]),
    }];
    let files = CILangsTools::get_all_langs_files("/проект".to_string(), strings(&["ru"]), &listings);
    assert_eq!(files.entries[0].0, "/сайт/a_lang.php");
}
