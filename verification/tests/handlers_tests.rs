use citool::command::CiToolsCommand;
use citool::handlers::{parse_langs, HandlerStep};
use citool::settings::CiToolsSettings;
use citool::tools::{CiTools, Handler};

fn tool(ci_path: Option<&str>, langs: Option<&[&str]>, key: Option<&str>) -> CiTools {
    CiTools {
        events: None,
        run_events: None,
        config: CiToolsSettings {
            ci_path: ci_path.map(|s| s.to_string()),
            langs: langs.map(|l| l.iter().map(|s| s.to_string()).collect()),
            yandexapikey: key.map(|s| s.to_string()),
        },
    }
}

fn cmd(name: &str, value: Option<&str>) -> CiToolsCommand {
    CiToolsCommand { name: name.to_string(), value: value.map(|s| s.to_string()) }
}

fn done(step: HandlerStep) -> (Result<String, String>, bool) {
    match step {
        HandlerStep::Done { result, save } => (result, save),
        _ => panic!("expected an answer"),
    }
}

#[test]
fn ping_answers_pong() {
    let mut t = tool(None, None, None);
    let (r, save) = done(t.start_handler(Handler::Ping, &cmd("ping", None)));
    assert_eq!(r, Ok("Ping: Pong".to_string()));
    assert!(!save);
}

#[test]
fn help_texts() {
    let mut t = tool(None, None, None);
    let (r, _) = done(t.start_handler(Handler::Help, &cmd("help", None)));
    assert_eq!(
        r,
        Ok("\n- - -\nОсновные команды:\nhelp - Вывести справку\nci_path=[путь до корня CI проекта] - установить директорию проекта\n- - -\n".to_string())
    );
    let (r, _) = done(t.start_handler(Handler::LangsHelp, &cmd("help", None)));
    let text = r.unwrap();
    assert!(text.starts_with("langs-show - Список языковых из настроек\n"));
    assert!(text.ends_with("langs-yandex-translate - перевести не переведённые фразы через yandex-translate\n\n- - -\n"));
}

#[test]
fn ci_path_sets_the_path_and_asks_to_save() {
    let mut t = tool(None, None, None);
    let (r, save) = done(t.start_handler(Handler::CiPath, &cmd("ci_path", Some("/srv/app"))));
    assert_eq!(r, Ok("CI_PATH set = ".to_string()));
    assert!(save);
    assert_eq!(t.config.ci_path, Some("/srv/app".to_string()));
    let (_, save) = done(t.start_handler(Handler::CiPath, &cmd("ci_path", None)));
    assert!(save);
    assert_eq!(t.config.ci_path, None);
}

#[test]
fn langs_show_with_and_without_languages() {
    let mut t = tool(None, None, None);
    let (r, _) = done(t.start_handler(Handler::LangsShow, &cmd("langs-show", None)));
    assert_eq!(r, Ok("Список языков из настроек =  Нет данных".to_string()));
    let mut t = tool(None, Some(&["ru", "en"]), None);
    let (r, _) = done(t.start_handler(Handler::LangsShow, &cmd("langs-show", None)));
    assert_eq!(r, Ok("Список языков из настроек = ru,en".to_string()));
}

#[test]
fn folders_need_a_path() {
    let mut t = tool(None, None, None);
    let (r, save) = done(t.start_handler(Handler::LangsFolders, &cmd("langs-foledrs", None)));
    assert_eq!(r, Err("ci_path не установлен".to_string()));
    assert!(!save);
    let (r, _) = done(t.start_handler(Handler::LangsFoldersToConfig, &cmd("x", None)));
    assert_eq!(r, Err("ci_path не установлен".to_string()));
}

#[test]
fn folders_ask_for_the_language_directory() {
    let mut t = tool(Some("/srv/app"), None, None);
    match t.start_handler(Handler::LangsFolders, &cmd("langs-foledrs", None)) {
        HandlerStep::NeedLangDirs { path } => assert_eq!(path, "/srv/app/application/language/"),
        _ => panic!("expected a listing request"),
    }
}

#[test]
fn finish_lang_dirs_lists_directories() {
    let mut t = tool(Some("/srv/app"), None, None);
    let entries = Some(vec![
        ("/srv/app/application/language/russian".to_string(), true),
        ("/srv/app/application/language/index.html".to_string(), false),
        ("/srv/app/application/language/english".to_string(), true),
    ]);
    let (r, save) = t.finish_lang_dirs(Handler::LangsFolders, &entries);
    assert_eq!(r, Ok("Отобразить список языков по папкам = russian,english".to_string()));
    assert!(!save);
    assert!(t.config.langs.is_none());
    let (r, save) = t.finish_lang_dirs(Handler::LangsFoldersToConfig, &entries);
    assert_eq!(r, Ok("Определить языки по папкам и сохранить их в конфиги = russian,english".to_string()));
    assert!(save);
    assert_eq!(t.config.langs, Some(vec!["russian".to_string(), "english".to_string()]));
}

#[test]
fn finish_lang_dirs_reports_a_bad_path() {
    let mut t = tool(Some("/nowhere"), None, None);
    let (r, save) = t.finish_lang_dirs(Handler::LangsFolders, &None);
    assert_eq!(r, Err("Отобразить список языков по папкам = Не корректный путь. Папки не существует".to_string()));
    assert!(!save);
    let (r, save) = t.finish_lang_dirs(Handler::LangsFoldersToConfig, &None);
    assert_eq!(r, Err("Определить языки по папкам и сохранить их в конфиги = Не корректный путь. Папки не существует".to_string()));
    assert!(!save);
    assert!(t.config.langs.is_none());
}

#[test]
fn langs_set_parses_the_list() {
    let mut t = tool(None, None, None);
    let (r, save) = done(t.start_handler(Handler::LangsSet, &cmd("langs-set", Some(" ru, ,en ,"))));
    assert_eq!(r, Ok("Установить языки = ru,en".to_string()));
    assert!(save);
    assert_eq!(t.config.langs, Some(vec!["ru".to_string(), "en".to_string()]));
}

#[test]
fn langs_set_errors() {
    let mut t = tool(None, Some(&["uz"]), None);
    let (r, save) = done(t.start_handler(Handler::LangsSet, &cmd("langs-set", None)));
    assert_eq!(r, Err("Установить языки = параметры не переданны".to_string()));
    assert!(!save);
    let (r, save) = done(t.start_handler(Handler::LangsSet, &cmd("langs-set", Some(" , ,"))));
    assert_eq!(r, Err("Установить языки = Нет параметров".to_string()));
    assert!(!save);
    assert_eq!(t.config.langs, Some(vec!["uz".to_string()]));
}

#[test]
fn parse_langs_trims_and_drops_empty() {
    assert_eq!(parse_langs("a, b,,c "), vec!["a", "b", "c"]);
    assert!(parse_langs("").is_empty());
}

#[test]
fn show_files_and_words_need_settings() {
    for h in [Handler::LangsShowFiles, Handler::LangsShowWords] {
        let mut t = tool(None, Some(&["ru"]), None);
        let (r, _) = done(t.start_handler(h, &cmd("x", None)));
        assert_eq!(r, Err("Поиск не переведёных = Каталог проект не установлен".to_string()));
        let mut t = tool(Some("/p"), None, None);
        let (r, _) = done(t.start_handler(h, &cmd("x", None)));
        assert_eq!(r, Err("Поиск не переведёных = Языки не установлены".to_string()));
    }
}

#[test]
fn show_files_and_words_ask_for_work() {
    let mut t = tool(Some("/p"), Some(&["ru", "en"]), None);
    match t.start_handler(Handler::LangsShowFiles, &cmd("x", None)) {
        HandlerStep::NeedFiles { ci_path, langs } => {
            assert_eq!(ci_path, "/p");
            assert_eq!(langs, vec!["ru", "en"]);
        },
        _ => panic!("expected a files request"),
    }
    match t.start_handler(Handler::LangsShowWords, &cmd("x", None)) {
        HandlerStep::NeedWords { ci_path, langs } => {
            assert_eq!(ci_path, "/p");
            assert_eq!(langs, vec!["ru", "en"]);
        },
        _ => panic!("expected a words request"),
    }
}

#[test]
fn yandex_key_show_and_set() {
    let mut t = tool(None, None, None);
    let (r, _) = done(t.start_handler(Handler::YandexKeyShow, &cmd("x", None)));
    assert_eq!(r, Ok("Ключ от yandex-translate:  Не установлен".to_string()));
    let (r, save) = done(t.start_handler(Handler::YandexKeySet, &cmd("x", None)));
    assert_eq!(r, Err("установить ключ от yandex-translate: Значение не переданно".to_string()));
    assert!(!save);
    let (r, save) = done(t.start_handler(Handler::YandexKeySet, &cmd("x", Some("trnsl.1"))));
    assert_eq!(r, Ok("Установлен ключ от yandex-translate: trnsl.1\n".to_string()));
    assert!(save);
    let (r, _) = done(t.start_handler(Handler::YandexKeyShow, &cmd("x", None)));
    assert_eq!(r, Ok("Ключ от yandex-translate: trnsl.1".to_string()));
}

#[test]
fn yandex_translate_needs_settings() {
    let mut t = tool(None, Some(&["ru"]), Some("k"));
    let (r, _) = done(t.start_handler(Handler::YandexTranslate, &cmd("x", None)));
    assert_eq!(r, Err("Перевод через yandex-translate = Каталог проект не установлен".to_string()));
    let mut t = tool(Some("/p"), None, Some("k"));
    let (r, _) = done(t.start_handler(Handler::YandexTranslate, &cmd("x", None)));
    assert_eq!(r, Err("Перевод через yandex-translate = Языки не установлены".to_string()));
    let mut t = tool(Some("/p"), Some(&["ru"]), None);
    let (r, _) = done(t.start_handler(Handler::YandexTranslate, &cmd("x", None)));
    assert_eq!(r, Err("Перевод фраз через yandex-translate = yandex-key не установлен".to_string()));
    let mut t = tool(Some("/p"), Some(&["ru"]), Some("k"));
    match t.start_handler(Handler::YandexTranslate, &cmd("x", None)) {
        HandlerStep::NeedTranslation { ci_path, langs, key } => {
            assert_eq!(ci_path, "/p");
            assert_eq!(langs, vec!["ru"]);
            assert_eq!(key, "k");
        },
        _ => panic!("expected a translation request"),
    }
}

#[test]
fn finish_translation_prefixes_either_outcome() {
    assert_eq!(
        CiTools::finish_translation(Ok("[en] a_lang.php \n".to_string())),
        Ok("Перевод через yandex-translate: \n[en] a_lang.php \n".to_string())
    );
    assert_eq!(
        CiTools::finish_translation(Err("x".to_string())),
        Ok("Перевод через yandex-translate: \nx".to_string())
    );
}
