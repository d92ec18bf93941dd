use vstd::prelude::*;
use crate::text;
use crate::command::CiToolsCommand;
use crate::command::CommandSpec;
use crate::settings::CiToolsSettings;
use crate::settings::SettingsView;
use crate::tools::CiTools;
use crate::tools::Handler;
use crate::langs;
use crate::langs::CILangsTools;
use crate::langs::FileRows;
use crate::langs::LangListing;

verus! {

/// What running a handler comes to: an answer (and whether the settings
/// changed and must be saved), or the outside work it needs first.
pub enum HandlerStep {
    Done { result: Result<String, String>, save: bool },
    NeedLangDirs { path: String },
    NeedFiles { ci_path: String, langs: Vec<String> },
    NeedWords { ci_path: String, langs: Vec<String> },
    NeedTranslation { ci_path: String, langs: Vec<String>, key: String },
}

/// A handler step as character sequences.
pub enum StepView {
    Done { result: Result<Seq<char>, Seq<char>>, save: bool },
    NeedLangDirs { path: Seq<char> },
    NeedFiles { ci_path: Seq<char>, langs: Seq<Seq<char>> },
    NeedWords { ci_path: Seq<char>, langs: Seq<Seq<char>> },
    NeedTranslation { ci_path: Seq<char>, langs: Seq<Seq<char>>, key: Seq<char> },
}

/// A result of strings as character sequences.
pub open spec fn result_view(r: Result<String, String>) -> Result<Seq<char>, Seq<char>> {
    match r {
        Ok(s) => Ok(s@),
        Err(e) => Err(e@),
    }
}

impl View for HandlerStep {
    type V = StepView;

    open spec fn view(&self) -> StepView {
        match self {
            HandlerStep::Done { result, save } => StepView::Done { result: result_view(*result), save: *save },
            HandlerStep::NeedLangDirs { path } => StepView::NeedLangDirs { path: path@ },
            HandlerStep::NeedFiles { ci_path, langs } => StepView::NeedFiles {
                ci_path: ci_path@,
                langs: langs.deep_view(),
            },
            HandlerStep::NeedWords { ci_path, langs } => StepView::NeedWords {
                ci_path: ci_path@,
                langs: langs.deep_view(),
            },
            HandlerStep::NeedTranslation { ci_path, langs, key } => StepView::NeedTranslation {
                ci_path: ci_path@,
                langs: langs.deep_view(),
                key: key@,
            },
        }
    }
}

/// The languages that a `langs-set` value names: cut at each `,`, trimmed,
/// empty ones dropped.
pub open spec fn parse_lang_list(v: Seq<char>) -> Seq<Seq<char>> {
    text::split_seq(v, ","@).map_values(|x: Seq<char>| text::trimmed(x)).filter(|x: Seq<char>| x.len() > 0)
}

/// An answer that changes nothing.
pub open spec fn answer(r: Result<Seq<char>, Seq<char>>) -> StepView {
    StepView::Done { result: r, save: false }
}

/// The languages of the settings, as shown by `langs-show`.
pub open spec fn langs_shown(cfg: SettingsView) -> Seq<char> {
    match cfg.langs {
        Some(l) => text::join_seq(l, ","@),
        None => " Нет данных"@,
    }
}

/// What starting handler `h` for command `cmd` does with settings `cfg`:
/// the step, and the settings after it.
pub open spec fn start_spec(h: Handler, cmd: CommandSpec, cfg: SettingsView) -> (StepView, SettingsView) {
    match h {
        Handler::Ping => (answer(Ok("Ping: Pong"@)), cfg),
        Handler::Help => (answer(Ok("\n- - -\nОсновные команды:\nhelp - Вывести справку\nci_path=[путь до корня CI проекта] - установить директорию проекта\n- - -\n"@)), cfg),
        Handler::CiPath => (
            StepView::Done { result: Ok("CI_PATH set = "@), save: true },
            SettingsView { ci_path: cmd.value, ..cfg },
        ),
        Handler::LangsHelp => (answer(Ok("langs-show - Список языковых из настроек\nlangs-foledrs - Список языков по папокам\nlangs-foledrs-to-config - Определить языки по папкам и сохранить их в конфиги\nlangs-set=[lang,lang,lang] - Установить языки\nlangs-show-can-translate-files - вывести не переведёные файлы\nlangs-show-can-translate-word - вывести не переведёные слова\nlangs-yandex-translate-key-show - вывести ключ от yandex-translate\nlangs-yandex-translate-key-set - установить ключ от yandex-translate\nlangs-yandex-translate - перевести не переведённые фразы через yandex-translate\n\n- - -\n"@)), cfg),
        Handler::LangsShow => (answer(Ok("Список языков из настроек = "@ + langs_shown(cfg))), cfg),
        Handler::LangsFolders | Handler::LangsFoldersToConfig => match cfg.ci_path {
            None => (answer(Err("ci_path не установлен"@)), cfg),
            Some(p) => (StepView::NeedLangDirs { path: langs::lang_root(p) }, cfg),
        },
        Handler::LangsSet => match cmd.value {
            None => (answer(Err("Установить языки = параметры не переданны"@)), cfg),
            Some(v) => {
                let list = parse_lang_list(v);
                if list.len() == 0 {
                    (answer(Err("Установить языки = Нет параметров"@)), cfg)
                } else {
                    (
                        StepView::Done {
                            result: Ok("Установить языки = "@ + text::join_seq(list, ","@)),
                            save: true,
                        },
                        SettingsView { langs: Some(list), ..cfg },
                    )
                }
            },
        },
        Handler::LangsShowFiles | Handler::LangsShowWords => match (cfg.ci_path, cfg.langs) {
            (None, _) => (answer(Err("Поиск не переведёных = Каталог проект не установлен"@)), cfg),
            (Some(_), None) => (answer(Err("Поиск не переведёных = Языки не установлены"@)), cfg),
            (Some(p), Some(l)) => (
                if h == Handler::LangsShowFiles {
                    StepView::NeedFiles { ci_path: p, langs: l }
                } else {
                    StepView::NeedWords { ci_path: p, langs: l }
                },
                cfg,
            ),
        },
        Handler::YandexKeyShow => (
            answer(
                Ok(
                    "Ключ от yandex-translate: "@ + match cfg.yandexapikey {
                        Some(k) => k,
                        None => " Не установлен"@,
                    },
                ),
            ),
            cfg,
        ),
        Handler::YandexKeySet => match cmd.value {
            None => (answer(Err("установить ключ от yandex-translate: Значение не переданно"@)), cfg),
            Some(k) => (
                StepView::Done {
                    result: Ok("Установлен ключ от yandex-translate: "@ + k + "\n"@),
                    save: true,
                },
                SettingsView { yandexapikey: Some(k), ..cfg },
            ),
        },
        Handler::YandexTranslate => match (cfg.ci_path, cfg.langs, cfg.yandexapikey) {
            (None, _, _) => (answer(Err("Перевод через yandex-translate = Каталог проект не установлен"@)), cfg),
            (Some(_), None, _) => (answer(Err("Перевод через yandex-translate = Языки не установлены"@)), cfg),
            (Some(_), Some(_), None) => (
                answer(Err("Перевод фраз через yandex-translate = yandex-key не установлен"@)),
                cfg,
            ),
            (Some(p), Some(l), Some(k)) => (StepView::NeedTranslation { ci_path: p, langs: l, key: k }, cfg),
        },
    }
}

/// The folder handlers (`langs-foledrs` and `langs-foledrs-to-config`) ask
/// to list the project's language folder, `ci_path + "/application/language/"`,
/// and change nothing yet; without a project path they answer the error.
pub proof fn lemma_folders_list_language_dir(h: Handler, c: CommandSpec, cfg: SettingsView)
    requires
        h == Handler::LangsFolders || h == Handler::LangsFoldersToConfig,
    ensures
        cfg.ci_path matches Some(p) ==> start_spec(h, c, cfg) == (
            StepView::NeedLangDirs { path: p + "/application/language/"@ },
            cfg,
        ),
        cfg.ci_path is None ==> start_spec(h, c, cfg) == (
            StepView::Done { result: Err("ci_path не установлен"@), save: false },
            cfg,
        ),
{
}

/// A language name as `langs-set` keeps it: not empty, without `,`, and
/// without whitespace at either end.
pub open spec fn clean_lang(x: Seq<char>) -> bool {
    &&& x.len() > 0
    &&& !x.contains(',')
    &&& !text::is_ws(x[0])
    &&& !text::is_ws(x.last())
}

proof fn lemma_no_comma_split(x: Seq<char>)
    requires
        !x.contains(','),
    ensures
        forall|m: int| !#[trigger] text::matches_at(x, ","@, m),
        text::split_seq(x, ","@) == seq![x],
{
    reveal_strlit(",");
    assert forall|m: int| !#[trigger] text::matches_at(x, ","@, m) by {
        if text::matches_at(x, ","@, m) {
            assert(x.subrange(m, m + 1)[0] == x[m]);
        }
    }
    text::lemma_split_from_no_match(x, ","@, 0, 0);
    assert(x.subrange(0, x.len() as int) =~= x);
}

proof fn lemma_split_join_commas(l: Seq<Seq<char>>)
    requires
        l.len() > 0,
        forall|i: int| 0 <= i < l.len() ==> !(#[trigger] l[i]).contains(','),
    ensures
        text::split_seq(text::join_seq(l, ","@), ","@) == l,
    decreases l.len(),
{
    reveal_strlit(",");
    if l.len() == 1 {
        lemma_no_comma_split(l[0]);
        assert(seq![l[0]] =~= l);
    } else {
        let rest = l.drop_first();
        assert forall|i: int| 0 <= i < rest.len() implies !(#[trigger] rest[i]).contains(',') by {
            assert(rest[i] == l[i + 1]);
        }
        lemma_split_join_commas(rest);
        assert(!l[0].contains(','));
        lemma_no_comma_split(l[0]);
        assert forall|m: int| 0 <= m < l[0].len() implies !#[trigger] text::matches_at(l[0] + ","@, ","@, m) by {
            assert((l[0] + ","@).subrange(m, m + 1) =~= l[0].subrange(m, m + 1));
            assert(!text::matches_at(l[0], ","@, m));
        }
        text::lemma_split_first(l[0], ","@, text::join_seq(rest, ","@));
        assert(seq![l[0]] + rest =~= l);
    }
}

/// `langs-set` reads back the list it is given: languages written with `,`
/// between them are, each trimmed, the languages set, in order.
pub proof fn lemma_parse_lang_list_join(l: Seq<Seq<char>>)
    requires
        l.len() > 0,
        forall|i: int| 0 <= i < l.len() ==> clean_lang(#[trigger] l[i]),
    ensures
        parse_lang_list(text::join_seq(l, ","@)) == l,
{
    assert forall|i: int| 0 <= i < l.len() implies !(#[trigger] l[i]).contains(',') by {
        assert(clean_lang(l[i]));
    }
    lemma_split_join_commas(l);
    let t = l.map_values(|x: Seq<char>| text::trimmed(x));
    assert forall|i: int| 0 <= i < l.len() implies t[i] == l[i] by {
        assert(clean_lang(l[i]));
        text::lemma_trim_of_clean(l[i]);
    }
    assert(t =~= l);
    lemma_filter_all(l);
}

proof fn lemma_filter_all(l: Seq<Seq<char>>)
    requires
        forall|i: int| 0 <= i < l.len() ==> (#[trigger] l[i]).len() > 0,
    ensures
        l.filter(|x: Seq<char>| x.len() > 0) == l,
    decreases l.len(),
{
    let p = |x: Seq<char>| x.len() > 0;
    if l.len() == 0 {
        assert(l.filter(p) =~= l) by {
            reveal(Seq::filter);
        }
    } else {
        let pre = l.drop_last();
        assert forall|i: int| 0 <= i < pre.len() implies (#[trigger] pre[i]).len() > 0 by {
            assert(pre[i] == l[i]);
        }
        lemma_filter_all(pre);
        assert(pre.push(l.last()) =~= l);
        pre.lemma_filter_push(l.last(), p);
    }
}

/// What the handlers do to the settings when they start: `ci_path` sets the
/// project path to the command's value and asks to save; `langs-set` sets
/// the languages (when it names any) and asks to save; the key handler sets
/// the key (when given) and asks to save. No other handler changes any
/// setting, and a step that does not ask to save changes nothing.
pub proof fn lemma_start_settings(h: Handler, c: CommandSpec, cfg: SettingsView)
    ensures
        ({
            let (st, cfg2) = start_spec(h, c, cfg);
            &&& h != Handler::CiPath ==> cfg2.ci_path == cfg.ci_path
            &&& h != Handler::LangsSet ==> cfg2.langs == cfg.langs
            &&& h != Handler::YandexKeySet ==> cfg2.yandexapikey == cfg.yandexapikey
            &&& h == Handler::CiPath ==> cfg2.ci_path == c.value && st == (StepView::Done {
                result: Ok("CI_PATH set = "@),
                save: true,
            })
            &&& h == Handler::YandexKeySet ==> match c.value {
                Some(k) => cfg2.yandexapikey == Some(k) && st matches StepView::Done { result: Ok(_), save: true },
                None => cfg2 == cfg && st matches StepView::Done { result: Err(_), save: false },
            }
            &&& h == Handler::LangsSet ==> match c.value {
                Some(v) => if parse_lang_list(v).len() > 0 {
                    cfg2.langs == Some(parse_lang_list(v)) && st matches StepView::Done { result: Ok(_), save: true }
                } else {
                    cfg2 == cfg && st matches StepView::Done { result: Err(_), save: false }
                },
                None => cfg2 == cfg && st matches StepView::Done { result: Err(_), save: false },
            }
            &&& !(st matches StepView::Done { save: true, .. }) ==> cfg2 == cfg
        }),
{
}

/// A copy of a list of strings.
pub fn copy_strings(v: &Vec<String>) -> (r: Vec<String>)
    ensures
        r.deep_view() == v.deep_view(),
{
    let mut r: Vec<String> = Vec::new();
    let mut i: usize = 0;
    while i < v.len()
        invariant
            i <= v@.len(),
            r.deep_view() == v.deep_view().take(i as int),
        decreases v.len() - i,
    {
        let ghost before = r.deep_view();
        r.push(v[i].clone());
        assert(r.deep_view() =~= before.push(v@[i as int]@));
        assert(v.deep_view().take(i + 1) =~= v.deep_view().take(i as int).push(v@[i as int]@));
        i = i + 1;
    }
    assert(v.deep_view().take(v@.len() as int) =~= v.deep_view());
    r
}

/// The languages that a `langs-set` value names.
pub fn parse_langs(value: &str) -> (r: Vec<String>)
    ensures
        r.deep_view() == parse_lang_list(value@),
{
    proof {
        reveal_strlit(",");
    }
    let parts = text::split(value, ",");
    let ghost trimmed_parts = parts.deep_view().map_values(|x: Seq<char>| text::trimmed(x));
    let ghost pred = |x: Seq<char>| x.len() > 0;
    let mut r: Vec<String> = Vec::new();
    let mut i: usize = 0;
    assert(r.deep_view() =~= trimmed_parts.take(0).filter(pred)) by {
        reveal(Seq::filter);
    }
    while i < parts.len()
        invariant
            i <= parts@.len(),
            trimmed_parts == parts.deep_view().map_values(|x: Seq<char>| text::trimmed(x)),
            pred == (|x: Seq<char>| x.len() > 0),
            r.deep_view() == trimmed_parts.take(i as int).filter(pred),
        decreases parts.len() - i,
    {
        let t = text::trim(parts[i].as_str());
        proof {
            assert(trimmed_parts.take(i + 1) =~= trimmed_parts.take(i as int).push(t@));
            trimmed_parts.take(i as int).lemma_filter_push(t@, pred);
        }
        if !t.as_str().is_empty() {
            let ghost before = r.deep_view();
            r.push(t);
            assert(r.deep_view() =~= before.push(t@));
        }
        i = i + 1;
    }
    assert(trimmed_parts.take(parts@.len() as int) =~= trimmed_parts);
    r
}

/// The answer of the folder handlers once the directory was listed, and the
/// settings after it.
pub open spec fn lang_dirs_spec(
    h: Handler,
    found: Result<Seq<Seq<char>>, Seq<char>>,
    cfg: SettingsView,
) -> (Result<Seq<char>, Seq<char>>, bool, SettingsView) {
    let prefix = if h == Handler::LangsFolders {
        "Отобразить список языков по папкам = "@
    } else {
        "Определить языки по папкам и сохранить их в конфиги = "@
    };
    match found {
        Err(e) => (Err(prefix + e), false, cfg),
        Ok(l) => if h == Handler::LangsFolders {
            (Ok(prefix + text::join_seq(l, ","@)), false, cfg)
        } else {
            (Ok(prefix + text::join_seq(l, ","@)), true, SettingsView { langs: Some(l), ..cfg })
        },
    }
}

/// Finishing the folder handlers: only `langs-foledrs-to-config`, and only
/// when the folder could be listed, stores the languages found (asking to
/// save them); `langs-foledrs` only shows them; an unreadable folder is an
/// error that changes nothing. Both answers list the languages joined by `,`.
pub proof fn lemma_lang_dirs(h: Handler, found: Result<Seq<Seq<char>>, Seq<char>>, cfg: SettingsView)
    requires
        h == Handler::LangsFolders || h == Handler::LangsFoldersToConfig,
    ensures
        ({
            let (res, save, cfg2) = lang_dirs_spec(h, found, cfg);
            &&& save <==> (h == Handler::LangsFoldersToConfig && found is Ok)
            &&& save ==> cfg2 == SettingsView { langs: Some(found->Ok_0), ..cfg }
            &&& !save ==> cfg2 == cfg
            &&& found is Ok ==> res == Ok::<Seq<char>, Seq<char>>(
                if h == Handler::LangsFolders {
                    "Отобразить список языков по папкам = "@
                } else {
                    "Определить языки по папкам и сохранить их в конфиги = "@
                } + text::join_seq(found->Ok_0, ","@),
            )
            &&& found is Err ==> res is Err
        }),
{
}

/// The languages found from a listing, as `get_langs_by_path` gives them.
pub open spec fn found_langs(entries: Option<Seq<(String, bool)>>) -> Result<Seq<Seq<char>>, Seq<char>> {
    match entries {
        None => Err(langs::bad_path_error()),
        Some(es) => Ok(langs::dir_names(langs::entries_view(es))),
    }
}

impl CiTools {
    /// Finishes `langs-foledrs` or `langs-foledrs-to-config` with the entries
    /// of the language directory (`None` where it could not be read): the
    /// answer, and whether the settings changed and must be saved.
    pub fn finish_lang_dirs(&mut self, h: Handler, entries: &Option<Vec<(String, bool)>>) -> (r: (
        Result<String, String>,
        bool,
    ))
        requires
            h == Handler::LangsFolders || h == Handler::LangsFoldersToConfig,
        ensures
            ({
                let (res, save, cfg) = lang_dirs_spec(
                    h,
                    found_langs(
                        match entries {
                            Some(es) => Some(es@),
                            None => None,
                        },
                    ),
                    old(self).config@,
                );
                &&& result_view(r.0) == res
                &&& r.1 == save
                &&& final(self).config@ == cfg
            }),
            final(self).events == old(self).events,
            final(self).run_events == old(self).run_events,
    {
        let ci_path = match &self.config.ci_path {
            Some(p) => p.clone(),
            None => String::new(),
        };
        let lang = CILangsTools::new(ci_path);
        let found = lang.get_langs_by_path(entries);
        let mut m = if h == Handler::LangsFolders {
            text::copy_str("Отобразить список языков по папкам = ")
        } else {
            text::copy_str("Определить языки по папкам и сохранить их в конфиги = ")
        };
        match found {
            Err(e) => {
                text::append_str(&mut m, e.as_str());
                (Err(m), false)
            },
            Ok(ans) => {
                let shown = text::join(&ans, ",");
                text::append_str(&mut m, shown.as_str());
                if h == Handler::LangsFolders {
                    (Ok(m), false)
                } else {
                    self.config.langs = Some(ans);
                    (Ok(m), true)
                }
            },
        }
    }

    /// Finishes `langs-show-can-translate-files` with the walk of each
    /// language's directory.
    pub fn finish_files(ci_path: String, langs: &Vec<String>, listings: &Vec<LangListing>) -> (r: Result<
        String,
        String,
    >)
        requires
            listings@.len() == langs@.len(),
            langs::listings_ok(listings@),
        ensures
            r matches Ok(t) && t@ == "Поиск не переведёных файлов: \n"@ + langs::files_report(
                langs::untranslated_files(
                    langs::langs_entries(langs::lang_root(ci_path@), langs.deep_view(), listings@, langs@.len() as int),
                    langs.deep_view(),
                ),
                langs.deep_view(),
            ),
    {
        let ls = copy_strings(langs);
        assert(ls@.len() == ls.deep_view().len() && langs@.len() == langs.deep_view().len());
        let files = CILangsTools::get_all_langs_files(ci_path, ls, listings);
        let report = CILangsTools::get_print_wasnt_translate_files(&files, langs);
        let mut m = text::copy_str("Поиск не переведёных файлов: \n");
        text::append_str(&mut m, report.as_str());
        Ok(m)
    }

    /// Finishes `langs-show-can-translate-word` with the rows of every file.
    pub fn finish_words(all: &Vec<FileRows>, langs: &Vec<String>) -> (r: Result<String, String>)
        requires
            forall|i: int| 0 <= i < all@.len() ==> langs::rows_wf(#[trigger] all@[i].rows),
        ensures
            r matches Ok(t) && t@ == "Поиск не переведёных слов: \n"@ + langs::words_report(
                crate::strmap::collect(langs::pending_words(langs::views_of(all@), langs.deep_view())),
                langs.deep_view(),
            ),
    {
        let report = CILangsTools::get_print_wasnt_translate_words(all, langs);
        let mut m = text::copy_str("Поиск не переведёных слов: \n");
        text::append_str(&mut m, report.as_str());
        Ok(m)
    }

    /// Finishes `langs-yandex-translate` with what the translation run reported.
    pub fn finish_translation(outcome: Result<String, String>) -> (r: Result<String, String>)
        ensures
            r matches Ok(t) && t@ == "Перевод через yandex-translate: \n"@ + match outcome {
                Ok(s) => s@,
                Err(s) => s@,
            },
    {
        let mut m = text::copy_str("Перевод через yandex-translate: \n");
        match &outcome {
            Ok(s) => text::append_str(&mut m, s.as_str()),
            Err(s) => text::append_str(&mut m, s.as_str()),
        }
        Ok(m)
    }

    /// Starts handler `h` for `command`: answers at once, changing the
    /// settings where the handler does, or names the outside work needed.
    pub fn start_handler(&mut self, h: Handler, command: &CiToolsCommand) -> (r: HandlerStep)
        ensures
            (r@, final(self).config@) == start_spec(h, command@, old(self).config@),
            final(self).events == old(self).events,
            final(self).run_events == old(self).run_events,
    {
        match h {
            Handler::Ping => HandlerStep::Done { result: Ok(text::copy_str("Ping: Pong")), save: false },
            Handler::Help => HandlerStep::Done { result: Ok(text::copy_str("\n- - -\nОсновные команды:\nhelp - Вывести справку\nci_path=[путь до корня CI проекта] - установить директорию проекта\n- - -\n")), save: false },
            Handler::CiPath => {
                self.config.ci_path = match &command.value {
                    Some(v) => Some(v.clone()),
                    None => None,
                };
                HandlerStep::Done { result: Ok(text::copy_str("CI_PATH set = ")), save: true }
            },
            Handler::LangsHelp => HandlerStep::Done { result: Ok(text::copy_str("langs-show - Список языковых из настроек\nlangs-foledrs - Список языков по папокам\nlangs-foledrs-to-config - Определить языки по папкам и сохранить их в конфиги\nlangs-set=[lang,lang,lang] - Установить языки\nlangs-show-can-translate-files - вывести не переведёные файлы\nlangs-show-can-translate-word - вывести не переведёные слова\nlangs-yandex-translate-key-show - вывести ключ от yandex-translate\nlangs-yandex-translate-key-set - установить ключ от yandex-translate\nlangs-yandex-translate - перевести не переведённые фразы через yandex-translate\n\n- - -\n")), save: false },
            Handler::LangsShow => {
                let shown = match &self.config.langs {
                    Some(list) => text::join(list, ","),
                    None => text::copy_str(" Нет данных"),
                };
                let mut m = text::copy_str("Список языков из настроек = ");
                text::append_str(&mut m, shown.as_str());
                HandlerStep::Done { result: Ok(m), save: false }
            },
            Handler::LangsFolders | Handler::LangsFoldersToConfig => match &self.config.ci_path {
                None => HandlerStep::Done { result: Err(text::copy_str("ci_path не установлен")), save: false },
                Some(p) => HandlerStep::NeedLangDirs { path: CILangsTools::lang_root_path(p.as_str()) },
            },
            Handler::LangsSet => match &command.value {
                None => HandlerStep::Done {
                    result: Err(text::copy_str("Установить языки = параметры не переданны")),
                    save: false,
                },
                Some(v) => {
                    let list = parse_langs(v.as_str());
                    if list.len() == 0 {
                        HandlerStep::Done {
                            result: Err(text::copy_str("Установить языки = Нет параметров")),
                            save: false,
                        }
                    } else {
                        let shown = text::join(&list, ",");
                        self.config.langs = Some(list);
                        let mut m = text::copy_str("Установить языки = ");
                        text::append_str(&mut m, shown.as_str());
                        HandlerStep::Done { result: Ok(m), save: true }
                    }
                },
            },
            Handler::LangsShowFiles | Handler::LangsShowWords => match (&self.config.ci_path, &self.config.langs) {
                (None, _) => HandlerStep::Done {
                    result: Err(text::copy_str("Поиск не переведёных = Каталог проект не установлен")),
                    save: false,
                },
                (Some(_), None) => HandlerStep::Done {
                    result: Err(text::copy_str("Поиск не переведёных = Языки не установлены")),
                    save: false,
                },
                (Some(p), Some(l)) => {
                    if h == Handler::LangsShowFiles {
                        HandlerStep::NeedFiles { ci_path: p.clone(), langs: copy_strings(l) }
                    } else {
                        HandlerStep::NeedWords { ci_path: p.clone(), langs: copy_strings(l) }
                    }
                },
            },
            Handler::YandexKeyShow => {
                let mut m = text::copy_str("Ключ от yandex-translate: ");
                match &self.config.yandexapikey {
                    Some(k) => text::append_str(&mut m, k.as_str()),
                    None => text::append_str(&mut m, " Не установлен"),
                }
                HandlerStep::Done { result: Ok(m), save: false }
            },
            Handler::YandexKeySet => match &command.value {
                None => HandlerStep::Done {
                    result: Err(text::copy_str("установить ключ от yandex-translate: Значение не переданно")),
                    save: false,
                },
                Some(k) => {
                    self.config.yandexapikey = Some(k.clone());
                    let mut m = text::copy_str("Установлен ключ от yandex-translate: ");
                    text::append_str(&mut m, k.as_str());
                    text::append_str(&mut m, "\n");
                    HandlerStep::Done { result: Ok(m), save: true }
                },
            },
            Handler::YandexTranslate => match (&self.config.ci_path, &self.config.langs, &self.config.yandexapikey) {
                (None, _, _) => HandlerStep::Done {
                    result: Err(text::copy_str("Перевод через yandex-translate = Каталог проект не установлен")),
                    save: false,
                },
                (Some(_), None, _) => HandlerStep::Done {
                    result: Err(text::copy_str("Перевод через yandex-translate = Языки не установлены")),
                    save: false,
                },
                (Some(_), Some(_), None) => HandlerStep::Done {
                    result: Err(text::copy_str("Перевод фраз через yandex-translate = yandex-key не установлен")),
                    save: false,
                },
                (Some(p), Some(l), Some(k)) => HandlerStep::NeedTranslation {
                    ci_path: p.clone(),
                    langs: copy_strings(l),
                    key: k.clone(),
                },
            },
        }
    }
}

} // verus!
