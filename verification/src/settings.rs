use vstd::prelude::*;

verus! {

/// The tool's settings: the project directory, the project's languages and
/// the key of the translation service.
pub struct CiToolsSettings {
    pub ci_path: Option<String>,
    pub langs: Option<Vec<String>>,
    pub yandexapikey: Option<String>,
}

/// What the settings hold, as character sequences.
pub struct SettingsView {
    pub ci_path: Option<Seq<char>>,
    pub langs: Option<Seq<Seq<char>>>,
    pub yandexapikey: Option<Seq<char>>,
}

impl View for CiToolsSettings {
    type V = SettingsView;

    open spec fn view(&self) -> SettingsView {
        SettingsView {
            ci_path: match self.ci_path {
                Some(p) => Some(p@),
                None => None,
            },
            langs: match self.langs {
                Some(l) => Some(l.deep_view()),
                None => None,
            },
            yandexapikey: match self.yandexapikey {
                Some(k) => Some(k@),
                None => None,
            },
        }
    }
}

impl CiToolsSettings {
    /// The settings that were loaded, or, when none could be, empty ones.
    pub fn new(loaded: Option<CiToolsSettings>) -> (r: CiToolsSettings)
        ensures
            match loaded {
                Some(s) => r == s,
                None => r.ci_path is None && r.langs is None && r.yandexapikey is None,
            },
    {
        match loaded {
            Some(t) => t,
            None => CiToolsSettings { ci_path: None, langs: None, yandexapikey: None },
        }
    }
}

} // verus!
