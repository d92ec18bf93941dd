use vstd::prelude::*;
use crate::strmap::StrMap;
use crate::strmap;
use crate::text;
use crate::command::CiToolsCommand;
use crate::command::CommandSpec;
use crate::settings::CiToolsSettings;

verus! {

/// The handlers that commands can run.
#[derive(Clone, Copy, PartialEq, Eq, Structural)]
pub enum Handler {
    Ping,
    Help,
    CiPath,
    LangsHelp,
    LangsShow,
    LangsFolders,
    LangsFoldersToConfig,
    LangsSet,
    LangsShowFiles,
    LangsShowWords,
    YandexKeyShow,
    YandexKeySet,
    YandexTranslate,
}

/// The tool: the handlers registered for each command name, the commands
/// to run, and the settings.
pub struct CiTools {
    pub events: Option<StrMap<Vec<Handler>>>,
    pub run_events: Option<Vec<CiToolsCommand>>,
    pub config: CiToolsSettings,
}

/// The registered handlers, as a list of names with their handlers.
pub open spec fn events_list(events: Option<StrMap<Vec<Handler>>>) -> Seq<(Seq<char>, Seq<Handler>)> {
    match events {
        Some(m) => m@,
        None => Seq::empty(),
    }
}

/// The registry after registering `f` for `name`: appended to the handlers of
/// `name`, which becomes a new last entry when it had none.
pub open spec fn register_spec(l: Seq<(Seq<char>, Seq<Handler>)>, name: Seq<char>, f: Handler) -> Seq<
    (Seq<char>, Seq<Handler>),
> {
    strmap::upsert(
        l,
        name,
        match strmap::seq_lookup(l, name) {
            Some(hs) => hs.push(f),
            None => seq![f],
        },
    )
}

/// The commands to run, as views.
pub open spec fn commands_list(run_events: Option<Vec<CiToolsCommand>>) -> Seq<CommandSpec> {
    match run_events {
        Some(v) => Seq::new(v@.len(), |i: int| v@[i]@),
        None => Seq::empty(),
    }
}

/// The registry has each name once.
pub open spec fn events_wf(events: Option<StrMap<Vec<Handler>>>) -> bool {
    match events {
        Some(m) => m.wf(),
        None => true,
    }
}

impl CiTools {
    /// Registers `f` to run for commands named `name`, after the handlers
    /// already registered for it.
    pub fn register_exec_function(&mut self, name: String, f: Handler) -> (r: &mut CiTools)
        requires
            events_wf(old(self).events),
        ensures
            *final(self) == *final(r),
            events_wf(r.events),
            r.events is Some,
            events_list(r.events) == register_spec(events_list(old(self).events), name@, f),
            r.run_events == old(self).run_events,
            r.config == old(self).config,
    {
        let mut exec: StrMap<Vec<Handler>> = match self.events.take() {
            Some(m) => m,
            None => StrMap::new(),
        };
        let ghost before = exec;
        assert(before@ == events_list(old(self).events));
        proof {
            before.lemma_view_lookup(name@);
        }
        match exec.find(name.as_str()) {
            Some(i) => {
                proof {
                    before.lemma_lookup_at(i as int);
                }
                let mut list = exec.value_at(i).clone();
                assert(list@ =~= exec.vals()[i as int]@);
                list.push(f);
                exec.put(name, list);
            },
            None => {
                let mut list: Vec<Handler> = Vec::new();
                list.push(f);
                assert(list@ =~= seq![f]);
                exec.put(name, list);
            },
        }
        self.events = Some(exec);
        self
    }

    /// Adds the command that `comand` stands for, if any, to the commands to run.
    pub fn add_command(&mut self, comand: String) -> (r: &mut CiTools)
        ensures
            *final(self) == *final(r),
            r.events == old(self).events,
            r.config == old(self).config,
            match crate::command::parse_command(comand@) {
                None => r.run_events == old(self).run_events,
                Some(c) => r.run_events is Some && commands_list(r.run_events)
                    == commands_list(old(self).run_events).push(c),
            },
    {
        if let Some(x) = CiToolsCommand::new_by_argv(comand) {
            let ghost xv = x@;
            let mut t: Vec<CiToolsCommand> = match self.run_events.take() {
                Some(v) => v,
                None => Vec::new(),
            };
            let ghost before = t@;
            t.push(x);
            self.run_events = Some(t);
            proof {
                assert(commands_list(self.run_events) =~= commands_list(old(self).run_events).push(xv));
            }
        }
        self
    }

    /// Adds the commands of the arguments, all but the first (the program).
    pub fn add_system_args(&mut self, system_args: Vec<String>) -> (r: &mut CiTools)
        ensures
            *final(self) == *final(r),
            r.events == old(self).events,
            r.config == old(self).config,
            commands_list(r.run_events) == commands_of(
                commands_list(old(self).run_events),
                system_args.deep_view(),
                1,
                system_args@.len() as int,
            ),
            (old(self).run_events is Some || commands_of(Seq::empty(), system_args.deep_view(), 1, system_args@.len() as int).len() > 0) <==> r.run_events is Some,
    {
        let mut i: usize = 1;
        while i < system_args.len()
            invariant
                1 <= i,
                i <= system_args@.len() || i == 1,
                self.events == old(self).events,
                self.config == old(self).config,
                commands_list(self.run_events) == commands_of(
                    commands_list(old(self).run_events),
                    system_args.deep_view(),
                    1,
                    i as int,
                ),
                (old(self).run_events is Some || commands_of(Seq::empty(), system_args.deep_view(), 1, i as int).len() > 0) <==> self.run_events is Some,
            decreases system_args.len() - i,
        {
            self.add_command(system_args[i].clone());
            i = i + 1;
        }
        proof {
            if system_args@.len() == 0 {
                assert(commands_of(commands_list(old(self).run_events), system_args.deep_view(), 1, 0)
                    == commands_list(old(self).run_events));
                assert(commands_of(Seq::empty(), system_args.deep_view(), 1, 1) == commands_of(Seq::empty(), system_args.deep_view(), 1, 0));
            }
        }
        self
    }
}

/// The registry after registering each handler of `ps` for its name, in order.
pub open spec fn register_all(l: Seq<(Seq<char>, Seq<Handler>)>, ps: Seq<(Seq<char>, Handler)>) -> Seq<
    (Seq<char>, Seq<Handler>),
>
    decreases ps.len(),
{
    if ps.len() == 0 {
        l
    } else {
        register_spec(register_all(l, ps.drop_last()), ps.last().0, ps.last().1)
    }
}

/// The handlers every tool has.
pub open spec fn default_handlers() -> Seq<(Seq<char>, Handler)> {
    seq![("ping"@, Handler::Ping), ("help"@, Handler::Help), ("ci_path"@, Handler::CiPath)]
}

/// The handlers of the language commands.
pub open spec fn lang_handlers() -> Seq<(Seq<char>, Handler)> {
    seq![
        ("help"@, Handler::LangsHelp),
        ("langs-show"@, Handler::LangsShow),
        ("langs-foledrs"@, Handler::LangsFolders),
        ("langs-foledrs-to-config"@, Handler::LangsFoldersToConfig),
        ("langs-set"@, Handler::LangsSet),
        ("langs-show-can-translate-files"@, Handler::LangsShowFiles),
        ("langs-show-can-translate-word"@, Handler::LangsShowWords),
        ("langs-yandex-translate-key-show"@, Handler::YandexKeyShow),
        ("langs-yandex-translate-key-set"@, Handler::YandexKeySet),
        ("langs-yandex-translate"@, Handler::YandexTranslate),
    ]
}

/// The pairs of names and handlers, as views.
pub open spec fn pairs_view(v: Seq<(String, Handler)>) -> Seq<(Seq<char>, Handler)> {
    Seq::new(v.len(), |i: int| (v[i].0@, v[i].1))
}

/// What each command runs, in order: each command with each handler
/// registered for its name.
pub open spec fn run_plan_spec(events: Seq<(Seq<char>, Seq<Handler>)>, cmds: Seq<CommandSpec>) -> Seq<
    (CommandSpec, Handler),
> {
    cmds.map_values(
        |c: CommandSpec|
            match strmap::seq_lookup(events, c.name) {
                Some(hs) => hs.map_values(|h: Handler| (c, h)),
                None => Seq::empty(),
            },
    ).flatten()
}

/// How the registry is shown: its names between brackets, or `None`.
pub open spec fn events_text(events: Option<Seq<(Seq<char>, Seq<Handler>)>>) -> Seq<char> {
    match events {
        None => "None"@,
        Some(l) => "["@ + text::join_seq(l.map_values(|e: (Seq<char>, Seq<Handler>)| e.0), ","@) + "]"@,
    }
}

/// How a command is shown: `name=value` or `name`.
pub open spec fn command_text(c: CommandSpec) -> Seq<char> {
    match c.value {
        Some(v) => c.name + "="@ + v,
        None => c.name,
    }
}

/// How the commands to run are shown: between brackets, or `None`.
pub open spec fn commands_text(cmds: Option<Seq<CommandSpec>>) -> Seq<char> {
    match cmds {
        None => "None"@,
        Some(l) => "["@ + text::join_seq(l.map_values(|c: CommandSpec| command_text(c)), ","@) + "]"@,
    }
}

impl CiTools {
    /// Registers each handler of `pairs` for its name, in order.
    fn register_pairs(&mut self, pairs: Vec<(String, Handler)>)
        requires
            events_wf(old(self).events),
        ensures
            events_wf(final(self).events),
            events_list(final(self).events) == register_all(events_list(old(self).events), pairs_view(pairs@)),
            pairs@.len() > 0 ==> final(self).events is Some,
            pairs@.len() == 0 ==> final(self).events == old(self).events,
            final(self).run_events == old(self).run_events,
            final(self).config == old(self).config,
    {
        let mut i: usize = 0;
        while i < pairs.len()
            invariant
                i <= pairs@.len(),
                events_wf(self.events),
                events_list(self.events) == register_all(events_list(old(self).events), pairs_view(pairs@).take(i as int)),
                i > 0 ==> self.events is Some,
                i == 0 ==> self.events == old(self).events,
                self.run_events == old(self).run_events,
                self.config == old(self).config,
            decreases pairs.len() - i,
        {
            proof {
                assert(pairs_view(pairs@).take(i + 1).drop_last() =~= pairs_view(pairs@).take(i as int));
            }
            self.register_exec_function(pairs[i].0.clone(), pairs[i].1);
            i = i + 1;
        }
        assert(pairs_view(pairs@).take(pairs@.len() as int) =~= pairs_view(pairs@));
    }

    /// Registers the handlers every tool has: `ping`, `help` and `ci_path`.
    pub fn add_default_exec_function(&mut self) -> (r: &mut CiTools)
        requires
            events_wf(old(self).events),
        ensures
            *final(self) == *final(r),
            events_wf(r.events),
            r.events is Some,
            events_list(r.events) == register_all(events_list(old(self).events), default_handlers()),
            r.run_events == old(self).run_events,
            r.config == old(self).config,
    {
        let mut pairs: Vec<(String, Handler)> = Vec::new();
        pairs.push((text::copy_str("ping"), Handler::Ping));
        pairs.push((text::copy_str("help"), Handler::Help));
        pairs.push((text::copy_str("ci_path"), Handler::CiPath));
        assert(pairs_view(pairs@) =~= default_handlers());
        self.register_pairs(pairs);
        self
    }

    /// The tool for the command line `system_args` (the program first), with
    /// the settings that were loaded, if any.
    pub fn new(system_args: Vec<String>, loaded: Option<CiToolsSettings>) -> (r: CiTools)
        ensures
            events_wf(r.events),
            r.events is Some,
            events_list(r.events) == register_all(register_all(Seq::empty(), default_handlers()), lang_handlers()),
            commands_list(r.run_events) == commands_of(Seq::empty(), system_args.deep_view(), 1, system_args@.len() as int),
            r.run_events is Some <==> commands_of(Seq::empty(), system_args.deep_view(), 1, system_args@.len() as int).len() > 0,
            match loaded {
                Some(s) => r.config == s,
                None => r.config.ci_path is None && r.config.langs is None && r.config.yandexapikey is None,
            },
    {
        let mut n = CiTools {
            events: None,
            run_events: None,
            config: CiToolsSettings::new(loaded),
        };
        n.add_default_exec_function().add_system_args(system_args);
        crate::langs::CILangsTools::inic_exec_citools(&mut n);
        n
    }

    /// What the commands to run run, in order: each command with each
    /// handler registered for its name.
    pub fn run_plan(&self) -> (r: Vec<(CiToolsCommand, Handler)>)
        requires
            events_wf(self.events),
        ensures
            Seq::new(r@.len(), |i: int| (r@[i].0@, r@[i].1)) == run_plan_spec(
                events_list(self.events),
                commands_list(self.run_events),
            ),
    {
        let ghost g = |c: CommandSpec|
            match strmap::seq_lookup(events_list(self.events), c.name) {
                Some(hs) => hs.map_values(|h: Handler| (c, h)),
                None => Seq::empty(),
            };
        let mut r: Vec<(CiToolsCommand, Handler)> = Vec::new();
        let ghost rv = |r: Seq<(CiToolsCommand, Handler)>| Seq::new(r.len(), |i: int| (r[i].0@, r[i].1));
        match (&self.run_events, &self.events) {
            (Some(cmds), Some(exec)) => {
                let mut i: usize = 0;
                while i < cmds.len()
                    invariant
                        i <= cmds@.len(),
                        self.run_events == Some(*cmds),
                        self.events == Some(*exec),
                        exec.wf(),
                        g == (|c: CommandSpec|
                            match strmap::seq_lookup(events_list(self.events), c.name) {
                                Some(hs) => hs.map_values(|h: Handler| (c, h)),
                                None => Seq::empty(),
                            }),
                        Seq::new(r@.len(), |k: int| (r@[k].0@, r@[k].1)) == commands_list(self.run_events).take(i as int).map_values(g).flatten(),
                    decreases cmds.len() - i,
                {
                    let c = &cmds[i];
                    let ghost cv = c@;
                    let ghost start = Seq::new(r@.len(), |k: int| (r@[k].0@, r@[k].1));
                    proof {
                        assert(commands_list(self.run_events).take(i + 1).map_values(g) =~= commands_list(self.run_events).take(i as int).map_values(g).push(g(cv)));
                        commands_list(self.run_events).take(i as int).map_values(g).lemma_flatten_push(g(cv));
                        exec.lemma_view_lookup(cv.name);
                    }
                    match exec.get(c.name.as_str()) {
                        Some(hs) => {
                            let mut j: usize = 0;
                            while j < hs.len()
                                invariant
                                    j <= hs@.len(),
                                    c@ == cv,
                                    Seq::new(r@.len(), |k: int| (r@[k].0@, r@[k].1)) == start + hs@.take(j as int).map_values(|h: Handler| (cv, h)),
                                decreases hs.len() - j,
                            {
                                let ghost before = Seq::new(r@.len(), |k: int| (r@[k].0@, r@[k].1));
                                let ghost br = r@;
                                let cc = c.copy();
                                let h = hs[j];
                                r.push((cc, h));
                                assert(hs@.take(j + 1) =~= hs@.take(j as int).push(h));
                                assert(hs@.take(j + 1).map_values(|h: Handler| (cv, h)) =~= hs@.take(j as int).map_values(|h: Handler| (cv, h)).push((cv, h)));
                                assert(r@ == br.push((cc, h)));
                                assert(Seq::new(r@.len(), |k: int| (r@[k].0@, r@[k].1)) =~= before.push((cv, h)));
                                assert(Seq::new(r@.len(), |k: int| (r@[k].0@, r@[k].1)) =~= start + hs@.take(j + 1).map_values(|h: Handler| (cv, h)));
                                j = j + 1;
                            }
                            assert(hs@.take(hs@.len() as int) =~= hs@);
                        },
                        None => {
                            assert(g(cv) =~= Seq::<(CommandSpec, Handler)>::empty());
                            assert(start + g(cv) =~= start);
                        },
                    }
                    i = i + 1;
                }
                assert(commands_list(self.run_events).take(cmds@.len() as int) =~= commands_list(self.run_events));
            },
            _ => {
                assert(commands_list(self.run_events).map_values(g).flatten() =~= Seq::empty()) by {
                    if self.run_events is Some {
                        assert forall|k: int| 0 <= k < commands_list(self.run_events).len() implies #[trigger] g(commands_list(self.run_events)[k]) =~= Seq::<(CommandSpec, Handler)>::empty() by {
                        }
                        lemma_flatten_empties(commands_list(self.run_events).map_values(g));
                    }
                }
                assert(Seq::new(r@.len(), |k: int| (r@[k].0@, r@[k].1)) =~= Seq::<(CommandSpec, Handler)>::empty());
            },
        }
        r
    }

    /// The registry and the commands to run, as `Debug` shows the tool.
    pub fn debug_string(&self) -> (r: String)
        ensures
            r@ == "events: "@ + events_text(
                match self.events {
                    Some(m) => Some(m@),
                    None => None,
                },
            ) + "\nruns: "@ + commands_text(
                match self.run_events {
                    Some(v) => Some(commands_list(self.run_events)),
                    None => None,
                },
            ),
    {
        let mut r = text::copy_str("events: ");
        let e = self.debug_events();
        text::append_str(&mut r, e.as_str());
        text::append_str(&mut r, "\nruns: ");
        let c = self.debug_commands();
        text::append_str(&mut r, c.as_str());
        r
    }

    /// The registered command names, as `[name,name]`, or `None`.
    pub fn debug_events(&self) -> (r: String)
        ensures
            r@ == events_text(
                match self.events {
                    Some(m) => Some(m@),
                    None => None,
                },
            ),
    {
        match &self.events {
            Some(list) => {
                let keys = crate::langs::keys_vec(list);
                let mut r = text::copy_str("[");
                let j = text::join(&keys, ",");
                text::append_str(&mut r, j.as_str());
                text::append_str(&mut r, "]");
                proof {
                    assert(list@.map_values(|e: (Seq<char>, Seq<Handler>)| e.0) =~= crate::langs::keys_of(list@));
                }
                r
            },
            None => text::copy_str("None"),
        }
    }

    /// The commands to run, as `[name=value,name]`, or `None`.
    pub fn debug_commands(&self) -> (r: String)
        ensures
            r@ == commands_text(
                match self.run_events {
                    Some(v) => Some(commands_list(self.run_events)),
                    None => None,
                },
            ),
    {
        match &self.run_events {
            Some(list) => {
                let mut parts: Vec<String> = Vec::new();
                let mut i: usize = 0;
                while i < list.len()
                    invariant
                        i <= list@.len(),
                        self.run_events == Some(*list),
                        parts.deep_view() == commands_list(self.run_events).take(i as int).map_values(|c: CommandSpec| command_text(c)),
                    decreases list.len() - i,
                {
                    let x = &list[i];
                    let part = match &x.value {
                        Some(v) => {
                            let mut p = x.name.clone();
                            text::append_str(&mut p, "=");
                            text::append_str(&mut p, v.as_str());
                            p
                        },
                        None => x.name.clone(),
                    };
                    let ghost before = parts.deep_view();
                    parts.push(part);
                    assert(parts.deep_view() =~= before.push(part@));
                    assert(commands_list(self.run_events).take(i + 1).map_values(|c: CommandSpec| command_text(c)) =~= commands_list(self.run_events).take(i as int).map_values(|c: CommandSpec| command_text(c)).push(command_text(x@)));
                    i = i + 1;
                }
                assert(commands_list(self.run_events).take(list@.len() as int) =~= commands_list(self.run_events));
                let mut r = text::copy_str("[");
                let j = text::join(&parts, ",");
                text::append_str(&mut r, j.as_str());
                text::append_str(&mut r, "]");
                r
            },
            None => text::copy_str("None"),
        }
    }
}

/// Registering a handler for a name appends it to the handlers of that name,
/// after those registered before (it is the first when there were none),
/// leaves every other name's handlers as they were, and keeps each name once.
pub proof fn lemma_register_lookup(l: Seq<(Seq<char>, Seq<Handler>)>, name: Seq<char>, f: Handler, k: Seq<char>)
    requires
        strmap::distinct_keys(l),
    ensures
        strmap::distinct_keys(register_spec(l, name, f)),
        strmap::seq_lookup(register_spec(l, name, f), name) == Some(
            match strmap::seq_lookup(l, name) {
                Some(hs) => hs.push(f),
                None => seq![f],
            },
        ),
        k != name ==> strmap::seq_lookup(register_spec(l, name, f), k) == strmap::seq_lookup(l, k),
{
    let hs = match strmap::seq_lookup(l, name) {
        Some(hs) => hs.push(f),
        None => seq![f],
    };
    strmap::lemma_upsert_lookup(l, name, hs, k);
}

/// The handlers that `ps` registers for `k`, in order.
pub open spec fn handlers_for(ps: Seq<(Seq<char>, Handler)>, k: Seq<char>) -> Seq<Handler>
    decreases ps.len(),
{
    if ps.len() == 0 {
        Seq::empty()
    } else {
        handlers_for(ps.drop_last(), k) + if ps.last().0 == k {
            seq![ps.last().1]
        } else {
            Seq::empty()
        }
    }
}

/// Registering a list of handlers: a name finds the handlers it had, then
/// those the list registers for it, in order; a name the list does not
/// mention finds what it found before.
pub proof fn lemma_register_all_lookup(l: Seq<(Seq<char>, Seq<Handler>)>, ps: Seq<(Seq<char>, Handler)>, k: Seq<char>)
    requires
        strmap::distinct_keys(l),
    ensures
        strmap::distinct_keys(register_all(l, ps)),
        strmap::seq_lookup(register_all(l, ps), k) == match strmap::seq_lookup(l, k) {
            Some(hs) => Some(hs + handlers_for(ps, k)),
            None => if handlers_for(ps, k).len() == 0 {
                None
            } else {
                Some(handlers_for(ps, k))
            },
        },
    decreases ps.len(),
{
    if ps.len() == 0 {
        match strmap::seq_lookup(l, k) {
            Some(hs) => {
                assert(hs + handlers_for(ps, k) =~= hs);
            },
            None => {},
        }
    } else {
        let pre = ps.drop_last();
        lemma_register_all_lookup(l, pre, k);
        let prev = register_all(l, pre);
        lemma_register_lookup(prev, ps.last().0, ps.last().1, k);
        if ps.last().0 == k {
            match strmap::seq_lookup(l, k) {
                Some(hs) => {
                    assert(hs + handlers_for(pre, k) + seq![ps.last().1] =~= hs + handlers_for(ps, k));
                },
                None => {
                    if handlers_for(pre, k).len() == 0 {
                        assert(handlers_for(ps, k) =~= seq![ps.last().1]);
                    } else {
                        assert(handlers_for(pre, k).push(ps.last().1) =~= handlers_for(ps, k));
                    }
                },
            }
        } else {
            assert(handlers_for(ps, k) =~= handlers_for(pre, k));
        }
    }
}

/// The handlers that a new tool has registered: `ping`, `help` (the main
/// help, then the language commands' help), `ci_path`, and one handler for
/// each language command, each under its own name; any other name has none.
pub proof fn lemma_tool_handlers(k: Seq<char>)
    ensures
        ({
            let e = register_all(register_all(Seq::empty(), default_handlers()), lang_handlers());
            let names = seq![
                "ping"@,
                "help"@,
                "ci_path"@,
                "langs-show"@,
                "langs-foledrs"@,
                "langs-foledrs-to-config"@,
                "langs-set"@,
                "langs-show-can-translate-files"@,
                "langs-show-can-translate-word"@,
                "langs-yandex-translate-key-show"@,
                "langs-yandex-translate-key-set"@,
                "langs-yandex-translate"@,
            ];
            &&& strmap::seq_lookup(e, "ping"@) == Some(seq![Handler::Ping])
            &&& strmap::seq_lookup(e, "help"@) == Some(seq![Handler::Help, Handler::LangsHelp])
            &&& strmap::seq_lookup(e, "ci_path"@) == Some(seq![Handler::CiPath])
            &&& strmap::seq_lookup(e, "langs-show"@) == Some(seq![Handler::LangsShow])
            &&& strmap::seq_lookup(e, "langs-foledrs"@) == Some(seq![Handler::LangsFolders])
            &&& strmap::seq_lookup(e, "langs-foledrs-to-config"@) == Some(seq![Handler::LangsFoldersToConfig])
            &&& strmap::seq_lookup(e, "langs-set"@) == Some(seq![Handler::LangsSet])
            &&& strmap::seq_lookup(e, "langs-show-can-translate-files"@) == Some(seq![Handler::LangsShowFiles])
            &&& strmap::seq_lookup(e, "langs-show-can-translate-word"@) == Some(seq![Handler::LangsShowWords])
            &&& strmap::seq_lookup(e, "langs-yandex-translate-key-show"@) == Some(seq![Handler::YandexKeyShow])
            &&& strmap::seq_lookup(e, "langs-yandex-translate-key-set"@) == Some(seq![Handler::YandexKeySet])
            &&& strmap::seq_lookup(e, "langs-yandex-translate"@) == Some(seq![Handler::YandexTranslate])
            &&& !names.contains(k) ==> strmap::seq_lookup(e, k) is None
        }),
{
    reveal_strlit("ping");
    reveal_strlit("help");
    reveal_strlit("ci_path");
    reveal_strlit("langs-show");
    reveal_strlit("langs-foledrs");
    reveal_strlit("langs-foledrs-to-config");
    reveal_strlit("langs-set");
    reveal_strlit("langs-show-can-translate-files");
    reveal_strlit("langs-show-can-translate-word");
    reveal_strlit("langs-yandex-translate-key-show");
    reveal_strlit("langs-yandex-translate-key-set");
    reveal_strlit("langs-yandex-translate");
    assert("ping"@.len() == 4);
    assert("help"@.len() == 4);
    assert("ci_path"@.len() == 7);
    assert("langs-show"@.len() == 10);
    assert("langs-foledrs"@.len() == 13);
    assert("langs-foledrs-to-config"@.len() == 23);
    assert("langs-set"@.len() == 9);
    assert("langs-show-can-translate-files"@.len() == 30);
    assert("langs-show-can-translate-word"@.len() == 29);
    assert("langs-yandex-translate-key-show"@.len() == 31);
    assert("langs-yandex-translate-key-set"@.len() == 30);
    assert("langs-yandex-translate"@.len() == 22);
    assert("langs-show-can-translate-files"@ != "langs-yandex-translate-key-set"@) by {
        assert("langs-show-can-translate-files"@[6] != "langs-yandex-translate-key-set"@[6]);
    }
    assert("ping"@ != "help"@) by {
        assert("ping"@[0] != "help"@[0]);
    }
    lemma_tool_handlers_at("ping"@);
    assert(handlers_for(lang_handlers(), "ping"@) =~= Seq::<Handler>::empty());
    assert(handlers_for(default_handlers(), "ping"@) =~= seq![Handler::Ping]);
    assert(handlers_for(default_handlers(), "ping"@) + handlers_for(lang_handlers(), "ping"@) =~= seq![Handler::Ping]);
    lemma_tool_handlers_at("help"@);
    assert(handlers_for(lang_handlers(), "help"@) =~= seq![Handler::LangsHelp]);
    assert(handlers_for(default_handlers(), "help"@) =~= seq![Handler::Help]);
    assert(handlers_for(default_handlers(), "help"@) + handlers_for(lang_handlers(), "help"@) =~= seq![Handler::Help, Handler::LangsHelp]);
    lemma_tool_handlers_at("ci_path"@);
    assert(handlers_for(default_handlers(), "ci_path"@) + handlers_for(lang_handlers(), "ci_path"@) =~= seq![Handler::CiPath]);
    lemma_tool_handlers_at("langs-show"@);
    assert(handlers_for(default_handlers(), "langs-show"@) + handlers_for(lang_handlers(), "langs-show"@) =~= seq![Handler::LangsShow]);
    lemma_tool_handlers_at("langs-foledrs"@);
    assert(handlers_for(default_handlers(), "langs-foledrs"@) + handlers_for(lang_handlers(), "langs-foledrs"@) =~= seq![Handler::LangsFolders]);
    lemma_tool_handlers_at("langs-foledrs-to-config"@);
    assert(handlers_for(default_handlers(), "langs-foledrs-to-config"@) + handlers_for(lang_handlers(), "langs-foledrs-to-config"@) =~= seq![Handler::LangsFoldersToConfig]);
    lemma_tool_handlers_at("langs-set"@);
    assert(handlers_for(default_handlers(), "langs-set"@) + handlers_for(lang_handlers(), "langs-set"@) =~= seq![Handler::LangsSet]);
    lemma_tool_handlers_at("langs-show-can-translate-files"@);
    assert(handlers_for(default_handlers(), "langs-show-can-translate-files"@) + handlers_for(lang_handlers(), "langs-show-can-translate-files"@) =~= seq![Handler::LangsShowFiles]);
    lemma_tool_handlers_at("langs-show-can-translate-word"@);
    assert(handlers_for(default_handlers(), "langs-show-can-translate-word"@) + handlers_for(lang_handlers(), "langs-show-can-translate-word"@) =~= seq![Handler::LangsShowWords]);
    lemma_tool_handlers_at("langs-yandex-translate-key-show"@);
    assert(handlers_for(default_handlers(), "langs-yandex-translate-key-show"@) + handlers_for(lang_handlers(), "langs-yandex-translate-key-show"@) =~= seq![Handler::YandexKeyShow]);
    lemma_tool_handlers_at("langs-yandex-translate-key-set"@);
    assert(handlers_for(default_handlers(), "langs-yandex-translate-key-set"@) + handlers_for(lang_handlers(), "langs-yandex-translate-key-set"@) =~= seq![Handler::YandexKeySet]);
    lemma_tool_handlers_at("langs-yandex-translate"@);
    assert(handlers_for(default_handlers(), "langs-yandex-translate"@) + handlers_for(lang_handlers(), "langs-yandex-translate"@) =~= seq![Handler::YandexTranslate]);
    lemma_tool_handlers_at(k);
    let names = seq!["ping"@, "help"@, "ci_path"@, "langs-show"@, "langs-foledrs"@, "langs-foledrs-to-config"@, "langs-set"@, "langs-show-can-translate-files"@, "langs-show-can-translate-word"@, "langs-yandex-translate-key-show"@, "langs-yandex-translate-key-set"@, "langs-yandex-translate"@];
    if !names.contains(k) {
        assert(names[0] == "ping"@);
        assert(names[1] == "help"@);
        assert(names[2] == "ci_path"@);
        assert(names[3] == "langs-show"@);
        assert(names[4] == "langs-foledrs"@);
        assert(names[5] == "langs-foledrs-to-config"@);
        assert(names[6] == "langs-set"@);
        assert(names[7] == "langs-show-can-translate-files"@);
        assert(names[8] == "langs-show-can-translate-word"@);
        assert(names[9] == "langs-yandex-translate-key-show"@);
        assert(names[10] == "langs-yandex-translate-key-set"@);
        assert(names[11] == "langs-yandex-translate"@);
        assert(handlers_for(default_handlers(), k) =~= Seq::<Handler>::empty());
        assert(handlers_for(lang_handlers(), k) =~= Seq::<Handler>::empty());
    }
}

proof fn lemma_hf_push(ps: Seq<(Seq<char>, Handler)>, x: (Seq<char>, Handler), k: Seq<char>)
    ensures
        handlers_for(ps.push(x), k) == handlers_for(ps, k) + if x.0 == k {
            seq![x.1]
        } else {
            Seq::empty()
        },
{
    assert(ps.push(x).drop_last() =~= ps);
    assert(ps.push(x).last() == x);
}

proof fn lemma_default_handlers_for(k: Seq<char>)
    ensures
        handlers_for(default_handlers(), k) == Seq::<Handler>::empty() + (if k == "ping"@ { seq![Handler::Ping] } else { Seq::<Handler>::empty() }) + (if k == "help"@ { seq![Handler::Help] } else { Seq::<Handler>::empty() }) + (if k == "ci_path"@ { seq![Handler::CiPath] } else { Seq::<Handler>::empty() }),
{
    let a0 = Seq::<(Seq<char>, Handler)>::empty();
    let a1 = a0.push(("ping"@, Handler::Ping));
    lemma_hf_push(a0, ("ping"@, Handler::Ping), k);
    let a2 = a1.push(("help"@, Handler::Help));
    lemma_hf_push(a1, ("help"@, Handler::Help), k);
    let a3 = a2.push(("ci_path"@, Handler::CiPath));
    lemma_hf_push(a2, ("ci_path"@, Handler::CiPath), k);
    assert(default_handlers() =~= a3);
    assert(handlers_for(a0, k) =~= Seq::<Handler>::empty());
}

#[verifier::rlimit(40)]
proof fn lemma_lang_handlers_for(k: Seq<char>)
    ensures
        handlers_for(lang_handlers(), k) == Seq::<Handler>::empty() + (if k == "help"@ { seq![Handler::LangsHelp] } else { Seq::<Handler>::empty() }) + (if k == "langs-show"@ { seq![Handler::LangsShow] } else { Seq::<Handler>::empty() }) + (if k == "langs-foledrs"@ { seq![Handler::LangsFolders] } else { Seq::<Handler>::empty() }) + (if k == "langs-foledrs-to-config"@ { seq![Handler::LangsFoldersToConfig] } else { Seq::<Handler>::empty() }) + (if k == "langs-set"@ { seq![Handler::LangsSet] } else { Seq::<Handler>::empty() }) + (if k == "langs-show-can-translate-files"@ { seq![Handler::LangsShowFiles] } else { Seq::<Handler>::empty() }) + (if k == "langs-show-can-translate-word"@ { seq![Handler::LangsShowWords] } else { Seq::<Handler>::empty() }) + (if k == "langs-yandex-translate-key-show"@ { seq![Handler::YandexKeyShow] } else { Seq::<Handler>::empty() }) + (if k == "langs-yandex-translate-key-set"@ { seq![Handler::YandexKeySet] } else { Seq::<Handler>::empty() }) + (if k == "langs-yandex-translate"@ { seq![Handler::YandexTranslate] } else { Seq::<Handler>::empty() }),
{
    let b0 = Seq::<(Seq<char>, Handler)>::empty();
    let b1 = b0.push(("help"@, Handler::LangsHelp));
    lemma_hf_push(b0, ("help"@, Handler::LangsHelp), k);
    let b2 = b1.push(("langs-show"@, Handler::LangsShow));
    lemma_hf_push(b1, ("langs-show"@, Handler::LangsShow), k);
    let b3 = b2.push(("langs-foledrs"@, Handler::LangsFolders));
    lemma_hf_push(b2, ("langs-foledrs"@, Handler::LangsFolders), k);
    let b4 = b3.push(("langs-foledrs-to-config"@, Handler::LangsFoldersToConfig));
    lemma_hf_push(b3, ("langs-foledrs-to-config"@, Handler::LangsFoldersToConfig), k);
    let b5 = b4.push(("langs-set"@, Handler::LangsSet));
    lemma_hf_push(b4, ("langs-set"@, Handler::LangsSet), k);
    let b6 = b5.push(("langs-show-can-translate-files"@, Handler::LangsShowFiles));
    lemma_hf_push(b5, ("langs-show-can-translate-files"@, Handler::LangsShowFiles), k);
    let b7 = b6.push(("langs-show-can-translate-word"@, Handler::LangsShowWords));
    lemma_hf_push(b6, ("langs-show-can-translate-word"@, Handler::LangsShowWords), k);
    let b8 = b7.push(("langs-yandex-translate-key-show"@, Handler::YandexKeyShow));
    lemma_hf_push(b7, ("langs-yandex-translate-key-show"@, Handler::YandexKeyShow), k);
    let b9 = b8.push(("langs-yandex-translate-key-set"@, Handler::YandexKeySet));
    lemma_hf_push(b8, ("langs-yandex-translate-key-set"@, Handler::YandexKeySet), k);
    let b10 = b9.push(("langs-yandex-translate"@, Handler::YandexTranslate));
    lemma_hf_push(b9, ("langs-yandex-translate"@, Handler::YandexTranslate), k);
    assert(lang_handlers() =~= b10);
    assert(handlers_for(b0, k) =~= Seq::<Handler>::empty());
}

proof fn lemma_tool_handlers_at(k: Seq<char>)
    ensures
        ({
            let e = register_all(register_all(Seq::empty(), default_handlers()), lang_handlers());
            let fd = handlers_for(default_handlers(), k);
            let fl = handlers_for(lang_handlers(), k);
            &&& strmap::seq_lookup(e, k) == if fd.len() + fl.len() == 0 {
                None
            } else {
                Some(fd + fl)
            }
            &&& fd == Seq::<Handler>::empty() + (if k == "ping"@ { seq![Handler::Ping] } else { Seq::<Handler>::empty() }) + (if k == "help"@ { seq![Handler::Help] } else { Seq::<Handler>::empty() }) + (if k == "ci_path"@ { seq![Handler::CiPath] } else { Seq::<Handler>::empty() })
            &&& fl == Seq::<Handler>::empty() + (if k == "help"@ { seq![Handler::LangsHelp] } else { Seq::<Handler>::empty() }) + (if k == "langs-show"@ { seq![Handler::LangsShow] } else { Seq::<Handler>::empty() }) + (if k == "langs-foledrs"@ { seq![Handler::LangsFolders] } else { Seq::<Handler>::empty() }) + (if k == "langs-foledrs-to-config"@ { seq![Handler::LangsFoldersToConfig] } else { Seq::<Handler>::empty() }) + (if k == "langs-set"@ { seq![Handler::LangsSet] } else { Seq::<Handler>::empty() }) + (if k == "langs-show-can-translate-files"@ { seq![Handler::LangsShowFiles] } else { Seq::<Handler>::empty() }) + (if k == "langs-show-can-translate-word"@ { seq![Handler::LangsShowWords] } else { Seq::<Handler>::empty() }) + (if k == "langs-yandex-translate-key-show"@ { seq![Handler::YandexKeyShow] } else { Seq::<Handler>::empty() }) + (if k == "langs-yandex-translate-key-set"@ { seq![Handler::YandexKeySet] } else { Seq::<Handler>::empty() }) + (if k == "langs-yandex-translate"@ { seq![Handler::YandexTranslate] } else { Seq::<Handler>::empty() })
        }),
{
    let empty = Seq::<(Seq<char>, Seq<Handler>)>::empty();
    lemma_register_all_lookup(empty, default_handlers(), k);
    let d = register_all(empty, default_handlers());
    lemma_register_all_lookup(d, lang_handlers(), k);
    let fd = handlers_for(default_handlers(), k);
    if fd.len() == 0 {
        assert(fd + handlers_for(lang_handlers(), k) =~= handlers_for(lang_handlers(), k));
    }
    lemma_default_handlers_for(k);
    lemma_lang_handlers_for(k);
}

/// Each step of the plan is a command to run with one of the handlers
/// registered for its name: a name without handlers runs nothing.
pub proof fn lemma_plan_member(events: Seq<(Seq<char>, Seq<Handler>)>, cmds: Seq<CommandSpec>, p: int)
    requires
        0 <= p < run_plan_spec(events, cmds).len(),
    ensures
        exists|q: int|
            0 <= q < cmds.len() && #[trigger] cmds[q] == run_plan_spec(events, cmds)[p].0 && (match strmap::seq_lookup(
                events,
                cmds[q].name,
            ) {
                Some(hs) => hs.contains(run_plan_spec(events, cmds)[p].1),
                None => false,
            }),
    decreases cmds.len(),
{
    let plan = run_plan_spec(events, cmds);
    let g = |c: CommandSpec|
        match strmap::seq_lookup(events, c.name) {
            Some(hs) => hs.map_values(|h: Handler| (c, h)),
            None => Seq::empty(),
        };
    let mv = cmds.map_values(g);
    assert(plan == mv.flatten());
    assert(cmds.len() > 0) by {
        if cmds.len() == 0 {
            assert(mv =~= Seq::<Seq<(CommandSpec, Handler)>>::empty());
        }
    }
    assert(mv.flatten() == mv[0] + mv.drop_first().flatten());
    assert(mv.drop_first() =~= cmds.drop_first().map_values(g));
    let first = g(cmds[0]);
    assert(mv[0] == first);
    if p < first.len() {
        match strmap::seq_lookup(events, cmds[0].name) {
            Some(hs) => {
                assert(plan[p] == first[p]);
                assert(first[p] == (cmds[0], hs[p]));
                assert(hs.contains(hs[p]));
            },
            None => {
                assert(false);
            },
        }
    } else {
        let rest = cmds.drop_first();
        assert(run_plan_spec(events, rest) == rest.map_values(g).flatten());
        assert(plan[p] == run_plan_spec(events, rest)[p - first.len()]);
        lemma_plan_member(events, rest, p - first.len());
        let q = choose|q: int|
            0 <= q < rest.len() && #[trigger] rest[q] == run_plan_spec(events, rest)[p - first.len()].0 && (match strmap::seq_lookup(
                events,
                rest[q].name,
            ) {
                Some(hs) => hs.contains(run_plan_spec(events, rest)[p - first.len()].1),
                None => false,
            });
        assert(cmds[q + 1] == rest[q]);
    }
}

/// What running handler `h` for command `c` does to the tool, from `a` to
/// `b`: the registry and the commands to run stay; the settings become what
/// the handler's start makes of them, or, for a handler that lists the
/// language folders, what its finish makes of them with the listing found.
pub open spec fn handler_ran(h: Handler, c: CommandSpec, a: CiTools, b: CiTools) -> bool {
    &&& b.events == a.events
    &&& b.run_events == a.run_events
    &&& match crate::handlers::start_spec(h, c, a.config@).0 {
        crate::handlers::StepView::NeedLangDirs { .. } => exists|found: Result<Seq<Seq<char>>, Seq<char>>|
            b.config@ == (#[trigger] crate::handlers::lang_dirs_spec(h, found, a.config@)).2,
        _ => b.config@ == crate::handlers::start_spec(h, c, a.config@).1,
    }
}

/// `ts` is a run of the commands of `ts[0]`: step `i` runs the `i`-th pair
/// of the plan (each command with each handler of its name, in order) on the
/// tool as the steps before left it.
pub open spec fn is_command_run(ts: Seq<CiTools>) -> bool {
    let plan = run_plan_spec(events_list(ts[0].events), commands_list(ts[0].run_events));
    &&& ts.len() == plan.len() + 1
    &&& forall|i: int| 0 <= i < plan.len() ==> handler_ran(plan[i].1, plan[i].0, #[trigger] ts[i], ts[i + 1])
}

/// Running the commands: each handler runs on the tool as the handlers
/// before it left it, and the plan never changes on the way, so a handler
/// registered while the commands run is not called and each command runs
/// exactly the handlers its name had at the start, in order (none for a name
/// without handlers).
pub proof fn lemma_command_run(ts: Seq<CiTools>, i: int)
    requires
        is_command_run(ts),
        0 <= i < ts.len(),
    ensures
        ts[i].events == ts[0].events,
        ts[i].run_events == ts[0].run_events,
        run_plan_spec(events_list(ts[i].events), commands_list(ts[i].run_events)) == run_plan_spec(
            events_list(ts[0].events),
            commands_list(ts[0].run_events),
        ),
    decreases i,
{
    if i > 0 {
        lemma_command_run(ts, i - 1);
        let plan = run_plan_spec(events_list(ts[0].events), commands_list(ts[0].run_events));
        assert(handler_ran(plan[i - 1].1, plan[i - 1].0, ts[i - 1], ts[i]));
    }
}

/// A sequence of empty sequences flattens to nothing.
pub proof fn lemma_flatten_empties<A>(s: Seq<Seq<A>>)
    requires
        forall|k: int| 0 <= k < s.len() ==> #[trigger] s[k] =~= Seq::<A>::empty(),
    ensures
        s.flatten() =~= Seq::<A>::empty(),
    decreases s.len(),
{
    if s.len() > 0 {
        assert forall|k: int| 0 <= k < s.drop_first().len() implies #[trigger] s.drop_first()[k] =~= Seq::<A>::empty() by {
            assert(s.drop_first()[k] == s[k + 1]);
        }
        lemma_flatten_empties(s.drop_first());
        assert(s[0] =~= Seq::<A>::empty());
    }
}

/// The commands after adding those of `args[from..to]`.
pub open spec fn commands_of(start: Seq<CommandSpec>, args: Seq<Seq<char>>, from: int, to: int) -> Seq<CommandSpec>
    decreases to - from,
{
    if to <= from {
        start
    } else {
        let prev = commands_of(start, args, from, to - 1);
        match crate::command::parse_command(args[to - 1]) {
            Some(c) => prev.push(c),
            None => prev,
        }
    }
}

impl crate::langs::CILangsTools {
    /// Registers the handlers of the language commands.
    pub fn inic_exec_citools(tools: &mut CiTools)
        requires
            events_wf(old(tools).events),
        ensures
            events_wf(final(tools).events),
            final(tools).events is Some,
            events_list(final(tools).events) == register_all(events_list(old(tools).events), lang_handlers()),
            final(tools).run_events == old(tools).run_events,
            final(tools).config == old(tools).config,
    {
        let mut pairs: Vec<(String, Handler)> = Vec::new();
        pairs.push((text::copy_str("help"), Handler::LangsHelp));
        pairs.push((text::copy_str("langs-show"), Handler::LangsShow));
        pairs.push((text::copy_str("langs-foledrs"), Handler::LangsFolders));
        pairs.push((text::copy_str("langs-foledrs-to-config"), Handler::LangsFoldersToConfig));
        pairs.push((text::copy_str("langs-set"), Handler::LangsSet));
        pairs.push((text::copy_str("langs-show-can-translate-files"), Handler::LangsShowFiles));
        pairs.push((text::copy_str("langs-show-can-translate-word"), Handler::LangsShowWords));
        pairs.push((text::copy_str("langs-yandex-translate-key-show"), Handler::YandexKeyShow));
        pairs.push((text::copy_str("langs-yandex-translate-key-set"), Handler::YandexKeySet));
        pairs.push((text::copy_str("langs-yandex-translate"), Handler::YandexTranslate));
        assert(pairs_view(pairs@) =~= lang_handlers());
        tools.register_pairs(pairs);
    }

}

} // verus!
