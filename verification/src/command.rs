use vstd::prelude::*;
use crate::text;

verus! {

/// A command given on the command line: `name` or `name=value`.
pub struct CiToolsCommand {
    pub name: String,
    pub value: Option<String>,
}

/// What a command holds, as character sequences.
pub struct CommandSpec {
    pub name: Seq<char>,
    pub value: Option<Seq<char>>,
}

impl View for CiToolsCommand {
    type V = CommandSpec;

    open spec fn view(&self) -> CommandSpec {
        CommandSpec {
            name: self.name@,
            value: match self.value {
                Some(v) => Some(v@),
                None => None,
            },
        }
    }
}

/// The separator between a command's name and its value.
pub open spec fn eq_sign() -> Seq<char> {
    seq!['=']
}

/// The command an argument stands for: the argument is cut at each `=`, the
/// first piece, trimmed, is the name and the second, trimmed, the value; an
/// argument whose name is empty stands for no command.
pub open spec fn parse_command(arg: Seq<char>) -> Option<CommandSpec> {
    let parts = text::split_seq(arg, eq_sign());
    let name = text::trimmed(parts[0]);
    if name.len() == 0 {
        None
    } else {
        Some(
            CommandSpec {
                name,
                value: if parts.len() > 1 {
                    Some(text::trimmed(parts[1]))
                } else {
                    None
                },
            },
        )
    }
}

impl CiToolsCommand {
    /// Parses one command-line argument.
    pub fn new_by_argv(comand: String) -> (r: Option<CiToolsCommand>)
        ensures
            match r {
                None => parse_command(comand@) is None,
                Some(c) => parse_command(comand@) == Some(c@),
            },
    {
        let sep = "=";
        proof {
            reveal_strlit("=");
            assert(sep@ =~= eq_sign());
            text::lemma_split_nonempty(comand@, eq_sign());
        }
        let parts = text::split(comand.as_str(), sep);
        assert(parts.deep_view()[0] == parts@[0]@);
        let name = text::trim(parts[0].as_str());
        if name.as_str().is_empty() {
            return None;
        }
        if parts.len() > 1 {
            assert(parts.deep_view()[1] == parts@[1]@);
            let value = text::trim(parts[1].as_str());
            Some(CiToolsCommand { name, value: Some(value) })
        } else {
            Some(CiToolsCommand { name, value: None })
        }
    }

    /// A copy of this command.
    pub fn copy(&self) -> (r: CiToolsCommand)
        ensures
            r@ == self@,
    {
        CiToolsCommand {
            name: self.name.clone(),
            value: match &self.value {
                Some(v) => Some(v.clone()),
                None => None,
            },
        }
    }
}

/// Whether `s` has no `=` and no whitespace at either end.
pub open spec fn is_clean_word(s: Seq<char>) -> bool {
    &&& !s.contains('=')
    &&& (s.len() > 0 ==> !text::is_ws(s[0]) && !text::is_ws(s.last()))
}

proof fn lemma_no_eq_no_match(s: Seq<char>)
    requires
        !s.contains('='),
    ensures
        forall|k: int| !#[trigger] text::matches_at(s, eq_sign(), k),
{
    assert forall|k: int| !#[trigger] text::matches_at(s, eq_sign(), k) by {
        if text::matches_at(s, eq_sign(), k) {
            assert(s.subrange(k, k + 1)[0] == '=');
            assert(s[k] == '=');
        }
    }
}

/// A name alone, without `=`, parses back to itself with no value.
pub proof fn lemma_parse_name_only(name: Seq<char>)
    requires
        name.len() > 0,
        is_clean_word(name),
    ensures
        parse_command(name) == Some(CommandSpec { name, value: None }),
{
    lemma_no_eq_no_match(name);
    text::lemma_split_from_no_match(name, eq_sign(), 0, 0);
    assert(name.subrange(0, name.len() as int) =~= name);
    text::lemma_trim_of_clean(name);
}

/// `name=value` parses back to the name and the value.
pub proof fn lemma_parse_name_value(name: Seq<char>, value: Seq<char>)
    requires
        name.len() > 0,
        is_clean_word(name),
        is_clean_word(value),
    ensures
        parse_command(name + eq_sign() + value) == Some(
            CommandSpec { name, value: Some(value) },
        ),
{
    let s = name + eq_sign() + value;
    let n = name.len() as int;
    lemma_no_eq_no_match(name);
    lemma_no_eq_no_match(value);
    assert forall|m: int| 0 <= m < n implies !#[trigger] text::matches_at(s, eq_sign(), m) by {
        if text::matches_at(s, eq_sign(), m) {
            assert(s.subrange(m, m + 1)[0] == s[m]);
            assert(s[m] == name[m]);
        }
    }
    text::lemma_split_from_skip(s, eq_sign(), 0, 0, n);
    assert(s.subrange(n, n + 1) =~= eq_sign());
    assert(text::matches_at(s, eq_sign(), n));
    assert forall|k: int| n + 1 <= k implies !#[trigger] text::matches_at(s, eq_sign(), k) by {
        if text::matches_at(s, eq_sign(), k) {
            assert(s.subrange(k, k + 1)[0] == s[k]);
            assert(s[k] == value[k - n - 1]);
        }
    }
    text::lemma_split_from_no_match(s, eq_sign(), n + 1, n + 1);
    assert(s.subrange(0, n) =~= name);
    assert(s.subrange(n + 1, s.len() as int) =~= value);
    text::lemma_trim_of_clean(name);
    text::lemma_trim_of_clean(value);
}

} // verus!
