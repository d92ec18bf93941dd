use vstd::prelude::*;
use crate::strmap::StrMap;
use crate::strmap;
use crate::text;
use crate::outside;
use crate::row::CILangsToolsRow;

verus! {

/// The marker that ends each entry in the dump of a language file.
pub open spec fn entry_sep() -> Seq<char> {
    "###----###"@
}

/// The marker between an entry's index and its text.
pub open spec fn kv_sep() -> Seq<char> {
    "<=====>"@
}

/// The index and text of one entry, if it has the marker between them.
pub open spec fn pair_of(piece: Seq<char>) -> Option<(Seq<char>, Seq<char>)> {
    let t = text::split_seq(piece, kv_sep());
    if t.len() < 2 {
        None
    } else {
        Some((t[0], t[1]))
    }
}

/// The entries of the pieces, in order: each piece is trimmed, empty ones
/// are dropped, and so are those without the index marker.
pub open spec fn pairs_of_pieces(ps: Seq<Seq<char>>) -> Seq<(Seq<char>, Seq<char>)>
    decreases ps.len(),
{
    if ps.len() == 0 {
        Seq::empty()
    } else {
        let rest = pairs_of_pieces(ps.drop_last());
        let p = text::trimmed(ps.last());
        if p.len() == 0 {
            rest
        } else {
            match pair_of(p) {
                Some(x) => rest.push(x),
                None => rest,
            }
        }
    }
}

/// The entries of a language file's dump, in order.
pub open spec fn lang_pairs(out: Seq<char>) -> Seq<(Seq<char>, Seq<char>)> {
    pairs_of_pieces(text::split_seq(out, entry_sep()))
}

/// The map that the pairs give when they are stored in order (a later pair
/// for the same index wins).
pub open spec fn assoc(ps: Seq<(Seq<char>, Seq<char>)>) -> Map<Seq<char>, Seq<char>>
    decreases ps.len(),
{
    if ps.len() == 0 {
        Map::empty()
    } else {
        assoc(ps.drop_last()).insert(ps.last().0, ps.last().1)
    }
}

/// What dumping a language file prints for its entries: for each, its index,
/// the index marker, its text, the entry marker and a line break.
pub open spec fn dump_of(ps: Seq<(Seq<char>, Seq<char>)>) -> Seq<char>
    decreases ps.len(),
{
    if ps.len() == 0 {
        Seq::empty()
    } else {
        ps[0].0 + kv_sep() + ps[0].1 + entry_sep() + "\n"@ + dump_of(ps.drop_first())
    }
}

/// An entry that its dump keeps apart: the index marker first occurs after
/// the index, the text holds no index marker, the entry marker first occurs
/// after the text, and the entry neither starts nor ends with whitespace.
pub open spec fn clean_entry(k: Seq<char>, v: Seq<char>) -> bool {
    &&& forall|m: int| 0 <= m < k.len() ==> !#[trigger] text::matches_at(k + kv_sep(), kv_sep(), m)
    &&& forall|m: int| !#[trigger] text::matches_at(v, kv_sep(), m)
    &&& forall|m: int|
        0 <= m < (k + kv_sep() + v).len() ==> !#[trigger] text::matches_at(k + kv_sep() + v + entry_sep(), entry_sep(), m)
    &&& k.len() > 0 ==> !text::is_ws(k[0])
    &&& v.len() > 0 ==> !text::is_ws(v.last())
}

/// The pieces that splitting `c` followed by the dump at the entry marker
/// gives, but the last: each entry's index, marker and text, after `c` for
/// the first and after a line break for the others.
spec fn dump_pieces(c: Seq<char>, ps: Seq<(Seq<char>, Seq<char>)>) -> Seq<Seq<char>> {
    Seq::new(ps.len(), |i: int| (if i == 0 { c } else { "\n"@ }) + ps[i].0 + kv_sep() + ps[i].1)
}

proof fn lemma_reveal_markers()
    ensures
        kv_sep().len() == 7,
        kv_sep()[0] == '<',
        kv_sep()[6] == '>',
        entry_sep().len() == 10,
        entry_sep()[0] == '#',
        "\n"@.len() == 1,
        "\n"@[0] == '\n',
{
    reveal_strlit("<=====>");
    reveal_strlit("###----###");
    reveal_strlit("\n");
}

/// `pat` does not occur at the start of a line break followed by `t` when it
/// starts otherwise; past that, it occurs where it occurs in `t`.
proof fn lemma_matches_after_break(t: Seq<char>, pat: Seq<char>, m: int)
    requires
        pat.len() > 0,
        pat[0] != '\n',
        "\n"@.len() == 1,
        "\n"@[0] == '\n',
    ensures
        m == 0 ==> !text::matches_at("\n"@ + t, pat, m),
        m > 0 ==> text::matches_at("\n"@ + t, pat, m) == text::matches_at(t, pat, m - 1),
{
    let s = "\n"@ + t;
    if m == 0 && text::matches_at(s, pat, 0) {
        assert(s.subrange(0, pat.len() as int)[0] == s[0]);
    }
    if m > 0 && m + pat.len() <= s.len() {
        assert(s.subrange(m, m + pat.len()) =~= t.subrange(m - 1, m - 1 + pat.len()));
    }
}

proof fn lemma_dump_split(c: Seq<char>, ps: Seq<(Seq<char>, Seq<char>)>)
    requires
        c == Seq::<char>::empty() || c == "\n"@,
        forall|i: int| 0 <= i < ps.len() ==> clean_entry(#[trigger] ps[i].0, ps[i].1),
    ensures
        text::split_seq(c + dump_of(ps), entry_sep()) == dump_pieces(c, ps).push(
            if ps.len() == 0 { c } else { "\n"@ },
        ),
    decreases ps.len(),
{
    lemma_reveal_markers();
    if ps.len() == 0 {
        assert(c + dump_of(ps) =~= c);
        text::lemma_split_short(c, entry_sep());
        assert(dump_pieces(c, ps).push(c) =~= seq![c]);
    } else {
        let k = ps[0].0;
        let v = ps[0].1;
        assert(clean_entry(k, v));
        let t = k + kv_sep() + v;
        let x = c + t;
        let rest = ps.drop_first();
        assert forall|i: int| 0 <= i < rest.len() implies clean_entry(#[trigger] rest[i].0, rest[i].1) by {
            assert(rest[i] == ps[i + 1]);
        }
        lemma_dump_split("\n"@, rest);
        assert forall|m: int| 0 <= m < x.len() implies !#[trigger] text::matches_at(x + entry_sep(), entry_sep(), m) by {
            if c == Seq::<char>::empty() {
                assert(x =~= t);
            } else {
                assert(x + entry_sep() =~= "\n"@ + (t + entry_sep()));
                lemma_matches_after_break(t + entry_sep(), entry_sep(), m);
                if m > 0 {
                    assert(!text::matches_at(t + entry_sep(), entry_sep(), m - 1));
                }
            }
        }
        assert(c + dump_of(ps) =~= x + entry_sep() + ("\n"@ + dump_of(rest)));
        text::lemma_split_first(x, entry_sep(), "\n"@ + dump_of(rest));
        assert(dump_pieces(c, ps)[0] =~= x);
        assert forall|i: int| 1 <= i < ps.len() implies dump_pieces(c, ps)[i] == dump_pieces("\n"@, rest)[i - 1] by {
            assert(rest[i - 1] == ps[i]);
        }
        assert(dump_pieces(c, ps).push("\n"@) =~= seq![x] + dump_pieces("\n"@, rest).push(
            if rest.len() == 0 { "\n"@ } else { "\n"@ },
        ));
    }
}

proof fn lemma_piece_pair(c: Seq<char>, k: Seq<char>, v: Seq<char>)
    requires
        c == Seq::<char>::empty() || c == "\n"@,
        clean_entry(k, v),
    ensures
        text::trimmed(c + k + kv_sep() + v) == k + kv_sep() + v,
        pair_of(k + kv_sep() + v) == Some((k, v)),
{
    lemma_reveal_markers();
    let t = k + kv_sep() + v;
    assert(!text::is_ws(t[0])) by {
        if k.len() == 0 {
            assert(t[0] == kv_sep()[0]);
        } else {
            assert(t[0] == k[0]);
        }
    }
    assert(!text::is_ws(t.last())) by {
        if v.len() == 0 {
            assert(t.last() == kv_sep()[6]);
        } else {
            assert(t.last() == v.last());
        }
    }
    text::lemma_trim_of_clean(t);
    if c == Seq::<char>::empty() {
        assert(c + k + kv_sep() + v =~= t);
    } else {
        let s = c + k + kv_sep() + v;
        assert(s =~= "\n"@ + t);
        assert(s[0] == '\n');
        assert(s[1] == t[0]);
        assert(text::skip_ws_from(s, 1) == 1);
        assert(text::skip_ws_from(s, 0) == 1);
        assert(text::trim_start(s) =~= t);
        assert(text::trim_start(t) =~= t) by {
            assert(text::skip_ws_from(t, 0) == 0);
        }
    }
    text::lemma_split_first(k, kv_sep(), v);
    text::lemma_split_from_no_match(v, kv_sep(), 0, 0);
    assert(v.subrange(0, v.len() as int) =~= v);
}

proof fn lemma_pairs_of_dump_pieces(c: Seq<char>, ps: Seq<(Seq<char>, Seq<char>)>)
    requires
        c == Seq::<char>::empty() || c == "\n"@,
        forall|i: int| 0 <= i < ps.len() ==> clean_entry(#[trigger] ps[i].0, ps[i].1),
    ensures
        pairs_of_pieces(dump_pieces(c, ps)) == ps,
    decreases ps.len(),
{
    if ps.len() > 0 {
        let pre = ps.drop_last();
        assert forall|i: int| 0 <= i < pre.len() implies clean_entry(#[trigger] pre[i].0, pre[i].1) by {
            assert(pre[i] == ps[i]);
        }
        lemma_pairs_of_dump_pieces(c, pre);
        assert(dump_pieces(c, ps).drop_last() =~= dump_pieces(c, pre));
        let n = ps.len() - 1;
        let cl = if n == 0 { c } else { "\n"@ };
        assert(clean_entry(ps[n].0, ps[n].1));
        lemma_piece_pair(cl, ps[n].0, ps[n].1);
        assert(dump_pieces(c, ps).last() == cl + ps[n].0 + kv_sep() + ps[n].1);
        assert(pre.push(ps.last()) =~= ps);
    }
}

/// Reading back a dump: the entries of a file, printed as its dump, are
/// parsed back to themselves, in order.
pub proof fn lemma_parse_dump(ps: Seq<(Seq<char>, Seq<char>)>)
    requires
        forall|i: int| 0 <= i < ps.len() ==> clean_entry(#[trigger] ps[i].0, ps[i].1),
    ensures
        lang_pairs(dump_of(ps)) == ps,
{
    lemma_reveal_markers();
    let c = Seq::<char>::empty();
    assert(c + dump_of(ps) =~= dump_of(ps));
    lemma_dump_split(c, ps);
    let last = if ps.len() == 0 { c } else { "\n"@ };
    let pieces = dump_pieces(c, ps).push(last);
    assert(pieces.drop_last() =~= dump_pieces(c, ps));
    assert(text::trimmed(last).len() == 0) by {
        if ps.len() > 0 {
            assert(text::skip_ws_from(last, 1) == 1);
            assert(text::skip_ws_from(last, 0) == 1);
            assert(text::trim_start(last) =~= Seq::<char>::empty());
        } else {
            assert(text::trim_start(last) =~= Seq::<char>::empty());
        }
    }
    lemma_pairs_of_dump_pieces(c, ps);
}

/// Parses the dump of a language file (one `index<=====>text###----###` per
/// entry) into its map from index to text; `None` when it holds no entry.
pub fn parse_lang_output(out: &str) -> (r: Option<StrMap<String>>)
    ensures
        r is None <==> lang_pairs(out@).len() == 0,
        r matches Some(m) ==> m.wf() && strmap::sview(m) == assoc(lang_pairs(out@)),
{
    let esep = "###----###";
    let ksep = "<=====>";
    proof {
        reveal_strlit("###----###");
        reveal_strlit("<=====>");
    }
    let pieces = text::split(out, esep);
    let mut m: StrMap<String> = StrMap::new();
    let mut count: usize = 0;
    let mut i: usize = 0;
    assert(strmap::sview(m) =~= Map::empty());
    while i < pieces.len()
        invariant
            i <= pieces@.len(),
            pieces.deep_view() == text::split_seq(out@, entry_sep()),
            ksep@ == kv_sep(),
            kv_sep().len() > 0,
            m.wf(),
            strmap::sview(m) == assoc(pairs_of_pieces(pieces.deep_view().take(i as int))),
            count == pairs_of_pieces(pieces.deep_view().take(i as int)).len(),
            count <= i,
        decreases pieces.len() - i,
    {
        let ghost pre = pieces.deep_view().take(i as int);
        assert(pieces.deep_view().take(i + 1).drop_last() =~= pre);
        assert(pieces.deep_view().take(i + 1).last() == pieces@[i as int]@);
        let p = text::trim(pieces[i].as_str());
        let ghost cur = pieces.deep_view().take(i + 1);
        if !p.as_str().is_empty() {
            let t = text::split(p.as_str(), ksep);
            if t.len() >= 2 {
                let ghost x = (t@[0]@, t@[1]@);
                assert(pair_of(p@) == Some(x));
                assert(pairs_of_pieces(cur) == pairs_of_pieces(pre).push(x));
                assert(pairs_of_pieces(pre).push(x).drop_last() =~= pairs_of_pieces(pre));
                assert(t.deep_view()[0] == t@[0]@);
                assert(t.deep_view()[1] == t@[1]@);
                let ghost before = m;
                let k = t[0].clone();
                let v = t[1].clone();
                m.insert(k, v);
                proof {
                    strmap::lemma_sview_insert(before, m, t@[0]@, t@[1]@);
                }
                count = count + 1;
            } else {
                assert(pairs_of_pieces(cur) == pairs_of_pieces(pre));
            }
        } else {
            assert(pairs_of_pieces(cur) == pairs_of_pieces(pre));
        }
        i = i + 1;
    }
    assert(pieces.deep_view().take(pieces@.len() as int) =~= pieces.deep_view());
    if count == 0 {
        None
    } else {
        Some(m)
    }
}

/// Decodes and parses what dumping a language file printed; `None` when the
/// output is not UTF-8 or holds no entry.
pub fn decode_lang_output(stdout: Vec<u8>) -> (r: Option<StrMap<String>>)
    ensures
        !vstd::utf8::valid_utf8(stdout@) ==> r is None,
        vstd::utf8::valid_utf8(stdout@) ==> {
            let out = vstd::utf8::decode_utf8(stdout@);
            &&& (r is None <==> lang_pairs(out).len() == 0)
            &&& (r matches Some(m) ==> m.wf() && strmap::sview(m) == assoc(lang_pairs(out)))
        },
{
    match outside::utf8_string(stdout) {
        None => None,
        Some(s) => parse_lang_output(s.as_str()),
    }
}


/// A translation file: the directory of language directories it lives under,
/// its path relative to a language directory, and its path in each language
/// that has it.
pub struct CILangsToolsFile {
    pub root_path: String,
    pub index: String,
    pub files: StrMap<String>,
}

/// What a file record holds, as character sequences.
pub struct FileView {
    pub root_path: Seq<char>,
    pub index: Seq<char>,
    pub files: Seq<(Seq<char>, Seq<char>)>,
}

impl View for CILangsToolsFile {
    type V = FileView;

    open spec fn view(&self) -> FileView {
        FileView { root_path: self.root_path@, index: self.index@, files: self.files@ }
    }
}

/// A table of phrases: for each index, its text in each language.
pub type Table = Map<Seq<char>, Map<Seq<char>, Seq<char>>>;

/// `acc` with the column of language `lang` added from `m` (index to text).
pub open spec fn add_lang(acc: Table, lang: Seq<char>, m: Map<Seq<char>, Seq<char>>) -> Table {
    Map::new(
        |idx: Seq<char>| acc.contains_key(idx) || m.contains_key(idx),
        |idx: Seq<char>|
            {
                let base = if acc.contains_key(idx) {
                    acc[idx]
                } else {
                    Map::empty()
                };
                if m.contains_key(idx) {
                    base.insert(lang, m[idx])
                } else {
                    base
                }
            },
    )
}

/// The table that the first `n` reads give, read `j` being the file in
/// language `langs[j]` (`None` where it could not be read).
pub open spec fn merge_reads(
    langs: Seq<Seq<char>>,
    reads: Seq<Option<Map<Seq<char>, Seq<char>>>>,
    n: int,
) -> Table
    decreases n,
{
    if n <= 0 {
        Map::empty()
    } else {
        let prev = merge_reads(langs, reads, n - 1);
        match reads[n - 1] {
            None => prev,
            Some(m) => add_lang(prev, langs[n - 1], m),
        }
    }
}

/// The reads as maps of character sequences.
pub open spec fn reads_view(reads: Seq<Option<StrMap<String>>>) -> Seq<Option<Map<Seq<char>, Seq<char>>>> {
    Seq::new(
        reads.len(),
        |j: int|
            match reads[j] {
                Some(m) => Some(strmap::sview(m)),
                None => None,
            },
    )
}

/// The table that a map of rows holds.
pub open spec fn rows_view(rows: StrMap<CILangsToolsRow>) -> Table {
    Map::new(|k: Seq<char>| rows.has(k), |k: Seq<char>| rows.lookup(k).unwrap().texts())
}

/// Each row is stored under its own index, names `file`, and has no language twice.
pub open spec fn rows_ok(rows: StrMap<CILangsToolsRow>, file: Seq<char>) -> bool {
    &&& rows.wf()
    &&& forall|k: Seq<char>| #[trigger]
        rows.has(k) ==> {
            let r = rows.lookup(k).unwrap();
            &&& r.index@ == k
            &&& r.file@ == file
            &&& r.translate.wf()
        }
}

/// Every row has no language twice.
pub open spec fn translations_wf(rows: StrMap<CILangsToolsRow>) -> bool {
    forall|i: int| 0 <= i < rows.vals().len() ==> (#[trigger] rows.vals()[i]).translate.wf()
}

/// The part of `m` whose keys are among its first `e` keys.
pub open spec fn prefix_view(m: StrMap<String>, e: int) -> Map<Seq<char>, Seq<char>> {
    Map::new(|k: Seq<char>| m.keys().take(e).contains(k), |k: Seq<char>| strmap::sview(m)[k])
}

/// After storing `row` under `k`, the table gains that row's texts.
pub proof fn lemma_rows_view_update(
    before: StrMap<CILangsToolsRow>,
    after: StrMap<CILangsToolsRow>,
    k: Seq<char>,
    row: CILangsToolsRow,
)
    requires
        after.lookup(k) == Some(row),
        forall|k2: Seq<char>| k2 != k ==> #[trigger] after.lookup(k2) == before.lookup(k2),
    ensures
        rows_view(after) == rows_view(before).insert(k, row.texts()),
{
    assert forall|k2: Seq<char>| #[trigger] after.has(k2) == (before.has(k2) || k2 == k) by {
        if k2 != k {
            assert(after.lookup(k2) == before.lookup(k2));
        }
    }
    assert(rows_view(after) =~= rows_view(before).insert(k, row.texts()));
}

/// Each `'` of the text written as `&#39;`.
pub open spec fn escape_quotes(t: Seq<char>) -> Seq<char>
    decreases t.len(),
{
    if t.len() == 0 {
        Seq::empty()
    } else {
        escape_quotes(t.drop_last()) + if t.last() == '\'' {
            "&#39;"@
        } else {
            seq![t.last()]
        }
    }
}

/// Escaping writes each `'` as `&#39;` and keeps every other character: it
/// works piece by piece, leaves no `'`, and leaves a text without one as it is.
pub proof fn lemma_escape_quotes(a: Seq<char>, b: Seq<char>)
    ensures
        escape_quotes(a + b) == escape_quotes(a) + escape_quotes(b),
        escape_quotes(seq!['\'']) == "&#39;"@,
        !a.contains('\'') ==> escape_quotes(a) == a,
        !escape_quotes(a).contains('\''),
    decreases b.len(),
{
    reveal_strlit("&#39;");
    let q = seq!['\''];
    assert(q.drop_last() =~= Seq::<char>::empty());
    assert(q.len() == 1 && q.last() == '\'');
    assert(escape_quotes(Seq::<char>::empty()) == Seq::<char>::empty());
    assert(escape_quotes(q) == escape_quotes(q.drop_last()) + "&#39;"@);
    assert(Seq::<char>::empty() + "&#39;"@ =~= "&#39;"@);
    if b.len() == 0 {
        assert(a + b =~= a);
        assert(escape_quotes(a) + escape_quotes(b) =~= escape_quotes(a));
    } else {
        lemma_escape_quotes(a, b.drop_last());
        assert((a + b).drop_last() =~= a + b.drop_last());
        assert((a + b).last() == b.last());
    }
    lemma_escape_plain(a);
}

proof fn lemma_escape_plain(a: Seq<char>)
    ensures
        !a.contains('\'') ==> escape_quotes(a) == a,
        !escape_quotes(a).contains('\''),
    decreases a.len(),
{
    reveal_strlit("&#39;");
    if a.len() > 0 {
        lemma_escape_plain(a.drop_last());
        let pre = escape_quotes(a.drop_last());
        let tail = if a.last() == '\'' { "&#39;"@ } else { seq![a.last()] };
        assert(escape_quotes(a) == pre + tail);
        if !a.contains('\'') {
            assert(!a.drop_last().contains('\'')) by {
                if a.drop_last().contains('\'') {
                    let i = a.drop_last().index_of('\'');
                    assert(a[i] == '\'');
                }
            }
            assert(a[a.len() - 1] != '\'');
            assert(pre + tail =~= a);
        }
        assert(!(pre + tail).contains('\'')) by {
            if (pre + tail).contains('\'') {
                let i = (pre + tail).index_of('\'');
                if i < pre.len() {
                    assert(pre[i] == '\'');
                } else {
                    assert(tail[i - pre.len()] == '\'');
                }
            }
        }
    }
}

/// The first line of a generated language file.
pub open spec fn php_header() -> Seq<char> {
    "<?php defined('BASEPATH') OR exit('No direct script access allowed');/* autogenerate */\n"@
}

/// The line that stores `text` under `index`.
pub open spec fn php_line(index: Seq<char>, text: Seq<char>) -> Seq<char> {
    "$lang['"@ + index + "'] = '"@ + escape_quotes(text) + "';"@
}

/// The lines of the rows that have a text in `lang`, in the order of the rows.
pub open spec fn php_lines(rows: Seq<CILangsToolsRow>, lang: Seq<char>) -> Seq<Seq<char>>
    decreases rows.len(),
{
    if rows.len() == 0 {
        Seq::empty()
    } else {
        let rest = php_lines(rows.drop_last(), lang);
        let r = rows.last();
        if r.texts().contains_key(lang) {
            rest.push(php_line(r.index@, r.texts()[lang]))
        } else {
            rest
        }
    }
}

/// The lines of a generated language file: one per row that has a text in
/// `lang`, whatever the text (the empty one too), in the order of the rows,
/// each `$lang['index'] = 'text';` with the text's quotes escaped; a row
/// without a text in `lang` gives none.
pub proof fn lemma_php_lines(rows: Seq<CILangsToolsRow>, lang: Seq<char>)
    ensures
        php_lines(rows, lang) == rows.filter(|r: CILangsToolsRow| r.texts().contains_key(lang)).map_values(
            |r: CILangsToolsRow| "$lang['"@ + r.index@ + "'] = '"@ + escape_quotes(r.texts()[lang]) + "';"@,
        ),
    decreases rows.len(),
{
    let p = |r: CILangsToolsRow| r.texts().contains_key(lang);
    let f = |r: CILangsToolsRow| "$lang['"@ + r.index@ + "'] = '"@ + escape_quotes(r.texts()[lang]) + "';"@;
    if rows.len() == 0 {
        assert(rows.filter(p) =~= Seq::<CILangsToolsRow>::empty()) by {
            reveal(Seq::filter);
        }
        assert(rows.filter(p).map_values(f) =~= Seq::<Seq<char>>::empty());
    } else {
        let pre = rows.drop_last();
        lemma_php_lines(pre, lang);
        assert(pre.push(rows.last()) =~= rows);
        pre.lemma_filter_push(rows.last(), p);
        if p(rows.last()) {
            assert(rows.filter(p).map_values(f) =~= pre.filter(p).map_values(f).push(f(rows.last())));
        } else {
            assert(rows.filter(p).map_values(f) =~= pre.filter(p).map_values(f));
        }
    }
}

/// The generated language file for `lang`.
pub open spec fn php_file(rows: Seq<CILangsToolsRow>, lang: Seq<char>) -> Seq<char> {
    php_header() + text::join_seq(php_lines(rows, lang), "\r\n"@)
}

/// A generated language file: the PHP header line that guards direct access,
/// then its lines separated by `\r\n`.
pub proof fn lemma_php_file(rows: Seq<CILangsToolsRow>, lang: Seq<char>)
    ensures
        php_file(rows, lang) == "<?php defined('BASEPATH') OR exit('No direct script access allowed');/* autogenerate */\n"@
            + text::join_seq(php_lines(rows, lang), "\r\n"@),
{
}

/// Each `'` of the text written as `&#39;`.
pub fn escape_text(t: &str) -> (r: String)
    ensures
        r@ == escape_quotes(t@),
{
    let v = text::chars_of(t);
    let mut r = String::new();
    let mut i: usize = 0;
    while i < v.len()
        invariant
            i <= v@.len(),
            v@ == t@,
            r@ == escape_quotes(v@.take(i as int)),
        decreases v.len() - i,
    {
        assert(v@.take(i + 1).drop_last() =~= v@.take(i as int));
        if v[i] == '\'' {
            text::append_str(&mut r, "&#39;");
        } else {
            outside::push_char(&mut r, v[i]);
        }
        i = i + 1;
    }
    assert(v@.take(v@.len() as int) =~= v@);
    r
}

/// A copy of a map of rows.
pub fn copy_rows(rows: &StrMap<CILangsToolsRow>) -> (r: StrMap<CILangsToolsRow>)
    ensures
        r@ == rows@,
        r.keys() == rows.keys(),
        rows.wf() ==> r.wf(),
        translations_wf(*rows) ==> translations_wf(r),
        forall|i: int| 0 <= i < rows.vals().len() ==> (#[trigger] r.vals()[i]).translate.entries@ == rows.vals()[i].translate.entries@ && r.vals()[i].index == rows.vals()[i].index && r.vals()[i].file == rows.vals()[i].file,
        r.vals().len() == rows.vals().len(),
{
    let mut entries: Vec<(String, CILangsToolsRow)> = Vec::new();
    let mut i: usize = 0;
    while i < rows.entries.len()
        invariant
            i <= rows.entries@.len(),
            entries@.len() == i,
            forall|k: int| 0 <= k < i ==> (#[trigger] entries@[k]).0 == rows.entries@[k].0 && entries@[k].1.translate.entries@ == rows.entries@[k].1.translate.entries@ && entries@[k].1.index == rows.entries@[k].1.index && entries@[k].1.file == rows.entries@[k].1.file,
        decreases rows.entries.len() - i,
    {
        let k = rows.entries[i].0.clone();
        let v = rows.entries[i].1.copy();
        entries.push((k, v));
        i = i + 1;
    }
    let r = StrMap { entries };
    assert(r.keys() =~= rows.keys());
    assert(r@ =~= rows@);
    assert forall|i: int| 0 <= i < r.vals().len() implies (#[trigger] r.vals()[i]).translate.keys() == rows.vals()[i].translate.keys() by {
        assert(r.vals()[i].translate.keys() =~= rows.vals()[i].translate.keys());
    }
    r
}

impl CILangsToolsFile {
    /// Where the file in `lang` is written: its known path, or, for a language
    /// it does not have yet, `root_path/lang/index`; the flag tells whether the
    /// path is new (its directory may have to be made first).
    pub fn save_path(&self, lang: &str) -> (r: (String, bool))
        requires
            self.files.wf(),
        ensures
            match self.files.lookup(lang@) {
                Some(p) => r.0@ == p@ && !r.1,
                None => r.0@ == self.root_path@ + "/"@ + lang@ + "/"@ + self.index@ && r.1,
            },
    {
        match self.files.get(lang) {
            Some(p) => (p.clone(), false),
            None => {
                let mut path = self.root_path.clone();
                text::append_str(&mut path, "/");
                text::append_str(&mut path, lang);
                text::append_str(&mut path, "/");
                text::append_str(&mut path, self.index.as_str());
                (path, true)
            },
        }
    }

    /// The content of the language file for `lang`: the header, then one line
    /// per row that has a text in `lang`, lines separated by `\r\n`.
    pub fn save_content(&self, lang: &str, list: &StrMap<CILangsToolsRow>) -> (r: String)
        requires
            translations_wf(*list),
        ensures
            r@ == php_file(list.vals(), lang@),
    {
        let mut lines: Vec<String> = Vec::new();
        let mut i: usize = 0;
        while i < list.len()
            invariant
                i <= list.entries@.len(),
                lines.deep_view() == php_lines(list.vals().take(i as int), lang@),
                translations_wf(*list),
            decreases list.entries@.len() - i,
        {
            let row = list.value_at(i);
            assert(row.translate.wf());
            assert(list.vals().take(i + 1).drop_last() =~= list.vals().take(i as int));
            match row.translate.get(lang) {
                Some(t) => {
                    let mut line = String::new();
                    text::append_str(&mut line, "$lang['");
                    text::append_str(&mut line, row.index.as_str());
                    text::append_str(&mut line, "'] = '");
                    let esc = escape_text(t.as_str());
                    text::append_str(&mut line, esc.as_str());
                    text::append_str(&mut line, "';");
                    let ghost old_lines = lines.deep_view();
                    lines.push(line);
                    assert(lines.deep_view() =~= old_lines.push(line@));
                },
                None => {},
            }
            i = i + 1;
        }
        assert(list.vals().take(list.entries@.len() as int) =~= list.vals());
        let mut r = String::new();
        text::append_str(&mut r, "<?php defined('BASEPATH') OR exit('No direct script access allowed');/* autogenerate */\n");
        let body = text::join(&lines, "\r\n");
        text::append_str(&mut r, body.as_str());
        r
    }

    /// A copy of this file record.
    pub fn copy(&self) -> (r: CILangsToolsFile)
        ensures
            r.root_path == self.root_path,
            r.index == self.index,
            r.files.entries@ == self.files.entries@,
            r@ == self@,
    {
        CILangsToolsFile {
            root_path: self.root_path.clone(),
            index: self.index.clone(),
            files: strmap::copy_str_map(&self.files),
        }
    }

    /// Adds the column of one language to the rows.
    fn add_lang_rows(
        &self,
        rows: &mut StrMap<CILangsToolsRow>,
        lang: &String,
        m: &StrMap<String>,
    )
        requires
            rows_ok(*old(rows), self.index@),
            m.wf(),
        ensures
            rows_ok(*final(rows), self.index@),
            rows_view(*final(rows)) == add_lang(rows_view(*old(rows)), lang@, strmap::sview(*m)),
    {
        let ghost acc = rows_view(*rows);
        let mut e: usize = 0;
        proof {
            assert(rows_view(*rows) =~= add_lang(acc, lang@, prefix_view(*m, 0)));
        }
        while e < m.len()
            invariant
                e <= m.entries@.len(),
                m.wf(),
                rows_ok(*rows, self.index@),
                rows_view(*rows) == add_lang(acc, lang@, prefix_view(*m, e as int)),
            decreases m.entries@.len() - e,
        {
            let idx = m.key_at(e);
            let v = m.value_at(e);
            let ghost before = *rows;
            proof {
                m.lemma_lookup_at(e as int);
                assert(!m.keys().take(e as int).contains(idx@)) by {
                    if m.keys().take(e as int).contains(idx@) {
                        let j = m.keys().take(e as int).index_of(idx@);
                        assert(m.keys()[j] == m.keys()[e as int]);
                    }
                }
                assert(m.keys().take(e + 1) =~= m.keys().take(e as int).push(idx@));
                assert forall|k: Seq<char>| #[trigger] m.keys().take(e + 1).contains(k) == (m.keys().take(
                    e as int,
                ).contains(k) || k == idx@) by {
                    if m.keys().take(e + 1).contains(k) && k != idx@ {
                        let j = m.keys().take(e + 1).index_of(k);
                        assert(m.keys().take(e as int)[j] == k);
                    }
                    if m.keys().take(e as int).contains(k) {
                        let j = m.keys().take(e as int).index_of(k);
                        assert(m.keys().take(e + 1)[j] == k);
                    }
                    if k == idx@ {
                        assert(m.keys().take(e + 1)[e as int] == k);
                    }
                }
                assert(m.has(idx@));
                assert(strmap::sview(*m)[idx@] == v@);
                assert(prefix_view(*m, e + 1) =~= prefix_view(*m, e as int).insert(idx@, v@));
                assert(!prefix_view(*m, e as int).contains_key(idx@));
            }
            match rows.find(idx.as_str()) {
                Some(p) => {
                    let mut row = rows.value_at(p).copy();
                    proof {
                        rows.lemma_lookup_at(p as int);
                    }
                    let ghost tbefore = row.translate;
                    proof {
                        assert(before.has(idx@));
                        assert(rows_view(before)[idx@] == strmap::sview(tbefore));
                    }
                    row.translate.insert(lang.clone(), v.clone());
                    proof {
                        strmap::lemma_sview_insert(tbefore, row.translate, lang@, v@);
                    }
                    let ghost nrow = row;
                    rows.swap_value(p, row);
                    proof {
                        assert(rows.lookup(idx@) == Some(nrow));
                        lemma_rows_view_update(before, *rows, idx@, nrow);
                        assert(add_lang(acc, lang@, prefix_view(*m, e + 1)) =~= add_lang(
                            acc,
                            lang@,
                            prefix_view(*m, e as int),
                        ).insert(idx@, nrow.texts()));
                    }
                },
                None => {
                    let mut t: StrMap<String> = StrMap::new();
                    let ghost t0 = t;
                    t.insert(lang.clone(), v.clone());
                    proof {
                        strmap::lemma_sview_insert(t0, t, lang@, v@);
                        assert(strmap::sview(t0) =~= Map::empty());
                    }
                    let row = CILangsToolsRow::new(self.index.clone(), idx.clone(), t);
                    let ghost nrow = row;
                    rows.insert(idx.clone(), row);
                    proof {
                        lemma_rows_view_update(before, *rows, idx@, nrow);
                        assert(!rows_view(before).contains_key(idx@));
                        assert(!acc.contains_key(idx@));
                        assert(nrow.texts() == Map::<Seq<char>, Seq<char>>::empty().insert(lang@, v@));
                        assert(prefix_view(*m, e + 1)[idx@] == v@);
                        assert(add_lang(acc, lang@, prefix_view(*m, e + 1)) =~= add_lang(
                            acc,
                            lang@,
                            prefix_view(*m, e as int),
                        ).insert(idx@, nrow.texts()));
                    }
                },
            }
            e = e + 1;
        }
        proof {
            assert(m.keys().take(m.entries@.len() as int) =~= m.keys());
            assert(prefix_view(*m, m.entries@.len() as int) =~= strmap::sview(*m));
        }
    }

    /// Gathers the rows of this file from what reading it in each language
    /// gave: `reads[j]` is the read of the file in language `files.keys()[j]`.
    pub fn get_key_value(&self, reads: &Vec<Option<StrMap<String>>>) -> (r: StrMap<CILangsToolsRow>)
        requires
            reads@.len() == self.files.entries@.len(),
            forall|j: int| 0 <= j < reads@.len() ==> (#[trigger] reads@[j] matches Some(m) ==> m.wf()),
        ensures
            rows_ok(r, self.index@),
            rows_view(r) == merge_reads(self.files.keys(), reads_view(reads@), reads@.len() as int),
    {
        let mut rows: StrMap<CILangsToolsRow> = StrMap::new();
        proof {
            assert(rows_view(rows) =~= Map::empty());
        }
        let mut j: usize = 0;
        while j < reads.len()
            invariant
                j <= reads@.len() == self.files.entries@.len(),
                forall|j: int| 0 <= j < reads@.len() ==> (#[trigger] reads@[j] matches Some(m) ==> m.wf()),
                rows_ok(rows, self.index@),
                rows_view(rows) == merge_reads(self.files.keys(), reads_view(reads@), j as int),
            decreases reads.len() - j,
        {
            match &reads[j] {
                Some(m) => {
                    let lang = self.files.key_at(j);
                    self.add_lang_rows(&mut rows, lang, m);
                },
                None => {},
            }
            j = j + 1;
        }
        rows
    }
}

/// Reading a file in each language and merging the reads gives, for each
/// index found in some read, a row whose text in each language is what the
/// read of that language gave for the index; an index no read has gets no
/// row, and a language whose read lacks the index gets no text.
pub proof fn lemma_merge_reads_cell(
    langs: Seq<Seq<char>>,
    reads: Seq<Option<Map<Seq<char>, Seq<char>>>>,
    n: int,
    idx: Seq<char>,
    l: Seq<char>,
)
    requires
        langs.no_duplicates(),
        0 <= n <= reads.len() <= langs.len(),
    ensures
        merge_reads(langs, reads, n).contains_key(idx) <==> exists|j: int|
            0 <= j < n && (#[trigger] reads[j] matches Some(m) && m.contains_key(idx)),
        forall|j: int|
            0 <= j < n && (#[trigger] reads[j] matches Some(m) && m.contains_key(idx)) ==> {
                &&& merge_reads(langs, reads, n).contains_key(idx)
                &&& merge_reads(langs, reads, n)[idx].contains_key(langs[j])
                &&& merge_reads(langs, reads, n)[idx][langs[j]] == reads[j]->0[idx]
            },
        merge_reads(langs, reads, n).contains_key(idx) && merge_reads(langs, reads, n)[idx].contains_key(l)
            ==> exists|j: int|
            0 <= j < n && langs[j] == l && (#[trigger] reads[j] matches Some(m) && m.contains_key(idx)),
    decreases n,
{
    if n > 0 {
        lemma_merge_reads_cell(langs, reads, n - 1, idx, l);
        let prev = merge_reads(langs, reads, n - 1);
        let cur = merge_reads(langs, reads, n);
        assert forall|j: int|
            0 <= j < n && (#[trigger] reads[j] matches Some(m) && m.contains_key(idx)) implies {
                &&& cur.contains_key(idx)
                &&& cur[idx].contains_key(langs[j])
                &&& cur[idx][langs[j]] == reads[j]->0[idx]
            } by {
            if j < n - 1 {
                assert(prev.contains_key(idx));
                match reads[n - 1] {
                    Some(m) => {
                        if m.contains_key(idx) {
                            assert(langs[n - 1] != langs[j]);
                        }
                    },
                    None => {},
                }
            }
        }
        if cur.contains_key(idx) && cur[idx].contains_key(l) {
            match reads[n - 1] {
                Some(m) => {
                    if m.contains_key(idx) && langs[n - 1] == l {
                        assert(reads[n - 1] matches Some(m) && m.contains_key(idx));
                    } else {
                        assert(prev.contains_key(idx) && prev[idx].contains_key(l));
                    }
                },
                None => {},
            }
        }
        if cur.contains_key(idx) {
            if !prev.contains_key(idx) {
                assert(reads[n - 1] matches Some(m) && m.contains_key(idx));
            }
        }
    }
}

} // verus!
