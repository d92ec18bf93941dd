use vstd::prelude::*;
use crate::strmap::StrMap;
use crate::strmap;
use crate::text;
use crate::row::CILangsToolsRow;
use crate::row::RowView;
use crate::file;
use crate::langs;
use crate::langs::FileRows;
use crate::file::CILangsToolsFile;

verus! {

/// Whether a row needs its text in `from` carried over to `to`: it has a
/// text in `from`, and in `to` none or one that is only whitespace.
pub open spec fn needs(r: RowView, from: Seq<char>, to: Seq<char>) -> bool {
    &&& strmap::has_key(r.translate, from)
    &&& match strmap::seq_lookup(r.translate, to) {
        None => true,
        Some(t) => text::trimmed(t).len() == 0,
    }
}

/// Storing the answers: the row of `keys[i]` then has `answers[i]` as its text
/// in `lang` and keeps its texts in the other languages; a row whose key is
/// not among `keys` is left as it was.
pub proof fn lemma_applied_lookup(
    rows: Seq<(Seq<char>, RowView)>,
    keys: Seq<Seq<char>>,
    lang: Seq<char>,
    answers: Seq<Seq<char>>,
    i: int,
    l: Seq<char>,
    k: Seq<char>,
)
    requires
        strmap::distinct_keys(rows),
        forall|j: int| 0 <= j < rows.len() ==> strmap::distinct_keys(#[trigger] rows[j].1.translate),
        keys.no_duplicates(),
        0 <= i < keys.len(),
        strmap::has_key(rows, keys[i]),
    ensures
        ({
            let r = strmap::seq_lookup(applied(rows, keys, lang, answers), keys[i]);
            let before = strmap::seq_lookup(rows, keys[i]).unwrap();
            &&& r is Some
            &&& strmap::seq_lookup(r.unwrap().translate, lang) == Some(answers[i])
            &&& l != lang ==> strmap::seq_lookup(r.unwrap().translate, l) == strmap::seq_lookup(before.translate, l)
        }),
        !keys.contains(k) ==> strmap::seq_lookup(applied(rows, keys, lang, answers), k) == strmap::seq_lookup(rows, k),
{
    let a = applied(rows, keys, lang, answers);
    assert forall|x: int, y: int| 0 <= x < y < a.len() implies (#[trigger] a[x]).0 != (#[trigger] a[y]).0 by {
        assert(a[x].0 == rows[x].0 && a[y].0 == rows[y].0);
    }
    let q = strmap::key_pos(rows, keys[i]);
    strmap::lemma_lookup_unique(rows, keys[i], q);
    assert(keys.contains(rows[q].0));
    lemma_index_of_unique(keys, i);
    assert(a[q] == (keys[i], set_text(rows[q].1, lang, answers[i])));
    strmap::lemma_lookup_unique(a, keys[i], q);
    strmap::lemma_upsert_lookup(rows[q].1.translate, lang, answers[i], l);
    if !keys.contains(k) && strmap::has_key(rows, k) {
        let p = strmap::key_pos(rows, k);
        assert(a[p] == rows[p]);
        strmap::lemma_lookup_unique(rows, k, p);
        strmap::lemma_lookup_unique(a, k, p);
    } else if !keys.contains(k) && strmap::has_key(a, k) {
        let p = strmap::key_pos(a, k);
        assert(a[p].0 == rows[p].0);
    }
}

/// The indexes of the rows that need their `from` text carried to `to`, in order.
pub open spec fn to_translate(rows: Seq<(Seq<char>, RowView)>, from: Seq<char>, to: Seq<char>) -> Seq<Seq<char>> {
    langs::keys_of(rows.filter(|e: (Seq<char>, RowView)| needs(e.1, from, to)))
}

/// The rows picked for the pair `from`, `to` are, in order, exactly those with
/// a text in `from` and no text, or only whitespace, in `to`; what a row
/// holds in any other language plays no part.
pub proof fn lemma_to_translate_picks(rows: Seq<(Seq<char>, RowView)>, from: Seq<char>, to: Seq<char>)
    ensures
        to_translate(rows, from, to) == langs::keys_of(
            rows.filter(
                |e: (Seq<char>, RowView)|
                    strmap::has_key(e.1.translate, from) && match strmap::seq_lookup(e.1.translate, to) {
                        None => true,
                        Some(t) => text::trimmed(t).len() == 0,
                    },
            ),
        ),
{
    let p = |e: (Seq<char>, RowView)|
        strmap::has_key(e.1.translate, from) && match strmap::seq_lookup(e.1.translate, to) {
            None => true,
            Some(t) => text::trimmed(t).len() == 0,
        };
    assert((|e: (Seq<char>, RowView)| needs(e.1, from, to)) =~= p);
}

/// `s` cut into pieces of `n` (the last may be shorter), in order.
pub open spec fn chunks_of(s: Seq<Seq<char>>, n: nat) -> Seq<Seq<Seq<char>>>
    decreases s.len(),
{
    if s.len() == 0 || n == 0 {
        Seq::empty()
    } else if s.len() <= n {
        seq![s]
    } else {
        seq![s.take(n as int)] + chunks_of(s.skip(n as int), n)
    }
}

/// Cutting keeps everything in order, and each piece has 1 to `n` elements.
pub proof fn lemma_chunks(s: Seq<Seq<char>>, n: nat)
    requires
        n > 0,
    ensures
        chunks_of(s, n).flatten() == s,
        forall|i: int| 0 <= i < chunks_of(s, n).len() ==> 0 < (#[trigger] chunks_of(s, n)[i]).len() <= n,
    decreases s.len(),
{
    if s.len() == 0 {
    } else if s.len() <= n {
        assert(seq![s].drop_first() =~= Seq::<Seq<Seq<char>>>::empty());
        assert(seq![s].first() == s);
        assert(seq![s].drop_first().flatten() =~= Seq::<Seq<char>>::empty());
        assert(seq![s].flatten() =~= s);
    } else {
        lemma_chunks(s.skip(n as int), n);
        let c = chunks_of(s, n);
        assert(c.drop_first() =~= chunks_of(s.skip(n as int), n));
        assert(c.flatten() =~= s.take(n as int) + s.skip(n as int));
        assert(s.take(n as int) + s.skip(n as int) =~= s);
        assert forall|i: int| 0 <= i < c.len() implies 0 < (#[trigger] c[i]).len() <= n by {
            if i > 0 {
                assert(c[i] == chunks_of(s.skip(n as int), n)[i - 1]);
            }
        }
    }
}

/// A position of `x` in a sequence without duplicates is the one where it is.
pub proof fn lemma_index_of_unique(s: Seq<Seq<char>>, i: int)
    requires
        s.no_duplicates(),
        0 <= i < s.len(),
    ensures
        s.index_of(s[i]) == i,
{
    assert(s.contains(s[i]));
    let j = s.index_of(s[i]);
    assert(s[j] == s[i]);
}

/// The row with `text` stored for `lang`.
pub open spec fn set_text(r: RowView, lang: Seq<char>, text: Seq<char>) -> RowView {
    RowView { translate: strmap::upsert(r.translate, lang, text), ..r }
}

/// The rows after storing `answers[i]` in `lang` for the row `keys[i]`.
pub open spec fn applied(
    rows: Seq<(Seq<char>, RowView)>,
    keys: Seq<Seq<char>>,
    lang: Seq<char>,
    answers: Seq<Seq<char>>,
) -> Seq<(Seq<char>, RowView)> {
    Seq::new(
        rows.len(),
        |j: int|
            if keys.contains(rows[j].0) {
                (rows[j].0, set_text(rows[j].1, lang, answers[keys.index_of(rows[j].0)]))
            } else {
                rows[j]
            },
    )
}

/// The indexes of the rows that need their `from` text carried to `to` (a text in
/// `from`, and in `to` none or a blank one), in order.
pub fn rows_to_translate(rows: &StrMap<CILangsToolsRow>, from: &str, to: &str) -> (r: Vec<String>)
    requires
        file::translations_wf(*rows),
    ensures
        r.deep_view() == to_translate(rows@, from@, to@),
{
    let ghost pred = |e: (Seq<char>, RowView)| needs(e.1, from@, to@);
    let mut r: Vec<String> = Vec::new();
    let mut i: usize = 0;
    assert(rows@.take(0).filter(pred) =~= Seq::<(Seq<char>, RowView)>::empty()) by {
        reveal(Seq::filter);
    }
    assert(langs::keys_of(Seq::<(Seq<char>, RowView)>::empty()) =~= Seq::<Seq<char>>::empty());
    while i < rows.len()
        invariant
            i <= rows.entries@.len(),
            file::translations_wf(*rows),
            pred == (|e: (Seq<char>, RowView)| needs(e.1, from@, to@)),
            r.deep_view() == langs::keys_of(rows@.take(i as int).filter(pred)),
        decreases rows.entries@.len() - i,
    {
        let row = rows.value_at(i);
        proof {
            assert(rows@.take(i + 1) =~= rows@.take(i as int).push(rows@[i as int]));
            rows@.take(i as int).lemma_filter_push(rows@[i as int], pred);
            assert(row.translate.wf());
            row.translate.lemma_view_lookup(from@);
            row.translate.lemma_view_lookup(to@);
        }
        let blank_target = match row.translate.get(to) {
            None => true,
            Some(t) => text::trim(t.as_str()).as_str().is_empty(),
        };
        if row.translate.contains_key(from) && blank_target {
            let ghost before = r.deep_view();
            r.push(rows.key_at(i).clone());
            assert(r.deep_view() =~= before.push(rows@[i as int].0));
            assert(langs::keys_of(rows@.take(i as int).filter(pred).push(rows@[i as int])) =~= langs::keys_of(
                rows@.take(i as int).filter(pred),
            ).push(rows@[i as int].0));
        }
        i = i + 1;
    }
    assert(rows@.take(rows.entries@.len() as int) =~= rows@);
    r
}

/// The keys cut into pieces of `n`.
pub fn chunk(keys: &Vec<String>, n: usize) -> (r: Vec<Vec<String>>)
    requires
        n > 0,
    ensures
        r@.len() == chunks_of(keys.deep_view(), n as nat).len(),
        forall|i: int| 0 <= i < r@.len() ==> (#[trigger] r@[i]).deep_view() == chunks_of(keys.deep_view(), n as nat)[i],
{
    let mut r: Vec<Vec<String>> = Vec::new();
    let mut start: usize = 0;
    assert(keys.deep_view().skip(0) =~= keys.deep_view());
    assert(Seq::new(r@.len(), |i: int| r@[i].deep_view()) =~= Seq::<Seq<Seq<char>>>::empty());
    while start < keys.len()
        invariant
            n > 0,
            start <= keys@.len(),
            chunks_of(keys.deep_view(), n as nat) == Seq::new(r@.len(), |i: int| r@[i].deep_view()) + chunks_of(
                keys.deep_view().skip(start as int),
                n as nat,
            ),
        decreases keys.len() - start,
    {
        let end = if keys.len() - start <= n { keys.len() } else { start + n };
        let mut piece: Vec<String> = Vec::new();
        let mut k = start;
        while k < end
            invariant
                start <= k <= end <= keys@.len(),
                piece.deep_view() == keys.deep_view().subrange(start as int, k as int),
            decreases end - k,
        {
            let ghost before = piece.deep_view();
            piece.push(keys[k].clone());
            assert(piece.deep_view() =~= before.push(keys@[k as int]@));
            assert(keys.deep_view().subrange(start as int, k + 1) =~= keys.deep_view().subrange(start as int, k as int).push(keys@[k as int]@));
            k = k + 1;
        }
        let ghost rest = keys.deep_view().skip(start as int);
        proof {
            if end == keys@.len() {
                assert(rest.len() <= n);
                assert(piece.deep_view() =~= rest);
                assert(keys.deep_view().skip(end as int) =~= Seq::<Seq<char>>::empty());
            } else {
                assert(piece.deep_view() =~= rest.take(n as int));
                assert(rest.skip(n as int) =~= keys.deep_view().skip(end as int));
            }
        }
        let ghost old_r = Seq::new(r@.len(), |i: int| r@[i].deep_view());
        r.push(piece);
        assert(Seq::new(r@.len(), |i: int| r@[i].deep_view()) =~= old_r.push(r@[r@.len() - 1].deep_view()));
        proof {
            if end == keys@.len() {
                assert(chunks_of(rest, n as nat) == seq![rest]);
            }
            assert(chunks_of(keys.deep_view(), n as nat) =~= Seq::new(r@.len(), |i: int| r@[i].deep_view()) + chunks_of(
                keys.deep_view().skip(end as int),
                n as nat,
            ));
        }
        start = end;
    }
    proof {
        assert(keys.deep_view().skip(start as int) =~= Seq::<Seq<char>>::empty());
        assert(chunks_of(keys.deep_view(), n as nat) =~= Seq::new(r@.len(), |i: int| r@[i].deep_view()));
    }
    r
}


/// The text of row `k` in `lang`.
pub open spec fn text_in(rows: Seq<(Seq<char>, RowView)>, k: Seq<char>, lang: Seq<char>) -> Seq<char> {
    strmap::seq_lookup(strmap::seq_lookup(rows, k).unwrap().translate, lang).unwrap()
}

/// The texts in `lang` of the rows `keys`, in order.
pub fn texts_of(rows: &StrMap<CILangsToolsRow>, keys: &Vec<String>, lang: &str) -> (r: Vec<String>)
    requires
        rows.wf(),
        file::translations_wf(*rows),
        forall|i: int|
            0 <= i < keys@.len() ==> strmap::has_key(rows@, #[trigger] keys@[i]@) && strmap::has_key(
                strmap::seq_lookup(rows@, keys@[i]@).unwrap().translate,
                lang@,
            ),
    ensures
        r.deep_view() == keys.deep_view().map_values(|k: Seq<char>| text_in(rows@, k, lang@)),
{
    let mut r: Vec<String> = Vec::new();
    let mut i: usize = 0;
    while i < keys.len()
        invariant
            i <= keys@.len(),
            rows.wf(),
            file::translations_wf(*rows),
            forall|i: int|
                0 <= i < keys@.len() ==> strmap::has_key(rows@, #[trigger] keys@[i]@) && strmap::has_key(
                    strmap::seq_lookup(rows@, keys@[i]@).unwrap().translate,
                    lang@,
                ),
            r.deep_view() == keys.deep_view().take(i as int).map_values(|k: Seq<char>| text_in(rows@, k, lang@)),
        decreases keys.len() - i,
    {
        let k = &keys[i];
        proof {
            rows.lemma_view_lookup(k@);
            assert(strmap::has_key(rows@, keys@[i as int]@));
        }
        let p = rows.find(k.as_str());
        match p {
            Some(p) => {
                let row = rows.value_at(p);
                proof {
                    rows.lemma_lookup_at(p as int);
                    assert(row.translate.wf());
                    row.translate.lemma_view_lookup(lang@);
                }
                match row.translate.get(lang) {
                    Some(t) => {
                        let ghost before = r.deep_view();
                        r.push(t.clone());
                        assert(r.deep_view() =~= before.push(t@));
                        assert(keys.deep_view().take(i + 1).map_values(|k: Seq<char>| text_in(rows@, k, lang@)) =~= keys.deep_view().take(i as int).map_values(|k: Seq<char>| text_in(rows@, k, lang@)).push(text_in(rows@, k@, lang@)));
                    },
                    None => {
                        assert(false);
                    },
                }
            },
            None => {
                assert(false);
            },
        }
        i = i + 1;
    }
    assert(keys.deep_view().take(keys@.len() as int) =~= keys.deep_view());
    r
}

/// Stores `answers[i]` in `lang` for the row `keys[i]`, for each `i`.
pub fn apply_translation(
    rows: &mut StrMap<CILangsToolsRow>,
    keys: &Vec<String>,
    lang: &String,
    answers: &Vec<String>,
)
    requires
        old(rows).wf(),
        file::translations_wf(*old(rows)),
        keys.deep_view().no_duplicates(),
        answers@.len() >= keys@.len(),
        forall|i: int| 0 <= i < keys@.len() ==> strmap::has_key(old(rows)@, #[trigger] keys@[i]@),
    ensures
        final(rows).wf(),
        file::translations_wf(*final(rows)),
        final(rows).keys() == old(rows).keys(),
        final(rows)@ == applied(old(rows)@, keys.deep_view(), lang@, answers.deep_view()),
{
    let ghost start = rows@;
    let mut i: usize = 0;
    assert(applied(start, keys.deep_view().take(0), lang@, answers.deep_view()) =~= start);
    while i < keys.len()
        invariant
            i <= keys@.len(),
            answers@.len() >= keys@.len(),
            keys.deep_view().no_duplicates(),
            start == old(rows)@,
            rows.wf(),
            file::translations_wf(*rows),
            rows.keys() == old(rows).keys(),
            forall|i: int| 0 <= i < keys@.len() ==> strmap::has_key(old(rows)@, #[trigger] keys@[i]@),
            rows@ == applied(start, keys.deep_view().take(i as int), lang@, answers.deep_view()),
        decreases keys.len() - i,
    {
        let k = &keys[i];
        let ghost kv = k@;
        let ghost before = *rows;
        let ghost t0 = keys.deep_view().take(i as int);
        let ghost t1 = keys.deep_view().take(i + 1);
        proof {
            assert(strmap::has_key(old(rows)@, keys@[i as int]@));
            let j = strmap::key_pos(old(rows)@, kv);
            assert(old(rows).keys()[j] == kv);
            assert(rows.has(kv));
        }
        match rows.find(k.as_str()) {
            Some(p) => {
                let mut row = rows.value_at(p).copy();
                proof {
                    assert(row.translate.wf());
                }
                row.translate.put(lang.clone(), answers[i].clone());
                let ghost nrow = row;
                rows.swap_value(p, row);
                proof {
                    assert(t1 =~= t0.push(kv));
                    assert(!t0.contains(kv)) by {
                        if t0.contains(kv) {
                            let m = t0.index_of(kv);
                            assert(keys.deep_view()[m] == keys.deep_view()[i as int]);
                        }
                    }
                    lemma_index_of_unique(t1, i as int);
                    assert(rows.keys()[p as int] == kv);
                    assert(rows.vals()[p as int] == nrow);
                    assert forall|j: int| 0 <= j < rows@.len() implies #[trigger] rows@[j] == before@.update(p as int, (kv, nrow@))[j] by {
                        assert(rows@[j] == (rows.keys()[j], rows.vals()[j]@));
                        assert(before@[j] == (before.keys()[j], before.vals()[j]@));
                    }
                    assert(rows@ =~= before@.update(p as int, (kv, nrow@)));
                    assert forall|j: int| 0 <= j < rows@.len() implies #[trigger] rows@[j] == applied(start, t1, lang@, answers.deep_view())[j] by {
                        if j == p as int {
                            assert(before@[j] == start[j]);
                            assert(nrow@ == set_text(start[j].1, lang@, answers.deep_view()[i as int]));
                        } else {
                            assert(rows.keys()[j] != kv);
                            assert(start[j].0 == rows.keys()[j]);
                            if t0.contains(start[j].0) {
                                let m = t0.index_of(start[j].0);
                                assert(t0[m] == start[j].0);
                                lemma_index_of_unique(t0, m);
                                assert(t1[m] == start[j].0);
                                lemma_index_of_unique(t1, m);
                            } else {
                                assert(!t1.contains(start[j].0)) by {
                                    if t1.contains(start[j].0) {
                                        let m = t1.index_of(start[j].0);
                                        if m < i {
                                            assert(t0[m] == start[j].0);
                                        }
                                    }
                                }
                            }
                        }
                    }
                    assert(rows@ =~= applied(start, t1, lang@, answers.deep_view()));
                    assert forall|m: int| 0 <= m < rows.vals().len() implies (#[trigger] rows.vals()[m]).translate.wf() by {
                        if m != p as int {
                            assert(rows.vals()[m] == before.vals()[m]);
                        }
                    }
                }
            },
            None => {
                assert(false);
            },
        }
        i = i + 1;
    }
    assert(keys.deep_view().take(keys@.len() as int) =~= keys.deep_view());
}


// ---------------------------------------------------------------------------
// The translation run
// ---------------------------------------------------------------------------

/// Where a translation run stands.
#[derive(PartialEq, Eq, Structural)]
pub enum Phase {
    Ready,
    AwaitAnswer,
    AwaitSave,
    Finished,
}

/// What the translation run asks for next.
pub enum TranslateStep {
    /// Translate the texts in the direction (`from-to`) with the key.
    Translate { texts: Vec<String>, direction: String, key: String },
    /// Write the rows as the file's language file for `lang`.
    Save { file: CILangsToolsFile, lang: String, rows: StrMap<CILangsToolsRow> },
    /// The run is over; its report.
    Done(String),
}

/// A step of the run as character sequences.
pub enum RunStepView {
    Translate { texts: Seq<Seq<char>>, direction: Seq<char>, key: Seq<char> },
    Save { file: file::FileView, lang: Seq<char>, rows: Seq<(Seq<char>, RowView)> },
    Done(Seq<char>),
}

impl View for TranslateStep {
    type V = RunStepView;

    open spec fn view(&self) -> RunStepView {
        match self {
            TranslateStep::Translate { texts, direction, key } => RunStepView::Translate {
                texts: texts.deep_view(),
                direction: direction@,
                key: key@,
            },
            TranslateStep::Save { file, lang, rows } => RunStepView::Save { file: file@, lang: lang@, rows: rows@ },
            TranslateStep::Done(s) => RunStepView::Done(s@),
        }
    }
}

/// What happens to a run: it is asked for its next step (and gives the
/// step), it is handed the answer for a piece, or told that a file was written.
pub enum RunEvent {
    Next(RunStepView),
    Answer(Option<Seq<Seq<char>>>),
    Saved,
}

/// Translates, file by file and for each pair of different languages, the
/// rows that have a text in the first and none in the second, in pieces of
/// 20; after each pair with such rows, the file is written in the second
/// language.
pub struct TranslateRun {
    pub files: Vec<FileRows>,
    pub langs: Vec<String>,
    pub key: String,
    pub file_idx: usize,
    pub from_idx: usize,
    pub to_idx: usize,
    pub rows: StrMap<CILangsToolsRow>,
    pub chunks: Vec<Vec<String>>,
    pub chunk_idx: usize,
    pub pair_open: bool,
    pub report: String,
    pub translated: bool,
    pub phase: Phase,
}

/// Whether the pair `(f, t)` has nothing to translate.
pub open spec fn idle(rows: Seq<(Seq<char>, RowView)>, langs: Seq<Seq<char>>, f: int, t: int) -> bool {
    langs[f] == langs[t] || to_translate(rows, langs[f], langs[t]).len() == 0
}

/// Whether `(f, t)` comes before `(f1, t1)`.
pub open spec fn before(f: int, t: int, f1: int, t1: int) -> bool {
    f < f1 || (f == f1 && t < t1)
}

/// Every pair from `(f0, t0)` up to, not including, `(f1, t1)` has nothing to translate.
pub open spec fn idle_range(
    rows: Seq<(Seq<char>, RowView)>,
    langs: Seq<Seq<char>>,
    f0: int,
    t0: int,
    f1: int,
    t1: int,
) -> bool {
    forall|f: int, t: int|
        0 <= f < langs.len() && 0 <= t < langs.len() && !before(f, t, f0, t0) && before(f, t, f1, t1)
            ==> #[trigger] idle(rows, langs, f, t)
}

/// The pieces as character sequences.
pub open spec fn chunks_view(chunks: Seq<Vec<String>>) -> Seq<Seq<Seq<char>>> {
    Seq::new(chunks.len(), |i: int| chunks[i].deep_view())
}

/// Row `k` has `v` as its text in `l`.
pub open spec fn row_has(rows: Seq<(Seq<char>, RowView)>, k: Seq<char>, l: Seq<char>, v: Seq<char>) -> bool {
    exists|i: int, j: int|
        0 <= i < rows.len() && 0 <= j < rows[i].1.translate.len() && rows[i].0 == k && #[trigger] rows[i].1.translate[j]
            == (l, v)
}

/// Every text of `orig` that is not only whitespace is still in `cur`.
pub open spec fn keeps(orig: Seq<(Seq<char>, RowView)>, cur: Seq<(Seq<char>, RowView)>) -> bool {
    forall|k: Seq<char>, l: Seq<char>, v: Seq<char>|
        #[trigger] row_has(orig, k, l, v) && text::trimmed(v).len() > 0 ==> row_has(cur, k, l, v)
}

/// The line of the report for a file written in `lang`.
pub open spec fn report_line(lang: Seq<char>, name: Seq<char>) -> Seq<char> {
    "["@ + lang + "] "@ + name + " \n"@
}

/// In entries with distinct keys, the value of the entry with key `k`.
pub proof fn lemma_seq_lookup_at<W>(s: Seq<(Seq<char>, W)>, i: int)
    requires
        langs::keys_of(s).no_duplicates(),
        0 <= i < s.len(),
    ensures
        strmap::has_key(s, s[i].0),
        strmap::seq_lookup(s, s[i].0) == Some(s[i].1),
{
    let k = s[i].0;
    assert(s[i].0 == k);
    let j = strmap::key_pos(s, k);
    assert(s[j].0 == k);
    assert(langs::keys_of(s)[j] == langs::keys_of(s)[i]);
}

/// The keys of a filtered list are distinct when those of the list are.
pub proof fn lemma_keys_filter_distinct<W>(s: Seq<(Seq<char>, W)>, p: spec_fn((Seq<char>, W)) -> bool)
    requires
        langs::keys_of(s).no_duplicates(),
    ensures
        langs::keys_of(s.filter(p)).no_duplicates(),
    decreases s.len(),
{
    if s.len() > 0 {
        let pre = s.drop_last();
        let e = s.last();
        assert(s =~= pre.push(e));
        assert(langs::keys_of(pre) =~= langs::keys_of(s).drop_last());
        lemma_keys_filter_distinct(pre, p);
        pre.lemma_filter_push(e, p);
        if p(e) {
            let f = pre.filter(p);
            assert(langs::keys_of(f.push(e)) =~= langs::keys_of(f).push(e.0));
            assert forall|a: int, b: int| 0 <= a < b < langs::keys_of(f.push(e)).len() implies langs::keys_of(f.push(e))[a] != langs::keys_of(f.push(e))[b] by {
                if b == f.len() {
                    if langs::keys_of(f)[a] == e.0 {
                        assert(f.contains(f[a]));
                        pre.lemma_filter_contains_rev(p, f[a]);
                        let m = pre.index_of(f[a]);
                        assert(langs::keys_of(s)[m] == langs::keys_of(s)[s.len() - 1]);
                    }
                }
            }
        }
    }
}

/// Every key of the filtered list is the key of an entry that passes.
pub proof fn lemma_keys_filter_member<W>(s: Seq<(Seq<char>, W)>, p: spec_fn((Seq<char>, W)) -> bool, k: Seq<char>)
    requires
        langs::keys_of(s.filter(p)).contains(k),
    ensures
        exists|i: int| 0 <= i < s.len() && s[i].0 == k && p(#[trigger] s[i]),
{
    let f = s.filter(p);
    let a = langs::keys_of(f).index_of(k);
    assert(f[a].0 == k);
    assert(f.contains(f[a]));
    s.lemma_filter_contains_rev(p, f[a]);
    s.lemma_filter_pred(p, a);
    let i = s.index_of(f[a]);
    assert(s[i] == f[a]);
}

impl TranslateRun {
    /// The open pair joins two different languages, its pieces hold 1 to 20
    /// keys each, and the pieces still to translate hold rows to translate
    /// from the first language to the second, each once.
    pub open spec fn open_ok(&self) -> bool {
        let cv = chunks_view(self.chunks@);
        &&& self.langs@[self.from_idx as int]@ != self.langs@[self.to_idx as int]@
        &&& forall|j: int| 0 <= j < cv.len() ==> 0 < (#[trigger] cv[j]).len() <= 20
        &&& cv.flatten().no_duplicates()
        &&& self.chunk_idx <= cv.len()
        &&& cv.skip(self.chunk_idx as int).flatten().no_duplicates()
        &&& forall|k: Seq<char>| #[trigger]
            cv.skip(self.chunk_idx as int).flatten().contains(k) ==> strmap::has_key(self.rows@, k) && needs(
                strmap::seq_lookup(self.rows@, k).unwrap(),
                self.langs@[self.from_idx as int]@,
                self.langs@[self.to_idx as int]@,
            )
    }

    /// The keys of the piece to translate now.
    pub open spec fn current_keys(&self) -> Seq<Seq<char>> {
        self.chunks@[self.chunk_idx as int].deep_view()
    }

    /// What holds between the steps of a run.
    pub open spec fn inv(&self) -> bool {
        &&& forall|i: int| 0 <= i < self.files@.len() ==> langs::rows_wf(#[trigger] self.files@[i].rows)
        &&& self.file_idx <= self.files@.len()
        &&& self.from_idx <= self.langs@.len()
        &&& self.to_idx <= self.langs@.len()
        &&& self.file_idx < self.files@.len() ==> {
            &&& langs::rows_wf(self.rows)
            &&& self.rows.keys() == self.files@[self.file_idx as int].rows.keys()
            &&& keeps(self.files@[self.file_idx as int].rows@, self.rows@)
        }
        &&& self.pair_open ==> {
            &&& self.file_idx < self.files@.len()
            &&& self.from_idx < self.langs@.len()
            &&& self.to_idx < self.langs@.len()
            &&& self.open_ok()
        }
        &&& self.phase == Phase::AwaitAnswer ==> self.pair_open && self.chunk_idx < self.chunks@.len()
        &&& self.phase == Phase::AwaitSave ==> self.pair_open && self.chunk_idx == self.chunks@.len()
        &&& self.phase == Phase::Finished ==> self.file_idx == self.files@.len() && !self.pair_open
        &&& !self.pair_open ==> self.phase == Phase::Ready || self.phase == Phase::Finished
    }
}


impl TranslateRun {
    /// A run as `new` makes it.
    pub open spec fn fresh(r: TranslateRun) -> bool {
        &&& r.inv()
        &&& r.phase == Phase::Ready
        &&& !r.pair_open
        &&& r.file_idx == 0
        &&& r.from_idx == 0
        &&& r.to_idx == 0
        &&& r.report@ == Seq::<char>::empty()
        &&& !r.translated
    }

    /// What `next` does: from `a`, giving step `r`, to `b`.
    pub open spec fn next_step(a: TranslateRun, r: RunStepView, b: TranslateRun) -> bool {
        &&& a.inv()
        &&& a.phase == Phase::Ready
        &&& b.inv()
        &&& b.files == a.files
        &&& b.langs == a.langs
        &&& b.key == a.key
        &&& b.report == a.report
        &&& b.translated == a.translated
        &&& a.pair_open ==> b.file_idx == a.file_idx && b.from_idx == a.from_idx && b.to_idx == a.to_idx
            && b.chunks == a.chunks && b.chunk_idx == a.chunk_idx && b.rows@ == a.rows@
        &&& match r {
            RunStepView::Translate { texts, direction, key } => {
                &&& b.phase == Phase::AwaitAnswer
                &&& texts == b.current_texts()
                &&& direction == b.langs@[b.from_idx as int]@ + "-"@ + b.langs@[b.to_idx as int]@
                &&& key == b.key@
            },
            RunStepView::Save { file, lang, rows } => {
                &&& b.phase == Phase::AwaitSave
                &&& file == b.files@[b.file_idx as int].file@
                &&& lang == b.langs@[b.to_idx as int]@
                &&& rows == b.rows@
            },
            RunStepView::Done(s) => {
                &&& b.phase == Phase::Finished
                &&& s == if b.translated {
                    b.report@
                } else {
                    langs::all_translated()
                }
            },
        }
    }

    /// What `answer` does: from `a`, with the answer `ans`, to `b`.
    pub open spec fn answer_step(a: TranslateRun, ans: Option<Seq<Seq<char>>>, b: TranslateRun) -> bool {
        &&& a.inv()
        &&& a.phase == Phase::AwaitAnswer
        &&& ans matches Some(v) ==> v.len() >= a.current_keys().len()
        &&& b.inv()
        &&& b.phase == Phase::Ready
        &&& b.pair_open
        &&& b.chunk_idx == a.chunk_idx + 1
        &&& b.rows@ == match ans {
            Some(v) => applied(a.rows@, a.current_keys(), a.langs@[a.to_idx as int]@, v),
            None => a.rows@,
        }
        &&& b.translated == (a.translated || ans is Some)
        &&& b.files == a.files
        &&& b.langs == a.langs
        &&& b.key == a.key
        &&& b.file_idx == a.file_idx
        &&& b.from_idx == a.from_idx
        &&& b.to_idx == a.to_idx
        &&& b.report == a.report
        &&& b.chunks == a.chunks
    }

    /// What `saved` does: from `a` to `b`.
    pub open spec fn saved_step(a: TranslateRun, b: TranslateRun) -> bool {
        &&& a.inv()
        &&& a.phase == Phase::AwaitSave
        &&& b.inv()
        &&& b.phase == Phase::Ready
        &&& !b.pair_open
        &&& b.report@ == a.report@ + report_line(
            a.langs@[a.to_idx as int]@,
            a.files@[a.file_idx as int].name@,
        )
        &&& b.files == a.files
        &&& b.langs == a.langs
        &&& b.key == a.key
        &&& b.translated == a.translated
    }

    /// One event of a run, from `a` to `b`.
    pub open spec fn step(a: TranslateRun, e: RunEvent, b: TranslateRun) -> bool {
        match e {
            RunEvent::Next(r) => TranslateRun::next_step(a, r, b),
            RunEvent::Answer(ans) => TranslateRun::answer_step(a, ans, b),
            RunEvent::Saved => TranslateRun::saved_step(a, b),
        }
    }
}

/// `runs` is a run from its start through `events`: `runs[i + 1]` is where
/// event `i` took `runs[i]`.
pub open spec fn is_trace(runs: Seq<TranslateRun>, events: Seq<RunEvent>) -> bool {
    &&& runs.len() == events.len() + 1
    &&& TranslateRun::fresh(runs[0])
    &&& forall|i: int| 0 <= i < events.len() ==> TranslateRun::step(#[trigger] runs[i], events[i], runs[i + 1])
}

/// Whether one of the first `n` events handed over an answer.
pub open spec fn answered(events: Seq<RunEvent>, n: int) -> bool {
    exists|j: int| 0 <= j < n && #[trigger] events[j] matches RunEvent::Answer(Some(_))
}

/// The report after the first `n` events: one line `[lang] file \n` per
/// file written, in order.
pub open spec fn saved_report(runs: Seq<TranslateRun>, events: Seq<RunEvent>, n: int) -> Seq<char>
    decreases n,
{
    if n <= 0 {
        Seq::empty()
    } else {
        saved_report(runs, events, n - 1) + match events[n - 1] {
            RunEvent::Saved => "["@ + runs[n - 1].langs@[runs[n - 1].to_idx as int]@ + "] "@
                + runs[n - 1].files@[runs[n - 1].file_idx as int].name@ + " \n"@,
            _ => Seq::empty(),
        }
    }
}

proof fn lemma_trace_state(runs: Seq<TranslateRun>, events: Seq<RunEvent>, n: int)
    requires
        is_trace(runs, events),
        0 <= n < runs.len(),
    ensures
        runs[n].inv(),
        runs[n].files == runs[0].files,
        runs[n].langs == runs[0].langs,
        runs[n].key == runs[0].key,
        runs[n].report@ == saved_report(runs, events, n),
        runs[n].translated == answered(events, n),
    decreases n,
{
    if n > 0 {
        lemma_trace_state(runs, events, n - 1);
        let a = runs[n - 1];
        let b = runs[n];
        assert(TranslateRun::step(a, events[n - 1], b));
        assert(answered(events, n) == (answered(events, n - 1) || events[n - 1] matches RunEvent::Answer(Some(_)))) by {
            if answered(events, n) && !answered(events, n - 1) {
                let j = choose|j: int| 0 <= j < n && #[trigger] events[j] matches RunEvent::Answer(Some(_));
                assert(j == n - 1);
            }
            if events[n - 1] matches RunEvent::Answer(Some(_)) {
                assert(0 <= n - 1 < n);
            }
            if answered(events, n - 1) {
                let j = choose|j: int| 0 <= j < n - 1 && #[trigger] events[j] matches RunEvent::Answer(Some(_));
                assert(0 <= j < n);
            }
        }
        match events[n - 1] {
            RunEvent::Saved => {},
            _ => {
                assert(saved_report(runs, events, n) =~= saved_report(runs, events, n - 1));
            },
        }
    }
}

/// Every request of a run: it holds 1 to 20 texts, in the direction
/// `from-to` of two different languages of the run, with the run's key; the
/// texts are those in `from` of rows of the current file that, at that
/// moment, are to be translated to `to` (no text there, or a blank one).
pub proof fn lemma_run_requests(runs: Seq<TranslateRun>, events: Seq<RunEvent>, i: int)
    requires
        is_trace(runs, events),
        0 <= i < events.len(),
        events[i] is Next,
        events[i]->Next_0 is Translate,
    ensures
        ({
            let b = runs[i + 1];
            let ls = runs[0].langs@;
            let texts = events[i]->Next_0->texts;
            let direction = events[i]->Next_0->direction;
            let key = events[i]->Next_0->key;
            let keys = b.current_keys();
            &&& 1 <= texts.len() <= 20
            &&& texts.len() == keys.len()
            &&& b.from_idx < ls.len() && b.to_idx < ls.len()
            &&& ls[b.from_idx as int]@ != ls[b.to_idx as int]@
            &&& direction == ls[b.from_idx as int]@ + "-"@ + ls[b.to_idx as int]@
            &&& key == runs[0].key@
            &&& b.file_idx < runs[0].files@.len()
            &&& forall|m: int| 0 <= m < keys.len() ==> {
                &&& strmap::has_key(b.rows@, #[trigger] keys[m])
                &&& needs(strmap::seq_lookup(b.rows@, keys[m]).unwrap(), ls[b.from_idx as int]@, ls[b.to_idx as int]@)
                &&& texts[m] == text_in(b.rows@, keys[m], ls[b.from_idx as int]@)
            }
        }),
{
    lemma_trace_state(runs, events, i);
    lemma_trace_state(runs, events, i + 1);
    let b = runs[i + 1];
    assert(TranslateRun::step(runs[i], events[i], b));
    let cv = chunks_view(b.chunks@);
    let ci = b.chunk_idx as int;
    assert(cv.skip(ci).first() == cv[ci]);
    assert(cv.skip(ci).drop_first() =~= cv.skip(ci + 1));
    assert(cv.skip(ci).flatten() == cv[ci] + cv.skip(ci + 1).flatten());
    assert(b.current_keys() == cv[ci]);
    assert forall|m: int| 0 <= m < cv[ci].len() implies cv.skip(ci).flatten().contains(#[trigger] cv[ci][m]) by {
        assert(cv.skip(ci).flatten()[m] == cv[ci][m]);
    }
}

/// Every file a run writes keeps each text that is not blank of the rows
/// the file had at the start: a translation only fills missing or blank texts.
pub proof fn lemma_run_saves_keep(runs: Seq<TranslateRun>, events: Seq<RunEvent>, i: int)
    requires
        is_trace(runs, events),
        0 <= i < events.len(),
        events[i] is Next,
        events[i]->Next_0 is Save,
    ensures
        ({
            let b = runs[i + 1];
            let file = events[i]->Next_0->file;
            let rows = events[i]->Next_0->rows;
            &&& b.file_idx < runs[0].files@.len()
            &&& file == runs[0].files@[b.file_idx as int].file@
            &&& keeps(runs[0].files@[b.file_idx as int].rows@, rows)
        }),
{
    lemma_trace_state(runs, events, i + 1);
    assert(TranslateRun::step(runs[i], events[i], runs[i + 1]));
}

/// The final answer of a run: "Всё переведенно" when no answer came back,
/// else the report, one line per file written, in order.
pub proof fn lemma_run_result(runs: Seq<TranslateRun>, events: Seq<RunEvent>, i: int)
    requires
        is_trace(runs, events),
        0 <= i < events.len(),
        events[i] is Next,
        events[i]->Next_0 is Done,
    ensures
        events[i]->Next_0->Done_0 == if answered(events, i) {
            saved_report(runs, events, i)
        } else {
            "Всё переведенно"@
        },
{
    lemma_trace_state(runs, events, i);
    assert(TranslateRun::step(runs[i], events[i], runs[i + 1]));
}

/// With no key twice over all pieces, a key of one piece is in no later piece.
proof fn lemma_pieces_disjoint(cv: Seq<Seq<Seq<char>>>, c1: int, c2: int, x: Seq<char>)
    requires
        cv.flatten().no_duplicates(),
        0 <= c1 < c2 < cv.len(),
        cv[c1].contains(x),
    ensures
        !cv[c2].contains(x),
{
    if cv[c2].contains(x) {
        let p = cv[c1].index_of(x);
        let q = cv[c2].index_of(x);
        let t1 = cv.take(c1);
        let mid = cv.subrange(c1, c2);
        let rest = cv.skip(c2);
        assert(cv =~= t1 + (mid + rest));
        vstd::seq_lib::lemma_flatten_concat(t1, mid + rest);
        vstd::seq_lib::lemma_flatten_concat(mid, rest);
        assert(mid.flatten() == mid[0] + mid.drop_first().flatten());
        assert(mid[0] == cv[c1]);
        assert(rest.flatten() == rest[0] + rest.drop_first().flatten());
        assert(rest[0] == cv[c2]);
        let f = cv.flatten();
        let a = t1.flatten().len() + p;
        let b = t1.flatten().len() + mid.flatten().len() + q;
        assert(f[a] == x);
        assert(f[b] == x);
        assert(a < b);
    }
}

/// In a run between steps, the rows of the current file hold each key once
/// and each row each language once.
proof fn lemma_run_rows_distinct(x: TranslateRun)
    requires
        x.inv(),
        x.file_idx < x.files@.len(),
    ensures
        strmap::distinct_keys(x.rows@),
        forall|j: int| 0 <= j < x.rows@.len() ==> strmap::distinct_keys(#[trigger] x.rows@[j].1.translate),
{
    strmap::lemma_wf_distinct(x.rows);
    assert forall|j: int| 0 <= j < x.rows@.len() implies strmap::distinct_keys(#[trigger] x.rows@[j].1.translate) by {
        assert(x.rows.vals()[j].translate.wf());
        strmap::lemma_wf_distinct(x.rows.vals()[j].translate);
    }
}

/// The piece being translated holds each key once, each a key of the rows.
proof fn lemma_open_piece(x: TranslateRun)
    requires
        x.inv(),
        x.phase == Phase::AwaitAnswer,
    ensures
        x.current_keys().no_duplicates(),
        x.current_keys().len() > 0,
        forall|q: int| 0 <= q < x.current_keys().len() ==> strmap::has_key(x.rows@, #[trigger] x.current_keys()[q]),
{
    let cv = chunks_view(x.chunks@);
    let ci = x.chunk_idx as int;
    assert(cv.skip(ci).first() == cv[ci]);
    assert(cv.skip(ci).drop_first() =~= cv.skip(ci + 1));
    assert(cv.skip(ci).flatten() == cv[ci] + cv.skip(ci + 1).flatten());
    assert(x.current_keys() == cv[ci]);
    let flat = cv.skip(ci).flatten();
    assert forall|p: int, q: int| 0 <= p < q < cv[ci].len() implies cv[ci][p] != cv[ci][q] by {
        assert(flat[p] == cv[ci][p]);
        assert(flat[q] == cv[ci][q]);
    }
    assert forall|q: int| 0 <= q < cv[ci].len() implies strmap::has_key(x.rows@, #[trigger] cv[ci][q]) by {
        assert(flat[q] == cv[ci][q]);
        assert(flat.contains(cv[ci][q]));
    }
}

/// Between an answer and the next file written, the answered texts stay.
#[verifier::rlimit(80)]
#[verifier::spinoff_prover]
proof fn lemma_answer_kept(runs: Seq<TranslateRun>, events: Seq<RunEvent>, i: int, j: int, m: int, k: int)
    requires
        is_trace(runs, events),
        0 <= i < j < events.len(),
        events[i] matches RunEvent::Answer(Some(_)),
        forall|k2: int| i < k2 < j ==> !(#[trigger] events[k2] is Next && events[k2]->Next_0 is Save),
        0 <= m < runs[i].current_keys().len(),
        i + 1 <= k <= j,
    ensures
        ({
            let a = runs[i];
            let key = a.current_keys()[m];
            let lt = a.langs@[a.to_idx as int]@;
            let v = events[i]->Answer_0->Some_0;
            &&& runs[k].phase == Phase::Ready || runs[k].phase == Phase::AwaitAnswer
            &&& runs[k].pair_open
            &&& runs[k].file_idx == a.file_idx
            &&& runs[k].from_idx == a.from_idx
            &&& runs[k].to_idx == a.to_idx
            &&& runs[k].langs == a.langs
            &&& runs[k].chunks == a.chunks
            &&& runs[k].chunk_idx > a.chunk_idx
            &&& strmap::has_key(runs[k].rows@, key)
            &&& strmap::seq_lookup(strmap::seq_lookup(runs[k].rows@, key).unwrap().translate, lt) == Some(v[m])
        }),
    decreases k,
{
    let a = runs[i];
    let key = a.current_keys()[m];
    let lt = a.langs@[a.to_idx as int]@;
    let v = events[i]->Answer_0->Some_0;
    let cv = chunks_view(a.chunks@);
    let ci = a.chunk_idx as int;
    assert(TranslateRun::step(runs[i], events[i], runs[i + 1]));
    assert(a.current_keys() == cv[ci]);
    if k == i + 1 {
        lemma_trace_state(runs, events, i);
        lemma_run_rows_distinct(a);
        lemma_open_piece(a);
        lemma_applied_lookup(a.rows@, a.current_keys(), lt, v, m, lt, key);
    } else {
        lemma_answer_kept(runs, events, i, j, m, k - 1);
        let x = runs[k - 1];
        let y = runs[k];
        assert(TranslateRun::step(x, events[k - 1], y));
        assert(!(events[k - 1] is Next && events[k - 1]->Next_0 is Save));
        match events[k - 1] {
            RunEvent::Next(r) => {
                if r is Done {
                    assert(false);
                }
            },
            RunEvent::Answer(ans) => {
                let c2 = x.chunk_idx as int;
                assert(cv.flatten().no_duplicates());
                assert(cv[ci].contains(key)) by {
                    assert(cv[ci][m] == key);
                }
                lemma_pieces_disjoint(cv, ci, c2, key);
                assert(x.current_keys() == cv[c2]);
                match ans {
                    Some(w) => {
                        lemma_run_rows_distinct(x);
                        lemma_open_piece(x);
                        lemma_applied_lookup(x.rows@, x.current_keys(), lt, w, 0, lt, key);
                    },
                    None => {},
                }
            },
            RunEvent::Saved => {},
        }
    }
}

/// The answers for a piece land in its rows, and the next file the run
/// writes (the same file, in the target language) holds them: row
/// `keys[m]` has `answer[m]` as its text in the target language.
pub proof fn lemma_run_answers_saved(runs: Seq<TranslateRun>, events: Seq<RunEvent>, i: int, j: int, m: int)
    requires
        is_trace(runs, events),
        0 <= i < j < events.len(),
        events[i] matches RunEvent::Answer(Some(_)),
        events[j] is Next,
        events[j]->Next_0 is Save,
        forall|k: int| i < k < j ==> !(#[trigger] events[k] is Next && events[k]->Next_0 is Save),
        0 <= m < runs[i].current_keys().len(),
    ensures
        ({
            let a = runs[i];
            let v = events[i]->Answer_0->Some_0;
            let key = a.current_keys()[m];
            let lt = a.langs@[a.to_idx as int]@;
            let rows = events[j]->Next_0->rows;
            &&& runs[j + 1].file_idx == a.file_idx
            &&& runs[j + 1].to_idx == a.to_idx
            &&& events[j]->Next_0->lang == lt
            &&& strmap::has_key(rows, key)
            &&& strmap::seq_lookup(strmap::seq_lookup(rows, key).unwrap().translate, lt) == Some(v[m])
        }),
{
    lemma_answer_kept(runs, events, i, j, m, j);
    assert(TranslateRun::step(runs[j], events[j], runs[j + 1]));
}

/// Keeping texts carries over a step that only adds texts.
proof fn lemma_keeps_trans(a: Seq<(Seq<char>, RowView)>, b: Seq<(Seq<char>, RowView)>, c: Seq<(Seq<char>, RowView)>)
    requires
        keeps(a, b),
        keeps(b, c),
    ensures
        keeps(a, c),
{
    assert forall|k: Seq<char>, l: Seq<char>, v: Seq<char>| #[trigger] row_has(a, k, l, v) && text::trimmed(v).len() > 0 implies row_has(c, k, l, v) by {
        assert(row_has(b, k, l, v));
    }
}

impl TranslateRun {
    /// A run over the rows of every file, in the languages, with the key.
    pub fn new(files: Vec<FileRows>, langs: Vec<String>, key: String) -> (r: TranslateRun)
        requires
            forall|i: int| 0 <= i < files@.len() ==> langs::rows_wf(#[trigger] files@[i].rows),
        ensures
            r.inv(),
            r.files == files,
            r.langs == langs,
            r.key == key,
            r.file_idx == 0,
            r.from_idx == 0,
            r.to_idx == 0,
            !r.pair_open,
            r.phase == Phase::Ready,
            r.report@ == Seq::<char>::empty(),
            !r.translated,
            files@.len() > 0 ==> r.rows@ == files@[0].rows@,
            TranslateRun::fresh(r),
    {
        let rows = if files.len() > 0 {
            file::copy_rows(&files[0].rows)
        } else {
            StrMap::new()
        };
        let r = TranslateRun {
            files,
            langs,
            key,
            file_idx: 0,
            from_idx: 0,
            to_idx: 0,
            rows,
            chunks: Vec::new(),
            chunk_idx: 0,
            pair_open: false,
            report: String::new(),
            translated: false,
            phase: Phase::Ready,
        };
        proof {
            if r.files@.len() > 0 {
                assert(langs::rows_wf(r.files@[0].rows));
                assert forall|k: Seq<char>, l: Seq<char>, v: Seq<char>| #[trigger] row_has(r.files@[0].rows@, k, l, v) implies row_has(r.rows@, k, l, v) by {
                }
            }
        }
        r
    }

    /// The number of texts of the piece being translated.
    pub fn pending_len(&self) -> (n: usize)
        requires
            self.inv(),
            self.phase == Phase::AwaitAnswer,
        ensures
            n == self.current_keys().len(),
    {
        self.chunks[self.chunk_idx].len()
    }

    /// Records that the file was written: the report gains its line and the
    /// run goes on with the next pair.
    pub fn saved(&mut self)
        requires
            old(self).inv(),
            old(self).phase == Phase::AwaitSave,
        ensures
            final(self).inv(),
            final(self).phase == Phase::Ready,
            !final(self).pair_open,
            final(self).to_idx == old(self).to_idx + 1,
            final(self).report@ == old(self).report@ + report_line(
                old(self).langs@[old(self).to_idx as int]@,
                old(self).files@[old(self).file_idx as int].name@,
            ),
            final(self).files == old(self).files,
            final(self).langs == old(self).langs,
            final(self).key == old(self).key,
            final(self).file_idx == old(self).file_idx,
            final(self).from_idx == old(self).from_idx,
            final(self).rows == old(self).rows,
            final(self).translated == old(self).translated,
            TranslateRun::saved_step(*old(self), *final(self)),
    {
        text::append_str(&mut self.report, "[");
        text::append_str(&mut self.report, self.langs[self.to_idx].as_str());
        text::append_str(&mut self.report, "] ");
        text::append_str(&mut self.report, self.files[self.file_idx].name.as_str());
        text::append_str(&mut self.report, " \n");
        self.pair_open = false;
        let l = self.langs.len();
        assert(self.to_idx < l);
        self.to_idx = self.to_idx + 1;
        self.phase = Phase::Ready;
    }

    /// Records the answer for the piece being translated: where there is
    /// one, each row of the piece gets its text in the second language.
    pub fn answer(&mut self, ans: Option<Vec<String>>)
        requires
            old(self).inv(),
            old(self).phase == Phase::AwaitAnswer,
            ans matches Some(v) ==> v@.len() >= old(self).current_keys().len(),
        ensures
            final(self).inv(),
            final(self).phase == Phase::Ready,
            final(self).pair_open,
            final(self).chunk_idx == old(self).chunk_idx + 1,
            final(self).rows@ == match ans {
                Some(v) => applied(
                    old(self).rows@,
                    old(self).current_keys(),
                    old(self).langs@[old(self).to_idx as int]@,
                    v.deep_view(),
                ),
                None => old(self).rows@,
            },
            final(self).translated == (old(self).translated || ans is Some),
            final(self).files == old(self).files,
            final(self).langs == old(self).langs,
            final(self).key == old(self).key,
            final(self).file_idx == old(self).file_idx,
            final(self).from_idx == old(self).from_idx,
            final(self).to_idx == old(self).to_idx,
            final(self).report == old(self).report,
            final(self).chunks == old(self).chunks,
            TranslateRun::answer_step(
                *old(self),
                match ans {
                    Some(v) => Some(v.deep_view()),
                    None => None,
                },
                *final(self),
            ),
    {
        let ghost cv = chunks_view(self.chunks@);
        let ghost ci = self.chunk_idx as int;
        let ghost lf = self.langs@[self.from_idx as int]@;
        let ghost lt = self.langs@[self.to_idx as int]@;
        proof {
            assert(cv.skip(ci).first() == cv[ci]);
            assert(cv.skip(ci).drop_first() =~= cv.skip(ci + 1));
            assert(cv.skip(ci).flatten() == cv[ci] + cv.skip(ci + 1).flatten());
        }
        match ans {
            Some(v) => {
                let ghost before = self.rows@;
                let ghost keys = cv[ci];
                proof {
                    let flat = cv.skip(ci).flatten();
                    assert forall|a: int, b: int| 0 <= a < keys.len() && 0 <= b < keys.len() && a != b implies keys[a] != keys[b] by {
                        assert(flat[a] == keys[a]);
                        assert(flat[b] == keys[b]);
                    }
                    assert forall|i: int| 0 <= i < self.chunks@[ci]@.len() implies strmap::has_key(self.rows@, #[trigger] self.chunks@[ci]@[i]@) by {
                        assert(flat[i] == keys[i]);
                        assert(flat.contains(keys[i]));
                    }
                    assert(self.rows.keys() =~= langs::keys_of(self.rows@));
                }
                let lang = self.langs[self.to_idx].clone();
                apply_translation(&mut self.rows, &self.chunks[self.chunk_idx], &lang, &v);
                proof {
                    let after = self.rows@;
                    let flat = cv.skip(ci).flatten();
                    let rest = cv.skip(ci + 1).flatten();
                    assert(langs::keys_of(after) =~= langs::keys_of(before)) by {
                        assert(langs::keys_of(after) =~= self.rows.keys());
                        assert(langs::keys_of(before) =~= old(self).rows.keys());
                    }
                    assert(langs::keys_of(before) =~= old(self).rows.keys());
                    // the rest of the pieces: distinct, and their rows untouched
                    assert forall|a: int, b: int| 0 <= a < rest.len() && 0 <= b < rest.len() && a != b implies rest[a] != rest[b] by {
                        assert(flat[keys.len() + a] == rest[a]);
                        assert(flat[keys.len() + b] == rest[b]);
                    }
                    assert forall|k: Seq<char>| #[trigger] rest.contains(k) implies strmap::has_key(after, k) && needs(
                        strmap::seq_lookup(after, k).unwrap(),
                        lf,
                        lt,
                    ) by {
                        let a = rest.index_of(k);
                        assert(flat[keys.len() + a] == k);
                        assert(flat.contains(k));
                        assert(!keys.contains(k)) by {
                            if keys.contains(k) {
                                let b = keys.index_of(k);
                                assert(flat[b] == k);
                            }
                        }
                        let j = strmap::key_pos(before, k);
                        assert(before[j].0 == k);
                        assert(after[j] == before[j]);
                        lemma_seq_lookup_at(before, j);
                        lemma_seq_lookup_at(after, j);
                    }
                    // no text that is not blank was lost
                    assert forall|k: Seq<char>, l: Seq<char>, w: Seq<char>| #[trigger] row_has(before, k, l, w) && text::trimmed(w).len() > 0 implies row_has(after, k, l, w) by {
                        let (i, j) = choose|i: int, j: int| 0 <= i < before.len() && 0 <= j < before[i].1.translate.len() && before[i].0 == k && #[trigger] before[i].1.translate[j] == (l, w);
                        if keys.contains(before[i].0) {
                            lemma_seq_lookup_at(before, i);
                            assert(flat.contains(before[i].0)) by {
                                let b = keys.index_of(before[i].0);
                                assert(flat[b] == keys[b]);
                            }
                            let t = before[i].1.translate;
                            assert(old(self).rows.vals()[i].translate.wf());
                            strmap::lemma_wf_distinct(old(self).rows.vals()[i].translate);
                            assert(t == old(self).rows.vals()[i].translate@);
                            if l == lt {
                                strmap::lemma_lookup_unique(t, lt, j);
                                assert(false);
                            }
                            let ans = v.deep_view()[keys.index_of(before[i].0)];
                            assert(after[i].1.translate == strmap::upsert(t, lt, ans));
                            if strmap::has_key(t, lt) {
                                let p = strmap::key_pos(t, lt);
                                assert(p != j);
                                assert(after[i].1.translate[j] == (l, w));
                            } else {
                                assert(after[i].1.translate[j] == (l, w));
                            }
                        } else {
                            assert(after[i] == before[i]);
                        }
                    }
                    lemma_keeps_trans(self.files@[self.file_idx as int].rows@, before, after);
                }
                self.translated = true;
            },
            None => {
                proof {
                    let flat = cv.skip(ci).flatten();
                    let rest = cv.skip(ci + 1).flatten();
                    let keys = cv[ci];
                    assert forall|a: int, b: int| 0 <= a < rest.len() && 0 <= b < rest.len() && a != b implies rest[a] != rest[b] by {
                        assert(flat[keys.len() + a] == rest[a]);
                        assert(flat[keys.len() + b] == rest[b]);
                    }
                    assert forall|k: Seq<char>| #[trigger] rest.contains(k) implies flat.contains(k) by {
                        let a = rest.index_of(k);
                        assert(flat[keys.len() + a] == k);
                    }
                }
            },
        }
        let n = self.chunks.len();
        assert(self.chunk_idx < n);
        self.chunk_idx = self.chunk_idx + 1;
        self.phase = Phase::Ready;
    }
}


impl TranslateRun {
    /// The texts of the piece being translated, in the first language of the pair.
    pub open spec fn current_texts(&self) -> Seq<Seq<char>> {
        self.current_keys().map_values(
            |k: Seq<char>| text_in(self.rows@, k, self.langs@[self.from_idx as int]@),
        )
    }

    /// Which pairs the step from `old` to `new` passed over without work:
    /// all of them had nothing to translate.
    pub open spec fn skipped_idle(old: TranslateRun, new: TranslateRun) -> bool {
        let langs = old.langs.deep_view();
        let n = langs.len() as int;
        if new.file_idx == old.file_idx {
            idle_range(old.rows@, langs, old.from_idx as int, old.to_idx as int, new.from_idx as int, new.to_idx as int)
        } else {
            &&& idle_range(old.rows@, langs, old.from_idx as int, old.to_idx as int, n, 0)
            &&& forall|fi: int| old.file_idx < fi < new.file_idx ==> idle_range(
                (#[trigger] old.files@[fi]).rows@,
                langs,
                0,
                0,
                n,
                0,
            )
            &&& new.file_idx < old.files@.len() ==> idle_range(
                old.files@[new.file_idx as int].rows@,
                langs,
                0,
                0,
                new.from_idx as int,
                new.to_idx as int,
            )
        }
    }

    /// The next step of the run: the next piece to translate, the next file
    /// to write, or the report once every file and pair is done.
    pub fn next(&mut self) -> (r: TranslateStep)
        requires
            old(self).inv(),
            old(self).phase == Phase::Ready,
        ensures
            final(self).inv(),
            final(self).files == old(self).files,
            final(self).langs == old(self).langs,
            final(self).key == old(self).key,
            final(self).report == old(self).report,
            final(self).translated == old(self).translated,
            TranslateRun::skipped_idle(*old(self), *final(self)),
            final(self).file_idx >= old(self).file_idx,
            final(self).file_idx == old(self).file_idx ==> !before(
                final(self).from_idx as int,
                final(self).to_idx as int,
                old(self).from_idx as int,
                old(self).to_idx as int,
            ),
            final(self).file_idx == old(self).file_idx ==> final(self).rows@ == old(self).rows@,
            final(self).file_idx != old(self).file_idx && final(self).file_idx < final(self).files@.len()
                ==> final(self).rows@ == final(self).files@[final(self).file_idx as int].rows@,
            old(self).pair_open ==> final(self).file_idx == old(self).file_idx && final(self).from_idx
                == old(self).from_idx && final(self).to_idx == old(self).to_idx && final(self).chunks
                == old(self).chunks && final(self).chunk_idx == old(self).chunk_idx,
            !old(self).pair_open && final(self).pair_open ==> {
                &&& chunks_view(final(self).chunks@) == chunks_of(
                    to_translate(
                        final(self).rows@,
                        final(self).langs@[final(self).from_idx as int]@,
                        final(self).langs@[final(self).to_idx as int]@,
                    ),
                    20,
                )
                &&& final(self).chunk_idx == 0
                &&& !idle(final(self).rows@, final(self).langs.deep_view(), final(self).from_idx as int, final(self).to_idx as int)
            },
            match r {
                TranslateStep::Translate { texts, direction, key } => {
                    &&& final(self).phase == Phase::AwaitAnswer
                    &&& texts.deep_view() == final(self).current_texts()
                    &&& direction@ == final(self).langs@[final(self).from_idx as int]@ + "-"@ + final(self).langs@[final(self).to_idx as int]@
                    &&& key == final(self).key
                },
                TranslateStep::Save { file, lang, rows } => {
                    &&& final(self).phase == Phase::AwaitSave
                    &&& file@ == final(self).files@[final(self).file_idx as int].file@
                    &&& lang@ == final(self).langs@[final(self).to_idx as int]@
                    &&& rows@ == final(self).rows@
                },
                TranslateStep::Done(s) => {
                    &&& final(self).phase == Phase::Finished
                    &&& s@ == if final(self).translated {
                        final(self).report@
                    } else {
                        langs::all_translated()
                    }
                },
            },
            TranslateRun::next_step(*old(self), r@, *final(self)),
    {
        let ghost o = *old(self);
        let nf = self.files.len();
        let nl = self.langs.len();
        while self.file_idx < nf && !self.pair_open
            invariant
                self.inv(),
                self.phase == Phase::Ready,
                nf == self.files@.len(),
                nl == self.langs@.len(),
                self.files == o.files,
                self.langs == o.langs,
                self.key == o.key,
                self.report == o.report,
                self.translated == o.translated,
                TranslateRun::skipped_idle(o, *self),
                self.file_idx >= o.file_idx,
                self.file_idx == o.file_idx ==> !before(self.from_idx as int, self.to_idx as int, o.from_idx as int, o.to_idx as int),
                self.file_idx == o.file_idx ==> self.rows@ == o.rows@,
                self.file_idx != o.file_idx && self.file_idx < nf ==> self.rows@ == self.files@[self.file_idx as int].rows@,
                o.pair_open ==> self.file_idx == o.file_idx && self.from_idx == o.from_idx && self.to_idx
                    == o.to_idx && self.chunks == o.chunks && self.chunk_idx == o.chunk_idx && self.pair_open,
                !o.pair_open && self.pair_open ==> {
                    &&& chunks_view(self.chunks@) == chunks_of(
                        to_translate(self.rows@, self.langs@[self.from_idx as int]@, self.langs@[self.to_idx as int]@),
                        20,
                    )
                    &&& self.chunk_idx == 0
                    &&& !idle(self.rows@, self.langs.deep_view(), self.from_idx as int, self.to_idx as int)
                },
            decreases nf - self.file_idx, nl - self.from_idx, nl - self.to_idx, (if self.pair_open { 0int } else { 1int }),
        {
            if self.from_idx >= nl {
                let ghost prev = *self;
                self.file_idx = self.file_idx + 1;
                self.from_idx = 0;
                self.to_idx = 0;
                if self.file_idx < nf {
                    self.rows = file::copy_rows(&self.files[self.file_idx].rows);
                    proof {
                        assert(langs::rows_wf(self.files@[self.file_idx as int].rows));
                        assert forall|k: Seq<char>, l: Seq<char>, v: Seq<char>| #[trigger] row_has(self.files@[self.file_idx as int].rows@, k, l, v) implies row_has(self.rows@, k, l, v) by {
                        }
                    }
                }
                proof {
                    lemma_skip_file(o, prev, *self);
                }
            } else if self.to_idx >= nl {
                let ghost prev = *self;
                self.from_idx = self.from_idx + 1;
                self.to_idx = 0;
                proof {
                    lemma_skip_row(o, prev, *self);
                }
            } else {
                let ghost prev = *self;
                let same = text::str_eq(self.langs[self.from_idx].as_str(), self.langs[self.to_idx].as_str());
                let keys = if same {
                    Vec::new()
                } else {
                    rows_to_translate(&self.rows, self.langs[self.from_idx].as_str(), self.langs[self.to_idx].as_str())
                };
                if same || keys.len() == 0 {
                    proof {
                        assert(self.langs.deep_view()[self.from_idx as int] == self.langs@[self.from_idx as int]@);
                        assert(self.langs.deep_view()[self.to_idx as int] == self.langs@[self.to_idx as int]@);
                        assert(idle(self.rows@, self.langs.deep_view(), self.from_idx as int, self.to_idx as int));
                    }
                    self.to_idx = self.to_idx + 1;
                    proof {
                        lemma_skip_pair(o, prev, *self);
                    }
                } else {
                    proof {
                        lemma_open_ok(self.rows, keys.deep_view(), self.langs@[self.from_idx as int]@, self.langs@[self.to_idx as int]@);
                    }
                    self.chunks = chunk(&keys, 20);
                    self.chunk_idx = 0;
                    self.pair_open = true;
                    proof {
                        assert(chunks_view(self.chunks@) =~= chunks_of(keys.deep_view(), 20));
                        assert(chunks_view(self.chunks@).skip(0) =~= chunks_view(self.chunks@));
                        assert(self.langs.deep_view()[self.from_idx as int] == self.langs@[self.from_idx as int]@);
                        assert(self.langs.deep_view()[self.to_idx as int] == self.langs@[self.to_idx as int]@);
                    }
                }
            }
        }
        if self.file_idx >= nf {
            self.phase = Phase::Finished;
            let s = if self.translated {
                self.report.clone()
            } else {
                text::copy_str("Всё переведенно")
            };
            TranslateStep::Done(s)
        } else if self.chunk_idx < self.chunks.len() {
            let texts = texts_of_piece(&self.rows, &self.chunks[self.chunk_idx], self.langs[self.from_idx].as_str(), Ghost(*self));
            let direction = crate::yandex::direction(self.langs[self.from_idx].as_str(), self.langs[self.to_idx].as_str());
            self.phase = Phase::AwaitAnswer;
            TranslateStep::Translate { texts, direction, key: self.key.clone() }
        } else {
            self.phase = Phase::AwaitSave;
            let file = self.files[self.file_idx].file.copy();
            let lang = self.langs[self.to_idx].clone();
            let rows = file::copy_rows(&self.rows);
            TranslateStep::Save { file, lang, rows }
        }
    }
}

/// Passing over an idle pair keeps every passed pair idle.
proof fn lemma_skip_pair(o: TranslateRun, prev: TranslateRun, new: TranslateRun)
    requires
        TranslateRun::skipped_idle(o, prev),
        prev.files == o.files,
        prev.langs == o.langs,
        prev.file_idx >= o.file_idx,
        prev.file_idx == o.file_idx ==> !before(prev.from_idx as int, prev.to_idx as int, o.from_idx as int, o.to_idx as int),
        prev.file_idx == o.file_idx ==> prev.rows@ == o.rows@,
        prev.file_idx != o.file_idx && prev.file_idx < prev.files@.len() ==> prev.rows@ == prev.files@[prev.file_idx as int].rows@,
        prev.file_idx < prev.files@.len(),
        prev.from_idx < prev.langs@.len(),
        prev.to_idx < prev.langs@.len(),
        idle(prev.rows@, prev.langs.deep_view(), prev.from_idx as int, prev.to_idx as int),
        new.files == prev.files,
        new.langs == prev.langs,
        new.file_idx == prev.file_idx,
        new.from_idx == prev.from_idx,
        new.to_idx == prev.to_idx + 1,
        new.rows == prev.rows,
    ensures
        TranslateRun::skipped_idle(o, new),
{
    let langs = o.langs.deep_view();
    let (f, t) = (prev.from_idx as int, prev.to_idx as int);
    if new.file_idx == o.file_idx {
        assert forall|a: int, b: int|
            0 <= a < langs.len() && 0 <= b < langs.len() && !before(a, b, o.from_idx as int, o.to_idx as int) && before(a, b, f, t + 1)
            implies #[trigger] idle(o.rows@, langs, a, b) by {
            if !(a == f && b == t) {
                assert(before(a, b, f, t));
            }
        }
    } else {
        let rows0 = o.files@[new.file_idx as int].rows@;
        assert forall|a: int, b: int|
            0 <= a < langs.len() && 0 <= b < langs.len() && !before(a, b, 0, 0) && before(a, b, f, t + 1)
            implies #[trigger] idle(rows0, langs, a, b) by {
            if !(a == f && b == t) {
                assert(before(a, b, f, t));
            }
        }
    }
}

/// Moving to the next first language when the second ones are done.
proof fn lemma_skip_row(o: TranslateRun, prev: TranslateRun, new: TranslateRun)
    requires
        TranslateRun::skipped_idle(o, prev),
        prev.files == o.files,
        prev.langs == o.langs,
        prev.to_idx >= prev.langs@.len(),
        prev.file_idx < prev.files@.len(),
        new.files == prev.files,
        new.langs == prev.langs,
        new.file_idx == prev.file_idx,
        new.from_idx == prev.from_idx + 1,
        new.to_idx == 0,
        new.rows == prev.rows,
    ensures
        TranslateRun::skipped_idle(o, new),
{
    let langs = o.langs.deep_view();
    let f = prev.from_idx as int;
    let t = prev.to_idx as int;
    if new.file_idx == o.file_idx {
        assert forall|a: int, b: int|
            0 <= a < langs.len() && 0 <= b < langs.len() && !before(a, b, o.from_idx as int, o.to_idx as int) && before(a, b, f + 1, 0)
            implies #[trigger] idle(o.rows@, langs, a, b) by {
            assert(before(a, b, f, t));
        }
    } else {
        let rows0 = o.files@[new.file_idx as int].rows@;
        assert forall|a: int, b: int|
            0 <= a < langs.len() && 0 <= b < langs.len() && !before(a, b, 0, 0) && before(a, b, f + 1, 0)
            implies #[trigger] idle(rows0, langs, a, b) by {
            assert(before(a, b, f, t));
        }
    }
}

/// Moving to the next file when every pair of this one is done.
proof fn lemma_skip_file(o: TranslateRun, prev: TranslateRun, new: TranslateRun)
    requires
        TranslateRun::skipped_idle(o, prev),
        prev.files == o.files,
        prev.langs == o.langs,
        prev.file_idx >= o.file_idx,
        prev.file_idx != o.file_idx && prev.file_idx < prev.files@.len() ==> prev.rows@ == prev.files@[prev.file_idx as int].rows@,
        prev.file_idx < prev.files@.len(),
        prev.from_idx >= prev.langs@.len(),
        new.files == prev.files,
        new.langs == prev.langs,
        new.file_idx == prev.file_idx + 1,
        new.from_idx == 0,
        new.to_idx == 0,
    ensures
        TranslateRun::skipped_idle(o, new),
{
    let langs = o.langs.deep_view();
    let n = langs.len() as int;
    let f = prev.from_idx as int;
    let t = prev.to_idx as int;
    if prev.file_idx == o.file_idx {
        assert forall|a: int, b: int|
            0 <= a < langs.len() && 0 <= b < langs.len() && !before(a, b, o.from_idx as int, o.to_idx as int) && before(a, b, n, 0)
            implies #[trigger] idle(o.rows@, langs, a, b) by {
            assert(before(a, b, f, t));
        }
    } else {
        assert forall|fi: int| o.file_idx < fi < new.file_idx implies idle_range(
            (#[trigger] o.files@[fi]).rows@,
            langs,
            0,
            0,
            n,
            0,
        ) by {
            if fi == prev.file_idx {
                assert forall|a: int, b: int|
                    0 <= a < langs.len() && 0 <= b < langs.len() && !before(a, b, 0, 0) && before(a, b, n, 0)
                    implies #[trigger] idle(o.files@[fi].rows@, langs, a, b) by {
                    assert(before(a, b, f, t));
                }
            }
        }
    }
}

/// The rows to translate for a pair, cut into pieces, hold each such row once.
proof fn lemma_open_ok(rows: StrMap<CILangsToolsRow>, keys: Seq<Seq<char>>, lf: Seq<char>, lt: Seq<char>)
    requires
        langs::rows_wf(rows),
        keys == to_translate(rows@, lf, lt),
    ensures
        chunks_of(keys, 20).flatten() == keys,
        forall|j: int| 0 <= j < chunks_of(keys, 20).len() ==> 0 < (#[trigger] chunks_of(keys, 20)[j]).len() <= 20,
        keys.no_duplicates(),
        forall|k: Seq<char>| #[trigger] keys.contains(k) ==> strmap::has_key(rows@, k) && needs(
            strmap::seq_lookup(rows@, k).unwrap(),
            lf,
            lt,
        ),
{
    lemma_chunks(keys, 20);
    let pred = |e: (Seq<char>, RowView)| needs(e.1, lf, lt);
    assert(langs::keys_of(rows@) =~= rows.keys());
    lemma_keys_filter_distinct(rows@, pred);
    assert forall|k: Seq<char>| #[trigger] keys.contains(k) implies strmap::has_key(rows@, k) && needs(
        strmap::seq_lookup(rows@, k).unwrap(),
        lf,
        lt,
    ) by {
        lemma_keys_filter_member(rows@, pred, k);
        let i = choose|i: int| 0 <= i < rows@.len() && rows@[i].0 == k && pred(#[trigger] rows@[i]);
        lemma_seq_lookup_at(rows@, i);
    }
}

/// The texts in `lang` of the rows of a piece.
fn texts_of_piece(rows: &StrMap<CILangsToolsRow>, piece: &Vec<String>, lang: &str, Ghost(run): Ghost<TranslateRun>) -> (r: Vec<String>)
    requires
        run.inv(),
        run.pair_open,
        run.chunk_idx < run.chunks@.len(),
        *rows == run.rows,
        *piece == run.chunks@[run.chunk_idx as int],
        lang@ == run.langs@[run.from_idx as int]@,
    ensures
        r.deep_view() == run.current_texts(),
{
    proof {
        let cv = chunks_view(run.chunks@);
        let ci = run.chunk_idx as int;
        assert(cv.skip(ci).first() == cv[ci]);
        assert(cv.skip(ci).drop_first() =~= cv.skip(ci + 1));
        assert(cv.skip(ci).flatten() == cv[ci] + cv.skip(ci + 1).flatten());
        assert forall|i: int| 0 <= i < piece@.len() implies strmap::has_key(rows@, #[trigger] piece@[i]@) && strmap::has_key(
            strmap::seq_lookup(rows@, piece@[i]@).unwrap().translate,
            lang@,
        ) by {
            assert(cv[ci][i] == piece@[i]@);
            assert(cv.skip(ci).flatten()[i] == piece@[i]@);
            assert(cv.skip(ci).flatten().contains(piece@[i]@));
        }
    }
    texts_of(rows, piece, lang)
}

impl langs::CILangsTools {
    /// Starts translating the rows of every file through the translation
    /// service with `key`: the run asks for each piece to translate and each
    /// file to write, and ends with its report.
    pub fn yandex_translate_files(all: Vec<FileRows>, langs: Vec<String>, key: String) -> (r: TranslateRun)
        requires
            forall|i: int| 0 <= i < all@.len() ==> langs::rows_wf(#[trigger] all@[i].rows),
        ensures
            r.inv(),
            r.files == all,
            r.langs == langs,
            r.key == key,
            r.file_idx == 0,
            r.from_idx == 0,
            r.to_idx == 0,
            !r.pair_open,
            r.phase == Phase::Ready,
            r.report@ == Seq::<char>::empty(),
            !r.translated,
            all@.len() > 0 ==> r.rows@ == all@[0].rows@,
            TranslateRun::fresh(r),
    {
        TranslateRun::new(all, langs, key)
    }
}

} // verus!
