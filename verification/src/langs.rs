use vstd::prelude::*;
use crate::strmap::StrMap;
use crate::strmap;
use crate::text;
use crate::outside;
use crate::file::CILangsToolsFile;
use crate::file::FileView;
use crate::file;
use crate::row::CILangsToolsRow;
use crate::row::RowView;

verus! {

/// Works on the language files of a CodeIgniter project rooted at `ci_path`.
pub struct CILangsTools {
    pub ci_path: String,
}

/// The directory that holds one directory per language.
pub open spec fn lang_root(ci_path: Seq<char>) -> Seq<char> {
    ci_path + "/application/language/"@
}

/// The pattern that the path of a translation file matches.
pub open spec fn lang_file_pattern() -> Seq<char> {
    "_lang\\.php$"@
}

/// Whether a path names a translation file: it ends with `_lang.php`, the
/// texts that `lang_file_pattern` matches.
pub open spec fn is_lang_file(p: Seq<char>) -> bool {
    text::ends_with(p, "_lang.php"@)
}

/// What the walk of one language directory found: the directory's canonical
/// path and the paths of all files under it, in the order of the walk.
pub struct LangListing {
    pub canonical_root: String,
    pub paths: Vec<String>,
}

/// Which language has which file, for each file index.
pub type Catalog = Map<Seq<char>, Map<Seq<char>, Seq<char>>>;

/// The length in bytes of the UTF-8 encoding of `s` (`str::len`).
pub open spec fn byte_len(s: Seq<char>) -> int {
    vstd::utf8::encode_utf8(s).len() as int
}

/// Whether the first `n` bytes of the UTF-8 encoding of `s` end a character
/// (`str::is_char_boundary`); false past the end.
pub open spec fn cuts_at(s: Seq<char>, n: int) -> bool {
    vstd::utf8::is_char_boundary(vstd::utf8::encode_utf8(s), n)
}

/// The characters of `s` after its first `n` bytes (`&s[n..]`).
pub open spec fn byte_tail(s: Seq<char>, n: int) -> Seq<char> {
    let b = vstd::utf8::encode_utf8(s);
    vstd::utf8::decode_utf8(b.subrange(n, b.len() as int))
}

/// The catalog that a map of file records holds.
pub open spec fn catalog(m: StrMap<CILangsToolsFile>) -> Catalog {
    Map::new(|k: Seq<char>| m.has(k), |k: Seq<char>| strmap::sview(m.lookup(k).unwrap().files))
}

/// `cat` after recording the files of language `lang`, each under its path
/// with the first `skip` characters dropped.
pub open spec fn add_listing(cat: Catalog, lang: Seq<char>, files: Seq<Seq<char>>, skip: int) -> Catalog
    decreases files.len(),
{
    if files.len() == 0 {
        cat
    } else {
        let prev = add_listing(cat, lang, files.drop_last(), skip);
        let f = files.last();
        let idx = byte_tail(f, skip);
        let base = if prev.contains_key(idx) {
            prev[idx]
        } else {
            Map::empty()
        };
        prev.insert(idx, base.insert(lang, f))
    }
}

/// The records after filing path `f` of language `lang` under its index (the
/// path with the first `skip` characters dropped): added to the record of
/// that index, or as a new last record under `root`.
pub open spec fn file_entry_add(
    s: Seq<(Seq<char>, FileView)>,
    root: Seq<char>,
    lang: Seq<char>,
    f: Seq<char>,
    skip: int,
) -> Seq<(Seq<char>, FileView)> {
    let idx = byte_tail(f, skip);
    if strmap::has_key(s, idx) {
        let p = strmap::key_pos(s, idx);
        let rec = s[p].1;
        s.update(p, (idx, FileView { files: strmap::upsert(rec.files, lang, f), ..rec }))
    } else {
        s.push((idx, FileView { root_path: root, index: idx, files: seq![(lang, f)] }))
    }
}

/// The records after filing each of `files` of language `lang`, in order.
pub open spec fn listing_entries(
    s: Seq<(Seq<char>, FileView)>,
    root: Seq<char>,
    lang: Seq<char>,
    files: Seq<Seq<char>>,
    skip: int,
) -> Seq<(Seq<char>, FileView)>
    decreases files.len(),
{
    if files.len() == 0 {
        s
    } else {
        file_entry_add(listing_entries(s, root, lang, files.drop_last(), skip), root, lang, files.last(), skip)
    }
}

/// Each record is stored under its own index and has no language twice.
pub open spec fn files_ok(m: StrMap<CILangsToolsFile>) -> bool {
    &&& m.wf()
    &&& forall|k: Seq<char>| #[trigger]
        m.has(k) ==> {
            let f = m.lookup(k).unwrap();
            &&& f.index@ == k
            &&& f.files.wf()
        }
}

/// The path of the file with its first `skip` bytes dropped.
fn rel_index(file: &String, skip: usize) -> (r: String)
    requires
        cuts_at(file@, skip as int),
    ensures
        r@ == byte_tail(file@, skip as int),
{
    proof {
        broadcast use vstd::utf8::encode_utf8_valid_utf8;
        broadcast use vstd::utf8::encode_utf8_decode_utf8;
    }
    let (_, tail) = file.as_str().split_at(skip);
    let r = tail.to_owned();
    proof {
        broadcast use vstd::utf8::encode_utf8_decode_utf8;
        assert(vstd::utf8::decode_utf8(vstd::utf8::encode_utf8(tail@)) == tail@);
    }
    r
}

impl CILangsTools {
    /// Tools for the project at `ci_path`.
    pub fn new(ci_path: String) -> (r: CILangsTools)
        ensures
            r.ci_path == ci_path,
    {
        CILangsTools { ci_path: ci_path }
    }

    /// The text, or, when it has more than `len` characters, its first `len`
    /// followed by `..`.
    pub fn strip_string_maxlen(text: &String, len: usize) -> (r: String)
        ensures
            r@ == text::strip_maxlen(text@, len as int),
    {
        text::strip_to(text.as_str(), len)
    }

    /// The directory of the language directories of the project at `ci_path`.
    pub fn lang_root_path(ci_path: &str) -> (r: String)
        ensures
            r@ == lang_root(ci_path@),
    {
        let mut r = text::copy_str(ci_path);
        text::append_str(&mut r, "/application/language/");
        r
    }

    /// The translation files among the paths, in order.
    pub fn select_lang_files(paths: &Vec<String>) -> (r: Vec<String>)
        ensures
            r.deep_view() == paths.deep_view().filter(|p: Seq<char>| is_lang_file(p)),
    {
        let pattern = "_lang\\.php$";
        let mut r: Vec<String> = Vec::new();
        let mut i: usize = 0;
        while i < paths.len()
            invariant
                i <= paths@.len(),
                pattern@ == lang_file_pattern(),
                r.deep_view() == paths.deep_view().take(i as int).filter(|p: Seq<char>| is_lang_file(p)),
            decreases paths.len() - i,
        {
            proof {
                assert(paths.deep_view().take(i + 1) =~= paths.deep_view().take(i as int).push(
                    paths@[i as int]@,
                ));
                paths.deep_view().take(i as int).lemma_filter_push(
                    paths@[i as int]@,
                    |p: Seq<char>| is_lang_file(p),
                );
            }
            let m = outside::regex_is_match(pattern, paths[i].as_str());
            if m == Some(true) {
                let ghost old_r = r.deep_view();
                r.push(paths[i].clone());
                assert(r.deep_view() =~= old_r.push(paths@[i as int]@));
            }
            i = i + 1;
        }
        assert(paths.deep_view().take(paths@.len() as int) =~= paths.deep_view());
        r
    }

    /// Records the translation files of language `lang`: each is filed under
    /// its path with as many leading bytes dropped as the canonical language
    /// directory has, in a new record
    /// (under `root_path`) or in the one already filed under that index.
    pub fn conver_list_files_to_citoolsfiles(
        root_path: &String,
        lang: &String,
        files_list: &Vec<String>,
        canonical_root: &String,
        result: &mut StrMap<CILangsToolsFile>,
    )
        requires
            files_ok(*old(result)),
            forall|i: int| 0 <= i < files_list@.len() ==> cuts_at((#[trigger] files_list@[i])@, byte_len(canonical_root@)),
        ensures
            files_ok(*final(result)),
            final(result)@ == listing_entries(
                old(result)@,
                root_path@,
                lang@,
                files_list.deep_view(),
                byte_len(canonical_root@),
            ),
            catalog(*final(result)) == add_listing(
                catalog(*old(result)),
                lang@,
                files_list.deep_view(),
                byte_len(canonical_root@),
            ),
            forall|k: Seq<char>| #[trigger]
                final(result).has(k) ==> final(result).lookup(k).unwrap().root_path@ == if old(
                    result,
                ).has(k) {
                    old(result).lookup(k).unwrap().root_path@
                } else {
                    root_path@
                },
    {
        let skip = canonical_root.as_str().as_bytes().len();
        let ghost start = *result;
        let mut i: usize = 0;
        assert(files_list.deep_view().take(0) =~= Seq::<Seq<char>>::empty());
        while i < files_list.len()
            invariant
                i <= files_list@.len(),
                skip == byte_len(canonical_root@),
                forall|i: int| 0 <= i < files_list@.len() ==> cuts_at((#[trigger] files_list@[i])@, byte_len(canonical_root@)),
                files_ok(*result),
                forall|k: Seq<char>| #[trigger] start.has(k) ==> result.has(k),
                result@ == listing_entries(start@, root_path@, lang@, files_list.deep_view().take(i as int), skip as int),
                catalog(*result) == add_listing(
                    catalog(start),
                    lang@,
                    files_list.deep_view().take(i as int),
                    skip as int,
                ),
                forall|k: Seq<char>| #[trigger]
                    result.has(k) ==> result.lookup(k).unwrap().root_path@ == if start.has(k) {
                        start.lookup(k).unwrap().root_path@
                    } else {
                        root_path@
                    },
            decreases files_list.len() - i,
        {
            let file = &files_list[i];
            let index = rel_index(file, skip);
            let ghost before = *result;
            proof {
                assert(files_list.deep_view().take(i + 1).drop_last() =~= files_list.deep_view().take(
                    i as int,
                ));
                assert(files_list.deep_view().take(i + 1).last() == file@);
            }
            match result.find(index.as_str()) {
                Some(p) => {
                    let mut rec = result.value_at(p).copy();
                    proof {
                        result.lemma_lookup_at(p as int);
                    }
                    let ghost rbefore = rec@;
                    let ghost fbefore = rec.files;
                    rec.files.insert(lang.clone(), file.clone());
                    proof {
                        strmap::lemma_sview_insert(fbefore, rec.files, lang@, file@);
                        strmap::lemma_insert_view(fbefore, rec.files, lang@, *file);
                    }
                    let ghost nrec = rec;
                    result.swap_value(p, rec);
                    proof {
                        assert(before@[p as int].0 == index@);
                        let j = strmap::key_pos(before@, index@);
                        assert(before.keys()[j] == index@);
                        assert(j == p);
                        assert(before@[p as int].1 == rbefore);
                        assert(nrec@ == FileView { files: strmap::upsert(rbefore.files, lang@, file@), ..rbefore });
                        assert forall|q: int| 0 <= q < result@.len() implies result@[q] == before@.update(
                            p as int,
                            (index@, nrec@),
                        )[q] by {
                            assert(result.keys()[q] == before.keys()[q]);
                            assert(result.vals()[q] == before.vals().update(p as int, nrec)[q]);
                        }
                        assert(result@ =~= before@.update(p as int, (index@, nrec@)));
                        assert(result@ == file_entry_add(before@, root_path@, lang@, file@, skip as int));
                        assert(result.lookup(index@) == Some(nrec));
                        lemma_catalog_update(before, *result, index@, nrec);
                        assert(before.has(index@));
                        assert(catalog(before)[index@] == strmap::sview(fbefore));
                        assert(nrec.root_path == before.lookup(index@).unwrap().root_path);
                        assert forall|k: Seq<char>| #[trigger] result.has(k) implies result.lookup(
                            k,
                        ).unwrap().root_path@ == if start.has(k) {
                            start.lookup(k).unwrap().root_path@
                        } else {
                            root_path@
                        } by {
                            if k != index@ {
                                assert(result.lookup(k) == before.lookup(k));
                            }
                        }
                    }
                },
                None => {
                    let mut fs: StrMap<String> = StrMap::new();
                    let ghost f0 = fs;
                    fs.insert(lang.clone(), file.clone());
                    proof {
                        strmap::lemma_sview_insert(f0, fs, lang@, file@);
                        assert(strmap::sview(f0) =~= Map::empty());
                        strmap::lemma_insert_view(f0, fs, lang@, *file);
                        assert(f0@ =~= Seq::<(Seq<char>, Seq<char>)>::empty());
                        assert(fs@ =~= seq![(lang@, file@)]);
                    }
                    let rec = CILangsToolsFile {
                        root_path: root_path.clone(),
                        index: index.clone(),
                        files: fs,
                    };
                    let ghost nrec = rec;
                    result.insert(index, rec);
                    proof {
                        strmap::lemma_insert_view(before, *result, nrec.index@, nrec);
                        before.lemma_view_lookup(nrec.index@);
                        assert(result@ == file_entry_add(before@, root_path@, lang@, file@, skip as int));
                        lemma_catalog_update(before, *result, nrec.index@, nrec);
                        assert(!catalog(before).contains_key(nrec.index@));
                        assert(!start.has(index@));
                        assert(strmap::sview(nrec.files) == Map::<Seq<char>, Seq<char>>::empty().insert(
                            lang@,
                            file@,
                        ));
                        assert forall|k: Seq<char>| #[trigger] result.has(k) implies result.lookup(
                            k,
                        ).unwrap().root_path@ == if start.has(k) {
                            start.lookup(k).unwrap().root_path@
                        } else {
                            root_path@
                        } by {
                            if k != index@ {
                                assert(result.lookup(k) == before.lookup(k));
                            }
                        }
                    }
                },
            }
            i = i + 1;
        }
        assert(files_list.deep_view().take(files_list@.len() as int) =~= files_list.deep_view());
    }
}

/// The catalog that the listings of the first `n` languages give.
pub open spec fn langs_catalog(langs: Seq<Seq<char>>, listings: Seq<LangListing>, n: int) -> Catalog
    decreases n,
{
    if n <= 0 {
        Map::empty()
    } else {
        add_listing(
            langs_catalog(langs, listings, n - 1),
            langs[n - 1],
            listings[n - 1].paths.deep_view().filter(|p: Seq<char>| is_lang_file(p)),
            byte_len(listings[n - 1].canonical_root@),
        )
    }
}

/// The records that the listings of the first `n` languages give, in order,
/// new records under `root`.
pub open spec fn langs_entries(root: Seq<char>, langs: Seq<Seq<char>>, listings: Seq<LangListing>, n: int) -> Seq<
    (Seq<char>, FileView),
>
    decreases n,
{
    if n <= 0 {
        Seq::empty()
    } else {
        listing_entries(
            langs_entries(root, langs, listings, n - 1),
            root,
            langs[n - 1],
            listings[n - 1].paths.deep_view().filter(|p: Seq<char>| is_lang_file(p)),
            byte_len(listings[n - 1].canonical_root@),
        )
    }
}

/// Every path of a listing can be cut after as many bytes as its canonical
/// directory has: it is that long, and a character ends there.
pub open spec fn listings_ok(listings: Seq<LangListing>) -> bool {
    forall|j: int, i: int|
        0 <= j < listings.len() && 0 <= i < listings[j].paths@.len() ==> cuts_at(
            (#[trigger] listings[j].paths@[i])@,
            byte_len(listings[j].canonical_root@),
        )
}

impl CILangsTools {
    /// All translation files of the project, one record per index: from the
    /// walk of each language's directory (`listings[j]` for `langs[j]`), the
    /// translation files are filed in the order of the languages.
    pub fn get_all_langs_files(ci_path: String, langs: Vec<String>, listings: &Vec<LangListing>) -> (r:
        StrMap<CILangsToolsFile>)
        requires
            listings@.len() == langs@.len(),
            listings_ok(listings@),
        ensures
            files_ok(r),
            r@ == langs_entries(lang_root(ci_path@), langs.deep_view(), listings@, langs@.len() as int),
            catalog(r) == langs_catalog(langs.deep_view(), listings@, langs@.len() as int),
            forall|k: Seq<char>| #[trigger] r.has(k) ==> r.lookup(k).unwrap().root_path@ == lang_root(ci_path@),
    {
        let root_path_lang = CILangsTools::lang_root_path(ci_path.as_str());
        let mut result: StrMap<CILangsToolsFile> = StrMap::new();
        proof {
            assert(catalog(result) =~= Map::empty());
            assert(result@ =~= Seq::<(Seq<char>, FileView)>::empty());
        }
        let mut j: usize = 0;
        while j < langs.len()
            invariant
                j <= langs@.len() == listings@.len(),
                listings_ok(listings@),
                root_path_lang@ == lang_root(ci_path@),
                files_ok(result),
                result@ == langs_entries(lang_root(ci_path@), langs.deep_view(), listings@, j as int),
                catalog(result) == langs_catalog(langs.deep_view(), listings@, j as int),
                forall|k: Seq<char>| #[trigger] result.has(k) ==> result.lookup(k).unwrap().root_path@ == lang_root(ci_path@),
            decreases langs.len() - j,
        {
            let files = CILangsTools::select_lang_files(&listings[j].paths);
            proof {
                assert forall|i: int| 0 <= i < files@.len() implies cuts_at(
                    (#[trigger] files@[i])@,
                    byte_len(listings@[j as int].canonical_root@),
                ) by {
                    assert(files.deep_view()[i] == files@[i]@);
                    assert(files.deep_view().contains(files@[i]@));
                    listings@[j as int].paths.deep_view().lemma_filter_contains_rev(
                        |p: Seq<char>| is_lang_file(p),
                        files@[i]@,
                    );
                    let k = listings@[j as int].paths.deep_view().index_of(files@[i]@);
                    assert(listings@[j as int].paths@[k]@ == files@[i]@);
                }
            }
            CILangsTools::conver_list_files_to_citoolsfiles(
                &root_path_lang,
                &langs[j],
                &files,
                &listings[j].canonical_root,
                &mut result,
            );
            j = j + 1;
        }
        result
    }
}

/// Whether some language of `langs` has no file in the record.
pub open spec fn misses_lang(f: FileView, langs: Seq<Seq<char>>) -> bool {
    exists|j: int| 0 <= j < langs.len() && !strmap::has_key(f.files, #[trigger] langs[j])
}

/// The records of `files` that miss a language, in order.
pub open spec fn untranslated_files(files: Seq<(Seq<char>, FileView)>, langs: Seq<Seq<char>>) -> Seq<
    (Seq<char>, FileView),
> {
    files.filter(|e: (Seq<char>, FileView)| misses_lang(e.1, langs))
}

/// The untranslated files are exactly the records, in order, that have no
/// file in at least one of the languages, whichever it is (the last
/// included); a record with a file in every language is left out.
pub proof fn lemma_untranslated_files(files: Seq<(Seq<char>, FileView)>, langs: Seq<Seq<char>>)
    ensures
        untranslated_files(files, langs) == files.filter(
            |e: (Seq<char>, FileView)| exists|j: int| 0 <= j < langs.len() && !strmap::has_key(e.1.files, #[trigger] langs[j]),
        ),
        forall|e: (Seq<char>, FileView), j: int|
            #![trigger files.contains(e), langs[j]]
            files.contains(e) && 0 <= j < langs.len() && !strmap::has_key(e.1.files, langs[j])
                ==> untranslated_files(files, langs).contains(e),
        forall|e: (Seq<char>, FileView)| #[trigger]
            untranslated_files(files, langs).contains(e) ==> files.contains(e) && exists|j: int|
                0 <= j < langs.len() && !strmap::has_key(e.1.files, #[trigger] langs[j]),
{
    let p = |e: (Seq<char>, FileView)| exists|j: int| 0 <= j < langs.len() && !strmap::has_key(e.1.files, #[trigger] langs[j]);
    assert(untranslated_files(files, langs) == files.filter(p)) by {
        assert((|e: (Seq<char>, FileView)| misses_lang(e.1, langs)) =~= p);
    }
    assert forall|e: (Seq<char>, FileView), j: int|
        #![trigger files.contains(e), langs[j]]
        files.contains(e) && 0 <= j < langs.len() && !strmap::has_key(e.1.files, langs[j])
            implies untranslated_files(files, langs).contains(e) by {
        assert(p(e));
        broadcast use vstd::seq_lib::group_filter_ensures;
        let i = files.index_of(e);
        assert(files[i] == e);
        files.lemma_filter_contains(p, i);
    }
    assert forall|e: (Seq<char>, FileView)| #[trigger]
        untranslated_files(files, langs).contains(e) implies files.contains(e) && p(e) by {
        broadcast use vstd::seq_lib::group_filter_ensures;
        let i = files.filter(p).index_of(e);
        assert(files.filter(p)[i] == e);
        assert(p(files.filter(p)[i]));
        files.lemma_filter_contains_rev(p, e);
    }
}

/// Whether the record misses one of the languages.
fn misses_lang_exec(f: &CILangsToolsFile, langs: &Vec<String>) -> (b: bool)
    requires
        f.files.wf(),
    ensures
        b == misses_lang(f@, langs.deep_view()),
{
    let mut j: usize = 0;
    while j < langs.len()
        invariant
            j <= langs@.len(),
            f.files.wf(),
            forall|k: int| 0 <= k < j ==> strmap::has_key(f@.files, #[trigger] langs.deep_view()[k]),
        decreases langs.len() - j,
    {
        let present = f.files.contains_key(langs[j].as_str());
        proof {
            f.files.lemma_view_lookup(langs@[j as int]@);
        }
        if !present {
            assert(!strmap::has_key(f@.files, langs.deep_view()[j as int]));
            return true;
        }
        j = j + 1;
    }
    false
}

impl CILangsTools {
    /// The records that miss a file in one of the languages, in order.
    pub fn get_wasnt_translate_files(files: &StrMap<CILangsToolsFile>, langs: &Vec<String>) -> (r:
        StrMap<CILangsToolsFile>)
        requires
            files_ok(*files),
        ensures
            files_ok(r),
            r@ == untranslated_files(files@, langs.deep_view()),
    {
        let ghost pred = |e: (Seq<char>, FileView)| misses_lang(e.1, langs.deep_view());
        let mut r: StrMap<CILangsToolsFile> = StrMap::new();
        let mut i: usize = 0;
        assert(r@ =~= files@.take(0).filter(pred)) by {
            reveal(Seq::filter);
        }
        while i < files.len()
            invariant
                i <= files@.len(),
                files_ok(*files),
                files_ok(r),
                r@ == files@.take(i as int).filter(pred),
                forall|k: Seq<char>| #[trigger] r.has(k) ==> files.keys().take(i as int).contains(k),
                pred == (|e: (Seq<char>, FileView)| misses_lang(e.1, langs.deep_view())),
            decreases files.entries@.len() - i,
        {
            let f = files.value_at(i);
            let k = files.key_at(i);
            proof {
                files.lemma_lookup_at(i as int);
                assert(files.has(k@));
                assert(files@.take(i + 1) =~= files@.take(i as int).push(files@[i as int]));
                files@.take(i as int).lemma_filter_push(files@[i as int], pred);
            }
            if misses_lang_exec(f, langs) {
                proof {
                    if r.has(k@) {
                        assert(files.keys().take(i as int).contains(k@));
                        let j = files.keys().take(i as int).index_of(k@);
                        assert(files.keys()[j] == files.keys()[i as int]);
                    }
                }
                let ghost before = r;
                r.push_new(k.clone(), f.copy());
                proof {
                    assert(files@[i as int] == (k@, f@));
                    assert forall|k2: Seq<char>| #[trigger] r.has(k2) implies files.keys().take(i + 1).contains(k2) by {
                        if k2 == k@ {
                            assert(files.keys().take(i + 1)[i as int] == k2);
                        } else {
                            let j = r.keys().index_of(k2);
                            assert(r.keys()[j] == k2);
                            assert(before.keys()[j] == k2);
                            assert(before.has(k2));
                            let m = files.keys().take(i as int).index_of(k2);
                            assert(files.keys().take(i + 1)[m] == k2);
                        }
                    }
                    assert forall|k2: Seq<char>| #[trigger] r.has(k2) implies ({
                        let g = r.lookup(k2).unwrap();
                        &&& g.index@ == k2
                        &&& g.files.wf()
                    }) by {
                        if k2 == k@ {
                            r.lemma_lookup_at(before.entries@.len() as int);
                        } else {
                            let j = r.keys().index_of(k2);
                            assert(r.keys()[j] == k2);
                            r.lemma_lookup_at(j);
                            before.lemma_lookup_at(j);
                            assert(before.keys()[j] == k2);
                        }
                    }
                }
            } else {
                proof {
                    assert forall|k2: Seq<char>| #[trigger] r.has(k2) implies files.keys().take(i + 1).contains(k2) by {
                        let m = files.keys().take(i as int).index_of(k2);
                        assert(files.keys().take(i + 1)[m] == k2);
                    }
                }
            }
            i = i + 1;
        }
        assert(files@.take(files@.len() as int) =~= files@);
        r
    }
}

/// The texts that `f` gives for each language, one after another.
pub open spec fn per_lang(langs: Seq<Seq<char>>, f: spec_fn(Seq<char>) -> Seq<char>) -> Seq<char> {
    langs.map_values(f).flatten()
}

/// The rule that opens and closes the report of files.
pub open spec fn files_rule() -> Seq<char> {
    "=============================================\n"@
}

/// The head of the report of files: `INDEX` and each language in upper case.
pub open spec fn files_head(langs: Seq<Seq<char>>) -> Seq<char> {
    text::pad_left_spec("INDEX"@, 40) + per_lang(
        langs,
        |l: Seq<char>| text::pad_center_spec(outside::uppercase(l), 10),
    ) + "\n"@
}

/// The line of one record: its index (the last 30 characters of a longer
/// one), then `+` or `-` for whether it has a file in each language.
pub open spec fn files_line(k: Seq<char>, f: FileView, langs: Seq<Seq<char>>) -> Seq<char> {
    text::pad_left_spec(text::keep_tail(k, 30), 40) + per_lang(
        langs,
        |l: Seq<char>|
            text::pad_center_spec(
                if strmap::has_key(f.files, l) {
                    "+"@
                } else {
                    "-"@
                },
                10,
            ),
    ) + "\n"@
}

/// The keys of the entries, in order.
pub open spec fn keys_of<W>(s: Seq<(Seq<char>, W)>) -> Seq<Seq<char>> {
    s.map_values(|e: (Seq<char>, W)| e.0)
}

/// The report of the records: the head, then one line per record in the
/// order of their indexes.
pub open spec fn files_report(list: Seq<(Seq<char>, FileView)>, langs: Seq<Seq<char>>) -> Seq<char> {
    let order = text::sort_seq(keys_of(list));
    files_rule() + files_head(langs) + order.map_values(
        |k: Seq<char>| files_line(k, strmap::seq_lookup(list, k).unwrap(), langs),
    ).flatten() + files_rule()
}

/// The strings that each language gives, one after another.
fn per_lang_exec_heads(langs: &Vec<String>) -> (r: String)
    ensures
        r@ == per_lang(
            langs.deep_view(),
            |l: Seq<char>| text::pad_center_spec(outside::uppercase(l), 10),
        ),
{
    let ghost f = |l: Seq<char>| text::pad_center_spec(outside::uppercase(l), 10);
    let mut r = String::new();
    let mut j: usize = 0;
    while j < langs.len()
        invariant
            j <= langs@.len(),
            f == (|l: Seq<char>| text::pad_center_spec(outside::uppercase(l), 10)),
            r@ == langs.deep_view().take(j as int).map_values(f).flatten(),
        decreases langs.len() - j,
    {
        proof {
            assert(langs.deep_view().take(j + 1).map_values(f) =~= langs.deep_view().take(
                j as int,
            ).map_values(f).push(f(langs@[j as int]@)));
            langs.deep_view().take(j as int).map_values(f).lemma_flatten_push(f(langs@[j as int]@));
        }
        let u = outside::to_upper(langs[j].as_str());
        let c = text::pad_center(u.as_str(), 10);
        text::append_str(&mut r, c.as_str());
        j = j + 1;
    }
    assert(langs.deep_view().take(langs@.len() as int) =~= langs.deep_view());
    r
}

/// The `+`/`-` marks of a record.
fn per_lang_exec_marks(file: &CILangsToolsFile, langs: &Vec<String>) -> (r: String)
    requires
        file.files.wf(),
    ensures
        r@ == per_lang(
            langs.deep_view(),
            |l: Seq<char>|
                text::pad_center_spec(
                    if strmap::has_key(file@.files, l) {
                        "+"@
                    } else {
                        "-"@
                    },
                    10,
                ),
        ),
{
    let ghost f = |l: Seq<char>|
        text::pad_center_spec(
            if strmap::has_key(file@.files, l) {
                "+"@
            } else {
                "-"@
            },
            10,
        );
    let mut r = String::new();
    let mut j: usize = 0;
    while j < langs.len()
        invariant
            j <= langs@.len(),
            file.files.wf(),
            f == (|l: Seq<char>|
                text::pad_center_spec(
                    if strmap::has_key(file@.files, l) {
                        "+"@
                    } else {
                        "-"@
                    },
                    10,
                )),
            r@ == langs.deep_view().take(j as int).map_values(f).flatten(),
        decreases langs.len() - j,
    {
        proof {
            assert(langs.deep_view().take(j + 1).map_values(f) =~= langs.deep_view().take(
                j as int,
            ).map_values(f).push(f(langs@[j as int]@)));
            langs.deep_view().take(j as int).map_values(f).lemma_flatten_push(f(langs@[j as int]@));
            file.files.lemma_view_lookup(langs@[j as int]@);
        }
        let mark = if file.files.contains_key(langs[j].as_str()) {
            "+"
        } else {
            "-"
        };
        let c = text::pad_center(mark, 10);
        text::append_str(&mut r, c.as_str());
        j = j + 1;
    }
    assert(langs.deep_view().take(langs@.len() as int) =~= langs.deep_view());
    r
}

/// The keys of a map, in order.
pub fn keys_vec<V: View>(m: &StrMap<V>) -> (r: Vec<String>)
    ensures
        r.deep_view() == keys_of(m@),
        r.deep_view() == m.keys(),
{
    let mut r: Vec<String> = Vec::new();
    let mut i: usize = 0;
    while i < m.len()
        invariant
            i <= m.entries@.len(),
            r.deep_view() == m.keys().take(i as int),
        decreases m.entries@.len() - i,
    {
        let ghost old_r = r.deep_view();
        r.push(m.key_at(i).clone());
        assert(r.deep_view() =~= old_r.push(m.keys()[i as int]));
        assert(m.keys().take(i + 1) =~= m.keys().take(i as int).push(m.keys()[i as int]));
        i = i + 1;
    }
    assert(m.keys().take(m.entries@.len() as int) =~= m.keys());
    assert(keys_of(m@) =~= m.keys());
    r
}

impl CILangsTools {
    /// The report of the records that miss a language: a table with the
    /// index of each (in sorted order) and `+`/`-` for each language.
    pub fn get_print_wasnt_translate_files(files: &StrMap<CILangsToolsFile>, langs: &Vec<String>) -> (r:
        String)
        requires
            files_ok(*files),
        ensures
            r@ == files_report(untranslated_files(files@, langs.deep_view()), langs.deep_view()),
    {
        let list = CILangsTools::get_wasnt_translate_files(files, langs);
        CILangsTools::print_files_report(&list, langs)
    }

    /// The report of the given records.
    pub fn print_files_report(list: &StrMap<CILangsToolsFile>, langs: &Vec<String>) -> (r: String)
        requires
            files_ok(*list),
        ensures
            r@ == files_report(list@, langs.deep_view()),
    {
        let mut ans = String::new();
        text::append_str(&mut ans, "=============================================\n");
        let index_head = text::pad_left("INDEX", 40);
        text::append_str(&mut ans, index_head.as_str());
        let heads = per_lang_exec_heads(langs);
        text::append_str(&mut ans, heads.as_str());
        text::append_str(&mut ans, "\n");
        let ghost prefix = ans@;
        assert(prefix == files_rule() + files_head(langs.deep_view()));
        let keys = keys_vec(list);
        let sorted = text::sorted_strings(&keys);
        let ghost order = sorted.deep_view();
        let ghost g = |k: Seq<char>| files_line(k, strmap::seq_lookup(list@, k).unwrap(), langs.deep_view());
        let mut i: usize = 0;
        while i < sorted.len()
            invariant
                i <= sorted@.len(),
                order == sorted.deep_view(),
                order == text::sort_seq(keys_of(list@)),
                files_ok(*list),
                g == (|k: Seq<char>| files_line(k, strmap::seq_lookup(list@, k).unwrap(), langs.deep_view())),
                ans@ == prefix + order.take(i as int).map_values(g).flatten(),
            decreases sorted.len() - i,
        {
            let k = &sorted[i];
            proof {
                assert(order.take(i + 1).map_values(g) =~= order.take(i as int).map_values(g).push(
                    g(k@),
                ));
                order.take(i as int).map_values(g).lemma_flatten_push(g(k@));
            }
            match list.get(k.as_str()) {
                Some(file) => {
                    proof {
                        list.lemma_view_lookup(k@);
                        assert(list.has(k@));
                    }
                    let tail = text::tail_to(k.as_str(), 30);
                    let cell = text::pad_left(tail.as_str(), 40);
                    text::append_str(&mut ans, cell.as_str());
                    let marks = per_lang_exec_marks(file, langs);
                    text::append_str(&mut ans, marks.as_str());
                    text::append_str(&mut ans, "\n");
                    assert(ans@ =~= prefix + order.take(i + 1).map_values(g).flatten());
                },
                None => {
                    proof {
                        lemma_sorted_keys_present(list@, i as int);
                        list.lemma_view_lookup(k@);
                    }
                },
            }
            i = i + 1;
        }
        assert(order.take(sorted@.len() as int) =~= order);
        text::append_str(&mut ans, "=============================================\n");
        ans
    }
}

/// Every key in the sorted order is a key of the entries.
pub proof fn lemma_sorted_keys_present<W>(list: Seq<(Seq<char>, W)>, i: int)
    requires
        0 <= i < text::sort_seq(keys_of(list)).len(),
    ensures
        strmap::has_key(list, text::sort_seq(keys_of(list))[i]),
{
    let ks = keys_of(list);
    text::lemma_sort_permutes(ks);
    let x = text::sort_seq(ks)[i];
    assert(text::sort_seq(ks).contains(x));
    assert(ks.contains(x));
    let j = ks.index_of(x);
    assert(list[j].0 == x);
}

/// The rows of one translation file, with the file's index as its name.
pub struct FileRows {
    pub name: String,
    pub file: CILangsToolsFile,
    pub rows: StrMap<CILangsToolsRow>,
}

/// What a `FileRows` holds, as character sequences.
pub struct FileRowsView {
    pub name: Seq<char>,
    pub file: FileView,
    pub rows: Seq<(Seq<char>, RowView)>,
}

impl View for FileRows {
    type V = FileRowsView;

    open spec fn view(&self) -> FileRowsView {
        FileRowsView { name: self.name@, file: self.file@, rows: self.rows@ }
    }
}

/// The rows are a well-formed map whose rows have no language twice.
pub open spec fn rows_wf(rows: StrMap<CILangsToolsRow>) -> bool {
    rows.wf() && file::translations_wf(rows)
}

/// Whether the row lacks one of the languages, or has only whitespace for it.
pub open spec fn row_untranslated(r: RowView, langs: Seq<Seq<char>>) -> bool {
    exists|j: int|
        0 <= j < langs.len() && match strmap::seq_lookup(r.translate, #[trigger] langs[j]) {
            None => true,
            Some(t) => text::trimmed(t).len() == 0,
        }
}

/// The rows still to translate.
pub open spec fn untranslated_rows(rows: Seq<(Seq<char>, RowView)>, langs: Seq<Seq<char>>) -> Seq<
    (Seq<char>, RowView),
> {
    rows.filter(|e: (Seq<char>, RowView)| row_untranslated(e.1, langs))
}

/// The rows still to translate are, in order, exactly those that, in some
/// language of `langs` (whichever, the last included), have no text or only
/// whitespace.
pub proof fn lemma_untranslated_rows(rows: Seq<(Seq<char>, RowView)>, langs: Seq<Seq<char>>)
    ensures
        untranslated_rows(rows, langs) == rows.filter(
            |e: (Seq<char>, RowView)|
                exists|j: int|
                    0 <= j < langs.len() && match strmap::seq_lookup(e.1.translate, #[trigger] langs[j]) {
                        None => true,
                        Some(t) => text::trimmed(t).len() == 0,
                    },
        ),
{
    let p = |e: (Seq<char>, RowView)|
        exists|j: int|
            0 <= j < langs.len() && match strmap::seq_lookup(e.1.translate, #[trigger] langs[j]) {
                None => true,
                Some(t) => text::trimmed(t).len() == 0,
            };
    assert((|e: (Seq<char>, RowView)| row_untranslated(e.1, langs)) =~= p);
}

/// For each file with rows still to translate, in order, its name and those rows.
pub open spec fn pending_words(all: Seq<FileRowsView>, langs: Seq<Seq<char>>) -> Seq<(Seq<char>, FileRowsView)>
    decreases all.len(),
{
    if all.len() == 0 {
        Seq::empty()
    } else {
        let rest = pending_words(all.drop_last(), langs);
        let fr = all.last();
        let nt = untranslated_rows(fr.rows, langs);
        if nt.len() > 0 {
            rest.push((fr.name, FileRowsView { name: fr.name, file: fr.file, rows: nt }))
        } else {
            rest
        }
    }
}

/// The views of the elements.
pub open spec fn views_of(all: Seq<FileRows>) -> Seq<FileRowsView> {
    Seq::new(all.len(), |i: int| all[i]@)
}

/// Whether the row lacks one of the languages or has only whitespace for it.
fn row_untranslated_exec(row: &CILangsToolsRow, langs: &Vec<String>) -> (b: bool)
    requires
        row.translate.wf(),
    ensures
        b == row_untranslated(row@, langs.deep_view()),
{
    let mut j: usize = 0;
    while j < langs.len()
        invariant
            j <= langs@.len(),
            row.translate.wf(),
            forall|k: int|
                0 <= k < j ==> match strmap::seq_lookup(row@.translate, #[trigger] langs.deep_view()[k]) {
                    None => false,
                    Some(t) => text::trimmed(t).len() != 0,
                },
        decreases langs.len() - j,
    {
        proof {
            row.translate.lemma_view_lookup(langs@[j as int]@);
        }
        match row.translate.get(langs[j].as_str()) {
            None => {
                assert(strmap::seq_lookup(row@.translate, langs.deep_view()[j as int]) is None);
                return true;
            },
            Some(t) => {
                let tt = text::trim(t.as_str());
                if tt.as_str().is_empty() {
                    assert(strmap::seq_lookup(row@.translate, langs.deep_view()[j as int]) == Some(t@));
                    return true;
                }
            },
        }
        j = j + 1;
    }
    false
}

impl CILangsTools {
    /// The rows of every file: `reads[i][j]` is what reading file `i` in its
    /// `j`-th language gave.
    pub fn get_all_translates(
        files: &StrMap<CILangsToolsFile>,
        reads: &Vec<Vec<Option<StrMap<String>>>>,
    ) -> (r: Vec<FileRows>)
        requires
            files_ok(*files),
            reads@.len() == files.entries@.len(),
            forall|i: int|
                0 <= i < reads@.len() ==> (#[trigger] reads@[i])@.len()
                    == files.vals()[i].files.entries@.len(),
            forall|i: int, j: int|
                0 <= i < reads@.len() && 0 <= j < reads@[i]@.len() ==> (#[trigger] reads@[i]@[j] matches Some(
                    m,
                ) ==> m.wf()),
        ensures
            r@.len() == files.entries@.len(),
            forall|i: int|
                #![trigger r@[i]]
                0 <= i < r@.len() ==> {
                    &&& r@[i].name@ == files.vals()[i].index@
                    &&& r@[i].file@ == files.vals()[i]@
                    &&& file::rows_ok(r@[i].rows, files.vals()[i].index@)
                    &&& file::rows_view(r@[i].rows) == file::merge_reads(
                        files.vals()[i].files.keys(),
                        file::reads_view(reads@[i]@),
                        reads@[i]@.len() as int,
                    )
                },
    {
        let mut r: Vec<FileRows> = Vec::new();
        let mut i: usize = 0;
        while i < files.len()
            invariant
                i <= files.entries@.len() == reads@.len(),
                files_ok(*files),
                forall|i: int|
                    0 <= i < reads@.len() ==> (#[trigger] reads@[i])@.len()
                        == files.vals()[i].files.entries@.len(),
                forall|i: int, j: int|
                    0 <= i < reads@.len() && 0 <= j < reads@[i]@.len() ==> (#[trigger] reads@[i]@[j] matches Some(
                        m,
                    ) ==> m.wf()),
                r@.len() == i,
                forall|k: int|
                    #![trigger r@[k]]
                    0 <= k < r@.len() ==> {
                        &&& r@[k].name@ == files.vals()[k].index@
                        &&& r@[k].file@ == files.vals()[k]@
                        &&& file::rows_ok(r@[k].rows, files.vals()[k].index@)
                        &&& file::rows_view(r@[k].rows) == file::merge_reads(
                            files.vals()[k].files.keys(),
                            file::reads_view(reads@[k]@),
                            reads@[k]@.len() as int,
                        )
                    },
            decreases files.entries@.len() - i,
        {
            let f = files.value_at(i);
            proof {
                files.lemma_lookup_at(i as int);
                assert(files.has(files.keys()[i as int]));
            }
            let rows = f.get_key_value(&reads[i]);
            let fr = FileRows { name: f.index.clone(), file: f.copy(), rows };
            r.push(fr);
            i = i + 1;
        }
        r
    }

    /// For each file with rows that lack a language (or have only
    /// whitespace for it), its name and those rows.
    pub fn get_wasnt_translate_words(all: &Vec<FileRows>, langs: &Vec<String>) -> (r: StrMap<FileRows>)
        requires
            forall|i: int| 0 <= i < all@.len() ==> rows_wf(#[trigger] all@[i].rows),
        ensures
            r.wf(),
            r@ == strmap::collect(pending_words(views_of(all@), langs.deep_view())),
            forall|i: int| 0 <= i < r.vals().len() ==> rows_wf(#[trigger] r.vals()[i].rows),
    {
        let mut r: StrMap<FileRows> = StrMap::new();
        let mut i: usize = 0;
        assert(views_of(all@).take(0) =~= Seq::<FileRowsView>::empty());
        assert(r@ =~= Seq::<(Seq<char>, FileRowsView)>::empty());
        while i < all.len()
            invariant
                i <= all@.len(),
                forall|i: int| 0 <= i < all@.len() ==> rows_wf(#[trigger] all@[i].rows),
                r.wf(),
                r@ == strmap::collect(pending_words(views_of(all@).take(i as int), langs.deep_view())),
                forall|i: int| 0 <= i < r.vals().len() ==> rows_wf(#[trigger] r.vals()[i].rows),
            decreases all.len() - i,
        {
            let fr = &all[i];
            let ghost pred = |e: (Seq<char>, RowView)| row_untranslated(e.1, langs.deep_view());
            let mut nt: StrMap<CILangsToolsRow> = StrMap::new();
            let mut e: usize = 0;
            assert(nt@ =~= fr.rows@.take(0).filter(pred)) by {
                reveal(Seq::filter);
            }
            while e < fr.rows.len()
                invariant
                    e <= fr.rows.entries@.len(),
                    rows_wf(fr.rows),
                    nt.wf(),
                    file::translations_wf(nt),
                    nt@ == fr.rows@.take(e as int).filter(pred),
                    forall|k: Seq<char>| #[trigger] nt.has(k) ==> fr.rows.keys().take(e as int).contains(k),
                    pred == (|e: (Seq<char>, RowView)| row_untranslated(e.1, langs.deep_view())),
                decreases fr.rows.entries@.len() - e,
            {
                let row = fr.rows.value_at(e);
                let k = fr.rows.key_at(e);
                proof {
                    assert(fr.rows@.take(e + 1) =~= fr.rows@.take(e as int).push(fr.rows@[e as int]));
                    fr.rows@.take(e as int).lemma_filter_push(fr.rows@[e as int], pred);
                    assert(row.translate.wf());
                }
                if row_untranslated_exec(row, langs) {
                    proof {
                        if nt.has(k@) {
                            let j = fr.rows.keys().take(e as int).index_of(k@);
                            assert(fr.rows.keys()[j] == fr.rows.keys()[e as int]);
                        }
                    }
                    let ghost before = nt;
                    nt.push_new(k.clone(), row.copy());
                    proof {
                        assert(fr.rows@[e as int] == (k@, row@));
                        assert forall|k2: Seq<char>| #[trigger] nt.has(k2) implies fr.rows.keys().take(e + 1).contains(k2) by {
                            if k2 == k@ {
                                assert(fr.rows.keys().take(e + 1)[e as int] == k2);
                            } else {
                                let j = nt.keys().index_of(k2);
                                assert(nt.keys()[j] == k2);
                                assert(before.keys()[j] == k2);
                                assert(before.has(k2));
                                let m = fr.rows.keys().take(e as int).index_of(k2);
                                assert(fr.rows.keys().take(e + 1)[m] == k2);
                            }
                        }
                        assert forall|m: int| 0 <= m < nt.vals().len() implies (#[trigger] nt.vals()[m]).translate.wf() by {
                            if m < before.vals().len() {
                                assert(nt.vals()[m] == before.vals()[m]);
                            }
                        }
                    }
                } else {
                    proof {
                        assert forall|k2: Seq<char>| #[trigger] nt.has(k2) implies fr.rows.keys().take(e + 1).contains(k2) by {
                            let m = fr.rows.keys().take(e as int).index_of(k2);
                            assert(fr.rows.keys().take(e + 1)[m] == k2);
                        }
                    }
                }
                e = e + 1;
            }
            proof {
                assert(fr.rows@.take(fr.rows.entries@.len() as int) =~= fr.rows@);
                assert(views_of(all@).take(i + 1) =~= views_of(all@).take(i as int).push(all@[i as int]@));
                assert(views_of(all@).take(i + 1).drop_last() =~= views_of(all@).take(i as int));
            }
            if nt.len() > 0 {
                let v = FileRows { name: fr.name.clone(), file: fr.file.copy(), rows: nt };
                let ghost gv = v;
                let ghost vv = v@;
                let ghost before = r;
                r.put(fr.name.clone(), v);
                proof {
                    let pre = pending_words(views_of(all@).take(i as int), langs.deep_view());
                    assert(pending_words(views_of(all@).take(i + 1), langs.deep_view()) == pre.push((fr.name@, vv)));
                    assert(pre.push((fr.name@, vv)).drop_last() =~= pre);
                    assert forall|m: int| 0 <= m < r.vals().len() implies rows_wf(#[trigger] r.vals()[m].rows) by {
                        if m < before.vals().len() && r.vals()[m] != gv {
                            assert(r.vals()[m] == before.vals()[m]);
                        }
                    }
                }
            } else {
                proof {
                    assert(pending_words(views_of(all@).take(i + 1), langs.deep_view()) == pending_words(
                        views_of(all@).take(i as int),
                        langs.deep_view(),
                    ));
                }
            }
            i = i + 1;
        }
        assert(views_of(all@).take(all@.len() as int) =~= views_of(all@));
        r
    }
}

/// The rule between the parts of the report of phrases.
pub open spec fn words_rule() -> Seq<char> {
    "=======================================================================================================\n"@
}

/// The answer when nothing is left to translate.
pub open spec fn all_translated() -> Seq<char> {
    "Всё переведенно"@
}

/// The head of a file's table: `INDEX` and each language in upper case.
pub open spec fn words_head(langs: Seq<Seq<char>>) -> Seq<char> {
    text::pad_left_spec("INDEX"@, 35) + " |"@ + per_lang(
        langs,
        |l: Seq<char>| text::pad_center_spec(outside::uppercase(l), 20) + " |"@,
    ) + "\n"@
}

/// The cell of a row for one language: its text (or `null`), cut to 15 characters.
pub open spec fn words_cell(r: RowView, l: Seq<char>) -> Seq<char> {
    let t = match strmap::seq_lookup(r.translate, l) {
        Some(t) => t,
        None => "null"@,
    };
    " "@ + text::pad_right_spec(text::strip_maxlen(t, 15), 20) + "|"@
}

/// The line of a row: its index, cut to 30 characters, and a cell per language.
pub open spec fn words_line(k: Seq<char>, r: RowView, langs: Seq<Seq<char>>) -> Seq<char> {
    text::pad_left_spec(text::strip_maxlen(k, 30), 35) + " |"@ + per_lang(
        langs,
        |l: Seq<char>| words_cell(r, l),
    ) + "\n"@
}

/// The lines of the rows, in order.
pub open spec fn words_lines(rows: Seq<(Seq<char>, RowView)>, langs: Seq<Seq<char>>) -> Seq<char> {
    rows.map_values(|e: (Seq<char>, RowView)| words_line(e.0, e.1, langs)).flatten()
}

/// The part of the report for one file.
pub open spec fn words_block(name: Seq<char>, fr: FileRowsView, langs: Seq<Seq<char>>) -> Seq<char> {
    "Файл - "@ + name + " :\n"@ + words_rule() + words_head(langs) + words_rule() + words_lines(
        fr.rows,
        langs,
    ) + words_rule() + "\n"@
}

/// The report of the phrases still to translate.
pub open spec fn words_report(list: Seq<(Seq<char>, FileRowsView)>, langs: Seq<Seq<char>>) -> Seq<char> {
    if list.len() == 0 {
        all_translated()
    } else {
        list.map_values(|e: (Seq<char>, FileRowsView)| words_block(e.0, e.1, langs)).flatten()
    }
}

/// The report of phrases is "Всё переведенно" when no file has a
/// phrase left to translate.
pub proof fn lemma_words_report_empty(list: Seq<(Seq<char>, FileRowsView)>, langs: Seq<Seq<char>>)
    ensures
        list.len() == 0 ==> words_report(list, langs) == "Всё переведенно"@,
{
}

/// The head of a file's table.
fn words_head_exec(langs: &Vec<String>) -> (r: String)
    ensures
        r@ == words_head(langs.deep_view()),
{
    let ghost f = |l: Seq<char>| text::pad_center_spec(outside::uppercase(l), 20) + " |"@;
    let mut r = text::pad_left("INDEX", 35);
    text::append_str(&mut r, " |");
    let ghost start = r@;
    let mut j: usize = 0;
    while j < langs.len()
        invariant
            j <= langs@.len(),
            f == (|l: Seq<char>| text::pad_center_spec(outside::uppercase(l), 20) + " |"@),
            r@ == start + langs.deep_view().take(j as int).map_values(f).flatten(),
        decreases langs.len() - j,
    {
        proof {
            assert(langs.deep_view().take(j + 1).map_values(f) =~= langs.deep_view().take(
                j as int,
            ).map_values(f).push(f(langs@[j as int]@)));
            langs.deep_view().take(j as int).map_values(f).lemma_flatten_push(f(langs@[j as int]@));
        }
        let u = outside::to_upper(langs[j].as_str());
        let c = text::pad_center(u.as_str(), 20);
        text::append_str(&mut r, c.as_str());
        text::append_str(&mut r, " |");
        j = j + 1;
    }
    assert(langs.deep_view().take(langs@.len() as int) =~= langs.deep_view());
    text::append_str(&mut r, "\n");
    r
}

/// The line of one row.
fn words_line_exec(k: &String, row: &CILangsToolsRow, langs: &Vec<String>) -> (r: String)
    requires
        row.translate.wf(),
    ensures
        r@ == words_line(k@, row@, langs.deep_view()),
{
    let ghost f = |l: Seq<char>| words_cell(row@, l);
    let cut = CILangsTools::strip_string_maxlen(k, 30);
    let mut r = text::pad_left(cut.as_str(), 35);
    text::append_str(&mut r, " |");
    let ghost start = r@;
    let mut j: usize = 0;
    while j < langs.len()
        invariant
            j <= langs@.len(),
            row.translate.wf(),
            f == (|l: Seq<char>| words_cell(row@, l)),
            r@ == start + langs.deep_view().take(j as int).map_values(f).flatten(),
        decreases langs.len() - j,
    {
        proof {
            assert(langs.deep_view().take(j + 1).map_values(f) =~= langs.deep_view().take(
                j as int,
            ).map_values(f).push(f(langs@[j as int]@)));
            langs.deep_view().take(j as int).map_values(f).lemma_flatten_push(f(langs@[j as int]@));
            row.translate.lemma_view_lookup(langs@[j as int]@);
        }
        let t = match row.translate.get(langs[j].as_str()) {
            Some(t) => t.clone(),
            None => text::copy_str("null"),
        };
        let cut = CILangsTools::strip_string_maxlen(&t, 15);
        let cell = text::pad_right(cut.as_str(), 20);
        text::append_str(&mut r, " ");
        text::append_str(&mut r, cell.as_str());
        text::append_str(&mut r, "|");
        j = j + 1;
    }
    assert(langs.deep_view().take(langs@.len() as int) =~= langs.deep_view());
    text::append_str(&mut r, "\n");
    r
}

/// The part of the report for one file.
fn words_block_exec(name: &String, fr: &FileRows, langs: &Vec<String>) -> (r: String)
    requires
        rows_wf(fr.rows),
    ensures
        r@ == words_block(name@, fr@, langs.deep_view()),
{
    let mut r = String::new();
    text::append_str(&mut r, "Файл - ");
    text::append_str(&mut r, name.as_str());
    text::append_str(&mut r, " :\n");
    text::append_str(&mut r, "=======================================================================================================\n");
    let head = words_head_exec(langs);
    text::append_str(&mut r, head.as_str());
    text::append_str(&mut r, "=======================================================================================================\n");
    let ghost start = r@;
    let ghost g = |e: (Seq<char>, RowView)| words_line(e.0, e.1, langs.deep_view());
    let mut i: usize = 0;
    while i < fr.rows.len()
        invariant
            i <= fr.rows.entries@.len(),
            rows_wf(fr.rows),
            g == (|e: (Seq<char>, RowView)| words_line(e.0, e.1, langs.deep_view())),
            r@ == start + fr.rows@.take(i as int).map_values(g).flatten(),
        decreases fr.rows.entries@.len() - i,
    {
        proof {
            assert(fr.rows@.take(i + 1).map_values(g) =~= fr.rows@.take(i as int).map_values(g).push(
                g(fr.rows@[i as int]),
            ));
            fr.rows@.take(i as int).map_values(g).lemma_flatten_push(g(fr.rows@[i as int]));
        }
        let row = fr.rows.value_at(i);
        assert(row.translate.wf());
        let line = words_line_exec(fr.rows.key_at(i), row, langs);
        text::append_str(&mut r, line.as_str());
        i = i + 1;
    }
    assert(fr.rows@.take(fr.rows.entries@.len() as int) =~= fr.rows@);
    text::append_str(&mut r, "=======================================================================================================\n");
    text::append_str(&mut r, "\n");
    r
}

impl CILangsTools {
    /// The report of the phrases still to translate, file by file.
    pub fn get_print_wasnt_translate_words(all: &Vec<FileRows>, langs: &Vec<String>) -> (r: String)
        requires
            forall|i: int| 0 <= i < all@.len() ==> rows_wf(#[trigger] all@[i].rows),
        ensures
            r@ == words_report(
                strmap::collect(pending_words(views_of(all@), langs.deep_view())),
                langs.deep_view(),
            ),
    {
        let list = CILangsTools::get_wasnt_translate_words(all, langs);
        CILangsTools::print_words_report(&list, langs)
    }

    /// The report of the given files' rows.
    pub fn print_words_report(list: &StrMap<FileRows>, langs: &Vec<String>) -> (r: String)
        requires
            forall|i: int| 0 <= i < list.vals().len() ==> rows_wf(#[trigger] list.vals()[i].rows),
        ensures
            r@ == words_report(list@, langs.deep_view()),
    {
        if list.len() == 0 {
            return text::copy_str("Всё переведенно");
        }
        let ghost g = |e: (Seq<char>, FileRowsView)| words_block(e.0, e.1, langs.deep_view());
        let mut ans = String::new();
        let mut i: usize = 0;
        assert(list@.take(0).map_values(g) =~= Seq::<Seq<char>>::empty());
        while i < list.len()
            invariant
                i <= list.entries@.len(),
                forall|i: int| 0 <= i < list.vals().len() ==> rows_wf(#[trigger] list.vals()[i].rows),
                g == (|e: (Seq<char>, FileRowsView)| words_block(e.0, e.1, langs.deep_view())),
                ans@ == list@.take(i as int).map_values(g).flatten(),
            decreases list.entries@.len() - i,
        {
            proof {
                assert(list@.take(i + 1).map_values(g) =~= list@.take(i as int).map_values(g).push(
                    g(list@[i as int]),
                ));
                list@.take(i as int).map_values(g).lemma_flatten_push(g(list@[i as int]));
            }
            let fr = list.value_at(i);
            assert(rows_wf(list.vals()[i as int].rows));
            let block = words_block_exec(list.key_at(i), fr, langs);
            text::append_str(&mut ans, block.as_str());
            i = i + 1;
        }
        assert(list@.take(list.entries@.len() as int) =~= list@);
        ans
    }
}

/// The last `/`-separated part of a path.
pub open spec fn last_segment(p: Seq<char>) -> Seq<char> {
    text::split_seq(p, "/"@).last()
}

/// The names of the directories among the entries (path and whether it is a
/// directory), in order: the last part of each path.
pub open spec fn dir_names(entries: Seq<(Seq<char>, bool)>) -> Seq<Seq<char>>
    decreases entries.len(),
{
    if entries.len() == 0 {
        Seq::empty()
    } else {
        let rest = dir_names(entries.drop_last());
        if entries.last().1 {
            rest.push(last_segment(entries.last().0))
        } else {
            rest
        }
    }
}

/// The answer when the directory of languages cannot be read.
pub open spec fn bad_path_error() -> Seq<char> {
    "Не корректный путь. Папки не существует"@
}

/// The entries as character sequences.
pub open spec fn entries_view(entries: Seq<(String, bool)>) -> Seq<(Seq<char>, bool)> {
    Seq::new(entries.len(), |i: int| (entries[i].0@, entries[i].1))
}

/// The languages found in a listing are, in order, the last `/`-separated
/// part of the path of each entry that is a directory; other entries give none.
pub proof fn lemma_dir_names(entries: Seq<(Seq<char>, bool)>)
    ensures
        dir_names(entries) == entries.filter(|e: (Seq<char>, bool)| e.1).map_values(
            |e: (Seq<char>, bool)| text::split_seq(e.0, "/"@).last(),
        ),
    decreases entries.len(),
{
    let p = |e: (Seq<char>, bool)| e.1;
    let f = |e: (Seq<char>, bool)| text::split_seq(e.0, "/"@).last();
    if entries.len() == 0 {
        assert(entries.filter(p) =~= Seq::<(Seq<char>, bool)>::empty()) by {
            reveal(Seq::filter);
        }
        assert(entries.filter(p).map_values(f) =~= Seq::<Seq<char>>::empty());
    } else {
        let pre = entries.drop_last();
        lemma_dir_names(pre);
        assert(pre.push(entries.last()) =~= entries);
        pre.lemma_filter_push(entries.last(), p);
        if p(entries.last()) {
            assert(entries.filter(p).map_values(f) =~= pre.filter(p).map_values(f).push(f(entries.last())));
        } else {
            assert(entries.filter(p).map_values(f) =~= pre.filter(p).map_values(f));
        }
    }
}

impl CILangsTools {
    /// The languages found as directories: from the entries of the project's
    /// language directory, `lang_root(ci_path)` (each path and whether it is a
    /// directory), or `None` where that directory could not be read.
    pub fn get_langs_by_path(&self, entries: &Option<Vec<(String, bool)>>) -> (r: Result<Vec<String>, String>)
        ensures
            match entries {
                None => r matches Err(e) && e@ == bad_path_error(),
                Some(es) => r matches Ok(v) && v.deep_view() == dir_names(entries_view(es@)),
            },
    {
        match entries {
            None => Err(text::copy_str("Не корректный путь. Папки не существует")),
            Some(es) => {
                let mut v: Vec<String> = Vec::new();
                let mut i: usize = 0;
                proof {
                    reveal_strlit("/");
                }
                while i < es.len()
                    invariant
                        i <= es@.len(),
                        "/"@.len() > 0,
                        v.deep_view() == dir_names(entries_view(es@).take(i as int)),
                    decreases es.len() - i,
                {
                    proof {
                        assert(entries_view(es@).take(i + 1).drop_last() =~= entries_view(es@).take(i as int));
                    }
                    if es[i].1 {
                        let parts = text::split(es[i].0.as_str(), "/");
                        proof {
                            text::lemma_split_nonempty(es@[i as int].0@, "/"@);
                        }
                        let last = parts[parts.len() - 1].clone();
                        let ghost old_v = v.deep_view();
                        v.push(last);
                        assert(v.deep_view() =~= old_v.push(parts.deep_view().last()));
                    }
                    i = i + 1;
                }
                assert(entries_view(es@).take(es@.len() as int) =~= entries_view(es@));
                Ok(v)
            },
        }
    }
}

/// After storing `rec` under `k`, the catalog gains that record's files.
pub proof fn lemma_catalog_update(
    before: StrMap<CILangsToolsFile>,
    after: StrMap<CILangsToolsFile>,
    k: Seq<char>,
    rec: CILangsToolsFile,
)
    requires
        after.lookup(k) == Some(rec),
        forall|k2: Seq<char>| k2 != k ==> #[trigger] after.lookup(k2) == before.lookup(k2),
    ensures
        catalog(after) == catalog(before).insert(k, strmap::sview(rec.files)),
        forall|k2: Seq<char>| #[trigger] after.has(k2) == (before.has(k2) || k2 == k),
{
    assert forall|k2: Seq<char>| #[trigger] after.has(k2) == (before.has(k2) || k2 == k) by {
        if k2 != k {
            assert(after.lookup(k2) == before.lookup(k2));
        }
    }
    assert(catalog(after) =~= catalog(before).insert(k, strmap::sview(rec.files)));
}

} // verus!
