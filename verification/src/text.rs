use vstd::prelude::*;
use crate::outside;

verus! {

// ---------------------------------------------------------------------------
// Building strings
// ---------------------------------------------------------------------------

/// Whether `s` ends with `t`.
pub open spec fn ends_with(s: Seq<char>, t: Seq<char>) -> bool {
    s.len() >= t.len() && s.subrange(s.len() - t.len(), s.len() as int) == t
}

/// The characters of a string, in order.
pub fn chars_of(s: &str) -> (v: Vec<char>)
    ensures
        v@ == s@,
{
    let mut v: Vec<char> = Vec::new();
    for c in it: s.chars()
        invariant
            v@ == it.seq().take(it.index() as int),
    {
        v.push(c);
    }
    v
}

/// The string made of the characters `v[lo..hi]`.
pub fn string_of_range(v: &Vec<char>, lo: usize, hi: usize) -> (r: String)
    requires
        lo <= hi <= v@.len(),
    ensures
        r@ == v@.subrange(lo as int, hi as int),
{
    let mut r = String::new();
    let mut i = lo;
    while i < hi
        invariant
            lo <= i <= hi <= v@.len(),
            r@ == v@.subrange(lo as int, i as int),
        decreases hi - i,
    {
        outside::push_char(&mut r, v[i]);
        assert(v@.subrange(lo as int, i + 1) == v@.subrange(lo as int, i as int).push(v@[i as int]));
        i = i + 1;
    }
    r
}

/// Appends `t` to `s`.
pub fn append_str(s: &mut String, t: &str)
    ensures
        final(s)@ == old(s)@ + t@,
{
    let v = chars_of(t);
    let mut i: usize = 0;
    while i < v.len()
        invariant
            i <= v@.len(),
            v@ == t@,
            s@ == old(s)@ + v@.take(i as int),
        decreases v.len() - i,
    {
        outside::push_char(s, v[i]);
        assert(v@.take(i + 1) == v@.take(i as int).push(v@[i as int]));
        i = i + 1;
    }
    assert(v@.take(v@.len() as int) == v@);
}

/// Whether two strings hold the same characters.
pub fn str_eq(a: &str, b: &str) -> (r: bool)
    ensures
        r == (a@ == b@),
{
    let va = chars_of(a);
    let vb = chars_of(b);
    if va.len() != vb.len() {
        return false;
    }
    let mut i: usize = 0;
    while i < va.len()
        invariant
            va@ == a@,
            vb@ == b@,
            va@.len() == vb@.len(),
            i <= va@.len(),
            forall|k: int| 0 <= k < i ==> va@[k] == vb@[k],
        decreases va.len() - i,
    {
        if va[i] != vb[i] {
            return false;
        }
        i = i + 1;
    }
    assert(va@ =~= vb@);
    true
}

/// A copy of a string.
pub fn copy_str(s: &str) -> (r: String)
    ensures
        r@ == s@,
{
    let mut r = String::new();
    append_str(&mut r, s);
    r
}

// ---------------------------------------------------------------------------
// Whitespace and trimming
// ---------------------------------------------------------------------------

/// The characters with the Unicode `White_Space` property (those for which
/// `char::is_whitespace` holds).
pub open spec fn is_ws(c: char) -> bool {
    ||| c == '\t'
    ||| c == '\n'
    ||| c == '\u{0B}'
    ||| c == '\u{0C}'
    ||| c == '\r'
    ||| c == ' '
    ||| c == '\u{85}'
    ||| c == '\u{A0}'
    ||| c == '\u{1680}'
    ||| ('\u{2000}' <= c && c <= '\u{200A}')
    ||| c == '\u{2028}'
    ||| c == '\u{2029}'
    ||| c == '\u{202F}'
    ||| c == '\u{205F}'
    ||| c == '\u{3000}'
}

/// Whether `c` is whitespace.
pub fn is_whitespace(c: char) -> (b: bool)
    ensures
        b == is_ws(c),
{
    c == '\t' || c == '\n' || c == '\u{0B}' || c == '\u{0C}' || c == '\r' || c == ' '
        || c == '\u{85}' || c == '\u{A0}' || c == '\u{1680}' || ('\u{2000}' <= c && c
        <= '\u{200A}') || c == '\u{2028}' || c == '\u{2029}' || c == '\u{202F}' || c
        == '\u{205F}' || c == '\u{3000}'
}

/// The first index at or after `i` that does not hold whitespace (or the length).
pub open spec fn skip_ws_from(s: Seq<char>, i: int) -> int
    decreases s.len() - i,
{
    if 0 <= i < s.len() && is_ws(s[i]) {
        skip_ws_from(s, i + 1)
    } else {
        i
    }
}

/// The end of `s.take(j)` once its trailing whitespace is removed.
pub open spec fn back_ws_from(s: Seq<char>, j: int) -> int
    decreases j,
{
    if 0 < j <= s.len() && is_ws(s[j - 1]) {
        back_ws_from(s, j - 1)
    } else {
        j
    }
}

/// `s` without its leading whitespace.
pub open spec fn trim_start(s: Seq<char>) -> Seq<char> {
    s.skip(skip_ws_from(s, 0))
}

/// `s` without its trailing whitespace.
pub open spec fn trim_end(s: Seq<char>) -> Seq<char> {
    s.take(back_ws_from(s, s.len() as int))
}

/// `s` without leading and trailing whitespace, as `str::trim` gives it.
pub open spec fn trimmed(s: Seq<char>) -> Seq<char> {
    trim_end(trim_start(s))
}

proof fn lemma_skip_ws_bounds(s: Seq<char>, i: int)
    requires
        0 <= i <= s.len(),
    ensures
        i <= skip_ws_from(s, i) <= s.len(),
        forall|k: int| i <= k < skip_ws_from(s, i) ==> is_ws(#[trigger] s[k]),
        skip_ws_from(s, i) < s.len() ==> !is_ws(s[skip_ws_from(s, i)]),
    decreases s.len() - i,
{
    if i < s.len() && is_ws(s[i]) {
        lemma_skip_ws_bounds(s, i + 1);
    }
}

proof fn lemma_back_ws_bounds(s: Seq<char>, j: int)
    requires
        0 <= j <= s.len(),
    ensures
        0 <= back_ws_from(s, j) <= j,
        forall|k: int| back_ws_from(s, j) <= k < j ==> is_ws(#[trigger] s[k]),
        back_ws_from(s, j) > 0 ==> !is_ws(s[back_ws_from(s, j) - 1]),
    decreases j,
{
    if j > 0 && is_ws(s[j - 1]) {
        lemma_back_ws_bounds(s, j - 1);
    }
}

/// Facts about `trimmed` that callers use: it is a slice of `s`, and it neither
/// starts nor ends with whitespace.
pub proof fn lemma_trimmed_shape(s: Seq<char>)
    ensures
        ({
            let a = skip_ws_from(s, 0);
            let t = s.skip(a);
            let b = back_ws_from(t, t.len() as int);
            &&& 0 <= a <= s.len()
            &&& 0 <= b <= t.len()
            &&& trimmed(s) == s.subrange(a, a + b)
        }),
        trimmed(s).len() > 0 ==> !is_ws(trimmed(s)[0]) && !is_ws(trimmed(s).last()),
        trimmed(s).len() <= s.len(),
{
    lemma_skip_ws_bounds(s, 0);
    let a = skip_ws_from(s, 0);
    let t = s.skip(a);
    lemma_back_ws_bounds(t, t.len() as int);
    let b = back_ws_from(t, t.len() as int);
    assert(trimmed(s) =~= s.subrange(a, a + b));
    if b > 0 {
        assert(t[0] == s[a]);
    }
}

/// Trimming twice is trimming once.
pub proof fn lemma_trim_idempotent(s: Seq<char>)
    ensures
        trimmed(trimmed(s)) == trimmed(s),
{
    let t = trimmed(s);
    lemma_trimmed_shape(s);
    if t.len() == 0 {
        assert(skip_ws_from(t, 0) == 0);
        assert(t.skip(0) =~= t);
        assert(trimmed(t) =~= t);
    } else {
        assert(skip_ws_from(t, 0) == 0);
        assert(t.skip(0) =~= t);
        assert(back_ws_from(t, t.len() as int) == t.len());
        assert(trimmed(t) =~= t);
    }
}

/// A string without leading or trailing whitespace is its own trim.
pub proof fn lemma_trim_of_clean(s: Seq<char>)
    requires
        s.len() > 0 ==> !is_ws(s[0]) && !is_ws(s.last()),
    ensures
        trimmed(s) == s,
{
    assert(skip_ws_from(s, 0) == 0);
    assert(s.skip(0) =~= s);
    assert(back_ws_from(s, s.len() as int) == s.len());
    assert(trimmed(s) =~= s);
}

/// `s` with leading and trailing whitespace removed (`str::trim`).
pub fn trim(s: &str) -> (r: String)
    ensures
        r@ == trimmed(s@),
{
    let v = chars_of(s);
    let n = v.len();
    let mut a: usize = 0;
    while a < n && is_whitespace(v[a])
        invariant
            a <= n == v@.len(),
            v@ == s@,
            skip_ws_from(s@, 0) == skip_ws_from(s@, a as int),
        decreases n - a,
    {
        a = a + 1;
    }
    let ghost t = s@.skip(a as int);
    let mut b: usize = n;
    while b > a && is_whitespace(v[b - 1])
        invariant
            a <= b <= n == v@.len(),
            v@ == s@,
            t == s@.skip(a as int),
            back_ws_from(t, t.len() as int) == back_ws_from(t, b - a),
        decreases b,
    {
        assert(t[b - a - 1] == v@[b - 1]);
        b = b - 1;
    }
    proof {
        if b - a > 0 {
            assert(t[b - a - 1] == v@[b - 1]);
        }
        assert(back_ws_from(t, b - a) == b - a);
        assert(trimmed(s@) =~= v@.subrange(a as int, b as int));
    }
    string_of_range(&v, a, b)
}


// ---------------------------------------------------------------------------
// Splitting and joining
// ---------------------------------------------------------------------------

/// Whether `pat` occurs in `s` at position `i`.
pub open spec fn matches_at(s: Seq<char>, pat: Seq<char>, i: int) -> bool {
    0 <= i && i + pat.len() <= s.len() && s.subrange(i, i + pat.len()) == pat
}

/// The pieces of `s` from `start` on, scanning for `pat` from `i` on: each
/// occurrence found left to right ends a piece, and the search resumes after it.
pub open spec fn split_from(s: Seq<char>, pat: Seq<char>, start: int, i: int) -> Seq<Seq<char>>
    decreases s.len() - i,
{
    if pat.len() == 0 || i < start || start < 0 || i + pat.len() > s.len() {
        seq![s.subrange(start, s.len() as int)]
    } else if matches_at(s, pat, i) {
        seq![s.subrange(start, i)] + split_from(s, pat, i + pat.len(), i + pat.len())
    } else {
        split_from(s, pat, start, i + 1)
    }
}

/// `s` cut at each occurrence of a non-empty `pat` (`str::split`).
pub open spec fn split_seq(s: Seq<char>, pat: Seq<char>) -> Seq<Seq<char>> {
    split_from(s, pat, 0, 0)
}

/// The pieces joined with `sep` between each two (`[String]::join`).
pub open spec fn join_seq(parts: Seq<Seq<char>>, sep: Seq<char>) -> Seq<char>
    decreases parts.len(),
{
    if parts.len() == 0 {
        Seq::empty()
    } else if parts.len() == 1 {
        parts[0]
    } else {
        parts[0] + sep + join_seq(parts.drop_first(), sep)
    }
}

proof fn lemma_split_from_nonempty(s: Seq<char>, pat: Seq<char>, start: int, i: int)
    ensures
        split_from(s, pat, start, i).len() >= 1,
    decreases s.len() - i,
{
    if pat.len() == 0 || i < start || start < 0 || i + pat.len() > s.len() {
    } else if matches_at(s, pat, i) {
        lemma_split_from_nonempty(s, pat, i + pat.len(), i + pat.len());
    } else {
        lemma_split_from_nonempty(s, pat, start, i + 1);
    }
}

/// Without an occurrence of `pat` at or after `i`, the rest is one piece.
pub proof fn lemma_split_from_no_match(s: Seq<char>, pat: Seq<char>, start: int, i: int)
    requires
        0 <= start <= i,
        forall|k: int| i <= k ==> !#[trigger] matches_at(s, pat, k),
    ensures
        split_from(s, pat, start, i) == seq![s.subrange(start, s.len() as int)],
    decreases s.len() - i,
{
    if pat.len() == 0 || i + pat.len() > s.len() {
    } else {
        assert(!matches_at(s, pat, i));
        lemma_split_from_no_match(s, pat, start, i + 1);
    }
}

/// With no occurrence of `pat` before `i`, scanning may start at `i`.
pub proof fn lemma_split_from_skip(s: Seq<char>, pat: Seq<char>, start: int, k: int, i: int)
    requires
        0 <= start <= k <= i,
        i + pat.len() <= s.len() + 1,
        pat.len() > 0,
        forall|m: int| k <= m < i ==> !#[trigger] matches_at(s, pat, m),
    ensures
        split_from(s, pat, start, k) == split_from(s, pat, start, i),
    decreases i - k,
{
    if k < i {
        assert(!matches_at(s, pat, k));
        lemma_split_from_skip(s, pat, start, k + 1, i);
    }
}

/// Splitting always gives at least one piece.
pub proof fn lemma_split_nonempty(s: Seq<char>, pat: Seq<char>)
    ensures
        split_seq(s, pat).len() >= 1,
{
    lemma_split_from_nonempty(s, pat, 0, 0);
}

/// Joining a piece in front of at least one other piece.
pub proof fn lemma_join_cons(a: Seq<char>, rest: Seq<Seq<char>>, sep: Seq<char>)
    requires
        rest.len() >= 1,
    ensures
        join_seq(seq![a] + rest, sep) == a + sep + join_seq(rest, sep),
{
    let p = seq![a] + rest;
    assert(p.drop_first() =~= rest);
    assert(p[0] == a);
}

/// Joining the pieces of one more element.
pub proof fn lemma_join_push(parts: Seq<Seq<char>>, x: Seq<char>, sep: Seq<char>)
    ensures
        join_seq(parts.push(x), sep) == if parts.len() == 0 {
            x
        } else {
            join_seq(parts, sep) + sep + x
        },
    decreases parts.len(),
{
    if parts.len() == 0 {
        assert(parts.push(x) =~= seq![x]);
    } else if parts.len() == 1 {
        assert(parts.push(x).drop_first() =~= seq![x]);
        assert(join_seq(seq![x], sep) == x);
    } else {
        lemma_join_push(parts.drop_first(), x, sep);
        assert(parts.push(x).drop_first() =~= parts.drop_first().push(x));
        assert(join_seq(parts.push(x), sep) =~= join_seq(parts, sep) + sep + x);
    }
}

proof fn lemma_join_split_from(s: Seq<char>, pat: Seq<char>, start: int, i: int)
    requires
        pat.len() > 0,
        0 <= start <= i,
        start <= s.len(),
    ensures
        join_seq(split_from(s, pat, start, i), pat) == s.subrange(start, s.len() as int),
    decreases s.len() - i,
{
    if i + pat.len() > s.len() {
    } else if matches_at(s, pat, i) {
        let j = i + pat.len();
        lemma_join_split_from(s, pat, j, j);
        lemma_split_from_nonempty(s, pat, j, j);
        lemma_join_cons(s.subrange(start, i), split_from(s, pat, j, j), pat);
        assert(s.subrange(start, s.len() as int) =~= s.subrange(start, i) + pat + s.subrange(
            j,
            s.len() as int,
        ));
    } else {
        lemma_join_split_from(s, pat, start, i + 1);
    }
}

/// Joining the pieces of a split with the separator gives back the string.
pub proof fn lemma_join_split(s: Seq<char>, pat: Seq<char>)
    requires
        pat.len() > 0,
    ensures
        join_seq(split_seq(s, pat), pat) == s,
{
    lemma_join_split_from(s, pat, 0, 0);
    assert(s.subrange(0, s.len() as int) =~= s);
}

/// Splitting from position `n + a` on is splitting what follows the first `n`
/// characters from `a` on.
proof fn lemma_split_from_shift(s: Seq<char>, pat: Seq<char>, n: int, a: int, b: int)
    requires
        0 <= n,
        n + a <= s.len(),
        0 <= a <= b,
        pat.len() > 0,
    ensures
        split_from(s, pat, n + a, n + b) == split_from(s.skip(n), pat, a, b),
    decreases s.len() - n - b,
{
    let y = s.skip(n);
    if n + b + pat.len() > s.len() {
        assert(s.subrange(n + a, s.len() as int) =~= y.subrange(a, y.len() as int));
    } else {
        assert(s.subrange(n + b, n + b + pat.len()) =~= y.subrange(b, b + pat.len()));
        if matches_at(y, pat, b) {
            assert(s.subrange(n + a, n + b) =~= y.subrange(a, b));
            lemma_split_from_shift(s, pat, n, b + pat.len(), b + pat.len());
        } else {
            lemma_split_from_shift(s, pat, n, a, b + 1);
        }
    }
}

/// When `pat` first occurs in `x + pat` at its end, splitting `x + pat + y`
/// gives `x`, then the pieces of `y`.
pub proof fn lemma_split_first(x: Seq<char>, pat: Seq<char>, y: Seq<char>)
    requires
        pat.len() > 0,
        forall|m: int| 0 <= m < x.len() ==> !#[trigger] matches_at(x + pat, pat, m),
    ensures
        split_seq(x + pat + y, pat) == seq![x] + split_seq(y, pat),
{
    let s = x + pat + y;
    let l: int = (x.len() + pat.len()) as int;
    assert forall|m: int| 0 <= m < x.len() implies !#[trigger] matches_at(s, pat, m) by {
        assert(s.subrange(m, m + pat.len()) =~= (x + pat).subrange(m, m + pat.len()));
        assert(!matches_at(x + pat, pat, m));
    }
    lemma_split_from_skip(s, pat, 0, 0, x.len() as int);
    assert(s.subrange(x.len() as int, l) =~= pat);
    assert(matches_at(s, pat, x.len() as int));
    assert(s.subrange(0, x.len() as int) =~= x);
    lemma_split_from_shift(s, pat, l, 0, 0);
    assert(s.skip(l) =~= y);
}

/// A string shorter than `pat` is one piece.
pub proof fn lemma_split_short(s: Seq<char>, pat: Seq<char>)
    requires
        s.len() < pat.len(),
    ensures
        split_seq(s, pat) == seq![s],
{
    lemma_split_from_no_match(s, pat, 0, 0);
    assert(s.subrange(0, s.len() as int) =~= s);
}

/// Whether `p` occurs in `v` at position `i`.
fn occurs_at(v: &Vec<char>, p: &Vec<char>, i: usize) -> (b: bool)
    ensures
        b == matches_at(v@, p@, i as int),
{
    if i > v.len() || p.len() > v.len() - i {
        return false;
    }
    let vl = v.len();
    let mut k: usize = 0;
    while k < p.len()
        invariant
            vl == v@.len(),
            k <= p@.len(),
            i + p@.len() <= v@.len(),
            forall|m: int| 0 <= m < k ==> v@[i + m] == p@[m],
        decreases p.len() - k,
    {
        assert(i + k < v@.len());
        if v[i + k] != p[k] {
            assert(v@.subrange(i as int, i + p@.len())[k as int] != p@[k as int]);
            return false;
        }
        k = k + 1;
    }
    assert(v@.subrange(i as int, i + p@.len()) =~= p@);
    true
}

/// `s` cut at each occurrence of `pat` (`str::split` with a string pattern).
pub fn split(s: &str, pat: &str) -> (r: Vec<String>)
    requires
        pat@.len() > 0,
    ensures
        r.deep_view() == split_seq(s@, pat@),
{
    let v = chars_of(s);
    let p = chars_of(pat);
    let n = v.len();
    let plen = p.len();
    let mut r: Vec<String> = Vec::new();
    let mut start: usize = 0;
    let mut i: usize = 0;
    while i <= n && plen <= n - i
        invariant
            v@ == s@,
            p@ == pat@,
            n == v@.len(),
            plen == p@.len() > 0,
            start <= i <= n,
            r.deep_view() + split_from(s@, pat@, start as int, i as int) == split_seq(s@, pat@),
        decreases n - i,
    {
        if occurs_at(&v, &p, i) {
            let piece = string_of_range(&v, start, i);
            let ghost old_r = r.deep_view();
            let ghost st = start as int;
            let ghost ii = i as int;
            assert(split_from(s@, pat@, st, ii) == seq![s@.subrange(st, ii)] + split_from(
                s@,
                pat@,
                ii + plen,
                ii + plen,
            ));
            r.push(piece);
            assert(r.deep_view() =~= old_r.push(piece@));
            i = i + plen;
            start = i;
            assert(r.deep_view() + split_from(s@, pat@, start as int, i as int) =~= old_r + (
            seq![piece@] + split_from(s@, pat@, i as int, i as int)));
        } else {
            i = i + 1;
        }
    }
    let last = string_of_range(&v, start, n);
    let ghost old_r = r.deep_view();
    r.push(last);
    assert(r.deep_view() =~= old_r.push(last@));
    assert(r.deep_view() =~= old_r + split_from(s@, pat@, start as int, i as int));
    r
}

/// The pieces joined with `sep` between each two (`[String]::join`).
pub fn join(parts: &Vec<String>, sep: &str) -> (r: String)
    ensures
        r@ == join_seq(parts.deep_view(), sep@),
{
    let mut r = String::new();
    let mut i: usize = 0;
    while i < parts.len()
        invariant
            i <= parts@.len(),
            r@ == join_seq(parts.deep_view().take(i as int), sep@),
        decreases parts.len() - i,
    {
        proof {
            lemma_join_push(parts.deep_view().take(i as int), parts.deep_view()[i as int], sep@);
            assert(parts.deep_view().take(i + 1) =~= parts.deep_view().take(i as int).push(
                parts.deep_view()[i as int],
            ));
        }
        if i > 0 {
            append_str(&mut r, sep);
        }
        append_str(&mut r, parts[i].as_str());
        i = i + 1;
    }
    assert(parts.deep_view().take(parts@.len() as int) =~= parts.deep_view());
    r
}


// ---------------------------------------------------------------------------
// Widths and cuts, counted in characters
// ---------------------------------------------------------------------------

/// `n` spaces.
pub open spec fn spaces(n: int) -> Seq<char> {
    Seq::new(if n < 0 { 0nat } else { n as nat }, |i: int| ' ')
}

/// `s` right-aligned in a field of `w` characters (`{:>w}`).
pub open spec fn pad_left_spec(s: Seq<char>, w: int) -> Seq<char> {
    spaces(w - s.len()) + s
}

/// `s` left-aligned in a field of `w` characters (`{:<w}`).
pub open spec fn pad_right_spec(s: Seq<char>, w: int) -> Seq<char> {
    s + spaces(w - s.len())
}

/// `s` centred in a field of `w` characters (`{:^w}`): of the padding, the
/// smaller half goes before.
pub open spec fn pad_center_spec(s: Seq<char>, w: int) -> Seq<char> {
    let pad = if w > s.len() { w - s.len() } else { 0 };
    spaces(pad / 2) + s + spaces(pad - pad / 2)
}

/// Appends `n` spaces.
pub fn push_spaces(r: &mut String, n: usize)
    ensures
        final(r)@ == old(r)@ + spaces(n as int),
{
    let mut i: usize = 0;
    while i < n
        invariant
            i <= n,
            r@ == old(r)@ + spaces(i as int),
        decreases n - i,
    {
        outside::push_char(r, ' ');
        assert(old(r)@ + spaces(i + 1) =~= (old(r)@ + spaces(i as int)).push(' '));
        i = i + 1;
    }
}

/// The number of characters of `s`.
pub fn char_count(s: &str) -> (n: usize)
    ensures
        n == s@.len(),
{
    let v = chars_of(s);
    v.len()
}

/// `s` right-aligned in a field of `w` characters.
pub fn pad_left(s: &str, w: usize) -> (r: String)
    ensures
        r@ == pad_left_spec(s@, w as int),
{
    let n = char_count(s);
    let mut r = String::new();
    if n < w {
        push_spaces(&mut r, w - n);
    } else {
        assert(spaces(w - n) =~= Seq::<char>::empty());
    }
    append_str(&mut r, s);
    assert(r@ =~= pad_left_spec(s@, w as int));
    r
}

/// `s` left-aligned in a field of `w` characters.
pub fn pad_right(s: &str, w: usize) -> (r: String)
    ensures
        r@ == pad_right_spec(s@, w as int),
{
    let n = char_count(s);
    let mut r = copy_str(s);
    if n < w {
        push_spaces(&mut r, w - n);
    } else {
        assert(spaces(w - n) =~= Seq::<char>::empty());
    }
    assert(r@ =~= pad_right_spec(s@, w as int));
    r
}

/// `s` centred in a field of `w` characters.
pub fn pad_center(s: &str, w: usize) -> (r: String)
    ensures
        r@ == pad_center_spec(s@, w as int),
{
    let n = char_count(s);
    let pad: usize = if w > n { w - n } else { 0 };
    let mut r = String::new();
    push_spaces(&mut r, pad / 2);
    append_str(&mut r, s);
    push_spaces(&mut r, pad - pad / 2);
    r
}

/// `s`, or, when it has more than `n` characters, its first `n` followed by `..`.
pub open spec fn strip_maxlen(s: Seq<char>, n: int) -> Seq<char> {
    if s.len() > n {
        s.take(n) + seq!['.', '.']
    } else {
        s
    }
}

/// `s`, or, when it has more than `n` characters, `...` followed by its last `n`.
pub open spec fn keep_tail(s: Seq<char>, n: int) -> Seq<char> {
    if s.len() > n {
        seq!['.', '.', '.'] + s.skip(s.len() - n)
    } else {
        s
    }
}

/// `s` cut to its first `n` characters and `..` when it is longer.
pub fn strip_to(s: &str, n: usize) -> (r: String)
    ensures
        r@ == strip_maxlen(s@, n as int),
{
    let v = chars_of(s);
    if v.len() > n {
        let mut r = string_of_range(&v, 0, n);
        outside::push_char(&mut r, '.');
        outside::push_char(&mut r, '.');
        assert(r@ =~= strip_maxlen(s@, n as int));
        r
    } else {
        copy_str(s)
    }
}

/// `s` cut to `...` and its last `n` characters when it is longer.
pub fn tail_to(s: &str, n: usize) -> (r: String)
    ensures
        r@ == keep_tail(s@, n as int),
{
    let v = chars_of(s);
    if v.len() > n {
        let mut r = String::new();
        outside::push_char(&mut r, '.');
        outside::push_char(&mut r, '.');
        outside::push_char(&mut r, '.');
        let t = string_of_range(&v, v.len() - n, v.len());
        append_str(&mut r, t.as_str());
        assert(r@ =~= keep_tail(s@, n as int));
        r
    } else {
        copy_str(s)
    }
}

/// The text of a cut is never longer than the limit and the two dots.
pub proof fn lemma_strip_maxlen_len(s: Seq<char>, n: int)
    requires
        n >= 0,
    ensures
        strip_maxlen(s, n).len() <= n + 2,
        s.len() <= n ==> strip_maxlen(s, n) == s,
        strip_maxlen(s, n).len() <= s.len() + 2,
{
}

/// Padding never cuts: the field is at least as wide as asked and holds `s`.
pub proof fn lemma_pad_width(s: Seq<char>, w: int)
    ensures
        pad_left_spec(s, w).len() == if s.len() < w { w } else { s.len() as int },
        pad_right_spec(s, w).len() == if s.len() < w { w } else { s.len() as int },
        pad_center_spec(s, w).len() == if s.len() < w { w } else { s.len() as int },
        pad_left_spec(s, w).skip(pad_left_spec(s, w).len() - s.len()) == s,
        pad_right_spec(s, w).take(s.len() as int) == s,
{
    assert(pad_left_spec(s, w).skip(pad_left_spec(s, w).len() - s.len()) =~= s);
    assert(pad_right_spec(s, w).take(s.len() as int) =~= s);
}


// ---------------------------------------------------------------------------
// Ordering
// ---------------------------------------------------------------------------

/// `a` comes no later than `b` in the order of `String` (character by
/// character, by code point; a prefix comes first).
pub open spec fn lex_le(a: Seq<char>, b: Seq<char>) -> bool
    decreases a.len(),
{
    if a.len() == 0 {
        true
    } else if b.len() == 0 {
        false
    } else if a[0] != b[0] {
        a[0] < b[0]
    } else {
        lex_le(a.drop_first(), b.drop_first())
    }
}

/// Where `x` goes in the sorted `s`: after every element from `i` on that
/// does not come after it.
pub open spec fn ins_pos(s: Seq<Seq<char>>, x: Seq<char>, i: int) -> int
    decreases s.len() - i,
{
    if 0 <= i < s.len() && lex_le(s[i], x) {
        ins_pos(s, x, i + 1)
    } else {
        i
    }
}

/// The sorted `s` with `x` put in its place.
pub open spec fn insert_sorted(s: Seq<Seq<char>>, x: Seq<char>) -> Seq<Seq<char>> {
    s.insert(ins_pos(s, x, 0), x)
}

/// `s` in the order of `String`.
pub open spec fn sort_seq(s: Seq<Seq<char>>) -> Seq<Seq<char>>
    decreases s.len(),
{
    if s.len() == 0 {
        Seq::empty()
    } else {
        insert_sorted(sort_seq(s.drop_last()), s.last())
    }
}

proof fn lemma_ins_pos_bounds(s: Seq<Seq<char>>, x: Seq<char>, i: int)
    requires
        0 <= i <= s.len(),
    ensures
        i <= ins_pos(s, x, i) <= s.len(),
    decreases s.len() - i,
{
    if i < s.len() && lex_le(s[i], x) {
        lemma_ins_pos_bounds(s, x, i + 1);
    }
}

/// Sorting keeps the elements: it has what `s` has, as often.
pub proof fn lemma_sort_permutes(s: Seq<Seq<char>>)
    ensures
        sort_seq(s).len() == s.len(),
        sort_seq(s).to_multiset() == s.to_multiset(),
        forall|x: Seq<char>| #[trigger] sort_seq(s).contains(x) <==> s.contains(x),
    decreases s.len(),
{
    broadcast use vstd::seq_lib::group_seq_properties;
    broadcast use vstd::multiset::group_multiset_axioms;
    if s.len() > 0 {
        let t = sort_seq(s.drop_last());
        lemma_sort_permutes(s.drop_last());
        lemma_ins_pos_bounds(t, s.last(), 0);
        let p = ins_pos(t, s.last(), 0);
        assert(s.drop_last().push(s.last()) =~= s);
        vstd::seq_lib::to_multiset_insert(t, p, s.last());
        assert forall|x: Seq<char>| #[trigger] sort_seq(s).contains(x) <==> s.contains(x) by {
            assert(sort_seq(s).to_multiset().count(x) == s.to_multiset().count(x));
        }
    }
}

/// Each element of `s` comes no later than every element after it.
pub open spec fn is_sorted(s: Seq<Seq<char>>) -> bool {
    forall|i: int, j: int| 0 <= i < j < s.len() ==> lex_le(#[trigger] s[i], #[trigger] s[j])
}

proof fn lemma_lex_total(a: Seq<char>, b: Seq<char>)
    ensures
        lex_le(a, b) || lex_le(b, a),
    decreases a.len(),
{
    if a.len() > 0 && b.len() > 0 && a[0] == b[0] {
        lemma_lex_total(a.drop_first(), b.drop_first());
    }
}

proof fn lemma_lex_trans(a: Seq<char>, b: Seq<char>, c: Seq<char>)
    requires
        lex_le(a, b),
        lex_le(b, c),
    ensures
        lex_le(a, c),
    decreases a.len(),
{
    if a.len() > 0 && b.len() > 0 && c.len() > 0 && a[0] == b[0] && b[0] == c[0] {
        lemma_lex_trans(a.drop_first(), b.drop_first(), c.drop_first());
    }
}

proof fn lemma_ins_pos_split(s: Seq<Seq<char>>, x: Seq<char>, i: int)
    requires
        is_sorted(s),
        0 <= i <= s.len(),
        forall|k: int| 0 <= k < i ==> lex_le(#[trigger] s[k], x),
    ensures
        forall|k: int| 0 <= k < ins_pos(s, x, i) ==> lex_le(#[trigger] s[k], x),
        forall|k: int| ins_pos(s, x, i) <= k < s.len() ==> lex_le(x, #[trigger] s[k]),
    decreases s.len() - i,
{
    if i < s.len() && lex_le(s[i], x) {
        lemma_ins_pos_split(s, x, i + 1);
    } else if i < s.len() {
        lemma_lex_total(s[i], x);
        assert forall|k: int| i <= k < s.len() implies lex_le(x, #[trigger] s[k]) by {
            if k > i {
                lemma_lex_trans(x, s[i], s[k]);
            }
        }
    }
}

/// Sorting gives its result in the order of `String`.
pub proof fn lemma_sort_sorted(s: Seq<Seq<char>>)
    ensures
        is_sorted(sort_seq(s)),
    decreases s.len(),
{
    if s.len() > 0 {
        let t = sort_seq(s.drop_last());
        let x = s.last();
        lemma_sort_sorted(s.drop_last());
        lemma_ins_pos_bounds(t, x, 0);
        lemma_ins_pos_split(t, x, 0);
        let p = ins_pos(t, x, 0);
        let r = t.insert(p, x);
        assert(r == sort_seq(s));
        assert forall|i: int, j: int| 0 <= i < j < r.len() implies lex_le(#[trigger] r[i], #[trigger] r[j]) by {
            if j < p {
                assert(r[i] == t[i] && r[j] == t[j]);
            } else if j == p {
                assert(r[i] == t[i]);
            } else if i == p {
                assert(r[j] == t[j - 1]);
            } else if i < p {
                assert(r[i] == t[i] && r[j] == t[j - 1]);
            } else {
                assert(r[i] == t[i - 1] && r[j] == t[j - 1]);
            }
        }
    }
}

/// Whether `a` comes no later than `b`.
fn lex_le_exec(a: &Vec<char>, b: &Vec<char>) -> (r: bool)
    ensures
        r == lex_le(a@, b@),
{
    let mut i: usize = 0;
    assert(a@.skip(0) =~= a@);
    assert(b@.skip(0) =~= b@);
    while i < a.len() && i < b.len() && a[i] == b[i]
        invariant
            i <= a@.len(),
            i <= b@.len(),
            lex_le(a@, b@) == lex_le(a@.skip(i as int), b@.skip(i as int)),
        decreases a.len() - i,
    {
        proof {
            assert(a@.skip(i as int).drop_first() =~= a@.skip(i + 1));
            assert(b@.skip(i as int).drop_first() =~= b@.skip(i + 1));
        }
        i = i + 1;
    }
    if i == a.len() {
        true
    } else if i == b.len() {
        false
    } else {
        a[i] < b[i]
    }
}

/// The strings in the order of `String` (`sort` on a vector of strings).
pub fn sorted_strings(v: &Vec<String>) -> (r: Vec<String>)
    ensures
        r.deep_view() == sort_seq(v.deep_view()),
{
    let mut r: Vec<String> = Vec::new();
    let mut rc: Vec<Vec<char>> = Vec::new();
    let mut i: usize = 0;
    while i < v.len()
        invariant
            i <= v@.len(),
            r.deep_view() == sort_seq(v.deep_view().take(i as int)),
            rc@.len() == r@.len(),
            forall|k: int| 0 <= k < rc@.len() ==> (#[trigger] rc@[k])@ == r@[k]@,
        decreases v.len() - i,
    {
        let x = text_chars(&v[i]);
        let ghost s = r.deep_view();
        let mut p: usize = 0;
        while p < r.len() && lex_le_exec(&rc[p], &x)
            invariant
                p <= r@.len() == rc@.len(),
                s == r.deep_view(),
                forall|k: int| 0 <= k < rc@.len() ==> (#[trigger] rc@[k])@ == r@[k]@,
                ins_pos(s, x@, 0) == ins_pos(s, x@, p as int),
            decreases r.len() - p,
        {
            p = p + 1;
        }
        proof {
            assert(v.deep_view().take(i + 1).drop_last() =~= v.deep_view().take(i as int));
            assert(v.deep_view().take(i + 1).last() == x@);
            assert(ins_pos(s, x@, p as int) == p);
        }
        r.insert(p, v[i].clone());
        rc.insert(p, x);
        proof {
            assert(r.deep_view() =~= s.insert(p as int, v@[i as int]@));
        }
        i = i + 1;
    }
    assert(v.deep_view().take(v@.len() as int) =~= v.deep_view());
    r
}

/// The characters of a string.
fn text_chars(s: &String) -> (v: Vec<char>)
    ensures
        v@ == s@,
{
    chars_of(s.as_str())
}

} // verus!
