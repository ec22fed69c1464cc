//! Character-level helpers for the changelog grammar: whitespace classes,
//! first-occurrence searches, trimming and whitespace tokenization, all
//! specified over `Seq<char>`.

use vstd::prelude::*;
use vstd::string::*;

verus! {

/// Unicode whitespace, as `char::is_whitespace` recognises it.
pub open spec fn is_space(c: char) -> bool {
    let u = c as int;
    u == 0x20 || (0x09 <= u && u <= 0x0d) || u == 0x85 || u == 0xa0 || u == 0x1680 || (0x2000
        <= u && u <= 0x200a) || u == 0x2028 || u == 0x2029 || u == 0x202f || u == 0x205f || u
        == 0x3000
}

/// ASCII whitespace, as `char::is_ascii_whitespace` recognises it.
pub open spec fn is_ascii_space(c: char) -> bool {
    let u = c as int;
    u == 0x20 || u == 0x09 || u == 0x0a || u == 0x0c || u == 0x0d
}

pub fn space_char(c: char) -> (r: bool)
    ensures
        r == is_space(c),
{
    let u = c as u32;
    u == 0x20 || (0x09 <= u && u <= 0x0d) || u == 0x85 || u == 0xa0 || u == 0x1680 || (0x2000
        <= u && u <= 0x200a) || u == 0x2028 || u == 0x2029 || u == 0x202f || u == 0x205f || u
        == 0x3000
}

pub fn ascii_space_char(c: char) -> (r: bool)
    ensures
        r == is_ascii_space(c),
{
    let u = c as u32;
    u == 0x20 || u == 0x09 || u == 0x0a || u == 0x0c || u == 0x0d
}

/// Index of the first occurrence of `c` at or after `from`; `s.len()` if none.
pub open spec fn find_ch(s: Seq<char>, from: int, c: char) -> int
    decreases s.len() - from,
{
    if from >= s.len() {
        s.len() as int
    } else if s[from] == c {
        from
    } else {
        find_ch(s, from + 1, c)
    }
}

pub proof fn lemma_find_ch(s: Seq<char>, from: int, c: char)
    requires
        0 <= from <= s.len(),
    ensures
        from <= find_ch(s, from, c) <= s.len(),
        forall|i: int| from <= i < find_ch(s, from, c) ==> s[i] != c,
        find_ch(s, from, c) < s.len() ==> s[find_ch(s, from, c)] == c,
    decreases s.len() - from,
{
    if from < s.len() && s[from] != c {
        lemma_find_ch(s, from + 1, c);
    }
}

pub proof fn lemma_find_ch_is(s: Seq<char>, from: int, c: char, k: int)
    requires
        0 <= from <= k <= s.len(),
        forall|i: int| from <= i < k ==> s[i] != c,
        k == s.len() || s[k] == c,
    ensures
        find_ch(s, from, c) == k,
    decreases k - from,
{
    if from < k {
        lemma_find_ch_is(s, from + 1, c, k);
    }
}

/// Index of the first ASCII-whitespace character at or after `from`.
pub open spec fn find_asp(s: Seq<char>, from: int) -> int
    decreases s.len() - from,
{
    if from >= s.len() {
        s.len() as int
    } else if is_ascii_space(s[from]) {
        from
    } else {
        find_asp(s, from + 1)
    }
}

pub proof fn lemma_find_asp(s: Seq<char>, from: int)
    requires
        0 <= from <= s.len(),
    ensures
        from <= find_asp(s, from) <= s.len(),
        forall|i: int| from <= i < find_asp(s, from) ==> !is_ascii_space(s[i]),
        find_asp(s, from) < s.len() ==> is_ascii_space(s[find_asp(s, from)]),
    decreases s.len() - from,
{
    if from < s.len() && !is_ascii_space(s[from]) {
        lemma_find_asp(s, from + 1);
    }
}

pub proof fn lemma_find_asp_is(s: Seq<char>, from: int, k: int)
    requires
        0 <= from <= k <= s.len(),
        forall|i: int| from <= i < k ==> !is_ascii_space(s[i]),
        k == s.len() || is_ascii_space(s[k]),
    ensures
        find_asp(s, from) == k,
    decreases k - from,
{
    if from < k {
        lemma_find_asp_is(s, from + 1, k);
    }
}

/// Index of the first character at or after `from` that is not ASCII whitespace.
pub open spec fn find_tok(s: Seq<char>, from: int) -> int
    decreases s.len() - from,
{
    if from >= s.len() {
        s.len() as int
    } else if !is_ascii_space(s[from]) {
        from
    } else {
        find_tok(s, from + 1)
    }
}

pub proof fn lemma_find_tok(s: Seq<char>, from: int)
    requires
        0 <= from <= s.len(),
    ensures
        from <= find_tok(s, from) <= s.len(),
        forall|i: int| from <= i < find_tok(s, from) ==> is_ascii_space(s[i]),
        find_tok(s, from) < s.len() ==> !is_ascii_space(s[find_tok(s, from)]),
    decreases s.len() - from,
{
    if from < s.len() && is_ascii_space(s[from]) {
        lemma_find_tok(s, from + 1);
    }
}

/// Index of the first character at or after `from` that is not Unicode whitespace.
pub open spec fn find_vis(s: Seq<char>, from: int) -> int
    decreases s.len() - from,
{
    if from >= s.len() {
        s.len() as int
    } else if !is_space(s[from]) {
        from
    } else {
        find_vis(s, from + 1)
    }
}

pub proof fn lemma_find_vis(s: Seq<char>, from: int)
    requires
        0 <= from <= s.len(),
    ensures
        from <= find_vis(s, from) <= s.len(),
        forall|i: int| from <= i < find_vis(s, from) ==> is_space(s[i]),
        find_vis(s, from) < s.len() ==> !is_space(s[find_vis(s, from)]),
    decreases s.len() - from,
{
    if from < s.len() && is_space(s[from]) {
        lemma_find_vis(s, from + 1);
    }
}

pub proof fn lemma_find_vis_is(s: Seq<char>, from: int, k: int)
    requires
        0 <= from <= k <= s.len(),
        forall|i: int| from <= i < k ==> is_space(s[i]),
        k == s.len() || !is_space(s[k]),
    ensures
        find_vis(s, from) == k,
    decreases k - from,
{
    if from < k {
        lemma_find_vis_is(s, from + 1, k);
    }
}

/// Index of the first run of two consecutive spaces at or after `from`;
/// `s.len()` if none.
pub open spec fn find_sp2(s: Seq<char>, from: int) -> int
    decreases s.len() - from,
{
    if from + 1 >= s.len() {
        s.len() as int
    } else if s[from] == ' ' && s[from + 1] == ' ' {
        from
    } else {
        find_sp2(s, from + 1)
    }
}

pub proof fn lemma_find_sp2(s: Seq<char>, from: int)
    requires
        0 <= from <= s.len(),
    ensures
        from <= find_sp2(s, from) <= s.len(),
        forall|i: int|
            from <= i < find_sp2(s, from) && i + 1 < s.len() ==> !(#[trigger] s[i] == ' ' && s[i
                + 1] == ' '),
        find_sp2(s, from) < s.len() ==> find_sp2(s, from) + 1 < s.len() && s[find_sp2(s, from)]
            == ' ' && s[find_sp2(s, from) + 1] == ' ',
    decreases s.len() - from,
{
    if from + 1 < s.len() && !(s[from] == ' ' && s[from + 1] == ' ') {
        lemma_find_sp2(s, from + 1);
    }
}

pub proof fn lemma_find_sp2_is(s: Seq<char>, from: int, k: int)
    requires
        0 <= from <= k,
        k + 1 < s.len() || k == s.len(),
        forall|i: int|
            from <= i < k && i + 1 < s.len() ==> !(#[trigger] s[i] == ' ' && s[i + 1] == ' '),
        k + 1 < s.len() ==> s[k] == ' ' && s[k + 1] == ' ',
    ensures
        find_sp2(s, from) == k,
    decreases k - from,
{
    if from < k {
        lemma_find_sp2_is(s, from + 1, k);
    }
}

/// Every character of `s` is Unicode whitespace; such a line is blank.
pub open spec fn all_space(s: Seq<char>) -> bool {
    forall|i: int| 0 <= i < s.len() ==> is_space(s[i])
}

/// Length of `s` with trailing Unicode whitespace removed.
pub open spec fn rtrim_len(s: Seq<char>) -> int
    decreases s.len(),
{
    if s.len() > 0 && is_space(s[s.len() - 1]) {
        rtrim_len(s.drop_last())
    } else {
        s.len() as int
    }
}

/// `s` with trailing Unicode whitespace removed, as `str::trim_end` does.
pub open spec fn rtrim(s: Seq<char>) -> Seq<char> {
    s.subrange(0, rtrim_len(s))
}

pub proof fn lemma_rtrim_len(s: Seq<char>)
    ensures
        0 <= rtrim_len(s) <= s.len(),
        forall|i: int| rtrim_len(s) <= i < s.len() ==> is_space(s[i]),
        rtrim_len(s) > 0 ==> !is_space(s[rtrim_len(s) - 1]),
    decreases s.len(),
{
    if s.len() > 0 && is_space(s[s.len() - 1]) {
        lemma_rtrim_len(s.drop_last());
        assert(forall|i: int|
            0 <= i < s.len() - 1 ==> s.drop_last()[i] == s[i]);
    }
}

/// One step of scanning trailing whitespace from the right.
pub proof fn lemma_rtrim_step(s: Seq<char>, j: int)
    requires
        0 < j <= s.len(),
        is_space(s[j - 1]),
    ensures
        rtrim_len(s.subrange(0, j)) == rtrim_len(s.subrange(0, j - 1)),
{
    assert(s.subrange(0, j).drop_last() =~= s.subrange(0, j - 1));
}

/// A trailing space never survives `rtrim`.
pub proof fn lemma_rtrim_drop_space(s: Seq<char>)
    ensures
        rtrim_len(s.push(' ')) == rtrim_len(s),
        rtrim(s.push(' ')) =~= rtrim(s),
{
    assert(s.push(' ').drop_last() =~= s);
    lemma_rtrim_len(s);
}

/// `s` with leading Unicode whitespace removed, as `str::trim_start` does.
pub open spec fn ltrim(s: Seq<char>) -> Seq<char> {
    s.subrange(find_vis(s, 0), s.len() as int)
}

/// `s` with whitespace removed from both ends, as `str::trim` does.
pub open spec fn trim(s: Seq<char>) -> Seq<char> {
    rtrim(ltrim(s))
}

/// The whitespace-separated tokens of `s` from position `i` on, as
/// `str::split_ascii_whitespace` yields them.
pub open spec fn tokens_from(s: Seq<char>, i: int) -> Seq<Seq<char>>
    decreases s.len() - i,
    via tokens_from_dec
{
    if i < 0 || i >= s.len() {
        Seq::empty()
    } else if is_ascii_space(s[i]) {
        tokens_from(s, i + 1)
    } else {
        seq![s.subrange(i, find_asp(s, i))] + tokens_from(s, find_asp(s, i))
    }
}

#[via_fn]
proof fn tokens_from_dec(s: Seq<char>, i: int) {
    if 0 <= i < s.len() && !is_ascii_space(s[i]) {
        lemma_find_asp(s, i);
    }
}

/// Skipping ASCII whitespace does not change the token list.
pub proof fn lemma_tokens_skip_space(s: Seq<char>, i: int)
    requires
        0 <= i < s.len(),
        is_ascii_space(s[i]),
    ensures
        tokens_from(s, i) == tokens_from(s, i + 1),
{
}

/// If `s[i..j)` is a maximal non-whitespace run, it is the next token.
pub proof fn lemma_tokens_take_token(s: Seq<char>, i: int, j: int)
    requires
        0 <= i < j <= s.len(),
        forall|k: int| i <= k < j ==> !is_ascii_space(s[k]),
        j == s.len() || is_ascii_space(s[j]),
    ensures
        tokens_from(s, i) == seq![s.subrange(i, j)] + tokens_from(s, j),
{
    lemma_find_asp_is(s, i, j);
}

/// Past the end there are no tokens.
pub proof fn lemma_tokens_none(s: Seq<char>, i: int)
    requires
        i >= s.len(),
    ensures
        tokens_from(s, i) == Seq::<Seq<char>>::empty(),
{
}

/// The segments of `s` from position `from` on, split at every comma, empty
/// segments kept, as `str::split(',')` yields them.
pub open spec fn split_commas_from(s: Seq<char>, from: int) -> Seq<Seq<char>>
    decreases s.len() - from,
    via split_commas_dec
{
    if from < 0 {
        Seq::empty()
    } else {
        let e = find_ch(s, from, ',');
        if e >= s.len() {
            seq![s.subrange(from, s.len() as int)]
        } else {
            seq![s.subrange(from, e)] + split_commas_from(s, e + 1)
        }
    }
}

#[via_fn]
proof fn split_commas_dec(s: Seq<char>, from: int) {
    if from >= 0 {
        lemma_find_ch_low(s, from, ',');
    }
}

/// `find_ch` never answers below `from`.
pub proof fn lemma_find_ch_low(s: Seq<char>, from: int, c: char)
    ensures
        from <= s.len() ==> from <= find_ch(s, from, c),
    decreases s.len() - from,
{
    if from < s.len() && s[from] != c {
        lemma_find_ch_low(s, from + 1, c);
    }
}

/// The views of a sequence of strings.
pub open spec fn views_of(ss: Seq<String>) -> Seq<Seq<char>> {
    ss.map_values(|x: String| x@)
}

/// The views of a sequence of key/value string pairs.
pub open spec fn kv_views(ps: Seq<(String, String)>) -> Seq<(Seq<char>, Seq<char>)> {
    ps.map_values(|p: (String, String)| (p.0@, p.1@))
}

pub proof fn lemma_views_of_push(ss: Seq<String>, x: String)
    ensures
        views_of(ss.push(x)) =~= views_of(ss).push(x@),
{
}

pub proof fn lemma_kv_views_push(ps: Seq<(String, String)>, p: (String, String))
    ensures
        kv_views(ps.push(p)) =~= kv_views(ps).push((p.0@, p.1@)),
{
}

/// Skipping a whitespace run does not change the token list.
pub proof fn lemma_tokens_skip_to(s: Seq<char>, i: int, j: int)
    requires
        0 <= i <= j <= s.len(),
        forall|k: int| i <= k < j ==> is_ascii_space(s[k]),
    ensures
        tokens_from(s, i) == tokens_from(s, j),
    decreases j - i,
{
    if i < j {
        lemma_tokens_skip_to(s, i + 1, j);
    }
}

pub fn scan_ch(s: &str, from: usize, c: char) -> (r: usize)
    requires
        from <= s@.len(),
    ensures
        r == find_ch(s@, from as int, c),
{
    let n = s.unicode_len();
    let mut i = from;
    while i < n
        invariant
            from <= i <= n,
            n == s@.len(),
            forall|k: int| from <= k < i ==> s@[k] != c,
        decreases n - i,
    {
        if s.get_char(i) == c {
            proof {
                lemma_find_ch_is(s@, from as int, c, i as int);
            }
            return i;
        }
        i = i + 1;
    }
    proof {
        lemma_find_ch_is(s@, from as int, c, n as int);
    }
    n
}

pub fn scan_vis(s: &str, from: usize) -> (r: usize)
    requires
        from <= s@.len(),
    ensures
        r == find_vis(s@, from as int),
{
    let n = s.unicode_len();
    let mut i = from;
    while i < n
        invariant
            from <= i <= n,
            n == s@.len(),
            forall|k: int| from <= k < i ==> is_space(s@[k]),
        decreases n - i,
    {
        if !space_char(s.get_char(i)) {
            proof {
                lemma_find_vis_is(s@, from as int, i as int);
            }
            return i;
        }
        i = i + 1;
    }
    proof {
        lemma_find_vis_is(s@, from as int, n as int);
    }
    n
}

pub fn scan_sp2(s: &str, from: usize) -> (r: usize)
    requires
        from <= s@.len(),
    ensures
        r == find_sp2(s@, from as int),
{
    let n = s.unicode_len();
    let mut i = from;
    while i < n && i + 1 < n
        invariant
            from <= i <= n,
            n == s@.len(),
            forall|k: int|
                from <= k < i && k + 1 < n ==> !(#[trigger] s@[k] == ' ' && s@[k + 1] == ' '),
        decreases n - i,
    {
        if s.get_char(i) == ' ' && s.get_char(i + 1) == ' ' {
            proof {
                lemma_find_sp2_is(s@, from as int, i as int);
            }
            return i;
        }
        i = i + 1;
    }
    proof {
        lemma_find_sp2_is(s@, from as int, n as int);
    }
    n
}

/// Whether the whole line is whitespace, as `line.trim().is_empty()` decides.
pub fn blank_line(s: &str) -> (r: bool)
    ensures
        r == all_space(s@),
{
    let n = s.unicode_len();
    let v = scan_vis(s, 0);
    proof {
        lemma_find_vis(s@, 0);
    }
    v == n
}

/// A copy of `s` with trailing whitespace removed, as `str::trim_end`.
pub fn rtrim_string(s: &str) -> (r: String)
    ensures
        r@ == rtrim(s@),
{
    let n = s.unicode_len();
    let mut j = n;
    proof {
        assert(s@.subrange(0, n as int) =~= s@);
    }
    while j > 0 && space_char(s.get_char(j - 1))
        invariant
            0 <= j <= n,
            n == s@.len(),
            rtrim_len(s@) == rtrim_len(s@.subrange(0, j as int)),
        decreases j,
    {
        proof {
            lemma_rtrim_step(s@, j as int);
        }
        j = j - 1;
    }
    proof {
        assert(rtrim_len(s@.subrange(0, j as int)) == j as int);
        lemma_rtrim_len(s@);
    }
    let out = s.substring_char(0, j);
    proof {
        assert(out@ =~= rtrim(s@));
    }
    String::from_str(out)
}

/// A copy of `s` with whitespace removed from both ends, as `str::trim`.
pub fn trim_string(s: &str) -> (r: String)
    ensures
        r@ == trim(s@),
{
    let n = s.unicode_len();
    let start = scan_vis(s, 0);
    proof {
        lemma_find_vis(s@, 0);
    }
    let ghost t = s@.subrange(start as int, n as int);
    let mut j = n;
    proof {
        assert(t.subrange(0, (j - start) as int) =~= t);
    }
    while j > start && space_char(s.get_char(j - 1))
        invariant
            start <= j <= n,
            n == s@.len(),
            start == find_vis(s@, 0),
            start <= n,
            t == s@.subrange(start as int, n as int),
            rtrim_len(t) == rtrim_len(t.subrange(0, j - start as int)),
        decreases j,
    {
        proof {
            assert(t[j - start - 1] == s@[j - 1]);
            lemma_rtrim_step(t, j - start as int);
        }
        j = j - 1;
    }
    proof {
        assert(rtrim_len(t.subrange(0, j - start as int)) == j - start as int);
        lemma_rtrim_len(t);
    }
    let out = s.substring_char(start, j);
    proof {
        assert(out@ =~= rtrim(t));
        assert(t == ltrim(s@));
    }
    String::from_str(out)
}

/// The whitespace-separated tokens of `s`, as owned strings.
pub fn tokenize(s: &str) -> (toks: Vec<String>)
    ensures
        views_of(toks@) == tokens_from(s@, 0),
{
    let n = s.unicode_len();
    let mut toks: Vec<String> = Vec::new();
    let mut i: usize = 0;
    proof {
        assert(views_of(toks@) + tokens_from(s@, 0) =~= tokens_from(s@, 0));
    }
    loop
        invariant
            i <= n,
            n == s@.len(),
            tokens_from(s@, 0) == views_of(toks@) + tokens_from(s@, i as int),
        decreases n - i,
    {
        let start = scan_tok(s, i);
        proof {
            lemma_find_tok(s@, i as int);
            lemma_tokens_skip_to(s@, i as int, start as int);
        }
        if start >= n {
            proof {
                lemma_tokens_none(s@, start as int);
                assert(views_of(toks@) + Seq::<Seq<char>>::empty() =~= views_of(toks@));
            }
            return toks;
        }
        let j = scan_asp(s, start);
        proof {
            lemma_find_asp(s@, start as int);
            lemma_tokens_take_token(s@, start as int, j as int);
        }
        let tok = String::from_str(s.substring_char(start, j));
        let ghost old_toks = toks@;
        toks.push(tok);
        proof {
            lemma_views_of_push(old_toks, toks@[toks@.len() - 1]);
            assert(views_of(old_toks) + (seq![s@.subrange(start as int, j as int)] + tokens_from(
                s@,
                j as int,
            )) =~= views_of(toks@) + tokens_from(s@, j as int));
        }
        i = j;
    }
}

pub fn scan_tok(s: &str, from: usize) -> (r: usize)
    requires
        from <= s@.len(),
    ensures
        r == find_tok(s@, from as int),
{
    let n = s.unicode_len();
    let mut i = from;
    while i < n
        invariant
            from <= i <= n,
            n == s@.len(),
            forall|k: int| from <= k < i ==> is_ascii_space(s@[k]),
        decreases n - i,
    {
        if !ascii_space_char(s.get_char(i)) {
            proof {
                lemma_find_tok_is(s@, from as int, i as int);
            }
            return i;
        }
        i = i + 1;
    }
    proof {
        lemma_find_tok_is(s@, from as int, n as int);
    }
    n
}

pub proof fn lemma_find_tok_is(s: Seq<char>, from: int, k: int)
    requires
        0 <= from <= k <= s.len(),
        forall|i: int| from <= i < k ==> is_ascii_space(s[i]),
        k == s.len() || !is_ascii_space(s[k]),
    ensures
        find_tok(s, from) == k,
    decreases k - from,
{
    if from < k {
        lemma_find_tok_is(s, from + 1, k);
    }
}

pub fn scan_asp(s: &str, from: usize) -> (r: usize)
    requires
        from <= s@.len(),
    ensures
        r == find_asp(s@, from as int),
{
    let n = s.unicode_len();
    let mut i = from;
    while i < n
        invariant
            from <= i <= n,
            n == s@.len(),
            forall|k: int| from <= k < i ==> !is_ascii_space(s@[k]),
        decreases n - i,
    {
        if ascii_space_char(s.get_char(i)) {
            proof {
                lemma_find_asp_is(s@, from as int, i as int);
            }
            return i;
        }
        i = i + 1;
    }
    proof {
        lemma_find_asp_is(s@, from as int, n as int);
    }
    n
}

/// The comma-separated segments of `s`, empty segments kept, as owned strings.
pub fn split_commas(s: &str) -> (segs: Vec<String>)
    ensures
        views_of(segs@) == split_commas_from(s@, 0),
{
    let n = s.unicode_len();
    let mut segs: Vec<String> = Vec::new();
    let mut i: usize = 0;
    proof {
        assert(views_of(segs@) + split_commas_from(s@, 0) =~= split_commas_from(s@, 0));
    }
    loop
        invariant
            i <= n,
            n == s@.len(),
            split_commas_from(s@, 0) == views_of(segs@) + split_commas_from(s@, i as int),
        decreases n - i,
    {
        let e = scan_ch(s, i, ',');
        proof {
            lemma_find_ch(s@, i as int, ',');
        }
        let ghost old_segs = segs@;
        if e >= n {
            segs.push(String::from_str(s.substring_char(i, n)));
            proof {
                lemma_views_of_push(old_segs, segs@[segs@.len() - 1]);
                assert(views_of(old_segs) + seq![s@.subrange(i as int, n as int)] =~= views_of(
                    segs@,
                ));
            }
            return segs;
        }
        segs.push(String::from_str(s.substring_char(i, e)));
        proof {
            lemma_views_of_push(old_segs, segs@[segs@.len() - 1]);
            assert(views_of(old_segs) + (seq![s@.subrange(i as int, e as int)]
                + split_commas_from(s@, e + 1)) =~= views_of(segs@) + split_commas_from(
                s@,
                e + 1,
            ));
        }
        i = e + 1;
    }
}

} // verus!
