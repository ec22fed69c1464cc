//! Proved properties of multi-entry iteration.
//!
//! A buffer is well formed for a sequence of entries when each entry in turn
//! parses off its front and nothing is left at the end. The lemmas here say
//! that iteration then yields exactly those entries, in document order, and
//! exhausts the buffer; together with `ChangelogIter::next`'s contract this
//! pins the cursor's behaviour over a whole document.

use vstd::prelude::*;
use crate::date::{rfc2822_str, rfc2822_ts};
use crate::grammar::{cap_next, cat_changes, cat_dists, cat_pairs, ends_semi,
    lemma_find_semi_is, parse_pairs, skip_blank_lines, spec_format, spec_parse_entry,
    spec_parse_footer, spec_parse_header, spec_scan_body, strip_semi, upsert, EntryErrorV,
    EntryV, FooterV, HeaderV};
use crate::text::{all_space, find_vis, is_ascii_space, is_space, lemma_find_ch_is,
    lemma_find_sp2_is, lemma_find_vis, lemma_find_vis_is, lemma_rtrim_drop_space,
    lemma_rtrim_len, lemma_tokens_none, lemma_tokens_skip_space, lemma_tokens_take_token, ltrim,
    rtrim, rtrim_len, split_commas_from, tokens_from, trim};

verus! {

/// No character of `s` is `c`.
pub open spec fn lacks(s: Seq<char>, c: char) -> bool {
    forall|i: int| 0 <= i < s.len() ==> s[i] != c
}

/// No character of `s` is ASCII whitespace.
pub open spec fn no_asp(s: Seq<char>) -> bool {
    forall|i: int| 0 <= i < s.len() ==> !is_ascii_space(s[i])
}

/// No two consecutive characters of `s` are both spaces.
pub open spec fn no_sp2(s: Seq<char>) -> bool {
    forall|i: int| 0 <= i + 1 < s.len() ==> !(#[trigger] s[i] == ' ' && s[i + 1] == ' ')
}

/// An entry whose canonical text parses back to the very same entry. These
/// are the fields' lexical conditions; the formatter's grammar loses
/// anything outside them (a second metadata pair, say, is concatenated onto
/// the first without a separator).
pub open spec fn round_trippable(e: EntryV) -> bool {
    &&& e.package.len() > 0 && no_asp(e.package)
    &&& no_asp(e.version)
    &&& e.distributions.len() > 0
    &&& forall|i: int|
        0 <= i < e.distributions.len() ==> (#[trigger] e.distributions[i]).len() > 0 && no_asp(
            e.distributions[i],
        )
    &&& forall|i: int| 0 <= i < e.distributions.len() - 1 ==> !ends_semi(#[trigger] e.distributions[i])
    &&& e.metadata.len() <= 1
    &&& forall|i: int|
        0 <= i < e.metadata.len() ==> no_asp((#[trigger] e.metadata[i]).0) && no_asp(
            e.metadata[i].1,
        ) && lacks(e.metadata[i].0, ',') && lacks(e.metadata[i].1, ',') && lacks(
            e.metadata[i].0,
            '=',
        )
    &&& forall|i: int|
        0 <= i < e.changes.len() ==> (#[trigger] e.changes[i]).len() > 0 && lacks(
            e.changes[i],
            '\n',
        ) && rtrim(e.changes[i]) == e.changes[i]
    &&& lacks(e.author, '\n') && lacks(e.author, '<') && no_sp2(e.author)
    &&& ltrim(e.author) == e.author && rtrim(e.author) == e.author
    &&& lacks(e.email, '\n') && no_sp2(e.email)
    &&& ltrim(e.email) == e.email && rtrim(e.email) == e.email
}

/// Each `cat_dists(ds, i)` is a prefix of the next.
proof fn lemma_cat_dists_prefix(ds: Seq<Seq<char>>, i: int, j: int)
    requires
        0 <= i <= j,
    ensures
        cat_dists(ds, i).len() <= cat_dists(ds, j).len(),
        cat_dists(ds, i) == cat_dists(ds, j).subrange(0, cat_dists(ds, i).len() as int),
    decreases j - i,
{
    if i < j {
        lemma_cat_dists_prefix(ds, i, j - 1);
        assert(cat_dists(ds, i) =~= cat_dists(ds, j).subrange(0, cat_dists(ds, i).len() as int));
    } else {
        assert(cat_dists(ds, i) =~= cat_dists(ds, j).subrange(0, cat_dists(ds, i).len() as int));
    }
}

proof fn lemma_cat_changes_prefix(cs: Seq<Seq<char>>, i: int, j: int)
    requires
        0 <= i <= j,
    ensures
        cat_changes(cs, i).len() <= cat_changes(cs, j).len(),
        cat_changes(cs, i) == cat_changes(cs, j).subrange(0, cat_changes(cs, i).len() as int),
    decreases j - i,
{
    if i < j {
        lemma_cat_changes_prefix(cs, i, j - 1);
        assert(cat_changes(cs, i) =~= cat_changes(cs, j).subrange(
            0,
            cat_changes(cs, i).len() as int,
        ));
    } else {
        assert(cat_changes(cs, i) =~= cat_changes(cs, j).subrange(
            0,
            cat_changes(cs, i).len() as int,
        ));
    }
}

/// The distribution region of the header holds no newline and no ASCII
/// whitespace but the separating spaces.
proof fn lemma_cat_dists_chars(ds: Seq<Seq<char>>, n: int)
    requires
        forall|i: int| 0 <= i < ds.len() ==> no_asp(#[trigger] ds[i]),
        n <= ds.len(),
    ensures
        forall|k: int|
            0 <= k < cat_dists(ds, n).len() ==> (is_ascii_space(#[trigger] cat_dists(ds, n)[k])
                ==> cat_dists(ds, n)[k] == ' '),
    decreases n,
{
    if n > 0 {
        lemma_cat_dists_chars(ds, n - 1);
        let prev = cat_dists(ds, n - 1);
        let cur = cat_dists(ds, n);
        assert(cur == prev + seq![' '] + ds[n - 1]);
        assert(no_asp(ds[n - 1]));
        assert forall|k: int| 0 <= k < cur.len() && is_ascii_space(cur[k]) implies cur[k]
            == ' ' by {
            if k < prev.len() {
                assert(cur[k] == prev[k]);
            } else if k > prev.len() {
                assert(cur[k] == ds[n - 1][k - prev.len() - 1]);
            }
        }
    }
}

/// The metadata region of the header holds no ASCII whitespace at all.
proof fn lemma_cat_pairs_chars(ms: Seq<(Seq<char>, Seq<char>)>, n: int)
    requires
        forall|i: int|
            0 <= i < ms.len() ==> no_asp((#[trigger] ms[i]).0) && no_asp(ms[i].1),
        n <= ms.len(),
    ensures
        no_asp(cat_pairs(ms, n)),
    decreases n,
{
    if n > 0 {
        lemma_cat_pairs_chars(ms, n - 1);
        let prev = cat_pairs(ms, n - 1);
        let cur = cat_pairs(ms, n);
        assert(cur == prev + ms[n - 1].0 + seq!['='] + ms[n - 1].1);
        assert(no_asp(ms[n - 1].0) && no_asp(ms[n - 1].1));
        assert forall|k: int| 0 <= k < cur.len() implies !is_ascii_space(cur[k]) by {
            let a = prev.len() as int;
            let b = a + ms[n - 1].0.len() as int;
            if k < a {
                assert(cur[k] == prev[k]);
            } else if k < b {
                assert(cur[k] == ms[n - 1].0[k - a]);
            } else if k > b {
                assert(cur[k] == ms[n - 1].1[k - b - 1]);
            }
        }
    }
}

/// The header line of an entry's canonical text.
pub open spec fn header_text(e: EntryV) -> Seq<char> {
    e.package + seq![' ', '('] + e.version + seq![')'] + cat_dists(
        e.distributions,
        e.distributions.len() as int,
    ) + seq![';', ' '] + cat_pairs(e.metadata, e.metadata.len() as int)
}

/// The fields a tokenizer finds on that line.
pub open spec fn header_tokens(e: EntryV) -> Seq<Seq<char>> {
    let l = e.distributions.len() as int;
    let md: Seq<Seq<char>> = if e.metadata.len() == 1 {
        seq![e.metadata[0].0 + seq!['='] + e.metadata[0].1]
    } else {
        Seq::empty()
    };
    seq![e.package, seq!['('] + e.version + seq![')']] + e.distributions.subrange(0, l - 1)
        + seq![e.distributions[l - 1].push(';')] + md
}

/// Walking the distribution region of the header line from the `i`-th
/// distribution on: each is one token, the last carries the closing `;`.
proof fn lemma_tokens_dists(h: Seq<char>, ds: Seq<Seq<char>>, base: int, i: int)
    requires
        forall|j: int| 0 <= j < ds.len() ==> (#[trigger] ds[j]).len() > 0 && no_asp(ds[j]),
        0 <= i < ds.len(),
        0 <= base,
        base + cat_dists(ds, ds.len() as int).len() + 2 <= h.len(),
        h.subrange(base, base + cat_dists(ds, ds.len() as int).len()) == cat_dists(
            ds,
            ds.len() as int,
        ),
        h[base + cat_dists(ds, ds.len() as int).len()] == ';',
        h[base + cat_dists(ds, ds.len() as int).len() + 1] == ' ',
    ensures
        tokens_from(h, base + cat_dists(ds, i).len()) == ds.subrange(i, ds.len() - 1) + seq![
            ds[ds.len() - 1].push(';'),
        ] + tokens_from(h, base + cat_dists(ds, ds.len() as int).len() + 2),
    decreases ds.len() - i,
{
    let l = ds.len() as int;
    let catl = cat_dists(ds, l);
    let endp = base + catl.len() as int;
    lemma_cat_dists_prefix(ds, i, l);
    lemma_cat_dists_prefix(ds, i + 1, l);
    assert(cat_dists(ds, i + 1) == cat_dists(ds, i) + seq![' '] + ds[i]);
    let pos = base + cat_dists(ds, i).len() as int;
    let dlen = ds[i].len() as int;
    assert(forall|k: int| 0 <= k < catl.len() ==> h[base + k] == catl[k]);
    assert(h[pos] == ' ') by {
        assert(catl[cat_dists(ds, i).len() as int] == cat_dists(ds, i + 1)[cat_dists(
            ds,
            i,
        ).len() as int]);
    }
    assert(forall|t: int| 0 <= t < dlen ==> h[pos + 1 + t] == ds[i][t]) by {
        assert(forall|t: int|
            0 <= t < dlen ==> cat_dists(ds, i + 1)[cat_dists(ds, i).len() + 1 + t] == ds[i][t]);
    }
    lemma_tokens_skip_space(h, pos);
    assert forall|k: int| pos + 1 <= k < pos + 1 + dlen implies !is_ascii_space(h[k]) by {
        assert(h[k] == ds[i][k - (pos + 1)]);
        assert(!is_ascii_space(ds[i][k - (pos + 1)]));
    }
    if i == l - 1 {
        assert(pos + 1 + dlen == endp);
        assert(!is_ascii_space(h[endp]));
        lemma_tokens_take_token(h, pos + 1, endp + 1);
        assert(h.subrange(pos + 1, endp + 1) =~= ds[i].push(';'));
        lemma_tokens_skip_space(h, endp + 1);
        assert(tokens_from(h, pos) =~= ds.subrange(i, l - 1) + seq![ds[l - 1].push(';')]
            + tokens_from(h, endp + 2));
    } else {
        lemma_cat_dists_prefix(ds, i + 2, l);
        assert(cat_dists(ds, i + 2) == cat_dists(ds, i + 1) + seq![' '] + ds[i + 1]);
        assert(h[pos + 1 + dlen] == ' ') by {
            assert(catl[cat_dists(ds, i + 1).len() as int] == cat_dists(ds, i + 2)[cat_dists(
                ds,
                i + 1,
            ).len() as int]);
        }
        lemma_tokens_take_token(h, pos + 1, pos + 1 + dlen);
        assert(h.subrange(pos + 1, pos + 1 + dlen) =~= ds[i]);
        lemma_tokens_dists(h, ds, base, i + 1);
        assert(tokens_from(h, pos) =~= ds.subrange(i, l - 1) + seq![ds[l - 1].push(';')]
            + tokens_from(h, endp + 2));
    }
}

/// Tokenizing the canonical header line finds exactly the entry's fields.
proof fn lemma_header_tokens(e: EntryV)
    requires
        round_trippable(e),
    ensures
        tokens_from(header_text(e), 0) == header_tokens(e),
{
    let h = header_text(e);
    let pkg = e.package;
    let ver = e.version;
    let ds = e.distributions;
    let ms = e.metadata;
    let l = ds.len() as int;
    let m = ms.len() as int;
    let plen = pkg.len() as int;
    let vlen = ver.len() as int;
    let base = plen + vlen + 3;
    let catl = cat_dists(ds, l);
    let endp = base + catl.len() as int;
    let catm = cat_pairs(ms, m);
    assert(h.len() == endp + 2 + catm.len());
    assert(forall|k: int| 0 <= k < plen ==> h[k] == pkg[k]);
    assert(h[plen] == ' ' && h[plen + 1] == '(');
    assert(forall|k: int| 0 <= k < vlen ==> h[plen + 2 + k] == ver[k]);
    assert(h[plen + 2 + vlen] == ')');
    assert(forall|k: int| 0 <= k < catl.len() ==> h[base + k] == catl[k]);
    assert(h[endp] == ';' && h[endp + 1] == ' ');
    assert(forall|k: int| 0 <= k < catm.len() ==> h[endp + 2 + k] == catm[k]);
    // package token
    lemma_tokens_take_token(h, 0, plen);
    assert(h.subrange(0, plen) =~= pkg);
    lemma_tokens_skip_space(h, plen);
    // version token, closed by the first distribution's leading space
    lemma_cat_dists_prefix(ds, 1, l);
    assert(cat_dists(ds, 1) == cat_dists(ds, 0) + seq![' '] + ds[0]);
    assert(h[base] == ' ') by {
        assert(catl[0] == cat_dists(ds, 1)[0]);
    }
    lemma_tokens_take_token(h, plen + 1, base);
    assert(h.subrange(plen + 1, base) =~= seq!['('] + ver + seq![')']);
    // the distribution tokens
    assert(cat_dists(ds, 0).len() == 0);
    assert(h.subrange(base, endp) =~= catl);
    lemma_tokens_dists(h, ds, base, 0);
    // the metadata token, if any
    if m == 1 {
        lemma_cat_pairs_chars(ms, 1);
        lemma_tokens_take_token(h, endp + 2, h.len() as int);
        assert(h.subrange(endp + 2, h.len() as int) =~= catm);
        lemma_tokens_none(h, h.len() as int);
        assert(cat_pairs(ms, 0).len() == 0);
        assert(catm =~= cat_pairs(ms, 0) + ms[0].0 + seq!['='] + ms[0].1);
        assert(catm =~= ms[0].0 + seq!['='] + ms[0].1);
        assert(tokens_from(h, endp + 2) =~= seq![ms[0].0 + seq!['='] + ms[0].1]);
    } else {
        assert(catm.len() == 0);
        lemma_tokens_none(h, endp + 2);
    }
    assert(tokens_from(h, 0) =~= header_tokens(e));
}

/// The canonical header line parses back to the entry's own header fields.
proof fn lemma_parse_header_rt(e: EntryV)
    requires
        round_trippable(e),
    ensures
        spec_parse_header(header_text(e)) == Ok::<HeaderV, EntryErrorV>(
            HeaderV {
                package: e.package,
                version: e.version,
                distributions: e.distributions,
                metadata: e.metadata,
            },
        ),
{
    lemma_header_tokens(e);
    let toks = tokens_from(header_text(e), 0);
    let ds = e.distributions;
    let ms = e.metadata;
    let l = ds.len() as int;
    let m = ms.len() as int;
    assert(toks.len() == l + 2 + m);
    assert(toks[0] == e.package);
    let v = toks[1];
    assert(v =~= seq!['('] + e.version + seq![')']);
    assert(v[0] == '(' && v[v.len() - 1] == ')');
    assert(v.subrange(1, v.len() - 1) =~= e.version);
    // the first `;`-closed token is the last distribution
    assert forall|j: int| 2 <= j < l + 1 implies !ends_semi(#[trigger] toks[j]) by {
        assert(toks[j] == ds[j - 2]);
        assert(!ends_semi(ds[j - 2]));
    }
    assert(ends_semi(toks[l + 1]));
    lemma_find_semi_is(toks, 2, l + 1);
    assert(strip_semi(ds[l - 1].push(';')) =~= ds[l - 1]);
    assert(toks.subrange(2, l + 1).push(strip_semi(toks[l + 1])) =~= ds);
    if m == 1 {
        let k0 = ms[0].0;
        let v0 = ms[0].1;
        let p = toks[l + 2];
        assert(p =~= k0 + seq!['='] + v0);
        // the whole token is one comma-free segment
        assert(forall|t: int| 0 <= t < p.len() ==> p[t] != ',');
        lemma_find_ch_is(p, 0, ',', p.len() as int);
        let segs = split_commas_from(p, 0);
        assert(p.subrange(0, p.len() as int) =~= p);
        assert(segs =~= seq![p]);
        // the first `=` closes the key
        assert(forall|t: int| 0 <= t < k0.len() ==> p[t] != '=');
        assert(p[k0.len() as int] == '=');
        lemma_find_ch_is(p, 0, '=', k0.len() as int);
        assert(p.subrange(0, k0.len() as int) =~= k0);
        assert(p.subrange(k0.len() as int + 1, p.len() as int) =~= v0);
        let up = upsert(Seq::empty(), k0, v0);
        assert(up =~= seq![(k0, v0)]);
        assert(parse_pairs(segs, 1, up) == Ok::<Seq<(Seq<char>, Seq<char>)>, EntryErrorV>(up));
        assert(up =~= ms);
    } else {
        assert(Seq::<(Seq<char>, Seq<char>)>::empty() =~= ms);
    }
}

/// Scanning the body region collects exactly the change lines, in order.
proof fn lemma_scan_changes(s: Seq<char>, cs: Seq<Seq<char>>, base: int, i: int, acc: Seq<Seq<char>>)
    requires
        forall|j: int|
            0 <= j < cs.len() ==> (#[trigger] cs[j]).len() > 0 && lacks(cs[j], '\n') && rtrim(
                cs[j],
            ) == cs[j],
        0 <= i <= cs.len(),
        0 <= base,
        base + cat_changes(cs, cs.len() as int).len() + 1 <= s.len(),
        s.subrange(base, base + cat_changes(cs, cs.len() as int).len()) == cat_changes(
            cs,
            cs.len() as int,
        ),
    ensures
        spec_scan_body(s, base + cat_changes(cs, i).len(), acc) == spec_scan_body(
            s,
            base + cat_changes(cs, cs.len() as int).len(),
            acc + cs.subrange(i, cs.len() as int),
        ),
    decreases cs.len() - i,
{
    let l = cs.len() as int;
    let catl = cat_changes(cs, l);
    assert(forall|k: int| 0 <= k < catl.len() ==> s[base + k] == catl[k]);
    if i == l {
        assert(acc + cs.subrange(l, l) =~= acc);
    } else {
        lemma_cat_changes_prefix(cs, i, l);
        lemma_cat_changes_prefix(cs, i + 1, l);
        assert(cat_changes(cs, i + 1) == cat_changes(cs, i) + seq![' ', ' '] + cs[i] + seq![
            '\n',
        ]);
        let pos = base + cat_changes(cs, i).len() as int;
        let clen = cs[i].len() as int;
        let within = cat_changes(cs, i).len() as int;
        assert(s[pos] == ' ') by {
            assert(s[base + within] == catl[within]);
            assert(catl[within] == cat_changes(cs, i + 1)[within]);
        }
        assert(s[pos + 1] == ' ') by {
            assert(s[base + (within + 1)] == catl[within + 1]);
            assert(catl[within + 1] == cat_changes(cs, i + 1)[within + 1]);
        }
        assert forall|t: int| 0 <= t < clen implies #[trigger] s[pos + 2 + t] == cs[i][t] by {
            assert(s[base + (within + 2 + t)] == catl[within + 2 + t]);
            assert(catl[within + 2 + t] == cat_changes(cs, i + 1)[within + 2 + t]);
        }
        assert(s[pos + 2 + clen] == '\n') by {
            assert(s[base + (within + 2 + clen)] == catl[within + 2 + clen]);
            assert(catl[within + 2 + clen] == cat_changes(cs, i + 1)[within + 2 + clen]);
        }
        assert forall|x: int| pos <= x < pos + 2 + clen implies #[trigger] s[x] != '\n' by {
            let t = x - pos;
            assert(s[base + (within + t)] == catl[within + t]);
            assert(catl[within + t] == cat_changes(cs, i + 1)[within + t]);
            if t >= 2 {
                assert(cat_changes(cs, i + 1)[within + t] == cs[i][t - 2]);
                assert(cs[i][t - 2] != '\n');
            }
        }
        lemma_find_ch_is(s, pos, '\n', pos + 2 + clen);
        let line = s.subrange(pos, pos + 2 + clen);
        assert forall|t: int|
            0 <= t < 2 + clen implies #[trigger] line[t] == (seq![' ', ' '] + cs[i])[t] by {
            assert(line[t] == s[pos + t]);
            assert(s[base + (within + t)] == catl[within + t]);
            assert(catl[within + t] == cat_changes(cs, i + 1)[within + t]);
        }
        assert(line =~= seq![' ', ' '] + cs[i]);
        lemma_rtrim_len(cs[i]);
        assert(rtrim_len(cs[i]) == clen) by {
            assert(rtrim(cs[i]).len() == cs[i].len());
        }
        assert(!is_space(cs[i][clen - 1]));
        assert(!all_space(line)) by {
            assert(line[2 + clen - 1] == cs[i][clen - 1]);
        }
        assert(line[1] != '-');
        assert(rtrim(line.subrange(2, line.len() as int)) == cs[i]) by {
            assert(line.subrange(2, line.len() as int) =~= cs[i]);
        }
        assert(spec_scan_body(s, pos, acc) == spec_scan_body(s, pos + 3 + clen, acc.push(cs[i])));
        lemma_scan_changes(s, cs, base, i + 1, acc.push(cs[i]));
        assert(acc.push(cs[i]) + cs.subrange(i + 1, l) =~= acc + cs.subrange(i, l));
    }
}

/// What is left of the footer line once ` --` and the leading whitespace
/// are gone.
pub open spec fn footer_arg(e: EntryV) -> Seq<char> {
    if e.author.len() > 0 {
        e.author + seq![' ', '<'] + e.email + seq!['>', ' ', ' '] + rfc2822_str(e.date)
    } else {
        seq!['<'] + e.email + seq!['>', ' ', ' '] + rfc2822_str(e.date)
    }
}

/// The canonical footer line parses back to the entry's own author, email
/// and date.
proof fn lemma_parse_footer_rt(e: EntryV)
    requires
        round_trippable(e),
        rfc2822_ts(rfc2822_str(e.date)) == Some(e.date),
    ensures
        spec_parse_footer(footer_arg(e)) == Ok::<FooterV, EntryErrorV>(
            FooterV { author: e.author, email: e.email, date: e.date },
        ),
{
    let f = footer_arg(e);
    let alen = e.author.len() as int;
    let elen = e.email.len() as int;
    let date = rfc2822_str(e.date);
    lemma_rtrim_len(e.author);
    assert(rtrim_len(e.author) == alen) by {
        assert(rtrim(e.author).len() == e.author.len());
    }
    lemma_rtrim_len(e.email);
    assert(rtrim_len(e.email) == elen) by {
        assert(rtrim(e.email).len() == e.email.len());
    }
    if alen > 0 {
        // layout: author, ' ', '<', email, '>', ' ', ' ', date
        let sep = alen + 3 + elen;
        assert(f.len() == sep + 2 + date.len());
        assert(!is_space(e.author[alen - 1]));
        assert forall|i: int|
            0 <= i < sep && i + 1 < f.len() implies !(#[trigger] f[i] == ' ' && f[i + 1]
            == ' ') by {
            if i + 1 < alen {
                assert(f[i] == e.author[i] && f[i + 1] == e.author[i + 1]);
            } else if i + 1 == alen {
                assert(f[i] == e.author[alen - 1]);
            } else if i == alen {
                assert(f[i + 1] == '<');
            } else if i + 1 < alen + 2 + elen && i >= alen + 1 {
                if i >= alen + 2 {
                    assert(f[i] == e.email[i - alen - 2]);
                }
                if i + 1 >= alen + 2 {
                    assert(f[i + 1] == e.email[i + 1 - alen - 2]);
                }
            } else if i + 1 == alen + 2 + elen {
                assert(f[i + 1] == '>');
            } else {
                assert(i == alen + 2 + elen);
                assert(f[i] == '>');
            }
        }
        assert(f[sep] == ' ' && f[sep + 1] == ' ');
        lemma_find_sp2_is(f, 0, sep);
        let a = f.subrange(0, sep);
        assert(f.subrange(sep + 2, f.len() as int) =~= date);
        assert(forall|t: int| 0 <= t < alen ==> a[t] == e.author[t] && a[t] != '<');
        assert(a[alen] == ' ' && a[alen + 1] == '<');
        lemma_find_ch_is(a, 0, '<', alen + 1);
        let es = a.subrange(alen + 1, sep);
        assert(es[es.len() - 1] == '>');
        assert(a.subrange(0, alen + 1) =~= e.author.push(' '));
        lemma_rtrim_drop_space(e.author);
        assert(es.subrange(1, es.len() - 1) =~= e.email);
        assert(trim(e.email) == e.email) by {
            assert(ltrim(e.email) == e.email);
        }
    } else {
        // layout: '<', email, '>', ' ', ' ', date
        let sep = elen + 2;
        assert(f.len() == sep + 2 + date.len());
        assert forall|i: int|
            0 <= i < sep && i + 1 < f.len() implies !(#[trigger] f[i] == ' ' && f[i + 1]
            == ' ') by {
            if i == 0 {
                assert(f[0] == '<');
            } else if i + 1 <= elen {
                assert(f[i] == e.email[i - 1]);
                if i + 1 <= elen {
                    assert(f[i + 1] == e.email[i]);
                }
            } else if i + 1 == elen + 1 {
                assert(f[i + 1] == '>');
            } else {
                assert(i == elen + 1);
                assert(f[i] == '>');
            }
        }
        assert(f[sep] == ' ' && f[sep + 1] == ' ');
        lemma_find_sp2_is(f, 0, sep);
        let a = f.subrange(0, sep);
        assert(f.subrange(sep + 2, f.len() as int) =~= date);
        assert(a[0] == '<');
        lemma_find_ch_is(a, 0, '<', 0);
        let es = a.subrange(0, sep);
        assert(es[es.len() - 1] == '>');
        assert(a.subrange(0, 0) =~= Seq::<char>::empty());
        assert(rtrim_len(Seq::<char>::empty()) == 0);
        assert(rtrim(a.subrange(0, 0)) =~= e.author);
        assert(es.subrange(1, es.len() - 1) =~= e.email);
        assert(trim(e.email) == e.email) by {
            assert(ltrim(e.email) == e.email);
        }
    }
}

/// Round trip: formatting a round-trippable entry and parsing the text back
/// yields the very same entry, with the whole text consumed. The date
/// hypotheses say what chrono's RFC 2822 conversions give back: rendering a
/// timestamp and reading it again is the identity, and the rendering holds
/// no newline; the trusted date wrappers state the latter, and every parsed
/// date satisfies the former at runtime.
#[verifier::rlimit(100)]
pub proof fn lemma_round_trip(e: EntryV)
    requires
        round_trippable(e),
        rfc2822_ts(rfc2822_str(e.date)) == Some(e.date),
        lacks(rfc2822_str(e.date), '\n'),
    ensures
        spec_parse_entry(spec_format(e)) == Ok::<(EntryV, int), EntryErrorV>(
            (e, spec_format(e).len() as int),
        ),
{
    let s = spec_format(e);
    let h = header_text(e);
    let cs = e.changes;
    let ds = e.distributions;
    let ms = e.metadata;
    let l = cs.len() as int;
    let date = rfc2822_str(e.date);
    let body = cat_changes(cs, l);
    let foot = seq![' ', '-', '-', ' '] + e.author + seq![' ', '<'] + e.email + seq![
        '>',
        ' ',
        ' ',
    ] + date;
    let big = h + seq!['\n'] + seq!['\n'] + body + seq!['\n'] + foot;
    assert(s =~= big);
    let hlen = h.len() as int;
    let blen = body.len() as int;
    let bbase = hlen + 2;
    let bend = bbase + blen;
    let fpos = bend + 1;
    let flen = foot.len() as int;
    assert(s.len() == fpos + flen);
    assert forall|k: int| 0 <= k < hlen implies #[trigger] s[k] == h[k] by {
        assert(big[k] == h[k]);
    }
    assert(s[hlen] == '\n' && s[hlen + 1] == '\n');
    assert forall|k: int| 0 <= k < blen implies #[trigger] s[bbase + k] == body[k] by {
        assert(big[bbase + k] == body[k]);
    }
    assert(s[bend] == '\n');
    assert forall|k: int| 0 <= k < flen implies #[trigger] s[fpos + k] == foot[k] by {
        assert(big[fpos + k] == foot[k]);
    }
    // the header line is everything before the first newline
    let pkg = e.package;
    let ver = e.version;
    let plen = pkg.len() as int;
    let vlen = ver.len() as int;
    let dbase = plen + vlen + 3;
    let catd = cat_dists(ds, ds.len() as int);
    let dend = dbase + catd.len() as int;
    let catm = cat_pairs(ms, ms.len() as int);
    lemma_cat_dists_chars(ds, ds.len() as int);
    lemma_cat_pairs_chars(ms, ms.len() as int);
    assert forall|k: int| 0 <= k < hlen implies #[trigger] h[k] != '\n' by {
        if k < plen {
            assert(h[k] == pkg[k]);
            assert(!is_ascii_space(pkg[k]));
        } else if k == plen {
            assert(h[k] == ' ');
        } else if k == plen + 1 {
            assert(h[k] == '(');
        } else if k < plen + 2 + vlen {
            assert(h[k] == ver[k - plen - 2]);
            assert(!is_ascii_space(ver[k - plen - 2]));
        } else if k == plen + 2 + vlen {
            assert(h[k] == ')');
        } else if k < dend {
            assert(h[k] == catd[k - dbase]);
        } else if k == dend {
            assert(h[k] == ';');
        } else if k == dend + 1 {
            assert(h[k] == ' ');
        } else {
            assert(h[k] == catm[k - dend - 2]);
            assert(!is_ascii_space(catm[k - dend - 2]));
        }
    }
    lemma_find_ch_is(s, 0, '\n', hlen);
    assert(s.subrange(0, hlen) =~= h);
    lemma_parse_header_rt(e);
    // the blank line after the header
    assert(cap_next(s, hlen) == hlen + 1);
    lemma_find_ch_is(s, hlen + 1, '\n', hlen + 1);
    assert(s.subrange(hlen + 1, hlen + 1) =~= Seq::<char>::empty());
    assert(spec_scan_body(s, hlen + 1, Seq::empty()) == spec_scan_body(
        s,
        bbase,
        Seq::<Seq<char>>::empty(),
    ));
    // the change lines
    assert(s.subrange(bbase, bbase + blen) =~= body);
    assert(cat_changes(cs, 0).len() == 0);
    lemma_scan_changes(s, cs, bbase, 0, Seq::empty());
    assert(Seq::<Seq<char>>::empty() + cs.subrange(0, l) =~= cs);
    // the blank line before the footer
    lemma_find_ch_is(s, bend, '\n', bend);
    assert(s.subrange(bend, bend) =~= Seq::<char>::empty());
    assert(spec_scan_body(s, bend, cs) == spec_scan_body(s, fpos, cs));
    // the footer line runs to the end of the buffer
    let alen = e.author.len() as int;
    let elen = e.email.len() as int;
    assert forall|k: int| fpos <= k < s.len() implies #[trigger] s[k] != '\n' by {
        let t = k - fpos;
        assert(s[fpos + t] == foot[t]);
        if 4 <= t < 4 + alen {
            assert(foot[t] == e.author[t - 4]);
        } else if 6 + alen <= t < 6 + alen + elen {
            assert(foot[t] == e.email[t - 6 - alen]);
        } else if t >= 9 + alen + elen {
            assert(foot[t] == date[t - 9 - alen - elen]);
        }
    }
    lemma_find_ch_is(s, fpos, '\n', s.len() as int);
    let line = s.subrange(fpos, s.len() as int);
    assert(line =~= foot);
    assert(!all_space(line)) by {
        assert(line[1] == '-');
        assert(!is_space('-'));
    }
    assert(line[0] == ' ' && line[1] == '-' && line[2] == '-');
    let ftail = line.subrange(3, line.len() as int);
    assert(ftail =~= seq![' '] + e.author + seq![' ', '<'] + e.email + seq!['>', ' ', ' ']
        + date);
    if alen > 0 {
        assert(find_vis(e.author, 0) == 0) by {
            assert(ltrim(e.author).len() == e.author.len());
            lemma_find_vis(e.author, 0);
        }
        assert(!is_space(e.author[0])) by {
            lemma_find_vis(e.author, 0);
        }
        assert(ftail[1] == e.author[0]);
        assert(is_space(ftail[0]));
        lemma_find_vis_is(ftail, 0, 1);
        assert(ltrim(ftail) =~= footer_arg(e));
    } else {
        assert(ftail[0] == ' ' && ftail[1] == ' ' && ftail[2] == '<');
        assert(is_space(' '));
        assert(!is_space('<'));
        lemma_find_vis_is(ftail, 0, 2);
        assert(ltrim(ftail) =~= footer_arg(e));
    }
    lemma_parse_footer_rt(e);
    // nothing follows the footer
    assert(cap_next(s, s.len() as int) == s.len());
    assert(skip_blank_lines(s, s.len() as int) == s.len());
    assert(spec_scan_body(s, fpos, cs) == Ok::<(Seq<Seq<char>>, FooterV, int), EntryErrorV>(
        (cs, FooterV { author: e.author, email: e.email, date: e.date }, s.len() as int),
    ));
    assert(spec_parse_entry(s) matches Ok(p) && p.0 =~= e && p.1 == s.len());
}

/// `s` consists of exactly the entries `es`, in order, with nothing left
/// over: each parses off the front of what the one before it left.
pub open spec fn buffer_entries(s: Seq<char>, es: Seq<EntryV>) -> bool
    decreases es.len(),
{
    if es.len() == 0 {
        s.len() == 0
    } else {
        match spec_parse_entry(s) {
            Ok(p) => p.0 == es[0] && 0 <= p.1 <= s.len() && buffer_entries(
                s.subrange(p.1, s.len() as int),
                es.drop_first(),
            ),
            Err(_) => false,
        }
    }
}

/// The buffer still ahead of the cursor once `k` entries have been read.
pub open spec fn buffer_after(s: Seq<char>, k: int) -> Seq<char>
    decreases k,
{
    if k <= 0 {
        s
    } else {
        match spec_parse_entry(s) {
            Ok(p) => buffer_after(s.subrange(p.1, s.len() as int), k - 1),
            Err(_) => Seq::empty(),
        }
    }
}

/// A buffer of the entries `es` yields them in document order: the `k`-th
/// step parses successfully and reads exactly `es[k]`.
pub proof fn lemma_iteration_in_order(s: Seq<char>, es: Seq<EntryV>, k: int)
    requires
        buffer_entries(s, es),
        0 <= k < es.len(),
    ensures
        spec_parse_entry(buffer_after(s, k)) matches Ok(p) && p.0 == es[k],
    decreases k,
{
    if k > 0 {
        let p = spec_parse_entry(s)->Ok_0;
        lemma_iteration_in_order(s.subrange(p.1, s.len() as int), es.drop_first(), k - 1);
    }
}

/// After all the entries of a well-formed buffer have been read, nothing
/// remains, so the next step yields a clean end.
pub proof fn lemma_iteration_terminates(s: Seq<char>, es: Seq<EntryV>)
    requires
        buffer_entries(s, es),
    ensures
        buffer_after(s, es.len() as int).len() == 0,
    decreases es.len(),
{
    if es.len() > 0 {
        let p = spec_parse_entry(s)->Ok_0;
        lemma_iteration_terminates(s.subrange(p.1, s.len() as int), es.drop_first());
    }
}

} // verus!
