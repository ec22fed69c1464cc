//! The changelog grammar, as spec functions over `Seq<char>`.
//!
//! One entry is a header line, a body of blank or indented lines, and a
//! footer line, followed by any number of blank lines. `spec_parse_entry`
//! reads one entry off the front of a buffer and says how many characters it
//! consumed; `spec_format` renders an entry back to text. The executable
//! parser and formatter are proved equal to these functions.

use vstd::prelude::*;
use crate::text::{all_space, find_ch, find_sp2, lemma_find_ch, ltrim, rtrim, split_commas_from,
    tokens_from, trim};
use crate::date::{rfc2822_str, rfc2822_ts};

verus! {

/// The abstract value of an `EntryError`.
pub enum EntryErrorV {
    AuthorWithoutEmail,
    BadDate(Seq<char>),
    BadMetadata(Seq<char>),
    EmailNotEnclosed,
    NoDate,
    NoFooter,
    NoHeader,
    NoPackage,
    NoVersion,
    VersionRequiresParenthesis,
}

/// The abstract value of an `Entry`.
#[verifier::ext_equal]
pub struct EntryV {
    pub author: Seq<char>,
    pub email: Seq<char>,
    pub changes: Seq<Seq<char>>,
    pub distributions: Seq<Seq<char>>,
    pub package: Seq<char>,
    pub version: Seq<char>,
    pub metadata: Seq<(Seq<char>, Seq<char>)>,
    pub date: i64,
}

/// What a header line denotes.
#[verifier::ext_equal]
pub struct HeaderV {
    pub package: Seq<char>,
    pub version: Seq<char>,
    pub distributions: Seq<Seq<char>>,
    pub metadata: Seq<(Seq<char>, Seq<char>)>,
}

/// What a footer line denotes.
#[verifier::ext_equal]
pub struct FooterV {
    pub author: Seq<char>,
    pub email: Seq<char>,
    pub date: i64,
}

/// A token whose last character is `;` closes the distribution list.
pub open spec fn ends_semi(t: Seq<char>) -> bool {
    t.len() > 0 && t[t.len() - 1] == ';'
}

/// The token with its closing `;` removed.
pub open spec fn strip_semi(t: Seq<char>) -> Seq<char> {
    t.subrange(0, t.len() - 1)
}

/// Index of the first token at or after `from` that ends in `;`; the token
/// count if none does.
pub open spec fn find_semi(toks: Seq<Seq<char>>, from: int) -> int
    decreases toks.len() - from,
{
    if from >= toks.len() {
        toks.len() as int
    } else if ends_semi(toks[from]) {
        from
    } else {
        find_semi(toks, from + 1)
    }
}

pub proof fn lemma_find_semi_is(toks: Seq<Seq<char>>, from: int, k: int)
    requires
        0 <= from <= k <= toks.len(),
        forall|j: int| from <= j < k ==> !ends_semi(toks[j]),
        k == toks.len() || ends_semi(toks[k]),
    ensures
        find_semi(toks, from) == k,
    decreases k - from,
{
    if from < k {
        lemma_find_semi_is(toks, from + 1, k);
    }
}

/// Index of the first pair in `m` whose key is `k`; `m.len()` if none.
pub open spec fn find_key(m: Seq<(Seq<char>, Seq<char>)>, from: int, k: Seq<char>) -> int
    decreases m.len() - from,
{
    if from >= m.len() {
        m.len() as int
    } else if m[from].0 == k {
        from
    } else {
        find_key(m, from + 1, k)
    }
}

pub proof fn lemma_find_key_is(m: Seq<(Seq<char>, Seq<char>)>, from: int, k: Seq<char>, at: int)
    requires
        0 <= from <= at <= m.len(),
        forall|j: int| from <= j < at ==> (#[trigger] m[j]).0 != k,
        at == m.len() || m[at].0 == k,
    ensures
        find_key(m, from, k) == at,
    decreases at - from,
{
    if from < at {
        lemma_find_key_is(m, from + 1, k, at);
    }
}

/// Insert `k = v` into the metadata: replace the value of an existing key in
/// place, else append. Keys stay unique, insertion order stays.
pub open spec fn upsert(
    m: Seq<(Seq<char>, Seq<char>)>,
    k: Seq<char>,
    v: Seq<char>,
) -> Seq<(Seq<char>, Seq<char>)> {
    let i = find_key(m, 0, k);
    if i < m.len() {
        m.update(i, (k, v))
    } else {
        m.push((k, v))
    }
}

/// Read `key=value` pairs out of the comma-separated segments, from segment
/// `i` on, into the accumulated metadata. A segment without `=` is an error
/// carrying that segment.
pub open spec fn parse_pairs(
    segs: Seq<Seq<char>>,
    i: int,
    acc: Seq<(Seq<char>, Seq<char>)>,
) -> Result<Seq<(Seq<char>, Seq<char>)>, EntryErrorV>
    decreases segs.len() - i,
{
    if i >= segs.len() {
        Ok(acc)
    } else {
        let p = segs[i];
        let e = find_ch(p, 0, '=');
        if e >= p.len() {
            Err(EntryErrorV::BadMetadata(p))
        } else {
            parse_pairs(segs, i + 1, upsert(acc, p.subrange(0, e), p.subrange(e + 1, p.len() as int)))
        }
    }
}

/// What a header line means: whitespace-separated fields; first the package,
/// second the parenthesised version, then distributions up to and including
/// the first field ending in `;`, then one field of comma-separated
/// `key=value` pairs.
pub open spec fn spec_parse_header(line: Seq<char>) -> Result<HeaderV, EntryErrorV> {
    let toks = tokens_from(line, 0);
    if toks.len() == 0 {
        Err(EntryErrorV::NoPackage)
    } else if toks.len() == 1 {
        Err(EntryErrorV::NoVersion)
    } else {
        let v = toks[1];
        if !(v.len() > 0 && v[0] == '(' && v[v.len() - 1] == ')') {
            Err(EntryErrorV::VersionRequiresParenthesis)
        } else {
            let k = find_semi(toks, 2);
            let dists = if k < toks.len() {
                toks.subrange(2, k).push(strip_semi(toks[k]))
            } else {
                toks.subrange(2, toks.len() as int)
            };
            let md = if k < toks.len() && k + 1 < toks.len() {
                parse_pairs(split_commas_from(toks[k + 1], 0), 0, Seq::empty())
            } else {
                Ok(Seq::empty())
            };
            match md {
                Err(ev) => Err(ev),
                Ok(m) => Ok(
                    HeaderV {
                        package: toks[0],
                        version: v.subrange(1, v.len() - 1),
                        distributions: dists,
                        metadata: m,
                    },
                ),
            }
        }
    }
}

/// What a footer line (after ` --` and leading whitespace) means: author and
/// `<email>` before the first double space, an RFC 2822 date after it.
pub open spec fn spec_parse_footer(f: Seq<char>) -> Result<FooterV, EntryErrorV> {
    let sep = find_sp2(f, 0);
    if sep >= f.len() {
        Err(EntryErrorV::NoDate)
    } else {
        let a = f.subrange(0, sep);
        let date_seg = f.subrange(sep + 2, f.len() as int);
        match rfc2822_ts(date_seg) {
            None => Err(EntryErrorV::BadDate(date_seg)),
            Some(t) => {
                let lt = find_ch(a, 0, '<');
                if lt >= a.len() {
                    Err(EntryErrorV::AuthorWithoutEmail)
                } else {
                    let es = a.subrange(lt, a.len() as int);
                    if es[es.len() - 1] != '>' {
                        Err(EntryErrorV::EmailNotEnclosed)
                    } else {
                        Ok(
                            FooterV {
                                author: rtrim(a.subrange(0, lt)),
                                email: trim(es.subrange(1, es.len() - 1)),
                                date: t,
                            },
                        )
                    }
                }
            },
        }
    }
}

/// Position of the line after the one ending at `e`, capped at the buffer
/// end when the last line has no newline.
pub open spec fn cap_next(s: Seq<char>, e: int) -> int {
    if e < s.len() {
        e + 1
    } else {
        s.len() as int
    }
}

/// Position after the contiguous blank lines starting at `pos`.
pub open spec fn skip_blank_lines(s: Seq<char>, pos: int) -> int
    decreases s.len() - pos,
    via skip_blank_lines_dec
{
    if pos < 0 || pos >= s.len() {
        pos
    } else {
        let e = find_ch(s, pos, '\n');
        if all_space(s.subrange(pos, e)) {
            skip_blank_lines(s, cap_next(s, e))
        } else {
            pos
        }
    }
}

#[via_fn]
proof fn skip_blank_lines_dec(s: Seq<char>, pos: int) {
    if 0 <= pos < s.len() {
        lemma_find_ch(s, pos, '\n');
    }
}

/// Scan the lines after the header: blank lines are skipped, two-space
/// indented lines add a change (indent stripped, right-trimmed), a ` --`
/// line is the footer and ends the entry, anything else is ignored. Reaching
/// the end of the buffer without a footer is an error.
pub open spec fn spec_scan_body(
    s: Seq<char>,
    pos: int,
    acc: Seq<Seq<char>>,
) -> Result<(Seq<Seq<char>>, FooterV, int), EntryErrorV>
    decreases s.len() - pos,
    via spec_scan_body_dec
{
    if pos < 0 || pos >= s.len() {
        Err(EntryErrorV::NoFooter)
    } else {
        let e = find_ch(s, pos, '\n');
        let line = s.subrange(pos, e);
        let nxt = cap_next(s, e);
        if all_space(line) {
            spec_scan_body(s, nxt, acc)
        } else if line.len() >= 3 && line[0] == ' ' && line[1] == '-' && line[2] == '-' {
            match spec_parse_footer(ltrim(line.subrange(3, line.len() as int))) {
                Err(ev) => Err(ev),
                Ok(fv) => Ok((acc, fv, skip_blank_lines(s, nxt))),
            }
        } else if line.len() >= 2 && line[0] == ' ' && line[1] == ' ' {
            spec_scan_body(s, nxt, acc.push(rtrim(line.subrange(2, line.len() as int))))
        } else {
            spec_scan_body(s, nxt, acc)
        }
    }
}

#[via_fn]
proof fn spec_scan_body_dec(s: Seq<char>, pos: int, acc: Seq<Seq<char>>) {
    if 0 <= pos < s.len() {
        lemma_find_ch(s, pos, '\n');
    }
}

/// Read one entry off the front of `s`: the first line is the header, then
/// the body and footer; the result carries the entry and how many characters
/// of `s` it occupies, trailing blank lines included.
pub open spec fn spec_parse_entry(s: Seq<char>) -> Result<(EntryV, int), EntryErrorV> {
    if s.len() == 0 {
        Err(EntryErrorV::NoHeader)
    } else {
        let e = find_ch(s, 0, '\n');
        match spec_parse_header(s.subrange(0, e)) {
            Err(ev) => Err(ev),
            Ok(h) => match spec_scan_body(s, cap_next(s, e), Seq::empty()) {
                Err(ev) => Err(ev),
                Ok(r) => Ok(
                    (
                        EntryV {
                            author: r.1.author,
                            email: r.1.email,
                            changes: r.0,
                            distributions: h.distributions,
                            package: h.package,
                            version: h.version,
                            metadata: h.metadata,
                            date: r.1.date,
                        },
                        r.2,
                    ),
                ),
            },
        }
    }
}

/// The distributions as the header shows them: a space before each.
pub open spec fn cat_dists(ds: Seq<Seq<char>>, n: int) -> Seq<char>
    decreases n,
{
    if n <= 0 {
        Seq::empty()
    } else {
        cat_dists(ds, n - 1) + seq![' '] + ds[n - 1]
    }
}

/// The metadata pairs as the header shows them: `key=value`, one after the
/// other with no separator.
pub open spec fn cat_pairs(ms: Seq<(Seq<char>, Seq<char>)>, n: int) -> Seq<char>
    decreases n,
{
    if n <= 0 {
        Seq::empty()
    } else {
        cat_pairs(ms, n - 1) + ms[n - 1].0 + seq!['='] + ms[n - 1].1
    }
}

/// The change lines as the body shows them: two spaces, the text, a newline.
pub open spec fn cat_changes(cs: Seq<Seq<char>>, n: int) -> Seq<char>
    decreases n,
{
    if n <= 0 {
        Seq::empty()
    } else {
        cat_changes(cs, n - 1) + seq![' ', ' '] + cs[n - 1] + seq!['\n']
    }
}

/// The canonical text of an entry: header line, blank line, change lines,
/// blank line, footer line (no trailing newline).
pub open spec fn spec_format(e: EntryV) -> Seq<char> {
    e.package + seq![' ', '('] + e.version + seq![')'] + cat_dists(
        e.distributions,
        e.distributions.len() as int,
    ) + seq![';', ' '] + cat_pairs(e.metadata, e.metadata.len() as int) + seq!['\n', '\n']
        + cat_changes(e.changes, e.changes.len() as int) + seq!['\n', ' ', '-', '-', ' ']
        + e.author + seq![' ', '<'] + e.email + seq!['>', ' ', ' '] + rfc2822_str(e.date)
}

} // verus!
