//! One changelog record, its parser and its formatter.

use vstd::prelude::*;
use vstd::string::*;
use crate::date::{format_rfc2822, now_secs, parse_rfc2822, ts_formattable};
use crate::grammar::{cap_next, cat_changes, cat_dists, cat_pairs, ends_semi, find_key,
    find_semi, lemma_find_key_is, lemma_find_semi_is, parse_pairs, spec_format,
    spec_parse_entry, spec_parse_footer, spec_parse_header, spec_scan_body, skip_blank_lines,
    strip_semi, upsert, EntryErrorV, EntryV, HeaderV};
use crate::text::{blank_line, find_ch, kv_views, lemma_find_ch, lemma_find_sp2, lemma_find_vis,
    lemma_kv_views_push,
    lemma_views_of_push, ltrim, rtrim, rtrim_string, scan_ch, scan_sp2, scan_vis, split_commas,
    split_commas_from, tokenize, tokens_from, trim_string, views_of};

verus! {

/// Why a parse call failed. Every failure is fatal to the call; the payloads
/// carry the offending text.
#[derive(Debug, PartialEq, Eq)]
pub enum EntryError {
    /// The footer's author segment holds no `<`.
    AuthorWithoutEmail,
    /// The footer's date segment is not an RFC 2822 date.
    BadDate(String),
    /// A metadata pair lacks `=`.
    BadMetadata(String),
    /// The footer's author segment has `<` but does not end in `>`.
    EmailNotEnclosed,
    /// The footer lacks the double-space separator before the date.
    NoDate,
    /// No footer line ` --` before the buffer ended.
    NoFooter,
    /// The buffer is empty.
    NoHeader,
    /// The header line has no fields.
    NoPackage,
    /// The header line has no second field.
    NoVersion,
    /// The header's version field is not wrapped in parentheses.
    VersionRequiresParenthesis,
}

impl View for EntryError {
    type V = EntryErrorV;

    open spec fn view(&self) -> EntryErrorV {
        match self {
            EntryError::AuthorWithoutEmail => EntryErrorV::AuthorWithoutEmail,
            EntryError::BadDate(s) => EntryErrorV::BadDate(s@),
            EntryError::BadMetadata(s) => EntryErrorV::BadMetadata(s@),
            EntryError::EmailNotEnclosed => EntryErrorV::EmailNotEnclosed,
            EntryError::NoDate => EntryErrorV::NoDate,
            EntryError::NoFooter => EntryErrorV::NoFooter,
            EntryError::NoHeader => EntryErrorV::NoHeader,
            EntryError::NoPackage => EntryErrorV::NoPackage,
            EntryError::NoVersion => EntryErrorV::NoVersion,
            EntryError::VersionRequiresParenthesis => EntryErrorV::VersionRequiresParenthesis,
        }
    }
}

/// One changelog entry. Fields hold owned text: parsing copies the spans it
/// reads out of the source buffer, so an entry outlives the buffer.
#[derive(Debug)]
pub struct Entry {
    pub author: String,
    pub email: String,
    pub changes: Vec<String>,
    pub distributions: Vec<String>,
    pub package: String,
    pub version: String,
    /// `key=value` pairs of the header, keys unique, in insertion order.
    pub metadata: Vec<(String, String)>,
    /// Footer timestamp: whole seconds since the Unix epoch, UTC.
    pub date: i64,
}

impl View for Entry {
    type V = EntryV;

    open spec fn view(&self) -> EntryV {
        EntryV {
            author: self.author@,
            email: self.email@,
            changes: views_of(self.changes@),
            distributions: views_of(self.distributions@),
            package: self.package@,
            version: self.version@,
            metadata: kv_views(self.metadata@),
            date: self.date,
        }
    }
}

impl Entry {
    /// An empty entry; the date defaults to the time of the call.
    pub fn new() -> (e: Entry)
        ensures
            e@.author.len() == 0,
            e@.email.len() == 0,
            e@.package.len() == 0,
            e@.version.len() == 0,
            e@.changes =~= Seq::<Seq<char>>::empty(),
            e@.distributions =~= Seq::<Seq<char>>::empty(),
            e@.metadata =~= Seq::<(Seq<char>, Seq<char>)>::empty(),
    {
        let e = Entry {
            author: String::new(),
            email: String::new(),
            changes: Vec::new(),
            distributions: Vec::new(),
            package: String::new(),
            version: String::new(),
            metadata: Vec::new(),
            date: now_secs(),
        };
        proof {
            assert(views_of(e.changes@) =~= Seq::<Seq<char>>::empty());
            assert(views_of(e.distributions@) =~= Seq::<Seq<char>>::empty());
            assert(kv_views(e.metadata@) =~= Seq::<(Seq<char>, Seq<char>)>::empty());
        }
        e
    }

    /// Replace the change lines.
    pub fn changes(&mut self, changes: Vec<String>)
        ensures
            final(self)@ =~= (EntryV { changes: views_of(changes@), ..old(self)@ }),
    {
        self.changes = changes;
    }

    /// Replace the target distributions.
    pub fn distributions(&mut self, distributions: Vec<String>)
        ensures
            final(self)@ =~= (EntryV { distributions: views_of(distributions@), ..old(self)@ }),
    {
        self.distributions = distributions;
    }

    /// Hand the entry to a cursor over `log` as its scratch record.
    pub fn iter_from<'a>(self, log: &'a str) -> (it: crate::iter::ChangelogIter<'a>)
        ensures
            it.wf(),
            it.remaining() =~= log@,
            it.entry == self,
    {
        crate::iter::ChangelogIter::new(self, log)
    }
}

/// Index of the first token at or after `from` that ends in `;`.
fn find_semi_tok(toks: &Vec<String>, from: usize) -> (r: usize)
    requires
        from <= toks@.len(),
    ensures
        r == find_semi(views_of(toks@), from as int),
{
    let ghost tv = views_of(toks@);
    let n = toks.len();
    let mut i = from;
    while i < n
        invariant
            from <= i <= n,
            n == toks@.len(),
            tv == views_of(toks@),
            forall|j: int| from <= j < i ==> !ends_semi(tv[j]),
        decreases n - i,
    {
        let t = &toks[i];
        let tl = t.as_str().unicode_len();
        if tl > 0 && t.as_str().get_char(tl - 1) == ';' {
            proof {
                assert(ends_semi(tv[i as int]));
                lemma_find_semi_is(tv, from as int, i as int);
            }
            return i;
        }
        proof {
            assert(!ends_semi(tv[i as int]));
        }
        i = i + 1;
    }
    proof {
        lemma_find_semi_is(tv, from as int, n as int);
    }
    n
}

/// Insert a pair into the metadata: replace an existing key's value in
/// place, else append.
fn upsert_pair(m: &mut Vec<(String, String)>, k: String, v: String)
    ensures
        kv_views(final(m)@) =~= upsert(kv_views(old(m)@), k@, v@),
{
    let ghost mv = kv_views(old(m)@);
    let n = m.len();
    let mut j: usize = 0;
    while j < n
        invariant
            0 <= j <= n,
            n == m@.len(),
            m@ == old(m)@,
            mv == kv_views(m@),
            forall|q: int| 0 <= q < j ==> (#[trigger] mv[q]).0 != k@,
        decreases n - j,
    {
        if m[j].0 == k {
            proof {
                assert(mv[j as int].0 == k@);
                lemma_find_key_is(mv, 0, k@, j as int);
            }
            m.remove(j);
            m.insert(j, (k, v));
            proof {
                assert(m@ =~= old(m)@.update(j as int, m@[j as int]));
                assert(kv_views(m@) =~= mv.update(j as int, (m@[j as int].0@, m@[j as int].1@)));
            }
            return ;
        }
        proof {
            assert(mv[j as int].0 != k@);
        }
        j = j + 1;
    }
    proof {
        lemma_find_key_is(mv, 0, k@, n as int);
    }
    let ghost before = m@;
    m.push((k, v));
    proof {
        lemma_kv_views_push(before, m@[m@.len() - 1]);
    }
}

/// Read the header line into the entry: package, parenthesised version,
/// distributions up to the first field ending in `;`, then one field of
/// comma-separated `key=value` pairs.
#[verifier::loop_isolation(false)]
fn parse_header(e: &mut Entry, header: &str) -> (r: Result<(), EntryError>)
    requires
        old(e).distributions@.len() == 0,
        old(e).metadata@.len() == 0,
    ensures
        match spec_parse_header(header@) {
            Ok(h) => {
                &&& r matches Ok(_)
                &&& final(e).package@ == h.package
                &&& final(e).version@ == h.version
                &&& views_of(final(e).distributions@) == h.distributions
                &&& kv_views(final(e).metadata@) == h.metadata
                &&& final(e).author == old(e).author
                &&& final(e).email == old(e).email
                &&& final(e).changes == old(e).changes
                &&& final(e).date == old(e).date
            },
            Err(ev) => r matches Err(er) && er@ == ev,
        },
{
    let toks = tokenize(header);
    let ghost tv = tokens_from(header@, 0);
    if toks.len() == 0 {
        return Err(EntryError::NoPackage);
    }
    e.package = toks[0].clone();
    if toks.len() == 1 {
        return Err(EntryError::NoVersion);
    }
    let vs = toks[1].as_str();
    proof {
        assert(vs@ == tv[1]);
    }
    let vl = vs.unicode_len();
    if !(vl > 0 && vs.get_char(0) == '(' && vs.get_char(vl - 1) == ')') {
        return Err(EntryError::VersionRequiresParenthesis);
    }
    e.version = String::from_str(vs.substring_char(1, vl - 1));
    let n = toks.len();
    let k = find_semi_tok(&toks, 2);
    proof {
        lemma_find_semi_bounds(tv, 2);
    }
    let mut i: usize = 2;
    while i < k && i < n
        invariant
            2 <= i <= n,
            i <= k,
            n == toks@.len(),
            tv == views_of(toks@),
            k == find_semi(tv, 2),
            k <= n,
            views_of(e.distributions@) =~= tv.subrange(2, i as int),
            e.package@ == tv[0],
            e.version@ == tv[1].subrange(1, tv[1].len() - 1),
            e.author == old(e).author,
            e.email == old(e).email,
            e.changes == old(e).changes,
            e.date == old(e).date,
            e.metadata@.len() == 0,
        decreases k - i,
    {
        let ghost before = e.distributions@;
        e.distributions.push(toks[i].clone());
        proof {
            lemma_views_of_push(before, e.distributions@[e.distributions@.len() - 1]);
            assert(views_of(e.distributions@) =~= tv.subrange(2, i + 1));
        }
        i = i + 1;
    }
    if k < n {
        let ts = toks[k].as_str();
        let tl = ts.unicode_len();
        proof {
            assert(ends_semi(tv[k as int]));
            assert(tl > 0);
        }
        let ghost before = e.distributions@;
        e.distributions.push(String::from_str(ts.substring_char(0, tl - 1)));
        proof {
            lemma_views_of_push(before, e.distributions@[e.distributions@.len() - 1]);
            assert(views_of(e.distributions@) =~= tv.subrange(2, k as int).push(
                strip_semi(tv[k as int]),
            ));
        }
    } else {
        proof {
            assert(views_of(e.distributions@) =~= tv.subrange(2, tv.len() as int));
        }
    }
    if k < n && k + 1 < n {
        let segs = split_commas(toks[k + 1].as_str());
        let ghost sv = split_commas_from(tv[k + 1], 0);
        let m = segs.len();
        let mut q: usize = 0;
        proof {
            assert(kv_views(e.metadata@) =~= Seq::<(Seq<char>, Seq<char>)>::empty());
        }
        while q < m
            invariant
                0 <= q <= m,
                m == segs@.len(),
                sv == views_of(segs@),
                parse_pairs(sv, 0, Seq::empty()) == parse_pairs(sv, q as int, kv_views(e.metadata@)),
                e.package@ == tv[0],
                e.version@ == tv[1].subrange(1, tv[1].len() - 1),
                views_of(e.distributions@) == tv.subrange(2, k as int).push(strip_semi(tv[k as int])),
                k < tv.len(),
                e.author == old(e).author,
                e.email == old(e).email,
                e.changes == old(e).changes,
                e.date == old(e).date,
            decreases m - q,
        {
            let p = segs[q].as_str();
            let pl = p.unicode_len();
            let eq = scan_ch(p, 0, '=');
            proof {
                assert(p@ == sv[q as int]);
            }
            if eq >= pl {
                let bad = EntryError::BadMetadata(segs[q].clone());
                proof {
                    assert(parse_pairs(sv, q as int, kv_views(e.metadata@)) == Err::<
                        Seq<(Seq<char>, Seq<char>)>,
                        EntryErrorV,
                    >(EntryErrorV::BadMetadata(sv[q as int])));
                    assert(spec_parse_header(header@) == Err::<HeaderV, EntryErrorV>(
                        EntryErrorV::BadMetadata(sv[q as int]),
                    ));
                    assert(bad@ == EntryErrorV::BadMetadata(sv[q as int]));
                }
                return Err(bad);
            }
            let key = String::from_str(p.substring_char(0, eq));
            let val = String::from_str(p.substring_char(eq + 1, pl));
            upsert_pair(&mut e.metadata, key, val);
            q = q + 1;
        }
        Ok(())
    } else {
        proof {
            assert(kv_views(e.metadata@) =~= Seq::<(Seq<char>, Seq<char>)>::empty());
        }
        Ok(())
    }
}

/// Read the footer line (after ` --` and leading whitespace) into the entry:
/// author and `<email>` before the first double space, an RFC 2822 date
/// after it.
fn parse_footer(e: &mut Entry, footer: &str) -> (r: Result<(), EntryError>)
    ensures
        match spec_parse_footer(footer@) {
            Ok(fv) => {
                &&& r matches Ok(_)
                &&& final(e).author@ == fv.author
                &&& final(e).email@ == fv.email
                &&& final(e).date == fv.date
            },
            Err(ev) => r matches Err(er) && er@ == ev,
        },
        final(e).package == old(e).package,
        final(e).version == old(e).version,
        final(e).changes == old(e).changes,
        final(e).distributions == old(e).distributions,
        final(e).metadata == old(e).metadata,
{
    let n = footer.unicode_len();
    let sep = scan_sp2(footer, 0);
    proof {
        lemma_find_sp2(footer@, 0);
    }
    if sep >= n {
        return Err(EntryError::NoDate);
    }
    let author_seg = footer.substring_char(0, sep);
    let date_seg = footer.substring_char(sep + 2, n);
    match parse_rfc2822(date_seg) {
        None => Err(EntryError::BadDate(String::from_str(date_seg))),
        Some(t) => {
            e.date = t;
            let lt = scan_ch(author_seg, 0, '<');
            proof {
                lemma_find_ch(author_seg@, 0, '<');
            }
            if lt >= sep {
                return Err(EntryError::AuthorWithoutEmail);
            }
            let es = author_seg.substring_char(lt, sep);
            let el = es.unicode_len();
            if es.get_char(el - 1) != '>' {
                return Err(EntryError::EmailNotEnclosed);
            }
            e.author = rtrim_string(author_seg.substring_char(0, lt));
            e.email = trim_string(es.substring_char(1, el - 1));
            Ok(())
        },
    }
}

impl Entry {
    /// Parse one entry occupying a prefix of `string` into `self`, replacing
    /// every field, and say how many characters of `string` it occupies,
    /// trailing blank lines included, so the caller can slice off the rest.
    #[verifier::loop_isolation(false)]
    pub fn parse_from_str(&mut self, string: &str) -> (r: Result<usize, EntryError>)
        ensures
            match spec_parse_entry(string@) {
                Ok(p) => {
                    &&& r matches Ok(m) && m as int == p.1 && m <= string@.len()
                    &&& final(self)@ == p.0
                },
                Err(ev) => r matches Err(er) && er@ == ev,
            },
    {
        self.changes = Vec::new();
        self.distributions = Vec::new();
        self.metadata = Vec::new();
        let n = string.unicode_len();
        if n == 0 {
            return Err(EntryError::NoHeader);
        }
        let hend = scan_ch(string, 0, '\n');
        proof {
            lemma_find_ch(string@, 0, '\n');
        }
        let header = string.substring_char(0, hend);
        match parse_header(self, header) {
            Err(er) => {
                return Err(er);
            },
            Ok(_) => {},
        }
        let ghost hv = (match spec_parse_header(header@) {
            Ok(h) => h,
            Err(_) => arbitrary(),
        });
        let mut pos: usize = if hend < n {
            hend + 1
        } else {
            n
        };
        let ghost start = pos as int;
        proof {
            assert(views_of(self.changes@) =~= Seq::<Seq<char>>::empty());
        }
        loop
            invariant
                pos <= n,
                start == cap_next(string@, find_ch(string@, 0, '\n')),
                spec_scan_body(string@, start, Seq::empty()) == spec_scan_body(
                    string@,
                    pos as int,
                    views_of(self.changes@),
                ),
                self.package@ == hv.package,
                self.version@ == hv.version,
                views_of(self.distributions@) == hv.distributions,
                kv_views(self.metadata@) == hv.metadata,
            decreases n - pos,
        {
            if pos >= n {
                return Err(EntryError::NoFooter);
            }
            let le = scan_ch(string, pos, '\n');
            proof {
                lemma_find_ch(string@, pos as int, '\n');
            }
            let line = string.substring_char(pos, le);
            let nxt = if le < n {
                le + 1
            } else {
                n
            };
            if blank_line(line) {
                pos = nxt;
            } else {
                let ll = line.unicode_len();
                if ll >= 3 && line.get_char(0) == ' ' && line.get_char(1) == '-' && line.get_char(
                    2,
                ) == '-' {
                    let tail = line.substring_char(3, ll);
                    let v0 = scan_vis(tail, 0);
                    proof {
                        lemma_find_vis(tail@, 0);
                    }
                    let tl = tail.unicode_len();
                    let ftr = tail.substring_char(v0, tl);
                    proof {
                        assert(ftr@ =~= ltrim(line@.subrange(3, line@.len() as int)));
                    }
                    match parse_footer(self, ftr) {
                        Err(er) => {
                            return Err(er);
                        },
                        Ok(_) => {},
                    }
                    let mut p2: usize = nxt;
                    let mut done = false;
                    while !done
                        invariant
                            nxt <= p2 <= n,
                            skip_blank_lines(string@, nxt as int) == skip_blank_lines(
                                string@,
                                p2 as int,
                            ),
                            done ==> skip_blank_lines(string@, p2 as int) == p2 as int,
                        decreases n - p2 + (if done {
                            0int
                        } else {
                            1int
                        }),
                    {
                        if p2 >= n {
                            done = true;
                        } else {
                            let e2 = scan_ch(string, p2, '\n');
                            proof {
                                lemma_find_ch(string@, p2 as int, '\n');
                            }
                            let l2 = string.substring_char(p2, e2);
                            if blank_line(l2) {
                                p2 = if e2 < n {
                                    e2 + 1
                                } else {
                                    n
                                };
                            } else {
                                done = true;
                            }
                        }
                    }
                    proof {
                        assert(spec_scan_body(string@, pos as int, views_of(self.changes@))
                            matches Ok(sr) && sr.2 == skip_blank_lines(string@, nxt as int));
                        assert(spec_parse_entry(string@) matches Ok(p) && p.1 == p2 as int && self@
                            =~= p.0);
                    }
                    return Ok(p2);
                } else if ll >= 2 && line.get_char(0) == ' ' && line.get_char(1) == ' ' {
                    let c = rtrim_string(line.substring_char(2, ll));
                    let ghost before = self.changes@;
                    self.changes.push(c);
                    proof {
                        lemma_views_of_push(before, self.changes@[self.changes@.len() - 1]);
                        assert(views_of(self.changes@) =~= views_of(before).push(
                            rtrim(line@.subrange(2, line@.len() as int)),
                        ));
                    }
                    pos = nxt;
                } else {
                    pos = nxt;
                }
            }
        }
    }
}

impl Entry {
    /// Render the entry in canonical textual form: the header line, a blank
    /// line, the change lines, a blank line, the footer line. The metadata
    /// pairs are reproduced one after the other with no separator, exactly
    /// as the parser's inverse grammar has them.
    ///
    /// The date must lie in the years 0000 to 9999, the range RFC 2822 can
    /// show; parsed entries always do.
    #[verifier::loop_isolation(false)]
    pub fn format(&self) -> (r: String)
        requires
            ts_formattable(self.date),
        ensures
            r@ == spec_format(self@),
    {
        let mut out = String::new();
        out.append(self.package.as_str());
        out.append(" (");
        out.append(self.version.as_str());
        out.append(")");
        let ghost p1 = self@.package + seq![' ', '('] + self@.version + seq![')'];
        proof {
            reveal_strlit(" (");
            reveal_strlit(")");
            assert(out@ =~= p1);
            assert(out@ =~= p1 + cat_dists(self@.distributions, 0));
        }
        let nd = self.distributions.len();
        let mut i: usize = 0;
        while i < nd
            invariant
                i <= nd,
                out@ == p1 + cat_dists(self@.distributions, i as int),
            decreases nd - i,
        {
            out.append(" ");
            out.append(self.distributions[i].as_str());
            proof {
                reveal_strlit(" ");
                assert(self.distributions@[i as int]@ == self@.distributions[i as int]);
                assert(out@ =~= p1 + cat_dists(self@.distributions, i + 1));
            }
            i = i + 1;
        }
        out.append("; ");
        let ghost p2 = p1 + cat_dists(self@.distributions, self@.distributions.len() as int)
            + seq![';', ' '];
        proof {
            reveal_strlit("; ");
            assert(out@ =~= p2);
            assert(out@ =~= p2 + cat_pairs(self@.metadata, 0));
        }
        let nm = self.metadata.len();
        let mut j: usize = 0;
        while j < nm
            invariant
                j <= nm,
                out@ == p2 + cat_pairs(self@.metadata, j as int),
            decreases nm - j,
        {
            out.append(self.metadata[j].0.as_str());
            out.append("=");
            out.append(self.metadata[j].1.as_str());
            proof {
                reveal_strlit("=");
                assert(self.metadata@[j as int].0@ == self@.metadata[j as int].0);
                assert(self.metadata@[j as int].1@ == self@.metadata[j as int].1);
                assert(out@ =~= p2 + cat_pairs(self@.metadata, j + 1));
            }
            j = j + 1;
        }
        out.append("\n\n");
        let ghost p3 = p2 + cat_pairs(self@.metadata, self@.metadata.len() as int) + seq![
            '\n',
            '\n',
        ];
        proof {
            reveal_strlit("\n\n");
            assert(out@ =~= p3);
            assert(out@ =~= p3 + cat_changes(self@.changes, 0));
        }
        let nc = self.changes.len();
        let mut q: usize = 0;
        while q < nc
            invariant
                q <= nc,
                out@ == p3 + cat_changes(self@.changes, q as int),
            decreases nc - q,
        {
            out.append("  ");
            out.append(self.changes[q].as_str());
            out.append("\n");
            proof {
                reveal_strlit("  ");
                reveal_strlit("\n");
                assert(self.changes@[q as int]@ == self@.changes[q as int]);
                assert(out@ =~= p3 + cat_changes(self@.changes, q + 1));
            }
            q = q + 1;
        }
        out.append("\n -- ");
        out.append(self.author.as_str());
        out.append(" <");
        out.append(self.email.as_str());
        out.append(">  ");
        let ds = format_rfc2822(self.date);
        out.append(ds.as_str());
        proof {
            reveal_strlit("\n -- ");
            reveal_strlit(" <");
            reveal_strlit(">  ");
            assert(out@ =~= spec_format(self@));
        }
        out
    }
}

/// `find_semi` stays within the token count.
proof fn lemma_find_semi_bounds(toks: Seq<Seq<char>>, from: int)
    requires
        0 <= from <= toks.len(),
    ensures
        from <= find_semi(toks, from) <= toks.len(),
        find_semi(toks, from) < toks.len() ==> ends_semi(toks[find_semi(toks, from)]),
    decreases toks.len() - from,
{
    if from < toks.len() && !ends_semi(toks[from]) {
        lemma_find_semi_bounds(toks, from + 1);
    }
}

} // verus!
