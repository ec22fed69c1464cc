use changelog::{ChangelogIter, Entry, EntryError};

fn sample_entry_text() -> &'static str {
    "pkgname (1.2.3) stable; urgency=low\n\n  Fixed a bug.\n  Added a feature.\n\n -- Jane Doe <jane@example.com>  Mon, 01 Jan 2024 00:00:00 +0000\n"
}

#[test]
fn header_fields_parse() {
    let mut e = Entry::new();
    let n = e.parse_from_str(sample_entry_text()).expect("entry parses");
    assert_eq!(n, sample_entry_text().len());
    assert_eq!(e.package, "pkgname");
    assert_eq!(e.version, "1.2.3");
    assert_eq!(e.distributions, vec!["stable".to_string()]);
    assert_eq!(e.metadata, vec![("urgency".to_string(), "low".to_string())]);
}

#[test]
fn header_several_distributions() {
    let mut e = Entry::new();
    e.parse_from_str(
        "pkg (0.9) stable unstable experimental; urgency=high\n\n -- A <a@b.c>  Mon, 01 Jan 2024 00:00:00 +0000\n",
    )
    .expect("entry parses");
    assert_eq!(
        e.distributions,
        vec!["stable".to_string(), "unstable".to_string(), "experimental".to_string()]
    );
    assert_eq!(e.metadata, vec![("urgency".to_string(), "high".to_string())]);
}

#[test]
fn header_version_needs_parentheses() {
    let mut e = Entry::new();
    let r = e.parse_from_str(
        "pkgname 1.2.3 stable;\n\n -- A <a@b.c>  Mon, 01 Jan 2024 00:00:00 +0000\n",
    );
    assert_eq!(r, Err(EntryError::VersionRequiresParenthesis));
}

#[test]
fn header_missing_fields() {
    let mut e = Entry::new();
    assert_eq!(e.parse_from_str(""), Err(EntryError::NoHeader));
    assert_eq!(e.parse_from_str("\nrest"), Err(EntryError::NoPackage));
    assert_eq!(e.parse_from_str("pkgname\n"), Err(EntryError::NoVersion));
}

#[test]
fn header_without_distributions_rejects_the_version_field() {
    // With no distribution the `;` lands on the version field itself, so the
    // parenthesis check fails: the grammar wants at least one distribution.
    let mut e = Entry::new();
    let r = e.parse_from_str(
        "pkg (1.0); urgency=low\n\n -- A <a@b.c>  Mon, 01 Jan 2024 00:00:00 +0000\n",
    );
    assert_eq!(r, Err(EntryError::VersionRequiresParenthesis));
}

#[test]
fn header_metadata_pair_without_value() {
    let mut e = Entry::new();
    let r = e.parse_from_str(
        "pkg (1.0) stable; urgency\n\n -- A <a@b.c>  Mon, 01 Jan 2024 00:00:00 +0000\n",
    );
    assert_eq!(r, Err(EntryError::BadMetadata("urgency".to_string())));
}

#[test]
fn header_metadata_comma_pairs_and_duplicates() {
    let mut e = Entry::new();
    e.parse_from_str(
        "pkg (1.0) stable; a=1,b=2,a=3\n\n -- A <a@b.c>  Mon, 01 Jan 2024 00:00:00 +0000\n",
    )
    .expect("entry parses");
    assert_eq!(
        e.metadata,
        vec![("a".to_string(), "3".to_string()), ("b".to_string(), "2".to_string())]
    );
}

#[test]
fn footer_fields_parse() {
    let mut e = Entry::new();
    e.parse_from_str(
        "p (1) s;\n\n -- Jane Doe <jane@example.com>  Mon, 01 Jan 2024 00:00:00 +0000\n",
    )
    .expect("entry parses");
    assert_eq!(e.author, "Jane Doe");
    assert_eq!(e.email, "jane@example.com");
    assert_eq!(e.date, 1704067200);
}

#[test]
fn footer_without_double_space_is_no_date() {
    let mut e = Entry::new();
    let r = e.parse_from_str("p (1) s;\n\n -- Jane Doe <jane@example.com> Mon, 01 Jan 2024 00:00:00 +0000\n");
    assert_eq!(r, Err(EntryError::NoDate));
}

#[test]
fn footer_bad_date() {
    let mut e = Entry::new();
    let r = e.parse_from_str("p (1) s;\n\n -- Jane <j@e.c>  yesterday at noon\n");
    assert_eq!(r, Err(EntryError::BadDate("yesterday at noon".to_string())));
}

#[test]
fn footer_author_without_email() {
    let mut e = Entry::new();
    let r = e.parse_from_str("p (1) s;\n\n -- Jane Doe  Mon, 01 Jan 2024 00:00:00 +0000\n");
    assert_eq!(r, Err(EntryError::AuthorWithoutEmail));
}

#[test]
fn footer_email_not_enclosed() {
    let mut e = Entry::new();
    let r = e.parse_from_str(
        "p (1) s;\n\n -- Jane Doe <jane@example.com  Mon, 01 Jan 2024 00:00:00 +0000\n",
    );
    assert_eq!(r, Err(EntryError::EmailNotEnclosed));
}

#[test]
fn missing_footer_is_an_error() {
    let mut e = Entry::new();
    let r = e.parse_from_str("pkg (1.0) stable; u=l\n\n  a change\n");
    assert_eq!(r, Err(EntryError::NoFooter));
}

#[test]
fn body_lines_collected_verbatim() {
    let mut e = Entry::new();
    e.parse_from_str(
        "p (1) s;\n\n  first change   \n\n   indented more\n\n -- A <a@b.c>  Mon, 01 Jan 2024 00:00:00 +0000\n",
    )
    .expect("entry parses");
    // Trailing whitespace is trimmed, the two-space indent is stripped, any
    // further indent is kept, and blank lines do not appear.
    assert_eq!(e.changes, vec!["first change".to_string(), " indented more".to_string()]);
}

#[test]
fn unindented_body_lines_are_ignored() {
    let mut e = Entry::new();
    e.parse_from_str(
        "p (1) s;\n\nnot a change\n  a change\n\n -- A <a@b.c>  Mon, 01 Jan 2024 00:00:00 +0000\n",
    )
    .expect("entry parses");
    assert_eq!(e.changes, vec!["a change".to_string()]);
}

#[test]
fn consumed_count_covers_trailing_blank_lines() {
    let text = "p (1) s;\n\n  c\n\n -- A <a@b.c>  Mon, 01 Jan 2024 00:00:00 +0000\n\n\n";
    let mut e = Entry::new();
    let n = e.parse_from_str(text).expect("entry parses");
    assert_eq!(n, text.len());
}

#[test]
fn entry_is_cleared_between_parses() {
    let mut e = Entry::new();
    e.parse_from_str(sample_entry_text()).expect("entry parses");
    e.parse_from_str("q (2) testing;\n\n -- B <b@c.d>  Tue, 02 Jan 2024 00:00:00 +0000\n")
        .expect("entry parses");
    assert_eq!(e.package, "q");
    assert!(e.changes.is_empty());
    assert_eq!(e.distributions, vec!["testing".to_string()]);
    assert!(e.metadata.is_empty());
}

#[test]
fn format_renders_canonical_text() {
    let e = Entry {
        author: "Jane Doe".to_string(),
        email: "jane@example.com".to_string(),
        changes: vec!["Fixed a bug.".to_string()],
        distributions: vec!["stable".to_string()],
        package: "pkgname".to_string(),
        version: "1.2.3".to_string(),
        metadata: vec![("urgency".to_string(), "low".to_string())],
        date: 1704067200,
    };
    assert_eq!(
        e.format(),
        "pkgname (1.2.3) stable; urgency=low\n\n  Fixed a bug.\n\n -- Jane Doe <jane@example.com>  Mon, 1 Jan 2024 00:00:00 +0000"
    );
}

#[test]
fn format_concatenates_metadata_pairs_without_separator() {
    // The reference grammar writes successive pairs back to back; this is
    // preserved exactly, so two pairs do not round-trip.
    let e = Entry {
        author: "A".to_string(),
        email: "a@b.c".to_string(),
        changes: vec![],
        distributions: vec!["s".to_string()],
        package: "p".to_string(),
        version: "1".to_string(),
        metadata: vec![
            ("a".to_string(), "1".to_string()),
            ("b".to_string(), "2".to_string()),
        ],
        date: 1704067200,
    };
    assert_eq!(e.format(), "p (1) s; a=1b=2\n\n\n -- A <a@b.c>  Mon, 1 Jan 2024 00:00:00 +0000");
}

#[test]
fn round_trip_preserves_fields() {
    let mut e = Entry::new();
    e.parse_from_str(sample_entry_text()).expect("entry parses");
    let text = e.format();
    let mut f = Entry::new();
    f.parse_from_str(&text).expect("formatted entry parses back");
    assert_eq!(f.package, e.package);
    assert_eq!(f.version, e.version);
    assert_eq!(f.distributions, e.distributions);
    assert_eq!(f.metadata, e.metadata);
    assert_eq!(f.changes, e.changes);
    assert_eq!(f.author, e.author);
    assert_eq!(f.email, e.email);
    assert_eq!(f.date, e.date);
}

#[test]
fn iterator_yields_every_entry_in_order() {
    let log = "one (1.0) stable; urgency=low\n\n  a\n\n -- A <a@b.c>  Mon, 01 Jan 2024 00:00:00 +0000\n\ntwo (2.0) testing;\n\n  b\n\n -- B <b@c.d>  Tue, 02 Jan 2024 00:00:00 +0000\n";
    let mut it = ChangelogIter::new(Entry::new(), log);
    assert_eq!(it.next(), Some(Ok(())));
    assert_eq!(it.entry.package, "one");
    assert_eq!(it.next(), Some(Ok(())));
    assert_eq!(it.entry.package, "two");
    assert_eq!(it.next(), None);
    assert_eq!(it.next(), None);
}

#[test]
fn iterator_error_poisons_the_rest() {
    let log = "one (1.0) stable;\n\n -- A <a@b.c>  Mon, 01 Jan 2024 00:00:00 +0000\n\ntwo 2.0 testing;\n\n -- B <b@c.d>  Tue, 02 Jan 2024 00:00:00 +0000\n\nthree (3.0) s;\n\n -- C <c@d.e>  Wed, 03 Jan 2024 00:00:00 +0000\n";
    let mut entry = Entry::new();
    let mut it = entry.iter_from(log);
    assert_eq!(it.next(), Some(Ok(())));
    assert_eq!(it.entry.package, "one");
    assert_eq!(it.next(), Some(Err(EntryError::VersionRequiresParenthesis)));
    // The failure ends the scan: the valid third entry is never yielded.
    assert_eq!(it.next(), None);
}

#[test]
fn iterator_on_empty_buffer_is_a_clean_end() {
    let mut it = ChangelogIter::new(Entry::new(), "");
    assert_eq!(it.next(), None);
}

#[test]
fn setters_replace_contents() {
    let mut e = Entry::new();
    e.changes(vec!["x".to_string(), "y".to_string()]);
    e.distributions(vec!["stable".to_string()]);
    assert_eq!(e.changes, vec!["x".to_string(), "y".to_string()]);
    assert_eq!(e.distributions, vec!["stable".to_string()]);
    e.changes(vec!["z".to_string()]);
    assert_eq!(e.changes, vec!["z".to_string()]);
}
