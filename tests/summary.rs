use auto_gen_summary::guard::{
    fingerprints_differ, join, md5, needs_write, normalize_dir, summary_text,
};
use auto_gen_summary::model::{
    AutoGenSummary, ConfigError, DirListing, FileEntry, ListingEntry, MdFile, MdGroup,
};
use auto_gen_summary::render::{count, gen_summary_lines};
use auto_gen_summary::scan::{is_doc_name, walk_dir};
use auto_gen_summary::text::get_title;

fn file(dir: &str, name: &str, content: &str) -> ListingEntry {
    ListingEntry::File(FileEntry {
        file_name: name.to_string(),
        path: format!("{}{}", dir, name),
        content: content.to_string(),
    })
}

fn dir(name: &str, path: &str, entries: Vec<ListingEntry>) -> DirListing {
    DirListing { name: name.to_string(), path: path.to_string(), entries }
}

fn book_with_intro() -> DirListing {
    dir(
        "book",
        "book/",
        vec![
            file("book/", "README.md", "# Welcome here\n"),
            file("book/", "intro.md", "# Getting Started\n\nSome text.\n"),
        ],
    )
}

fn src_with_guide_and_scratch() -> DirListing {
    let guide = dir(
        "guide",
        "src/guide",
        vec![
            file("src/guide/", "README.md", "# Guide\n"),
            file("src/guide/", "setup.md", "# Setting up\n"),
        ],
    );
    let scratch = dir("scratch", "src/scratch", vec![file("src/scratch/", "notes.md", "# Notes\n")]);
    dir(
        "src",
        "src/",
        vec![file("src/", "README.md", "# Home\n"), ListingEntry::Dir(guide), ListingEntry::Dir(scratch)],
    )
}

#[test]
fn root_with_one_document_links_by_name() {
    let text = summary_text(&"book".to_string(), &book_with_intro(), false);
    assert_eq!(text, "# Summary\n\n\n----\n* [book](README.md)\n* [intro](intro.md)");
    assert!(text.contains("* [intro](intro.md)"));
}

#[test]
fn root_with_one_document_links_by_title() {
    let text = summary_text(&"book".to_string(), &book_with_intro(), true);
    assert_eq!(text, "# Summary\n\n\n----\n* [book](README.md)\n* [Getting Started](intro.md)");
}

#[test]
fn subdirectory_with_index_is_listed_and_one_without_is_pruned() {
    let text = summary_text(&"src".to_string(), &src_with_guide_and_scratch(), false);
    assert_eq!(
        text,
        "# Summary\n\n\n* [Welcome](README.md)\n\n\n----\n* [guide](guide/README.md)\n    * [setup](guide/setup.md)"
    );
    assert!(!text.contains("scratch"));
    assert!(!text.contains("notes"));
}

#[test]
fn source_root_is_shown_as_welcome_without_separator() {
    let listing = dir("src", "src/", vec![file("src/", "README.md", "")]);
    let text = summary_text(&"src/".to_string(), &listing, false);
    assert_eq!(text, "# Summary\n\n\n* [Welcome](README.md)");
    assert!(!text.contains("----"));
}

#[test]
fn second_run_over_unchanged_tree_writes_nothing() {
    let first = summary_text(&"src".to_string(), &src_with_guide_and_scratch(), false);
    let old = String::new();
    assert!(needs_write(&old, &first));
    let on_disk = first.clone();
    let second = summary_text(&"src".to_string(), &src_with_guide_and_scratch(), false);
    assert!(!needs_write(&on_disk, &second));
}

#[test]
fn guard_leaves_equal_text_alone_and_rewrites_changed_text() {
    let a = "# Summary\n* [a](a.md)".to_string();
    let b = "# Summary\n* [b](b.md)".to_string();
    assert!(!needs_write(&a, &a.clone()));
    assert!(needs_write(&a, &b));
    let after = if needs_write(&a, &b) { b.clone() } else { a.clone() };
    assert!(!needs_write(&after, &b));
}

#[test]
fn file_without_extension_is_skipped() {
    let listing = dir(
        "docs",
        "docs/",
        vec![
            file("docs/", "README.md", ""),
            file("docs/", "draft", "# Draft\n"),
            file("docs/", "notes.txt", "# Notes\n"),
            file("docs/", "Upper.MD", "# Upper\n"),
        ],
    );
    let group = walk_dir(&listing);
    assert!(group.has_readme);
    assert_eq!(group.md_list.len(), 1);
    assert_eq!(group.md_list[0].name, "Upper");
    assert_eq!(group.md_list[0].title, "Upper");
    assert_eq!(group.md_list[0].path, "docs/Upper.MD");
    assert!(!is_doc_name("draft"));
    assert!(!is_doc_name("notes.txt"));
    assert!(!is_doc_name("README.md"));
    assert!(is_doc_name("Upper.MD"));
    assert!(is_doc_name("a.b.md"));
}

#[test]
fn stem_is_split_at_the_last_dot() {
    let listing = dir("docs", "docs/", vec![file("docs/", "v1.2.md", "")]);
    let group = walk_dir(&listing);
    assert!(!group.has_readme);
    assert_eq!(group.md_list.len(), 1);
    assert_eq!(group.md_list[0].name, "v1.2");
    assert_eq!(group.md_list[0].title, "");
}

#[test]
fn index_document_only_marks_the_group() {
    let listing = dir("docs", "docs/", vec![file("docs/", "README.md", "# Home\n")]);
    let group = walk_dir(&listing);
    assert!(group.has_readme);
    assert!(group.md_list.is_empty());
    assert!(group.group_list.is_empty());
    assert_eq!(group.name, "docs");
    assert_eq!(group.path, "docs/");
}

#[test]
fn subdirectory_without_own_index_is_dropped_with_its_indexed_child() {
    let inner = dir("inner", "r/outer/inner", vec![file("r/outer/inner/", "README.md", "")]);
    let outer = dir("outer", "r/outer", vec![ListingEntry::Dir(inner)]);
    let listing = dir("r", "r/", vec![file("r/", "README.md", ""), ListingEntry::Dir(outer)]);
    let group = walk_dir(&listing);
    assert!(group.group_list.is_empty());
    let text = summary_text(&"r".to_string(), &listing, false);
    assert!(!text.contains("outer"));
    assert!(!text.contains("inner"));
}

#[test]
fn reserved_names_are_never_listed() {
    let sub = dir(
        "part",
        "b/part",
        vec![file("b/part/", "README.md", ""), file("b/part/", "page.md", "")],
    );
    let listing = dir(
        "b",
        "b/",
        vec![
            file("b/", "README.md", ""),
            file("b/", "SUMMARY.md", "# Summary\n"),
            ListingEntry::Dir(sub),
        ],
    );
    let text = summary_text(&"b".to_string(), &listing, false);
    assert_eq!(
        text,
        "# Summary\n\n\n----\n* [b](README.md)\n\n\n----\n* [part](part/README.md)\n    * [page](part/page.md)"
    );
    assert!(!text.contains("(SUMMARY.md)"));
}

#[test]
fn documents_without_title_keep_their_name() {
    let listing = dir(
        "b",
        "b/",
        vec![file("b/", "README.md", ""), file("b/", "plain.md", "no heading here\n## Second level\n")],
    );
    let text = summary_text(&"b".to_string(), &listing, true);
    assert!(text.ends_with("* [plain](plain.md)"));
}

#[test]
fn deeper_groups_are_indented() {
    let c = dir(
        "c",
        "r/b/c",
        vec![file("r/b/c/", "README.md", ""), file("r/b/c/", "x.md", "# X\n")],
    );
    let b = dir("b", "r/b", vec![file("r/b/", "README.md", ""), ListingEntry::Dir(c)]);
    let listing = dir("r", "r/", vec![file("r/", "README.md", ""), ListingEntry::Dir(b)]);
    let text = summary_text(&"r".to_string(), &listing, true);
    assert_eq!(
        text,
        "# Summary\n\n\n----\n* [r](README.md)\n\n\n----\n* [b](b/README.md)\n    * [c](b/c/README.md)\n        * [X](b/c/x.md)"
    );
}

#[test]
fn summary_lines_of_a_built_group() {
    let group = MdGroup {
        name: "src".to_string(),
        path: "/home/u/book/src/".to_string(),
        has_readme: true,
        group_list: vec![],
        md_list: vec![MdFile {
            name: "intro".to_string(),
            title: "Intro".to_string(),
            path: "/home/u/book/src/intro.md".to_string(),
        }],
    };
    let lines = gen_summary_lines("/home/u/book/src/", &group, false);
    assert_eq!(lines, vec!["# Summary", "\n", "* [Welcome](README.md)", "* [intro](intro.md)"]);
    let lines = gen_summary_lines("/home/u/book/src/", &group, true);
    assert_eq!(lines[3], "* [Intro](intro.md)");
}

#[test]
fn title_is_the_first_top_level_heading() {
    assert_eq!(get_title("text\n# First #\n# Second\n"), "First");
    assert_eq!(get_title("#NoSpace\n## Sub\n#  Padded  \r\n"), "Padded");
    assert_eq!(get_title(" # indented\n"), "");
    assert_eq!(get_title(""), "");
    assert_eq!(get_title("# \n# Later\n"), "");
    assert_eq!(get_title("# Über café"), "Über café");
}

#[test]
fn count_gives_path_segments() {
    assert_eq!(count(&"".to_string()), 1);
    assert_eq!(count(&"a".to_string()), 1);
    assert_eq!(count(&"a/b/c.md".to_string()), 3);
}

#[test]
fn join_puts_newlines_between_lines_only() {
    assert_eq!(join(&vec![]), "");
    assert_eq!(join(&vec!["a".to_string()]), "a");
    assert_eq!(join(&vec!["a".to_string(), "".to_string(), "b".to_string()]), "a\n\nb");
}

#[test]
fn source_dir_gets_one_trailing_slash() {
    assert_eq!(normalize_dir(&"book/src".to_string()), "book/src/");
    assert_eq!(normalize_dir(&"book/src/".to_string()), "book/src/");
}

#[test]
fn fingerprint_is_uppercase_md5_hex() {
    assert_eq!(md5(&String::new()), "D41D8CD98F00B204E9800998ECF8427E");
    assert_eq!(md5(&"abc".to_string()), "900150983CD24FB0D6963F7D28E17F72");
}

#[test]
fn preprocessor_name_and_renderers() {
    let p = AutoGenSummary::new();
    assert_eq!(p.name(), "auto-gen-summary");
    assert!(p.supports_renderer("html"));
    assert!(!p.supports_renderer("not-supported"));
}

#[test]
fn configuration_options() {
    let p = AutoGenSummary::new();
    assert_eq!(p.link_by_title(true, Some(true)), Err(ConfigError::ForcedFailure));
    assert_eq!(p.link_by_title(false, None), Ok(false));
    assert_eq!(p.link_by_title(false, Some(true)), Ok(true));
    assert_eq!(p.link_by_title(false, Some(false)), Ok(false));
}

#[test]
fn documents_and_groups_are_ordered_by_name() {
    let zed = dir("zed", "b/zed", vec![file("b/zed/", "README.md", "")]);
    let mid = dir("mid", "b/mid", vec![file("b/mid/", "README.md", "")]);
    let listing = dir(
        "b",
        "b/",
        vec![
            file("b/", "zeta.md", ""),
            ListingEntry::Dir(zed),
            file("b/", "alpha.md", ""),
            ListingEntry::Dir(mid),
            file("b/", "README.md", ""),
            file("b/", "Beta.md", ""),
        ],
    );
    let group = walk_dir(&listing);
    let doc_names: Vec<&str> = group.md_list.iter().map(|m| m.name.as_str()).collect();
    assert_eq!(doc_names, vec!["Beta", "alpha", "zeta"]);
    let group_names: Vec<&str> = group.group_list.iter().map(|g| g.name.as_str()).collect();
    assert_eq!(group_names, vec!["mid", "zed"]);
    let text = summary_text(&"b".to_string(), &listing, false);
    assert_eq!(
        text,
        "# Summary\n\n\n----\n* [b](README.md)\n* [Beta](Beta.md)\n* [alpha](alpha.md)\n* [zeta](zeta.md)\n\n\n----\n* [mid](mid/README.md)\n\n\n----\n* [zed](zed/README.md)"
    );
}

#[test]
fn listing_order_does_not_change_the_summary() {
    let forward = dir(
        "b",
        "b/",
        vec![file("b/", "README.md", ""), file("b/", "a.md", "# A\n"), file("b/", "b.md", "# B\n")],
    );
    let backward = dir(
        "b",
        "b/",
        vec![file("b/", "b.md", "# B\n"), file("b/", "a.md", "# A\n"), file("b/", "README.md", "")],
    );
    let one = summary_text(&"b".to_string(), &forward, true);
    let two = summary_text(&"b".to_string(), &backward, true);
    assert_eq!(one, two);
    assert!(!needs_write(&one, &two));
}

#[test]
fn only_the_root_is_shown_under_the_welcome_label() {
    let group = MdGroup {
        name: "book".to_string(),
        path: "/b/book/".to_string(),
        has_readme: true,
        md_list: vec![],
        group_list: vec![MdGroup {
            name: "src".to_string(),
            path: "/b/book/src".to_string(),
            has_readme: true,
            group_list: vec![],
            md_list: vec![],
        }],
    };
    let lines = gen_summary_lines("/b/book/", &group, false);
    assert!(lines.iter().any(|l| l.trim_start() == "* [src](src/README.md)"));
    assert!(!lines.iter().any(|l| l.contains("[Welcome]")));
    assert_eq!(
        lines,
        vec!["# Summary", "\n", "----", "* [book](README.md)", "\n", "----", "* [src](src/README.md)"]
    );
}

#[test]
fn summary_file_is_never_a_document() {
    let listing = dir("docs", "docs/", vec![file("docs/", "SUMMARY.md", "# Summary\n")]);
    let group = walk_dir(&listing);
    assert!(group.md_list.is_empty());
    assert!(!group.has_readme);
    assert!(!is_doc_name("SUMMARY.md"));
    let nested = dir("part", "b/part", vec![file("b/part/", "README.md", ""), file("b/part/", "SUMMARY.md", "")]);
    let group = walk_dir(&nested);
    assert!(group.md_list.is_empty());
}

#[test]
fn fingerprint_has_thirty_two_hex_digits() {
    let fp = md5(&"some summary text".to_string());
    assert_eq!(fp.chars().count(), 32);
    assert!(fp.chars().all(|c| c.is_ascii_digit() || ('A'..='F').contains(&c)));
    assert_eq!(fp, md5(&"some summary text".to_string()));
    assert_ne!(fp, md5(&"other text".to_string()));
}

#[test]
fn rerun_lists_the_written_summary_and_writes_nothing() {
    let first_listing = src_with_guide_and_scratch();
    let first = summary_text(&"src".to_string(), &first_listing, false);
    assert!(needs_write(&String::new(), &first));
    let mut second_listing = src_with_guide_and_scratch();
    second_listing.entries.push(file("src/", "SUMMARY.md", &first));
    let second = summary_text(&"src".to_string(), &second_listing, false);
    assert_eq!(second, first);
    assert!(!needs_write(&first, &second));
}

#[test]
fn rewritten_summary_content_is_ignored() {
    let mut listing = book_with_intro();
    listing.entries.push(file("book/", "SUMMARY.md", "stale"));
    let stale = summary_text(&"book".to_string(), &listing, false);
    let fresh = summary_text(&"book".to_string(), &book_with_intro(), false);
    assert_eq!(stale, fresh);
    assert!(needs_write(&"stale".to_string(), &stale));
}

#[test]
fn file_without_extension_does_not_change_the_scan() {
    let mut with_draft = book_with_intro();
    with_draft.entries.insert(0, file("book/", "draft", "# Draft\n"));
    let a = summary_text(&"book".to_string(), &with_draft, true);
    let b = summary_text(&"book".to_string(), &book_with_intro(), true);
    assert_eq!(a, b);
    assert!(!a.contains("draft"));
}

#[test]
fn fingerprints_compare_by_content() {
    assert!(!fingerprints_differ(&"AB".to_string(), &"AB".to_string()));
    assert!(fingerprints_differ(&"AB".to_string(), &"AC".to_string()));
}

#[test]
fn title_trims_unicode_white_space() {
    assert_eq!(get_title("# \u{3000}Title\u{a0}\t\n"), "Title");
    assert_eq!(get_title("#  \u{2003}##"), "");
    assert_eq!(get_title("# a b #"), "a b");
}
