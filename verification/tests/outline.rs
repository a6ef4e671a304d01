use rockdown::outline::{filter_outline, resolve_anchor, unique_anchor, Heading};

fn outline(source: &str) -> Vec<Heading> {
    rockdown::outline::outline(source).unwrap()
}

#[test]
fn parser_maps_visible_labels_and_nested_multiline_headings() {
    let source = [
        "Préface\r\n\r\n",
        "# A *bold* [link](https://example.com) ![alt `code`](image.png) &amp; <em>HTML</em> ###\r\n",
        "\r\n",
        "> ## Quoted ~~old~~\r\n\r\n",
        "- ### Listed\r\n\r\n",
        "Setext *first*\r\nsecond `line`\r\n===\r\n\r\n",
        "```md\r\n# Not a heading\r\n```\r\n\r\n",
        "    # Also code\r\n\r\n",
        "Escaped \\# and \\*literal\\*\r\n---\r\n",
    ]
    .concat();
    let source = source.as_str();
    let actual: Vec<_> = outline(source)
        .into_iter()
        .map(|heading| (heading.row, heading.level, heading.title))
        .collect();
    assert_eq!(
        actual,
        vec![
            (2, 1, "A bold link alt code & HTML".into()),
            (4, 2, "Quoted old".into()),
            (6, 3, "Listed".into()),
            (8, 1, "Setext first second line".into()),
            (18, 2, "Escaped # and *literal*".into()),
        ]
    );
}

#[test]
fn anchors_disambiguate_duplicates_and_numeric_title_collisions() {
    let source = "# Foo\n# Foo-1\n# Foo\n# Foo\n# Foo-1\n# Foo-2\n";
    let headings = outline(source);
    assert_eq!(
        headings
            .iter()
            .map(|heading| heading.anchor.as_str())
            .collect::<Vec<_>>(),
        ["foo", "foo-1", "foo-2", "foo-3", "foo-1-1", "foo-2-1"]
    );
    assert_eq!(resolve_anchor(&headings, "#foo-2"), Some(2));
    assert_eq!(resolve_anchor(&headings, "foo-2-1"), Some(5));
}

#[test]
fn unicode_fragments_decode_once_without_losing_combining_marks() {
    let headings = outline("# CAFÉ 中文!\n# İ E\u{301} _ok_ `under_score`\n# CAFÉ 中文!\n");
    assert_eq!(headings[0].anchor, "café-中文");
    assert_eq!(headings[1].anchor, "i\u{307}-e\u{301}-ok-under_score");
    assert_eq!(
        resolve_anchor(&headings, "#caf%C3%A9-%E4%B8%AD%E6%96%87"),
        Some(0)
    );
    assert_eq!(resolve_anchor(&headings, "#café-中文-1"), Some(2));
    assert_eq!(resolve_anchor(&headings, "#caf%25C3%25A9-中文"), None);
}

#[test]
fn malformed_empty_and_unknown_fragments_do_not_resolve() {
    let headings = outline("# A B\n# !!!\n");
    for fragment in [
        "", "#", "#missing", "#A-B", "#a+b", "#a%20b", "#%", "#%2", "#%GG", "#%FF", "#%C0%AF",
    ] {
        assert_eq!(resolve_anchor(&headings, fragment), None, "{fragment:?}");
    }
    assert_eq!(resolve_anchor(&headings, "#a%2db"), Some(0));
}

#[test]
fn anchors_record_the_last_suffix_of_each_slug() {
    let mut anchors: Vec<(String, usize)> = Vec::new();
    assert_eq!(unique_anchor("Foo", &mut anchors), "foo");
    assert_eq!(unique_anchor("Foo", &mut anchors), "foo-1");
    assert_eq!(unique_anchor("Foo", &mut anchors), "foo-2");
    assert_eq!(anchors.len(), 3);
    assert!(anchors.contains(&("foo".to_string(), 2)));
}

#[test]
fn headings_outside_code_only_and_empty_titles_get_empty_anchors() {
    let headings = outline("```\n# no\n```\n#\n");
    assert_eq!(headings.len(), 1);
    assert_eq!(headings[0].row, 3);
    assert_eq!(headings[0].anchor, "");
}

fn heading(title: &str) -> Heading {
    Heading { row: 0, level: 1, title: title.to_string(), anchor: String::new() }
}

#[test]
fn outline_queries_match_titles_ignoring_case() {
    let hs = vec![heading("Intro"), heading("ÜBER Alles"), heading("intro part"), heading("Other")];
    assert_eq!(filter_outline(&hs, "INTRO"), vec![0, 2]);
    assert_eq!(filter_outline(&hs, "über"), vec![1]);
    assert_eq!(filter_outline(&hs, ""), vec![0, 1, 2, 3]);
    assert_eq!(filter_outline(&hs, "missing"), Vec::<usize>::new());
    assert_eq!(filter_outline(&hs, "o p"), vec![2]);
}
