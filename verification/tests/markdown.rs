use rockdown::markdown::{Alignment, BlockKind, RenderedLine, TableRow};

fn render(source: &str) -> Vec<RenderedLine> {
    rockdown::markdown::render(source).unwrap()
}

fn text(line: &RenderedLine) -> String {
    line.spans.iter().map(|span| span.text.as_str()).collect()
}

fn cell_texts(table: &TableRow) -> Vec<String> {
    table
        .cells
        .iter()
        .map(|cell| cell.iter().map(|span| span.text.as_str()).collect())
        .collect()
}

#[test]
fn task_offsets_come_from_parser_and_ignore_code() {
    let text = "- [ ] 世界\n> - [X] done\n\n```md\n- [ ] code\n```\n\nplain [ ] text";
    let projected = render(text);
    assert_eq!(projected[0].task_marker, Some(2));
    assert_eq!(projected[1].task_marker, Some(4));
    assert_eq!(projected[4].task_marker, None);
    assert_eq!(projected[7].task_marker, None);
}

#[test]
fn multiline_styles_keep_unicode_and_physical_rows() {
    let lines = render("**hé *世界*\nencore**\n\n");
    assert_eq!(lines.len(), 4);
    assert_eq!(
        lines.iter().map(|line| line.source_row).collect::<Vec<_>>(),
        vec![0, 1, 2, 3]
    );
    assert_eq!(text(&lines[0]), "hé 世界");
    assert_eq!(text(&lines[1]), "encore");
    assert!(lines[0].spans.iter().all(|span| span.bold));
    assert!(lines[0]
        .spans
        .iter()
        .any(|span| span.text == "世界" && span.italic));
    assert!(lines[1].spans[0].bold);
    assert!(lines[2].spans.is_empty());
    assert!(lines[3].spans.is_empty());
}

#[test]
fn fenced_blocks_do_not_parse_markdown_or_shift_following_rows() {
    let lines = render("```rust\n**literal**\n\n世界\n```\nafter\n");
    assert_eq!(lines.len(), 7);
    assert!(lines[0].spans.is_empty());
    assert_eq!(text(&lines[1]), "**literal**");
    assert!(lines[1].spans[0].code);
    assert!(!lines[1].spans[0].bold);
    assert!(lines[2].spans.is_empty());
    assert_eq!(text(&lines[3]), "世界");
    assert!(lines[4].spans.is_empty());
    assert_eq!(text(&lines[5]), "after");
    assert_eq!(lines[5].kind, BlockKind::Paragraph);
    assert!(lines[6].spans.is_empty());
}

#[test]
fn fenced_code_is_highlighted_with_colors_and_no_line_breaks() {
    let lines = render("```rust\nfn main() {\n    let x = 1;\n}\n```\nprose\n");
    assert!(lines[0].spans.is_empty());
    assert_eq!(text(&lines[1]), "fn main() {");
    assert_eq!(text(&lines[2]), "    let x = 1;");
    assert!(lines[4].spans.is_empty());
    assert_eq!(text(&lines[5]), "prose");
    for line in &lines[1..4] {
        assert!(!line.spans.is_empty(), "body row must have spans");
        for span in &line.spans {
            assert!(span.code);
            let hex = span.color.as_deref().expect("highlighted color");
            assert_eq!(hex.len(), 7);
            assert!(span.text.lines().count() <= 1, "no breaks in spans");
        }
    }
    let colors: Vec<_> = lines[1]
        .spans
        .iter()
        .filter_map(|s| s.color.as_deref())
        .collect();
    assert!(colors.windows(2).any(|pair| pair[0] != pair[1]));
}

#[test]
fn unknown_fence_language_highlights_as_plain_text() {
    let lines = render("```\nplain body\n```\n");
    assert_eq!(text(&lines[1]), "plain body");
    assert!(lines[1].spans.iter().all(|span| span.code));
    assert!(lines[1].spans.iter().all(|span| span.color.is_some()));
}

#[test]
fn multiline_code_keeps_container_prefixes_out_of_content() {
    let lines = render("> - before ` hé\n>   世界 ` after\n");
    assert_eq!(text(&lines[0]), "• before hé");
    assert_eq!(text(&lines[1]), "世界 after");
    assert!(lines[0]
        .spans
        .iter()
        .any(|span| span.text == "hé" && span.code));
    assert!(lines[1]
        .spans
        .iter()
        .any(|span| span.text == "世界" && span.code));
}

#[test]
fn tables_links_and_entities_keep_source_rows() {
    let lines = render(
        "| name | value |\n| --- | --- |\n| [**A**](https://a.test) | &amp; |\n\n![*alt*](image.png)\n",
    );
    let header = lines[0].table.as_ref().unwrap();
    assert_eq!(cell_texts(header), ["name", "value"]);
    assert!(header.header);
    assert!(header.cells.iter().flatten().all(|span| span.bold));
    let separator = lines[1].table.as_ref().unwrap();
    assert!(separator.separator);
    assert!(!separator.header);
    assert!(separator.cells.is_empty());
    let body = lines[2].table.as_ref().unwrap();
    assert_eq!(cell_texts(body), ["A", "&"]);
    assert!(!body.header);
    assert!(!body.separator);
    for line in &lines[..3] {
        let table = line.table.as_ref().unwrap();
        assert_eq!((table.start, table.end), (0, 3));
        assert!(line.spans.is_empty());
    }
    assert!(lines[3..].iter().all(|line| line.table.is_none()));
    let link = &body.cells[0][0];
    assert!(link.bold);
    assert_eq!(link.link.as_deref(), Some("https://a.test"));
    assert!(lines[3].spans.is_empty());
    assert_eq!(text(&lines[4]), "alt");
    assert!(lines[4].spans[0].italic);
    assert_eq!(lines[4].spans[0].link.as_deref(), Some("image.png"));
    assert!(lines[5].spans.is_empty());
}

#[test]
fn table_cells_preserve_parser_escaping_alignment_and_inline_styles() {
    let lines = render(
        "| left | center | right | plain |\n\
         | :--- | :---: | ---: | --- |\n\
         | hé\\|世界 | `a\\|b` | &vert; &amp; | [*é*](https://a.test) ~~old~~ |\n",
    );
    let table = lines[2].table.as_ref().unwrap();
    assert_eq!(
        table.alignments,
        [
            Alignment::Left,
            Alignment::Center,
            Alignment::Right,
            Alignment::Unspecified
        ]
    );
    assert_eq!(cell_texts(table), ["hé|世界", "a|b", "| &", "é old"]);
    assert!(table.cells[1][0].code);
    assert!(table.cells[3][0].italic);
    assert_eq!(table.cells[3][0].link.as_deref(), Some("https://a.test"));
    assert!(table.cells[3]
        .iter()
        .any(|span| span.text == "old" && span.strike));
    assert!(table.cells.iter().flatten().all(|span| !span.bold));
}

#[test]
fn missing_table_cells_stay_on_their_enclosing_source_row() {
    let lines = render(
        "| a | b | c |\n| --- | --- | --- |\n| | x |\n| only |\n| 1 | 2 | 3 | ignored |\n\nprose",
    );
    assert_eq!(cell_texts(lines[2].table.as_ref().unwrap()), ["", "x", ""]);
    assert_eq!(
        cell_texts(lines[3].table.as_ref().unwrap()),
        ["only", "", ""]
    );
    assert_eq!(
        cell_texts(lines[4].table.as_ref().unwrap()),
        ["1", "2", "3"]
    );
    assert!(lines[5].table.is_none());
    assert!(lines[6].table.is_none());
    assert_eq!(text(&lines[6]), "prose");
    assert_eq!(
        lines.iter().map(|line| line.source_row).collect::<Vec<_>>(),
        (0..7).collect::<Vec<_>>()
    );
}

#[test]
fn quoted_crlf_tables_and_neighboring_tables_keep_distinct_ranges() {
    let lines = render(
        "> | hé | value |\r\n> | :--- | ---: |\r\n> | 世界 | |\r\n\r\n\
         | next | table |\r\n| --- | :---: |\r\n\r\nfollowing\r\n",
    );
    for line in &lines[..3] {
        let table = line.table.as_ref().unwrap();
        assert_eq!((table.start, table.end), (0, 3));
        assert_eq!(line.kind, BlockKind::Quote);
    }
    assert_eq!(cell_texts(lines[2].table.as_ref().unwrap()), ["世界", ""]);
    assert!(lines[3].table.is_none());
    for line in &lines[4..6] {
        let table = line.table.as_ref().unwrap();
        assert_eq!((table.start, table.end), (4, 6));
        assert_eq!(
            table.alignments,
            [Alignment::Unspecified, Alignment::Center]
        );
    }
    assert!(lines[5].table.as_ref().unwrap().separator);
    assert!(lines[6..].iter().all(|line| line.table.is_none()));
    assert_eq!(text(&lines[7]), "following");
    assert_eq!(lines.len(), 9);
}

#[test]
fn header_only_table_at_eof_includes_its_delimiter() {
    let lines = render("| heading |\n| --- |");
    assert_eq!(lines.len(), 2);
    assert_eq!(cell_texts(lines[0].table.as_ref().unwrap()), ["heading"]);
    let separator = lines[1].table.as_ref().unwrap();
    assert_eq!((separator.start, separator.end), (0, 2));
    assert!(separator.separator);
    assert!(separator.cells.is_empty());
}

#[test]
fn image_titles_are_kept_for_the_preview_width() {
    let lines = render(
        "![a](a.png)\n![b](b.png \"40%\")\n![c](c.png \"320px\")\n![d](d.png \"nope\")\n",
    );
    assert_eq!(lines[0].images[0].url, "a.png");
    assert_eq!(lines[0].images[0].title, "");
    assert_eq!(lines[1].images[0].title, "40%");
    assert_eq!(lines[2].images[0].url, "c.png");
    assert_eq!(lines[2].images[0].title, "320px");
    assert_eq!(lines[3].images[0].title, "nope");
    assert_eq!(lines[3].images[0].url, "d.png");
}

#[test]
fn headings_rules_and_lists_get_their_block_kinds() {
    let lines = render("# Title\n\n---\n\n1. one\n2. two\n\n> quoted\n");
    assert_eq!(lines[0].kind, BlockKind::Heading(1));
    assert_eq!(lines[2].kind, BlockKind::Rule);
    assert_eq!(lines[4].kind, BlockKind::List);
    assert_eq!(text(&lines[4]), "1. one");
    assert_eq!(text(&lines[5]), "2. two");
    assert_eq!(lines[7].kind, BlockKind::Quote);
}

#[test]
fn an_empty_source_is_one_empty_row() {
    let lines = render("");
    assert_eq!(lines.len(), 1);
    assert_eq!(lines[0].kind, BlockKind::Paragraph);
    assert!(lines[0].spans.is_empty());
}
