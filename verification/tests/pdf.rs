use rockdown::pdf::{staged_image_name, underline_roles, InlineTag, UnderlineRole};
use rockdown::pdf::InlineTag::{Close, Open, Other};
use rockdown::pdf::{check_destination, font_style, tool_version, FontField, PdfConfig, PdfError};

fn config(main: Option<&str>, mono: Option<&str>) -> PdfConfig {
    PdfConfig {
        pandoc: "pandoc".to_string(),
        typst: "typst".to_string(),
        main_font: main.map(str::to_string),
        mono_font: mono.map(str::to_string),
    }
}

#[test]
fn versions_are_read_from_the_second_word() {
    assert_eq!(tool_version("pandoc 3.1.2\n", [3, 1, 2]), Ok([3, 1, 2]));
    assert_eq!(tool_version("typst 0.13.1 (abc)", [0, 13, 0]), Ok([0, 13, 1]));
    assert_eq!(tool_version("pandoc 3.6rc", [3, 1, 2]), Ok([3, 6, 0]));
    assert_eq!(
        tool_version("pandoc 3.6-rc1", [3, 1, 2]),
        Err(PdfError::UnrecognizedVersion)
    );
    assert_eq!(tool_version("pandoc 3.1.1", [3, 1, 2]), Err(PdfError::TooOld));
    assert_eq!(tool_version("pandoc", [3, 1, 2]), Err(PdfError::NoVersion));
    assert_eq!(
        tool_version("pandoc x.1", [3, 1, 2]),
        Err(PdfError::UnrecognizedVersion)
    );
    assert_eq!(tool_version("typst 4", [0, 13, 0]), Ok([4, 0, 0]));
}

#[test]
fn destinations_must_be_pdf_files() {
    assert_eq!(check_destination("/out/Report.PDF"), Ok(()));
    assert_eq!(check_destination("/out/report.md"), Err(PdfError::NotPdf));
    assert_eq!(check_destination("/out/.pdf"), Err(PdfError::NotPdf));
}

#[test]
fn fonts_come_from_the_installed_list_in_its_spelling() {
    let mut warnings = String::new();
    let style = font_style(
        &config(None, None),
        "Menlo\n  noto sans cjk tc  \nArial\n",
        &mut warnings,
    )
    .unwrap();
    assert_eq!(
        style,
        "#set text(font: \"noto sans cjk tc\")\n#show raw: set text(font: (\"Menlo\", \"noto sans cjk tc\",), size: 9pt)\n"
    );
    assert!(warnings.is_empty());
}

#[test]
fn missing_configured_fonts_are_refused_and_no_cjk_font_warns() {
    let mut warnings = String::from("earlier");
    assert_eq!(
        font_style(&config(Some("Nope"), None), "Menlo\n", &mut warnings),
        Err(PdfError::FontNotInstalled(FontField::Main))
    );
    assert_eq!(warnings, "earlier");
    assert_eq!(
        font_style(&config(None, Some("Nope")), "Menlo\n", &mut warnings),
        Err(PdfError::FontNotInstalled(FontField::Mono))
    );
    let style = font_style(&config(None, None), "Menlo\n", &mut warnings).unwrap();
    assert_eq!(
        style,
        "#show raw: set text(font: (\"Menlo\",), size: 9pt)\n"
    );
    assert!(warnings.starts_with("earlier\nNo known CJK font found."));
}

#[test]
fn underline_is_balanced_within_each_inline_list() {
    assert_eq!(
        underline_roles(&vec![Open, Other, Close, Other, Other]),
        vec![UnderlineRole::Begin, UnderlineRole::Keep, UnderlineRole::End, UnderlineRole::Keep, UnderlineRole::Keep]
    );
    assert_eq!(underline_roles(&vec![Open, Other]), vec![UnderlineRole::OpenText, UnderlineRole::Keep]);
    assert_eq!(underline_roles(&vec![Close]), vec![UnderlineRole::Keep]);
    assert_eq!(
        underline_roles(&vec![Open, Open, Other, Close, Close, Close]),
        vec![
            UnderlineRole::Begin,
            UnderlineRole::Begin,
            UnderlineRole::Keep,
            UnderlineRole::End,
            UnderlineRole::End,
            UnderlineRole::Keep,
        ]
    );
    assert_eq!(
        underline_roles(&vec![Open, Open, Close, Other]),
        vec![UnderlineRole::OpenText, UnderlineRole::Begin, UnderlineRole::End, UnderlineRole::Keep]
    );
    assert!(underline_roles(&Vec::new()).is_empty());
}

#[test]
fn staged_images_are_numbered_with_four_digits() {
    assert_eq!(staged_image_name(1), "image-0001.png");
    assert_eq!(staged_image_name(42), "image-0042.png");
    assert_eq!(staged_image_name(9999), "image-9999.png");
    assert_eq!(staged_image_name(12345), "image-12345.png");
}

#[test]
fn raw_nodes_are_exported_literally() {
    let block = rockdown::pdf::literal_raw_node(true, Some("typst"), "#read(\"/secret\")".to_string());
    assert_eq!(block, rockdown::pdf::LiteralNode::CodeBlock("#read(\"/secret\")".to_string()));
    let html = rockdown::pdf::literal_raw_node(false, Some("html"), "<b>".to_string());
    assert_eq!(html, rockdown::pdf::LiteralNode::Str("<b>".to_string()));
    let tex = rockdown::pdf::literal_raw_node(false, Some("tex"), "\\x".to_string());
    assert_eq!(tex, rockdown::pdf::LiteralNode::Code("\\x".to_string()));
    let none = rockdown::pdf::literal_raw_node(false, None, "y".to_string());
    assert_eq!(none, rockdown::pdf::LiteralNode::Code("y".to_string()));
}

#[test]
fn font_names_are_written_as_escaped_json_strings() {
    let mut warnings = String::new();
    let style = font_style(&config(Some("A \"B\\"), None), "A \"B\\\nMenlo\n", &mut warnings).unwrap();
    assert!(style.starts_with("#set text(font: \"A \\\"B\\\\\")\n"));
}
