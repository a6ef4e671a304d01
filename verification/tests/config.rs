use rockdown::config::{
    validate_config, ConfigError, Theme,
    colorscheme_ids, inherit_markdown_colors, is_toml_path, parse_color, theme_from_file,
    validate_colors, MarkdownColor, MarkdownColors, ThemeError, ThemeFile, ThemeMarkdown,
    ThemeOverlay, ThemePreset,
};

fn no_colors() -> ThemeMarkdown {
    ThemeMarkdown::empty()
}

fn file(base: ThemePreset) -> ThemeFile {
    ThemeFile {
        name: None,
        base,
        theme: ThemeOverlay::default(),
        syntax: vec![None; 10],
        ansi: None,
        markdown: no_colors(),
    }
}

#[test]
fn colors_are_six_hex_digits_with_an_optional_hash() {
    assert_eq!(parse_color("#9cc7b5"), Ok(0x9cc7b5));
    assert_eq!(parse_color("FFFFFF"), Ok(0xffffff));
    assert_eq!(parse_color("#fff"), Err(ThemeError::InvalidColor));
    assert_eq!(parse_color("#gggggg"), Err(ThemeError::InvalidColor));
}

#[test]
fn colorschemes_take_their_id_and_inherit_their_base() {
    let mut f = file(ThemePreset::Paper);
    f.theme.accent = Some("#123456".to_string());
    f.syntax[1] = Some("#010203".to_string());
    let theme = theme_from_file("mine", f).unwrap();
    assert_eq!(theme.preset, "mine");
    assert_eq!(theme.name, "mine");
    assert_eq!(theme.accent, "#123456");
    assert_eq!(theme.background, ThemePreset::Paper.theme().background);
    assert_eq!(theme.syntax[1], Some(0x010203));
    assert_eq!(theme.syntax[0], None);
    assert_eq!(theme.base, ThemePreset::Paper);
}

#[test]
fn colorscheme_errors_are_reported_in_order() {
    let mut f = file(ThemePreset::Rockdown);
    f.theme.preset = Some("paper".to_string());
    assert_eq!(
        theme_from_file("x", f).err(),
        Some(ThemeError::PresetInColorscheme)
    );
    let mut f = file(ThemePreset::Rockdown);
    f.ansi = Some(vec!["#000000".to_string(); 3]);
    assert_eq!(theme_from_file("x", f).err(), Some(ThemeError::AnsiCount(3)));
    let mut f = file(ThemePreset::Rockdown);
    f.syntax[9] = Some("red".to_string());
    assert_eq!(theme_from_file("x", f).err(), Some(ThemeError::InvalidColor));
    let mut f = file(ThemePreset::Rockdown);
    f.theme.muted = Some("nope".to_string());
    assert_eq!(
        theme_from_file("x", f).err(),
        Some(ThemeError::InvalidThemeColor(3))
    );
    let mut f = file(ThemePreset::Rockdown);
    f.markdown.h2 = MarkdownColor {
        color: Some("#12".to_string()),
    };
    assert_eq!(
        theme_from_file("x", f).err(),
        Some(ThemeError::InvalidMarkdownColor(9))
    );
}

#[test]
fn a_full_terminal_palette_is_kept_in_order() {
    let mut f = file(ThemePreset::Rockdown);
    f.ansi = Some((0..16).map(|i| format!("#0000{i:02x}")).collect());
    let theme = theme_from_file("x", f).unwrap();
    let ansi = theme.ansi.unwrap();
    assert_eq!(ansi[0], 0);
    assert_eq!(ansi[15], 15);
}

#[test]
fn configured_markdown_colors_override_only_what_they_give() {
    let mut own = no_colors();
    own.colors.bold = Some("#111111".to_string());
    let mut theme = no_colors();
    theme.colors = MarkdownColors {
        bold: Some("#222222".to_string()),
        link: Some("#333333".to_string()),
        ..MarkdownColors::default()
    };
    let merged = inherit_markdown_colors(own, &theme);
    assert_eq!(merged.colors.bold.as_deref(), Some("#111111"));
    assert_eq!(merged.colors.link.as_deref(), Some("#333333"));
    assert_eq!(merged.colors.code, None);
    assert!(validate_colors(&ThemePreset::Rockdown.theme(), &merged).is_ok());
}

#[test]
fn colorscheme_discovery_lists_toml_stems_in_order() {
    let names = vec![
        "zeta.toml".to_string(),
        "alpha.toml".to_string(),
        "notes.txt".to_string(),
        ".toml".to_string(),
        "upper.TOML".to_string(),
        "mid.dark.toml".to_string(),
    ];
    assert_eq!(colorscheme_ids(&names), ["alpha", "mid.dark", "zeta"]);
    assert!(is_toml_path("/home/u/.config/rockdown/config.toml"));
    assert!(!is_toml_path("config.json"));
}

fn default_keys() -> Vec<(bool, String)> {
    vec![(true, "save".to_string()), (true, "terminal".to_string())]
}

fn validate_with(markdown: &ThemeMarkdown, heading_sizes: [bool; 6], thickness: bool) -> Result<(), ConfigError> {
    validate_config(
        "assets",
        &[true; 5],
        "Menlo",
        "/bin/sh",
        &Theme::default(),
        markdown,
        &heading_sizes,
        thickness,
        &default_keys(),
    )
}

#[test]
fn default_settings_validate() {
    assert_eq!(validate_with(&no_colors(), [true; 6], true), Ok(()));
}

#[test]
fn settings_are_checked_in_order_and_name_what_failed() {
    let theme = Theme::default();
    let keys = default_keys();
    let md = no_colors();
    assert_eq!(
        validate_config("../x", &[false; 5], "", "", &theme, &md, &[true; 6], true, &keys),
        Err(ConfigError::AssetsDir)
    );
    assert_eq!(
        validate_config("assets", &[true, true, true, false, true], "", "", &theme, &md, &[true; 6], true, &keys),
        Err(ConfigError::MeasureOutOfRange(3))
    );
    assert_eq!(
        validate_config("assets", &[true; 5], "  ", "/bin/sh", &theme, &md, &[true; 6], true, &keys),
        Err(ConfigError::EmptyFontOrShell)
    );
    assert_eq!(
        validate_config("assets", &[true; 5], "Menlo", "\t", &theme, &md, &[true; 6], true, &keys),
        Err(ConfigError::EmptyFontOrShell)
    );
    let mut bad_theme = Theme::default();
    bad_theme.muted = "#12345".to_string();
    assert_eq!(
        validate_config("assets", &[true; 5], "Menlo", "sh", &bad_theme, &md, &[true; 6], true, &keys),
        Err(ConfigError::InvalidThemeColor(3))
    );
    let unknown = vec![(true, "save".to_string()), (true, "launch".to_string())];
    assert_eq!(
        validate_config("assets", &[true; 5], "Menlo", "sh", &theme, &md, &[true; 6], true, &unknown),
        Err(ConfigError::UnknownAction(1))
    );
    let unparsed = vec![(false, "launch".to_string())];
    assert_eq!(
        validate_config("assets", &[true; 5], "Menlo", "sh", &theme, &md, &[true; 6], true, &unparsed),
        Err(ConfigError::InvalidShortcut(0))
    );
}

#[test]
fn invalid_markdown_colors_sizes_and_thickness_are_named() {
    let invalid = ["+12345", "#12345", "#gggggg", "red", "#12345678", "#12 456", "", "##123456"];
    for (index, value) in invalid.iter().enumerate() {
        let mut md = no_colors();
        let slot = match index {
            0 => &mut md.colors.normal,
            1 => &mut md.colors.bold,
            2 => &mut md.colors.italic,
            3 => &mut md.colors.bold_italic,
            4 => &mut md.colors.code,
            5 => &mut md.colors.link,
            6 => &mut md.colors.strikethrough,
            _ => &mut md.colors.quote,
        };
        *slot = Some(value.to_string());
        assert_eq!(validate_with(&md, [true; 6], true), Err(ConfigError::InvalidMarkdownColor(index)));
    }
    let mut md = no_colors();
    md.divider = MarkdownColor { color: Some("#bad".to_string()) };
    assert_eq!(validate_with(&md, [true; 6], true), Err(ConfigError::InvalidMarkdownColor(14)));
    assert_eq!(validate_with(&no_colors(), [true; 6], false), Err(ConfigError::DividerThickness));
    for level in 1..=6usize {
        let mut sizes = [true; 6];
        sizes[level - 1] = false;
        assert_eq!(validate_with(&no_colors(), sizes, true), Err(ConfigError::HeadingSize(level)));
        let mut md = no_colors();
        let color = MarkdownColor { color: Some("invalid".to_string()) };
        match level {
            1 => md.h1 = color,
            2 => md.h2 = color,
            3 => md.h3 = color,
            4 => md.h4 = color,
            5 => md.h5 = color,
            _ => md.h6 = color,
        }
        assert_eq!(validate_with(&md, [true; 6], true), Err(ConfigError::InvalidMarkdownColor(7 + level)));
    }
    let mut md = no_colors();
    md.h2 = MarkdownColor { color: Some("invalid".to_string()) };
    let mut sizes = [true; 6];
    sizes[0] = false;
    sizes[2] = false;
    assert_eq!(validate_with(&md, sizes, true), Err(ConfigError::HeadingSize(1)));
    sizes[0] = true;
    assert_eq!(validate_with(&md, sizes, true), Err(ConfigError::InvalidMarkdownColor(9)));
}

#[test]
fn image_asset_directory_configuration_stays_document_relative() {
    let check = |directory: &str| {
        validate_config(
            directory,
            &[true; 5],
            "Menlo",
            "/bin/sh",
            &Theme::default(),
            &no_colors(),
            &[true; 6],
            true,
            &default_keys(),
        )
    };
    assert_eq!(check("media/图片"), Ok(()));
    for directory in ["", "../assets", "/tmp/assets", "C:/assets"] {
        assert_eq!(check(directory), Err(ConfigError::AssetsDir));
    }
}
