use krust::config::{
    default_editor_bg, default_highlight, default_sidebar_bg, default_sidebar_fg, default_sidebar_width,
    default_syntax_theme, default_theme, load_gtk_theme_colors, load_kitty_theme_colors,
    load_system_theme_colors, parse_define_color_map, parse_key_value_colors, BehaviorConfig, Config,
    DerivedThemeColors,
};

fn pairs(v: &[(&str, &str)]) -> Vec<(String, String)> {
    v.iter().map(|(a, b)| (a.to_string(), b.to_string())).collect()
}

#[test]
fn kitty_lines_give_key_value_colors() {
    let text = "# a comment\n\nforeground   #cdd6f4\r\nbackground #1e1e2e extra\nfont_size 11\n  color18 #313244  \nlonely\n";
    assert_eq!(
        parse_key_value_colors(text),
        pairs(&[("foreground", "#cdd6f4"), ("background", "#1e1e2e"), ("color18", "#313244")])
    );
    assert!(parse_key_value_colors("").is_empty());
    assert_eq!(parse_key_value_colors("a #1\na #2"), pairs(&[("a", "#2")]));
    assert_eq!(
        parse_key_value_colors("foreground #1\nbackground #2\nforeground #3\n"),
        pairs(&[("foreground", "#3"), ("background", "#2")])
    );
    assert_eq!(
        parse_define_color_map("@define-color x #1;\n@define-color y #2;\n@define-color x #3;\n"),
        pairs(&[("x", "#3"), ("y", "#2")])
    );
}

#[test]
fn gtk_lines_give_defined_colors() {
    let text = "@define-color accent_color #3584e4;\n  @define-color window_bg_color  #242424 ;;\n@define-color named red;\n@import url(x);\n@define-color\n";
    assert_eq!(
        parse_define_color_map(text),
        pairs(&[("accent_color", "#3584e4"), ("window_bg_color", "#242424")])
    );
}

#[test]
fn kitty_colors_take_the_first_key_set_and_the_last_value() {
    let d = load_kitty_theme_colors(
        "tab_bar_background #111111\ncolor18 #222222\nactive_tab_foreground #333333\nselection_background #444444\nselection_background #555555\n",
    );
    assert_eq!(d.sidebar_bg.as_deref(), Some("#111111"));
    assert_eq!(d.sidebar_fg.as_deref(), Some("#333333"));
    assert_eq!(d.editor_bg, None);
    assert_eq!(d.highlight.as_deref(), Some("#555555"));
}

#[test]
fn gtk_colors_map_the_theme_names() {
    let d = load_gtk_theme_colors(
        "@define-color window_fg_color #eeeeee;\n@define-color view_bg_color #1d1d1d;\n@define-color accent_bg_color #3584e4;\n",
    );
    assert_eq!(d.sidebar_bg, None);
    assert_eq!(d.sidebar_fg.as_deref(), Some("#eeeeee"));
    assert_eq!(d.editor_bg.as_deref(), Some("#1d1d1d"));
    assert_eq!(d.highlight.as_deref(), Some("#3584e4"));
}

#[test]
fn kitty_takes_precedence_over_gtk() {
    let d = load_system_theme_colors(Some("background #000001\n"), Some("@define-color view_bg_color #000002;\n"));
    assert_eq!(d.editor_bg.as_deref(), Some("#000001"));
    let d = load_system_theme_colors(Some("nothing here\n"), Some("@define-color view_bg_color #000002;\n"));
    assert_eq!(d.editor_bg, None);
    let d = load_system_theme_colors(None, Some("@define-color view_bg_color #000002;\n"));
    assert_eq!(d.editor_bg.as_deref(), Some("#000002"));
    let d = load_system_theme_colors(None, None);
    assert!(d.sidebar_bg.is_none() && d.sidebar_fg.is_none() && d.editor_bg.is_none() && d.highlight.is_none());
}

#[test]
fn defaults_fall_back_to_fixed_colors() {
    let none = DerivedThemeColors { sidebar_bg: None, sidebar_fg: None, editor_bg: None, highlight: None };
    assert_eq!(default_theme(), "dark");
    assert_eq!(default_syntax_theme(), "r3bl");
    assert_eq!(default_sidebar_bg(&none), "#1e1e2e");
    assert_eq!(default_sidebar_fg(&none), "#cdd6f4");
    assert_eq!(default_editor_bg(&none), "#1e1e2e");
    assert_eq!(default_highlight(&none), "#45475a");
    assert_eq!(default_sidebar_width(), 25);
    let some = DerivedThemeColors {
        sidebar_bg: Some("#010101".to_string()),
        sidebar_fg: None,
        editor_bg: None,
        highlight: Some("#020202".to_string()),
    };
    let c = Config::from_system(&some);
    assert_eq!(c.appearance.colors.sidebar_bg, "#010101");
    assert_eq!(c.appearance.colors.sidebar_fg, "#cdd6f4");
    assert_eq!(c.appearance.colors.highlight, "#020202");
    assert_eq!(c.appearance.theme, "dark");
    assert!(!c.behavior.show_hidden && !c.behavior.follow_symlinks);
    let b = BehaviorConfig::default();
    assert_eq!(b.sidebar_width, 25);
}

#[test]
fn colour_files_are_read_line_by_line() {
    let a = "foreground #aaaaaa\n# note\n";
    let b = "background #bbbbbb\nforeground #cccccc";
    assert_eq!(
        parse_key_value_colors(&format!("{}{}", a, b)),
        pairs(&[("foreground", "#cccccc"), ("background", "#bbbbbb")])
    );
    let c = "background #bbbbbb\ncolor18 #cccccc";
    let mut joined = parse_key_value_colors(a);
    joined.extend(parse_key_value_colors(c));
    assert_eq!(parse_key_value_colors(&format!("{}{}", a, c)), joined);
    let g1 = "@define-color a #010101;\n";
    let g2 = "@define-color b #020202;\n";
    let mut gj = parse_define_color_map(g1);
    gj.extend(parse_define_color_map(g2));
    assert_eq!(parse_define_color_map(&format!("{}{}", g1, g2)), gj);
}
