//! The statusline, the breadcrumbs in it, and how texts and configurations are put together.

use helix_views::breadcrumbs::{Breadcrumb, BreadcrumbSegment};
use helix_views::config::{Config, ConfigLoadError, ConfigRaw, EditorSource};
use helix_views::names::{parse_path, TreePath};
use helix_views::pieces::{pieces_width, Piece};
use helix_views::rect::Rect;
use helix_views::status_elements::{
    render_breadcrumbs, render_code_action_hint, render_diagnostics, render_file_base_name,
    render_file_indent_style, render_file_line_ending, render_file_modification_indicator,
    render_file_name, render_mode, render_named, render_position, render_position_percentage,
    render_primary_selection_length, render_read_only_indicator, render_register,
    render_selections, render_total_line_numbers, render_workspace_diagnostics, IndentStyle,
    LineEnding, Mode, ModeNames, Severity,
};
use helix_views::statusline::{lay_out, RenderContext, StatusLineElement, Stretch};
use helix_views::style::{Color, Style};
use helix_views::surface::{symbols, Surface, Symbol};
use helix_views::theme::{Theme, ThemeScope};
use helix_views::trail::{breadcrumb_trail, leave_out, style_breadcrumb, BreadcrumbsConfig};

const BREADCRUMBS: [&str; 3] = ["mod a", "impl Editor", "fn render"];

fn plain(text: &str) -> Piece {
    Piece::styled(text.to_owned(), Style::default())
}

fn text(pieces: &[Piece]) -> String {
    pieces.iter().map(|piece| piece.text.as_str()).collect()
}

fn trail(breadcrumbs: &[&str], config: &BreadcrumbsConfig, overflow: usize) -> String {
    let breadcrumbs: Vec<_> = breadcrumbs.iter().map(|text| vec![plain(text)]).collect();
    text(&breadcrumb_trail(
        &breadcrumbs,
        config,
        Style::default(),
        overflow,
    ))
}

#[test]
fn breadcrumb_trail_separators() {
    let config = BreadcrumbsConfig::default();
    assert_eq!(
        trail(&BREADCRUMBS, &config, 0),
        "> mod a > impl Editor > fn render "
    );
    assert_eq!(trail(&[], &config, 0), "");

    let config = BreadcrumbsConfig {
        separator: "›".to_string(),
        leading_separator: false,
        ..Default::default()
    };
    assert_eq!(
        trail(&BREADCRUMBS, &config, 0),
        "mod a › impl Editor › fn render "
    );
}

#[test]
fn breadcrumb_trail_truncation() {
    let config = BreadcrumbsConfig::default();
    // Replacing "> mod a " with "… " saves six columns.
    assert_eq!(
        trail(&BREADCRUMBS, &config, 1),
        "… > impl Editor > fn render "
    );
    assert_eq!(
        trail(&BREADCRUMBS, &config, 6),
        "… > impl Editor > fn render "
    );
    assert_eq!(trail(&BREADCRUMBS, &config, 7), "… > fn render ");
    // The innermost breadcrumb is always kept.
    assert_eq!(trail(&BREADCRUMBS, &config, 100), "… > fn render ");
    assert_eq!(trail(&BREADCRUMBS[2..], &config, 100), "> fn render ");

    let config = BreadcrumbsConfig {
        leading_separator: false,
        ..Default::default()
    };
    assert_eq!(
        trail(&BREADCRUMBS, &config, 1),
        "… > impl Editor > fn render "
    );

    let config = BreadcrumbsConfig {
        truncate: false,
        ..Default::default()
    };
    assert_eq!(
        trail(&BREADCRUMBS, &config, 100),
        "> mod a > impl Editor > fn render "
    );
}

#[test]
fn the_fewest_breadcrumbs_are_left_out() {
    assert_eq!(leave_out(&vec![34, 28, 14], true, 0), 0);
    assert_eq!(leave_out(&vec![34, 28, 14], true, 6), 1);
    assert_eq!(leave_out(&vec![34, 28, 14], true, 7), 2);
    assert_eq!(leave_out(&vec![34, 28, 14], true, 100), 2);
    assert_eq!(leave_out(&vec![34, 28, 14], false, 7), 0);
    assert_eq!(leave_out(&vec![34], true, 7), 0);
}

fn red() -> Style {
    Style::default().fg(Color::Red)
}

fn theme() -> Theme {
    Theme {
        scopes: vec![ThemeScope {
            name: "keyword".to_owned(),
            style: red(),
        }],
    }
}

fn breadcrumb(segments: &[(&str, &str)]) -> Breadcrumb {
    Breadcrumb {
        segments: segments
            .iter()
            .map(|(scope, text)| BreadcrumbSegment {
                scope: scope.to_string(),
                text: text.to_string(),
            })
            .collect(),
    }
}

#[test]
fn breadcrumbs_are_styled_by_their_scopes() {
    let crumb = breadcrumb(&[("keyword.function", "fn"), ("function", "main")]);
    let pieces = style_breadcrumb(&crumb, &theme());
    assert_eq!(text(&pieces), "fn main");
    assert_eq!(pieces[0].style, red());
    assert_eq!(pieces[pieces.len() - 1].style, Style::default());

    let config = BreadcrumbsConfig::default();
    let crumbs = vec![crumb, breadcrumb(&[("keyword", "if")])];
    let (trail, shrinks) = render_breadcrumbs(&crumbs, &config, &theme(), 0);
    assert_eq!(text(&trail), "> fn main > if ");
    assert!(shrinks);
    let (trail, shrinks) = render_breadcrumbs(&crumbs, &config, &theme(), 1);
    assert_eq!(text(&trail), "… > if ");
    assert!(shrinks);
    // a single one is always shown
    assert!(!render_breadcrumbs(&vec![breadcrumb(&[])], &config, &theme(), 0).1);
}

#[test]
fn themes_fall_back_to_wider_scopes() {
    let theme = theme();
    assert_eq!(theme.try_get_exact("keyword"), Some(red()));
    assert_eq!(theme.try_get_exact("keyword.control"), None);
    assert_eq!(theme.try_get("keyword.control.return"), Some(red()));
    assert_eq!(theme.try_get("keywords"), None);
    assert_eq!(theme.get("function"), Style::default());
}

#[test]
fn diagnostics_are_counted_by_severity() {
    let found = vec![Some(Severity::Error), None, Some(Severity::Warning), Some(Severity::Error), Some(Severity::Hint)];
    let theme = Theme { scopes: Vec::new() };
    assert_eq!(
        text(&render_diagnostics(&found, &vec![Severity::Error, Severity::Warning], &theme)),
        "● 2 ● 1 "
    );
    // without a severity it is a hint
    assert_eq!(
        text(&render_diagnostics(&found, &vec![Severity::Hint, Severity::Info], &theme)),
        "● 2 "
    );
    assert_eq!(
        text(&render_workspace_diagnostics(
            &found,
            &vec![Severity::Warning],
            &theme
        )),
        " W ● 1 "
    );
    // the mark is not shown alone
    assert_eq!(
        text(&render_workspace_diagnostics(&found, &vec![Severity::Info], &theme)),
        ""
    );
}

fn mode_names() -> ModeNames {
    ModeNames {
        normal: "NOR".to_owned(),
        select: "SEL".to_owned(),
        insert: "INS".to_owned(),
    }
}

#[test]
fn elements_say_what_they_are_for() {
    let theme = Theme {
        scopes: vec![ThemeScope {
            name: "ui.statusline.insert".to_owned(),
            style: red(),
        }],
    };
    let mode = |mode, focused, color| render_mode(mode, &mode_names(), focused, color, &theme);
    assert_eq!(mode(Mode::Normal, true, false).text, " NOR ");
    assert_eq!(mode(Mode::Insert, true, true).style, red());
    assert_eq!(mode(Mode::Insert, true, false).style, Style::default());
    assert_eq!(mode(Mode::Select, false, true).text, "     ");

    assert_eq!(render_selections(1, 0), " 1 sel ");
    assert_eq!(render_selections(3, 1), " 2/3 sels ");
    assert_eq!(render_primary_selection_length(1), " 1 char ");
    assert_eq!(render_primary_selection_length(20), " 20 chars ");
    assert_eq!(render_position(9, 0), " 10:1 ");
    assert_eq!(render_total_line_numbers(120), " 120 ");
    assert_eq!(render_position_percentage(0, 3), "33%");
    assert_eq!(render_position_percentage(2, 3), "100%");
    assert_eq!(render_file_line_ending(LineEnding::Crlf), " CRLF ");
    assert_eq!(render_file_indent_style(IndentStyle::Tabs), " tabs ");
    assert_eq!(render_file_indent_style(IndentStyle::Spaces(1)), " 1 space ");
    assert_eq!(
        render_file_indent_style(IndentStyle::Spaces(4)),
        " 4 spaces "
    );
    assert_eq!(render_named(Some("rust"), "text"), " rust ");
    assert_eq!(render_named(None, "text"), " text ");
    assert_eq!(render_file_modification_indicator(true), "[+]");
    assert_eq!(render_file_modification_indicator(false), "   ");
    assert_eq!(render_read_only_indicator(true), " [readonly] ");
    assert_eq!(render_read_only_indicator(false), "");
    assert_eq!(render_register(Some('a')).as_deref(), Some(" reg=a "));
    assert_eq!(render_register(None), None);
    assert_eq!(render_code_action_hint(true, true).as_deref(), Some(" ⋮ "));
    assert_eq!(render_code_action_hint(false, true), None);
    assert_eq!(render_code_action_hint(true, false), None);

    let path: TreePath = parse_path(b"src/ui/mod.rs");
    assert_eq!(
        render_file_name(Some(&path), "[scratch]"),
        " src/ui/mod.rs "
    );
    assert_eq!(render_file_name(None, "[scratch]"), " [scratch] ");
    assert_eq!(render_file_base_name(Some(&path), "[scratch]"), " mod.rs ");
    assert_eq!(render_file_base_name(None, "[scratch]"), " [scratch] ");
}

fn context(left: &[StatusLineElement], right: &[StatusLineElement]) -> RenderContext {
    RenderContext {
        theme: Theme { scopes: Vec::new() },
        focused: true,
        mode: Mode::Normal,
        mode_names: mode_names(),
        color_modes: false,
        spinner: None,
        relative_path: Some(parse_path(b"src/lib.rs")),
        path: Some(parse_path(b"/w/src/lib.rs")),
        scratch_name: "[scratch]".to_owned(),
        modified: true,
        readonly: false,
        encoding: None,
        line_ending: LineEnding::LF,
        indent_style: IndentStyle::Tabs,
        language: Some("rust".to_owned()),
        default_language: "text".to_owned(),
        diagnostics: Vec::new(),
        workspace_diagnostics: Vec::new(),
        shown: Vec::new(),
        shown_of_workspace: Vec::new(),
        selections: 1,
        primary_index: 0,
        primary_len: 1,
        row: 4,
        col: 2,
        lines: 10,
        separator: "|".to_owned(),
        head: "main".to_owned(),
        register: None,
        cwd: "w".to_owned(),
        code_actions: false,
        breadcrumbs: Some(vec![
            breadcrumb(&[("keyword", "mod"), ("namespace", "a")]),
            breadcrumb(&[("keyword", "fn"), ("function", "render")]),
        ]),
        breadcrumbs_config: BreadcrumbsConfig::default(),
        left: left.to_vec(),
        center: Vec::new(),
        right: right.to_vec(),
    }
}

fn rendered(context: &RenderContext, width: u16) -> String {
    let area = Rect::new(0, 0, width, 1);
    let mut surface = Surface::empty(area);
    context.render(area, &mut surface);
    (0..width).map(|x| surface.symbol(x, 0)).collect()
}

#[test]
fn the_statusline_has_three_sides() {
    let mut line = context(&[StatusLineElement::Mode, StatusLineElement::FileName], &[StatusLineElement::Position]);
    assert_eq!(rendered(&line, 40), " NOR  src/lib.rs                    5:3 ");
    line.center = vec![StatusLineElement::FileType];
    assert_eq!(rendered(&line, 50).find("rust"), Some(23));
    // the center yields where the sides leave no room for it
    assert!(!rendered(&line, 30).contains("rust"));
}

#[test]
fn breadcrumbs_make_room() {
    let line = context(&[StatusLineElement::Mode, StatusLineElement::Breadcrumbs], &[StatusLineElement::Position]);
    assert_eq!(
        rendered(&line, 40),
        " NOR > mod a > fn render            5:3 "
    );
    assert_eq!(rendered(&line, 29), " NOR … > fn render       5:3 ");
}

#[test]
fn sides_are_laid_out_from_the_edges() {
    let viewport = Rect::new(2, 0, 40, 1);
    let layout = lay_out(viewport, 10, 5, 6);
    assert_eq!(layout.left, Stretch { x: 2, width: 10 });
    assert_eq!(layout.right, Stretch { x: 37, width: 5 });
    assert_eq!(layout.center, Stretch { x: 19, width: 6 });
    assert_eq!(lay_out(viewport, 19, 0, 6).center.width, 0);
}

#[test]
fn texts_are_as_wide_as_they_are_drawn() {
    assert_eq!(pieces_width(&vec![plain("ab"), plain("漢字")]), 6);
    let area = Rect::new(0, 0, 8, 2);
    let mut surface = Surface::empty(area);
    let next = surface.set_stringn(1, 0, "a漢e\u{301}bcdef", 6, red());
    // a cluster is one cell, and a wide one takes two columns
    assert_eq!(next, 7);
    assert_eq!(surface.symbol(1, 0), "a");
    assert_eq!(surface.symbol(2, 0), "漢");
    assert_eq!(surface.symbol(4, 0), "e\u{301}");
    assert_eq!(surface.symbol(6, 0), "c");
    assert_eq!(surface.symbol(7, 0), " ");
    assert_eq!(surface.style(6, 0), red());
    // what does not fit whole is not drawn
    assert_eq!(surface.set_stringn(0, 1, "ab漢", 3, red()), 2);
    surface.set(5, 1, "x", Style::default());
    surface.set_style(area, red());
    assert_eq!((surface.symbol(5, 1), surface.style(5, 1)), ("x", red()));
    surface.clear_with(area, Style::default());
    assert_eq!(surface.symbol(5, 1), " ");
}

#[test]
fn symbols_end_where_one_does_not_fit() {
    let widths: Vec<_> = symbols("a漢\u{200b}")
        .iter()
        .map(|symbol| symbol.width)
        .collect();
    assert_eq!(widths, [1, 2, 0]);
    let symbol = |text: &str, width| Symbol {
        text: text.to_owned(),
        width,
    };
    let mut surface = Surface::empty(Rect::new(0, 0, 4, 1));
    let all = vec![symbol("a", 1), symbol("", 0), symbol("b", 2), symbol("c", 2)];
    assert_eq!(surface.set_symbols(0, 0, &all, 4, red()), 3);
    let drawn: String = (0..4).map(|x| surface.symbol(x, 0)).collect();
    assert_eq!(drawn, "ab  ");
}

type Raw = ConfigRaw<&'static str, u8, u16>;
type Loaded = Result<Raw, ConfigLoadError<i32, char>>;

fn raw(theme: Option<&'static str>, keys: Option<u8>, editor: Option<u16>) -> Loaded {
    Ok(ConfigRaw {
        theme,
        keys,
        editor,
    })
}

#[test]
fn the_workspace_config_goes_over_the_global_one() {
    let Ok(config) = Config::load(
        raw(Some("dark"), Some(1), Some(10)),
        raw(Some("light"), Some(2), Some(20)),
    ) else {
        panic!("both are fine");
    };
    assert_eq!(config.theme, Some("light"));
    assert_eq!(config.keys, [1, 2]);
    assert!(matches!(
        config.editor,
        EditorSource::Merged {
            global: 10,
            local: 20
        }
    ));

    let Ok(config) = Config::load(raw(Some("dark"), None, None), raw(None, None, Some(20))) else {
        panic!("both are fine");
    };
    assert_eq!(config.theme, Some("dark"));
    assert!(config.keys.is_empty());
    assert!(matches!(config.editor, EditorSource::Only(20)));

    // one that cannot be read does not count
    let unread: Loaded = Err(ConfigLoadError::Error('l'));
    let Ok(config) = Config::load(raw(None, Some(1), None), unread) else {
        panic!("the global one is fine");
    };
    assert_eq!(config.keys, [1]);
    assert!(matches!(config.editor, EditorSource::Default));
}

#[test]
fn invalid_configs_are_told_first() {
    let bad = |code| -> Loaded { Err(ConfigLoadError::BadConfig(code)) };
    let unread = |which| -> Loaded { Err(ConfigLoadError::Error(which)) };
    let error = |global, local| Config::load(global, local).err();
    assert!(matches!(
        error(bad(1), bad(2)),
        Some(ConfigLoadError::BadConfig(2))
    ));
    assert!(matches!(
        error(bad(1), unread('l')),
        Some(ConfigLoadError::BadConfig(1))
    ));
    assert!(matches!(
        error(bad(1), raw(None, None, None)),
        Some(ConfigLoadError::BadConfig(1))
    ));
    assert!(matches!(
        error(unread('g'), unread('l')),
        Some(ConfigLoadError::Error('g'))
    ));
}

#[test]
fn only_trusted_workspaces_configure() {
    let Ok(global) = raw(Some("dark"), None, None) else {
        panic!("the global one is fine");
    };
    let local = raw(Some("light"), None, None);
    let Ok((config, pinned)) = Config::load_default(global, local, false) else {
        panic!("both are fine");
    };
    assert_eq!((config.theme, pinned), (Some("dark"), false));

    let Ok(global) = raw(Some("dark"), None, None) else {
        panic!("the global one is fine");
    };
    let Ok((config, pinned)) = Config::load_default(global, raw(Some("light"), None, None), true)
    else {
        panic!("both are fine");
    };
    assert_eq!((config.theme, pinned), (Some("light"), true));
}
