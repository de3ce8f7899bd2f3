//! The elements of the statusline.

use crate::breadcrumbs::Breadcrumb;
use crate::chars::copy_str;
use crate::names::{lossy, name_text, path_text, Component, Part, TreePath};
use crate::pieces::{
    decimal, piece_views, push_number, push_piece, push_raw, push_text, raw, styled_piece, Piece,
    PieceView,
};
use crate::render::counted;
use crate::style::Style;
use crate::theme::{nearest, or_plain, Theme, ThemeScope};
use crate::trail::{
    breadcrumb_trail, crumb_pieces, crumb_views, style_breadcrumb, trail_of, BreadcrumbsConfig,
};
use crate::width::{text_width, width_of};
use vstd::prelude::*;

verus! {

#[derive(Clone, Copy, Debug, PartialEq, Eq, Structural)]
pub enum Mode {
    Normal,
    Select,
    Insert,
}

#[derive(Clone, Copy, Debug, PartialEq, Eq, Structural)]
pub enum Severity {
    Hint,
    Info,
    Warning,
    Error,
}

#[derive(Clone, Copy, Debug, PartialEq, Eq, Structural)]
pub enum LineEnding {
    Crlf,
    LF,
    VT,
    FF,
    CR,
    Nel,
    LS,
    PS,
}

#[derive(Clone, Copy, Debug, PartialEq, Eq, Structural)]
pub enum IndentStyle {
    Tabs,
    Spaces(u8),
}

/// What the modes are called.
#[derive(Debug)]
pub struct ModeNames {
    pub normal: String,
    pub select: String,
    pub insert: String,
}

impl Severity {
    /// The theme scope of a severity.
    pub open spec fn scope_text(self) -> Seq<char> {
        match self {
            Severity::Hint => "hint"@,
            Severity::Info => "info"@,
            Severity::Warning => "warning"@,
            Severity::Error => "error"@,
        }
    }

    fn scope(self) -> (scope: &'static str)
        ensures
            scope@ == self.scope_text(),
    {
        match self {
            Severity::Hint => "hint",
            Severity::Info => "info",
            Severity::Warning => "warning",
            Severity::Error => "error",
        }
    }
}

/// Whether a diagnostic counts for a severity. One that has none is a hint.
pub open spec fn is_of(diagnostic: Option<Severity>, severity: Severity) -> bool {
    match diagnostic {
        Some(found) => found == severity,
        None => severity is Hint,
    }
}

/// The number of diagnostics of a severity.
pub open spec fn count_of(diagnostics: Seq<Option<Severity>>, severity: Severity) -> nat
    decreases diagnostics.len(),
{
    if diagnostics.len() == 0 {
        0
    } else {
        count_of(diagnostics.drop_last(), severity) + if is_of(diagnostics.last(), severity) {
            1nat
        } else {
            0nat
        }
    }
}

fn count(diagnostics: &Vec<Option<Severity>>, severity: Severity) -> (count: usize)
    ensures
        count == count_of(diagnostics@, severity),
{
    let mut count: usize = 0;
    let mut i: usize = 0;
    while i < diagnostics.len()
        invariant
            i <= diagnostics@.len(),
            count <= i,
            count == count_of(diagnostics@.take(i as int), severity),
        decreases diagnostics.len() - i,
    {
        assert(diagnostics@.take(i + 1).drop_last() =~= diagnostics@.take(i as int));
        assert(diagnostics@.take(i + 1).last() == diagnostics@[i as int]);
        let counts: bool = match diagnostics[i] {
            Some(found) => found == severity,
            None => severity == Severity::Hint,
        };
        if counts {
            count += 1;
        }
        i += 1;
    }
    assert(diagnostics@.take(i as int) =~= diagnostics@);
    count
}

/// A number between spaces.
pub open spec fn spaced_number(n: nat) -> Seq<char> {
    " "@ + decimal(n) + " "@
}

/// A text between spaces.
pub open spec fn spaced(text: Seq<char>) -> Seq<char> {
    " "@ + text + " "@
}

fn space_number(n: usize) -> (text: String)
    ensures
        text@ == spaced_number(n as nat),
{
    let mut text: String = copy_str(" ");
    push_number(&mut text, n);
    push_text(&mut text, " ");
    text
}

fn space(inner: &str) -> (text: String)
    ensures
        text@ == spaced(inner@),
{
    let mut text: String = copy_str(" ");
    push_text(&mut text, inner);
    push_text(&mut text, " ");
    text
}

/// The dots and counts of the first `n` of the severities to show.
pub open spec fn counts_shown(
    diagnostics: Seq<Option<Severity>>,
    shown: Seq<Severity>,
    scopes: Seq<ThemeScope>,
) -> Seq<PieceView>
    decreases shown.len(),
{
    if shown.len() == 0 {
        Seq::empty()
    } else {
        let before = counts_shown(diagnostics, shown.drop_last(), scopes);
        let severity = shown.last();
        if count_of(diagnostics, severity) > 0 {
            before.push(
                styled_piece("●"@, or_plain(nearest(scopes, severity.scope_text()))),
            ).push(raw(spaced_number(count_of(diagnostics, severity))))
        } else {
            before
        }
    }
}

fn push_counts(
    pieces: &mut Vec<Piece>,
    diagnostics: &Vec<Option<Severity>>,
    shown: &Vec<Severity>,
    theme: &Theme,
)
    ensures
        piece_views(final(pieces)@) == piece_views(old(pieces)@) + counts_shown(
            diagnostics@,
            shown@,
            theme.scopes@,
        ),
{
    let ghost before = piece_views(pieces@);
    let mut i: usize = 0;
    assert(before =~= before + counts_shown(diagnostics@, shown@.take(0), theme.scopes@));
    while i < shown.len()
        invariant
            i <= shown@.len(),
            piece_views(pieces@) == before + counts_shown(
                diagnostics@,
                shown@.take(i as int),
                theme.scopes@,
            ),
        decreases shown.len() - i,
    {
        assert(shown@.take(i + 1).drop_last() =~= shown@.take(i as int));
        assert(shown@.take(i + 1).last() == shown@[i as int]);
        let severity: Severity = shown[i];
        let found: usize = count(diagnostics, severity);
        if found > 0 {
            push_piece(pieces, "●", theme.get(severity.scope()));
            push_raw(pieces, space_number(found).as_str());
        }
        i += 1;
        assert(piece_views(pieces@) =~= before + counts_shown(
            diagnostics@,
            shown@.take(i as int),
            theme.scopes@,
        ));
    }
    assert(shown@.take(i as int) =~= shown@);
}

/// The counts of the diagnostics of a document, of the severities to show.
pub fn render_diagnostics(
    diagnostics: &Vec<Option<Severity>>,
    shown: &Vec<Severity>,
    theme: &Theme,
) -> (pieces: Vec<Piece>)
    ensures
        piece_views(pieces@) == counts_shown(diagnostics@, shown@, theme.scopes@),
{
    let mut pieces: Vec<Piece> = Vec::new();
    let ghost before = piece_views(pieces@);
    push_counts(&mut pieces, diagnostics, shown, theme);
    assert(before + counts_shown(diagnostics@, shown@, theme.scopes@) =~= counts_shown(
        diagnostics@,
        shown@,
        theme.scopes@,
    ));
    pieces
}

/// Whether a diagnostic of one of the severities to show was found.
pub open spec fn any_shown(diagnostics: Seq<Option<Severity>>, shown: Seq<Severity>) -> bool {
    exists|i: int| 0 <= i < shown.len() && count_of(diagnostics, #[trigger] shown[i]) > 0
}

fn shows_any(diagnostics: &Vec<Option<Severity>>, shown: &Vec<Severity>) -> (any: bool)
    ensures
        any == any_shown(diagnostics@, shown@),
{
    let mut i: usize = 0;
    while i < shown.len()
        invariant
            i <= shown@.len(),
            forall|k: int| 0 <= k < i ==> count_of(diagnostics@, #[trigger] shown@[k]) == 0,
        decreases shown.len() - i,
    {
        if count(diagnostics, shown[i]) != 0 {
            return true;
        }
        i += 1;
    }
    false
}

/// The counts of the diagnostics of the workspace, after a mark unless there are none to show.
pub fn render_workspace_diagnostics(
    diagnostics: &Vec<Option<Severity>>,
    shown: &Vec<Severity>,
    theme: &Theme,
) -> (pieces: Vec<Piece>)
    ensures
        piece_views(pieces@) == if any_shown(diagnostics@, shown@) {
            seq![raw(" W "@)] + counts_shown(diagnostics@, shown@, theme.scopes@)
        } else {
            Seq::empty()
        },
{
    let mut pieces: Vec<Piece> = Vec::new();
    assert(piece_views(pieces@) =~= Seq::empty());
    // Avoid showing the " W " if no diagnostic counts will be shown.
    if !shows_any(diagnostics, shown) {
        return pieces;
    }
    push_raw(&mut pieces, " W ");
    assert(piece_views(pieces@) =~= seq![raw(" W "@)]);
    push_counts(&mut pieces, diagnostics, shown, theme);
    pieces
}

/// The mark for the workspace is only shown together with a count.
pub proof fn law_workspace_counts_follow_their_mark(
    diagnostics: Seq<Option<Severity>>,
    shown: Seq<Severity>,
    scopes: Seq<ThemeScope>,
)
    ensures
        any_shown(diagnostics, shown) <==> counts_shown(diagnostics, shown, scopes).len() > 0,
    decreases shown.len(),
{
    if shown.len() > 0 {
        let rest = shown.drop_last();
        law_workspace_counts_follow_their_mark(diagnostics, rest, scopes);
        if any_shown(diagnostics, rest) {
            let i = choose|i: int|
                0 <= i < rest.len() && count_of(diagnostics, #[trigger] rest[i]) > 0;
            assert(shown[i] == rest[i]);
        }
        if any_shown(diagnostics, shown) && count_of(diagnostics, shown.last()) == 0 {
            let i = choose|i: int|
                0 <= i < shown.len() && count_of(diagnostics, #[trigger] shown[i]) > 0;
            assert(rest[i] == shown[i]);
        }
        if count_of(diagnostics, shown.last()) > 0 {
            assert(count_of(diagnostics, shown[shown.len() - 1]) > 0);
        }
    }
}

/// As many spaces.
pub open spec fn blanks(n: int) -> Seq<char> {
    Seq::new(n as nat, |i: int| ' ')
}

/// The name of a mode.
pub open spec fn mode_text(mode: Mode, names: ModeNames) -> Seq<char> {
    match mode {
        Mode::Normal => names.normal@,
        Mode::Select => names.select@,
        Mode::Insert => names.insert@,
    }
}

/// The theme scope of a mode.
pub open spec fn mode_scope(mode: Mode) -> Seq<char> {
    match mode {
        Mode::Normal => "ui.statusline.normal"@,
        Mode::Select => "ui.statusline.select"@,
        Mode::Insert => "ui.statusline.insert"@,
    }
}

/// The mode, or empty space in place of it where the view is not focused.
pub fn render_mode(
    mode: Mode,
    names: &ModeNames,
    focused: bool,
    color_modes: bool,
    theme: &Theme,
) -> (piece: Piece)
    ensures
        piece@ == styled_piece(
            if focused {
                spaced(mode_text(mode, *names))
            } else {
                blanks(counted(width_of(mode_text(mode, *names)) + 2))
            },
            if focused && color_modes {
                or_plain(nearest(theme.scopes@, mode_scope(mode)))
            } else {
                Style::plain()
            },
        ),
{
    let name: &str = match mode {
        Mode::Normal => names.normal.as_str(),
        Mode::Select => names.select.as_str(),
        Mode::Insert => names.insert.as_str(),
    };
    let text: String = if focused {
        space(name)
    } else {
        // If not focused, explicitly leave an empty space.
        let width: usize = text_width(name).saturating_add(2);
        let mut text: String = String::new();
        let mut i: usize = 0;
        assert(text@ =~= blanks(0));
        while i < width
            invariant
                i <= width,
                text@ == blanks(i as int),
            decreases width - i,
        {
            text.push(' ');
            i += 1;
            assert(text@ =~= blanks(i as int));
        }
        text
    };
    let style: Style = if focused && color_modes {
        match mode {
            Mode::Normal => theme.get("ui.statusline.normal"),
            Mode::Select => theme.get("ui.statusline.select"),
            Mode::Insert => theme.get("ui.statusline.insert"),
        }
    } else {
        Style::default()
    };
    Piece::styled(text, style)
}

/// Which of the selections is the primary one, of how many.
pub fn render_selections(count: usize, primary_index: usize) -> (text: String)
    requires
        primary_index < count,
    ensures
        text@ == if count == 1 {
            " 1 sel "@
        } else {
            " "@ + decimal((primary_index + 1) as nat) + "/"@ + decimal(count as nat) + " sels "@
        },
{
    if count == 1 {
        return copy_str(" 1 sel ");
    }
    let mut text: String = copy_str(" ");
    push_number(&mut text, primary_index + 1);
    push_text(&mut text, "/");
    push_number(&mut text, count);
    push_text(&mut text, " sels ");
    text
}

/// A plural ending, unless it is one.
pub open spec fn plural(n: int) -> Seq<char> {
    if n == 1 {
        ""@
    } else {
        "s"@
    }
}

/// How many chars the primary selection has.
pub fn render_primary_selection_length(len: usize) -> (text: String)
    ensures
        text@ == " "@ + decimal(len as nat) + " char"@ + plural(len as int) + " "@,
{
    let mut text: String = copy_str(" ");
    push_number(&mut text, len);
    push_text(&mut text, " char");
    push_text(
        &mut text,
        if len == 1 {
            ""
        } else {
            "s"
        },
    );
    push_text(&mut text, " ");
    text
}

/// The row and the column of the cursor, counted from one.
pub fn render_position(row: usize, col: usize) -> (text: String)
    requires
        row < usize::MAX,
        col < usize::MAX,
    ensures
        text@ == " "@ + decimal((row + 1) as nat) + ":"@ + decimal((col + 1) as nat) + " "@,
{
    let mut text: String = copy_str(" ");
    push_number(&mut text, row + 1);
    push_text(&mut text, ":");
    push_number(&mut text, col + 1);
    push_text(&mut text, " ");
    text
}

/// How many lines the document has.
pub fn render_total_line_numbers(lines: usize) -> (text: String)
    ensures
        text@ == spaced_number(lines as nat),
{
    space_number(lines)
}

/// How far down the document the cursor is.
pub fn render_position_percentage(row: usize, lines: usize) -> (text: String)
    requires
        row < lines,
        lines * 100 <= usize::MAX,
    ensures
        text@ == decimal((((row + 1) * 100) / lines as int) as nat) + "%"@,
{
    let mut text: String = String::new();
    push_number(&mut text, (row + 1) * 100 / lines);
    push_text(&mut text, "%");
    assert(text@ =~= decimal((((row + 1) * 100) / lines as int) as nat) + "%"@);
    text
}

/// The position goes from one percent up to all of the document on its last line.
pub proof fn law_percentages_end_at_a_hundred(row: int, lines: int)
    requires
        0 <= row < lines,
    ensures
        0 <= ((row + 1) * 100) / lines <= 100,
        row + 1 == lines ==> ((row + 1) * 100) / lines == 100,
{
    assert(0 <= ((row + 1) * 100) / lines <= 100) by (nonlinear_arith)
        requires
            0 <= row < lines,
    ;
    if row + 1 == lines {
        assert((lines * 100) / lines == 100) by (nonlinear_arith)
            requires
                0 < lines,
        ;
    }
}

/// What a line ending is called.
pub open spec fn ending_name(ending: LineEnding) -> Seq<char> {
    match ending {
        LineEnding::Crlf => "CRLF"@,
        LineEnding::LF => "LF"@,
        LineEnding::VT => "VT"@,
        LineEnding::FF => "FF"@,
        LineEnding::CR => "CR"@,
        LineEnding::Nel => "NEL"@,
        LineEnding::LS => "LS"@,
        LineEnding::PS => "PS"@,
    }
}

pub fn render_file_line_ending(ending: LineEnding) -> (text: String)
    ensures
        text@ == spaced(ending_name(ending)),
{
    space(
        match ending {
            LineEnding::Crlf => "CRLF",
            LineEnding::LF => "LF",
            LineEnding::VT => "VT",
            LineEnding::FF => "FF",
            LineEnding::CR => "CR",
            LineEnding::Nel => "NEL",
            LineEnding::LS => "LS",
            LineEnding::PS => "PS",
        },
    )
}

/// How lines are indented.
pub fn render_file_indent_style(style: IndentStyle) -> (text: String)
    ensures
        text@ == match style {
            IndentStyle::Tabs => " tabs "@,
            IndentStyle::Spaces(indent) => " "@ + decimal(indent as nat) + " space"@ + plural(
                indent as int,
            ) + " "@,
        },
{
    match style {
        IndentStyle::Tabs => copy_str(" tabs "),
        IndentStyle::Spaces(indent) => {
            let mut text: String = copy_str(" ");
            push_number(&mut text, indent as usize);
            push_text(&mut text, " space");
            push_text(
                &mut text,
                if indent == 1 {
                    ""
                } else {
                    "s"
                },
            );
            push_text(&mut text, " ");
            text
        },
    }
}

/// A name that is not always there, or another in place of it, between spaces: the encoding, the
/// language or the path of a document.
pub fn render_named(name: Option<&str>, default: &str) -> (text: String)
    ensures
        text@ == spaced(
            match name {
                Some(name) => name@,
                None => default@,
            },
        ),
{
    match name {
        Some(name) => space(name),
        None => space(default),
    }
}

/// The path of a document, or the name of one that has none.
pub fn render_file_name(path: Option<&TreePath>, scratch: &str) -> (text: String)
    ensures
        text@ == spaced(
            match path {
                Some(path) => path_text(path@),
                None => scratch@,
            },
        ),
{
    match path {
        Some(path) => {
            let text: String = path.text();
            space(text.as_str())
        },
        None => space(scratch),
    }
}

/// The last name of a path, if that is what it ends with.
pub open spec fn base_name(path: Seq<Part>) -> Option<Seq<u8>> {
    if path.len() > 0 {
        match path.last() {
            Part::Normal(name) => Some(name),
            _ => None,
        }
    } else {
        None
    }
}

/// The last name of the path of a document, or the name of one that has none.
pub fn render_file_base_name(path: Option<&TreePath>, scratch: &str) -> (text: String)
    ensures
        text@ == spaced(
            match path {
                Some(path) => match base_name(path@) {
                    Some(name) => lossy(name),
                    None => scratch@,
                },
                None => scratch@,
            },
        ),
{
    if let Some(path) = path {
        let len: usize = path.components.len();
        if len > 0 {
            assert(path@.last() == path.components@[len - 1]@);
            if let Component::Normal(name) = &path.components[len - 1] {
                let text: String = name_text(name);
                return space(text.as_str());
            }
        }
    }
    space(scratch)
}

/// Whether the document has unsaved changes.
pub fn render_file_modification_indicator(modified: bool) -> (text: String)
    ensures
        text@ == if modified {
            "[+]"@
        } else {
            "   "@
        },
{
    if modified {
        copy_str("[+]")
    } else {
        copy_str("   ")
    }
}

/// Whether the document can only be read.
pub fn render_read_only_indicator(readonly: bool) -> (text: String)
    ensures
        text@ == if readonly {
            " [readonly] "@
        } else {
            ""@
        },
{
    if readonly {
        copy_str(" [readonly] ")
    } else {
        copy_str("")
    }
}

/// The register that was selected, if one was.
pub fn render_register(register: Option<char>) -> (text: Option<String>)
    ensures
        match register {
            Some(name) => text matches Some(text) && text@ == (" reg="@.push(name) + " "@),
            None => text is None,
        },
{
    match register {
        Some(name) => {
            let mut text: String = copy_str(" reg=");
            text.push(name);
            push_text(&mut text, " ");
            Some(text)
        },
        None => None,
    }
}

/// A mark where there are code actions, in the focused view.
pub fn render_code_action_hint(focused: bool, hints: bool) -> (text: Option<String>)
    ensures
        if focused && hints {
            text matches Some(text) && text@ == " ⋮ "@
        } else {
            text is None
        },
{
    if focused && hints {
        Some(copy_str(" ⋮ "))
    } else {
        None
    }
}

/// The pieces of all breadcrumbs.
pub open spec fn styled_crumbs(
    breadcrumbs: Seq<Breadcrumb>,
    scopes: Seq<ThemeScope>,
) -> Seq<Seq<PieceView>> {
    breadcrumbs.map_values(|crumb: Breadcrumb| crumb_pieces(crumb.segments@, scopes))
}

/// The trail of breadcrumbs, and whether it could be narrower.
pub fn render_breadcrumbs(
    breadcrumbs: &Vec<Breadcrumb>,
    config: &BreadcrumbsConfig,
    theme: &Theme,
    overflow: usize,
) -> (trail: (Vec<Piece>, bool))
    ensures
        piece_views(trail.0@) == trail_of(
            styled_crumbs(breadcrumbs@, theme.scopes@),
            *config,
            or_plain(nearest(theme.scopes@, "ui.statusline.separator"@)),
            overflow,
        ),
        trail.1 == (config.truncate && breadcrumbs@.len() > 1),
{
    let ghost goal = styled_crumbs(breadcrumbs@, theme.scopes@);
    let mut crumbs: Vec<Vec<Piece>> = Vec::new();
    let mut i: usize = 0;
    assert(crumb_views(crumbs@) =~= goal.take(0));
    while i < breadcrumbs.len()
        invariant
            i <= breadcrumbs@.len(),
            goal == styled_crumbs(breadcrumbs@, theme.scopes@),
            crumb_views(crumbs@) == goal.take(i as int),
        decreases breadcrumbs.len() - i,
    {
        let ghost before = crumb_views(crumbs@);
        let crumb: Vec<Piece> = style_breadcrumb(&breadcrumbs[i], theme);
        let ghost view = piece_views(crumb@);
        crumbs.push(crumb);
        assert(crumb_views(crumbs@) =~= before.push(view));
        i += 1;
        assert(crumb_views(crumbs@) =~= goal.take(i as int));
    }
    assert(goal.take(i as int) =~= goal);
    let trail: Vec<Piece> = breadcrumb_trail(
        &crumbs,
        config,
        theme.get("ui.statusline.separator"),
        overflow,
    );
    // Truncating drops breadcrumbs but always keeps the innermost one.
    (trail, config.truncate && breadcrumbs.len() > 1)
}

/// Diagnostics of a severity are counted, and those without one are hints.
pub proof fn law_diagnostics_are_counted(diagnostics: Seq<Option<Severity>>, severity: Severity)
    ensures
        severity != Severity::Hint ==> count_of(diagnostics, severity) == diagnostics.filter(
            |found: Option<Severity>| found == Some(severity),
        ).len(),
        severity == Severity::Hint ==> count_of(diagnostics, severity) == diagnostics.filter(
            |found: Option<Severity>| found == Some(Severity::Hint) || found is None,
        ).len(),
    decreases diagnostics.len(),
{
    reveal(Seq::filter);
    if diagnostics.len() > 0 {
        law_diagnostics_are_counted(diagnostics.drop_last(), severity);
    }
}

/// Every severity to show that was found adds a dot in its own style and its count, after those
/// before it; one that was not found adds nothing.
pub proof fn law_counts_follow_dots(
    diagnostics: Seq<Option<Severity>>,
    shown: Seq<Severity>,
    severity: Severity,
    scopes: Seq<ThemeScope>,
)
    ensures
        ({
            let before = counts_shown(diagnostics, shown, scopes);
            let after = counts_shown(diagnostics, shown.push(severity), scopes);
            if exists|i: int|
                0 <= i < diagnostics.len() && (#[trigger] diagnostics[i] == Some(severity) || (
                diagnostics[i] is None && severity == Severity::Hint)) {
                &&& after.len() == before.len() + 2
                &&& after.take(before.len() as int) == before
                &&& after[before.len() as int].text == "●"@
                &&& severity == Severity::Hint ==> after[before.len() as int].style == or_plain(
                    nearest(scopes, "hint"@),
                )
                &&& severity == Severity::Info ==> after[before.len() as int].style == or_plain(
                    nearest(scopes, "info"@),
                )
                &&& severity == Severity::Warning ==> after[before.len() as int].style == or_plain(
                    nearest(scopes, "warning"@),
                )
                &&& severity == Severity::Error ==> after[before.len() as int].style == or_plain(
                    nearest(scopes, "error"@),
                )
                &&& after[before.len() as int + 1].text == " "@ + decimal(count_of(diagnostics, severity))
                    + " "@
            } else {
                after == before
            }
        }),
{
    let all = shown.push(severity);
    assert(all.drop_last() =~= shown);
    lemma_count_of_found(diagnostics, severity);
    let before = counts_shown(diagnostics, shown, scopes);
    let after = counts_shown(diagnostics, all, scopes);
    if count_of(diagnostics, severity) > 0 {
        assert(after.take(before.len() as int) =~= before);
    }
}

proof fn lemma_count_of_found(diagnostics: Seq<Option<Severity>>, severity: Severity)
    ensures
        count_of(diagnostics, severity) > 0 <==> exists|i: int|
            0 <= i < diagnostics.len() && (#[trigger] diagnostics[i] == Some(severity) || (
            diagnostics[i] is None && severity == Severity::Hint)),
    decreases diagnostics.len(),
{
    if diagnostics.len() > 0 {
        let rest = diagnostics.drop_last();
        lemma_count_of_found(rest, severity);
        assert forall|i: int| 0 <= i < rest.len() implies rest[i] == #[trigger] diagnostics[i] by {}
        assert(diagnostics.last() == diagnostics[diagnostics.len() - 1]);
        if count_of(rest, severity) > 0 {
            let i = choose|i: int|
                0 <= i < rest.len() && (#[trigger] rest[i] == Some(severity) || (rest[i] is None
                    && severity == Severity::Hint));
            assert(diagnostics[i] == rest[i]);
        }
    }
}

} // verus!
