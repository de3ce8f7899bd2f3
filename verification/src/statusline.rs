//! The statusline: its elements on three sides, and where they go.

use crate::breadcrumbs::Breadcrumb;
use crate::chars::copy_str;
use crate::names::{path_text, lossy, Part, TreePath};
use crate::pieces::{
    decimal, piece_views, pieces_width, push_piece, push_raw, raw, styled_piece, total_width, Piece,
    PieceView,
};
use crate::rect::Rect;
use crate::render::counted;
use crate::status_elements::{
    any_shown, base_name, blanks, counts_shown, ending_name,
    law_workspace_counts_follow_their_mark, mode_scope, mode_text, plural,
    render_breadcrumbs, render_code_action_hint, render_diagnostics, render_file_base_name,
    render_file_indent_style, render_file_line_ending, render_file_modification_indicator,
    render_file_name, render_mode, render_named, render_position, render_position_percentage,
    render_primary_selection_length, render_read_only_indicator, render_register,
    render_selections, render_total_line_numbers, render_workspace_diagnostics, spaced,
    spaced_number, styled_crumbs, IndentStyle, LineEnding, Mode, ModeNames, Severity,
};
use crate::style::Style;
use crate::surface::{covers, styled, symbols_of, written, Picture, Surface};
use crate::theme::{nearest, or_plain, Theme};
use crate::trail::{crumbs_laid_out, trail_of, BreadcrumbsConfig};
use crate::width::width_of;
use vstd::prelude::*;

verus! {

/// What a statusline can show.
#[derive(Clone, Copy, Debug, PartialEq, Eq, Structural)]
pub enum StatusLineElement {
    Mode,
    Spinner,
    FileBaseName,
    FileName,
    Breadcrumbs,
    FileAbsolutePath,
    FileModificationIndicator,
    ReadOnlyIndicator,
    FileEncoding,
    FileLineEnding,
    FileIndentStyle,
    FileType,
    Diagnostics,
    WorkspaceDiagnostics,
    Selections,
    PrimarySelectionLength,
    Position,
    PositionPercentage,
    TotalLineNumbers,
    Separator,
    Spacer,
    VersionControl,
    Register,
    CurrentWorkingDirectory,
    CodeActionHint,
}

/// What a statusline is about: a view of a document, and how it is to be shown.
#[derive(Debug)]
pub struct RenderContext {
    pub theme: Theme,
    pub focused: bool,
    pub mode: Mode,
    pub mode_names: ModeNames,
    pub color_modes: bool,
    /// The frame of a language server's spinner.
    pub spinner: Option<String>,
    /// The path of the document as seen from the working directory, and the absolute one.
    pub relative_path: Option<TreePath>,
    pub path: Option<TreePath>,
    /// What a document without a path is called.
    pub scratch_name: String,
    pub modified: bool,
    pub readonly: bool,
    /// The encoding, unless it is UTF-8.
    pub encoding: Option<String>,
    pub line_ending: LineEnding,
    pub indent_style: IndentStyle,
    pub language: Option<String>,
    /// What the language of a document without one is called.
    pub default_language: String,
    pub diagnostics: Vec<Option<Severity>>,
    pub workspace_diagnostics: Vec<Option<Severity>>,
    /// The severities to show of the document and of the workspace.
    pub shown: Vec<Severity>,
    pub shown_of_workspace: Vec<Severity>,
    pub selections: usize,
    pub primary_index: usize,
    /// The length of the primary selection in chars.
    pub primary_len: usize,
    /// Where the cursor is.
    pub row: usize,
    pub col: usize,
    pub lines: usize,
    pub separator: String,
    /// The head of the version control.
    pub head: String,
    pub register: Option<char>,
    /// The name of the working directory.
    pub cwd: String,
    pub code_actions: bool,
    /// The breadcrumbs of the cursor, if the document has a syntax.
    pub breadcrumbs: Option<Vec<Breadcrumb>>,
    pub breadcrumbs_config: BreadcrumbsConfig,
    pub left: Vec<StatusLineElement>,
    pub center: Vec<StatusLineElement>,
    pub right: Vec<StatusLineElement>,
}

/// A piece of text if there is one.
pub open spec fn maybe(text: Option<Seq<char>>) -> Seq<PieceView> {
    match text {
        Some(text) => seq![raw(text)],
        None => Seq::empty(),
    }
}

impl RenderContext {
    /// The cursor is in the document, and one of the selections is the primary one.
    pub open spec fn wf(&self) -> bool {
        &&& self.primary_index < self.selections
        &&& self.row < self.lines
        &&& self.lines * 100 <= usize::MAX
        &&& self.col < usize::MAX
    }

    /// The pieces of an element, where there are `overflow` columns too few.
    pub open spec fn element(&self, element: StatusLineElement, overflow: usize) -> Seq<PieceView> {
        let scopes = self.theme.scopes@;
        match element {
            StatusLineElement::Mode => seq![
                styled_piece(
                    if self.focused {
                        spaced(mode_text(self.mode, self.mode_names))
                    } else {
                        blanks(counted(width_of(mode_text(self.mode, self.mode_names)) + 2))
                    },
                    if self.focused && self.color_modes {
                        or_plain(nearest(scopes, mode_scope(self.mode)))
                    } else {
                        Style::plain()
                    },
                ),
            ],
            StatusLineElement::Spinner => seq![
                raw(
                    match self.spinner {
                        Some(frame) => frame@,
                        None => " "@,
                    },
                ),
            ],
            StatusLineElement::FileBaseName => seq![
                raw(
                    spaced(
                        match self.relative_path {
                            Some(path) => match base_name(path@) {
                                Some(name) => lossy(name),
                                None => self.scratch_name@,
                            },
                            None => self.scratch_name@,
                        },
                    ),
                ),
            ],
            StatusLineElement::FileName => seq![
                raw(
                    spaced(
                        match self.relative_path {
                            Some(path) => path_text(path@),
                            None => self.scratch_name@,
                        },
                    ),
                ),
            ],
            StatusLineElement::Breadcrumbs => match self.breadcrumbs {
                Some(breadcrumbs) => trail_of(
                    styled_crumbs(breadcrumbs@, scopes),
                    self.breadcrumbs_config,
                    or_plain(nearest(scopes, "ui.statusline.separator"@)),
                    overflow,
                ),
                None => Seq::empty(),
            },
            StatusLineElement::FileAbsolutePath => seq![
                raw(
                    spaced(
                        match self.path {
                            Some(path) => path_text(path@),
                            None => self.scratch_name@,
                        },
                    ),
                ),
            ],
            StatusLineElement::FileModificationIndicator => seq![
                raw(
                    if self.modified {
                        "[+]"@
                    } else {
                        "   "@
                    },
                ),
            ],
            StatusLineElement::ReadOnlyIndicator => seq![
                raw(
                    if self.readonly {
                        " [readonly] "@
                    } else {
                        ""@
                    },
                ),
            ],
            StatusLineElement::FileEncoding => maybe(
                match self.encoding {
                    Some(name) => Some(spaced(name@)),
                    None => None,
                },
            ),
            StatusLineElement::FileLineEnding => seq![raw(spaced(ending_name(self.line_ending)))],
            StatusLineElement::FileIndentStyle => seq![
                raw(
                    match self.indent_style {
                        IndentStyle::Tabs => " tabs "@,
                        IndentStyle::Spaces(indent) => " "@ + decimal(indent as nat) + " space"@
                            + plural(indent as int) + " "@,
                    },
                ),
            ],
            StatusLineElement::FileType => seq![
                raw(
                    spaced(
                        match self.language {
                            Some(name) => name@,
                            None => self.default_language@,
                        },
                    ),
                ),
            ],
            StatusLineElement::Diagnostics => counts_shown(
                self.diagnostics@,
                self.shown@,
                scopes,
            ),
            StatusLineElement::WorkspaceDiagnostics => if any_shown(
                self.workspace_diagnostics@,
                self.shown_of_workspace@,
            ) {
                seq![raw(" W "@)] + counts_shown(
                    self.workspace_diagnostics@,
                    self.shown_of_workspace@,
                    scopes,
                )
            } else {
                Seq::empty()
            },
            StatusLineElement::Selections => seq![
                raw(
                    if self.selections == 1 {
                        " 1 sel "@
                    } else {
                        " "@ + decimal((self.primary_index + 1) as nat) + "/"@ + decimal(
                            self.selections as nat,
                        ) + " sels "@
                    },
                ),
            ],
            StatusLineElement::PrimarySelectionLength => seq![
                raw(
                    " "@ + decimal(self.primary_len as nat) + " char"@ + plural(
                        self.primary_len as int,
                    ) + " "@,
                ),
            ],
            StatusLineElement::Position => seq![
                raw(
                    " "@ + decimal((self.row + 1) as nat) + ":"@ + decimal((self.col + 1) as nat)
                        + " "@,
                ),
            ],
            StatusLineElement::PositionPercentage => seq![
                raw(decimal((((self.row + 1) * 100) / self.lines as int) as nat) + "%"@),
            ],
            StatusLineElement::TotalLineNumbers => seq![raw(spaced_number(self.lines as nat))],
            StatusLineElement::Separator => seq![
                styled_piece(
                    self.separator@,
                    or_plain(nearest(scopes, "ui.statusline.separator"@)),
                ),
            ],
            StatusLineElement::Spacer => seq![raw(" "@)],
            StatusLineElement::VersionControl => seq![raw(self.head@)],
            StatusLineElement::Register => maybe(
                match self.register {
                    Some(name) => Some(" reg="@.push(name) + " "@),
                    None => None,
                },
            ),
            StatusLineElement::CurrentWorkingDirectory => seq![raw(self.cwd@)],
            StatusLineElement::CodeActionHint => maybe(
                if self.focused && self.code_actions {
                    Some(" ⋮ "@)
                } else {
                    None
                },
            ),
        }
    }

    /// Whether an element could be narrower.
    pub open spec fn shrinks(&self, element: StatusLineElement) -> bool {
        &&& element is Breadcrumbs
        &&& self.breadcrumbs matches Some(breadcrumbs)
        &&& self.breadcrumbs_config.truncate
        &&& breadcrumbs@.len() > 1
    }

    fn push_element(&self, pieces: &mut Vec<Piece>, element: StatusLineElement, overflow: usize)
        requires
            self.wf(),
        ensures
            piece_views(final(pieces)@) == piece_views(old(pieces)@) + self.element(
                element,
                overflow,
            ),
    {
        let ghost before = piece_views(pieces@);
        let text: String = match element {
            StatusLineElement::Mode => {
                let piece: Piece = render_mode(
                    self.mode,
                    &self.mode_names,
                    self.focused,
                    self.color_modes,
                    &self.theme,
                );
                push_piece(pieces, piece.text.as_str(), piece.style);
                assert(piece_views(pieces@) =~= before + self.element(element, overflow));
                return ;
            },
            StatusLineElement::Breadcrumbs => {
                if let Some(breadcrumbs) = &self.breadcrumbs {
                    let (trail, _) = render_breadcrumbs(
                        breadcrumbs,
                        &self.breadcrumbs_config,
                        &self.theme,
                        overflow,
                    );
                    append_pieces(pieces, trail);
                }
                assert(piece_views(pieces@) =~= before + self.element(element, overflow));
                return ;
            },
            StatusLineElement::Diagnostics => {
                append_pieces(
                    pieces,
                    render_diagnostics(&self.diagnostics, &self.shown, &self.theme),
                );
                return ;
            },
            StatusLineElement::WorkspaceDiagnostics => {
                append_pieces(
                    pieces,
                    render_workspace_diagnostics(
                        &self.workspace_diagnostics,
                        &self.shown_of_workspace,
                        &self.theme,
                    ),
                );
                return ;
            },
            StatusLineElement::Separator => {
                push_piece(
                    pieces,
                    self.separator.as_str(),
                    self.theme.get("ui.statusline.separator"),
                );
                assert(piece_views(pieces@) =~= before + self.element(element, overflow));
                return ;
            },
            _ => match self.text_of(element) {
                Some(text) => text,
                None => {
                    assert(piece_views(pieces@) =~= before + self.element(element, overflow));
                    return ;
                },
            },
        };
        push_raw(pieces, text.as_str());
        assert(piece_views(pieces@) =~= before + self.element(element, overflow));
    }

    /// The text of an element that is nothing but text.
    fn text_of(&self, element: StatusLineElement) -> (text: Option<String>)
        requires
            self.wf(),
            !(element is Mode),
            !(element is Breadcrumbs),
            !(element is Diagnostics),
            !(element is WorkspaceDiagnostics),
            !(element is Separator),
        ensures
            forall|overflow: usize| #[trigger]
                self.element(element, overflow) == maybe(
                    match text {
                        Some(text) => Some(text@),
                        None => None,
                    },
                ),
    {
        Some(
            match element {
                StatusLineElement::Spinner => match &self.spinner {
                    Some(frame) => copy_str(frame.as_str()),
                    None => copy_str(" "),
                },
                StatusLineElement::FileBaseName => render_file_base_name(
                    self.relative_path.as_ref(),
                    self.scratch_name.as_str(),
                ),
                StatusLineElement::FileName => render_file_name(
                    self.relative_path.as_ref(),
                    self.scratch_name.as_str(),
                ),
                StatusLineElement::FileAbsolutePath => render_file_name(
                    self.path.as_ref(),
                    self.scratch_name.as_str(),
                ),
                StatusLineElement::FileModificationIndicator => render_file_modification_indicator(
                    self.modified,
                ),
                StatusLineElement::ReadOnlyIndicator => render_read_only_indicator(self.readonly),
                StatusLineElement::FileEncoding => match &self.encoding {
                    Some(name) => render_named(Some(name.as_str()), ""),
                    None => {
                        return None;
                    },
                },
                StatusLineElement::FileLineEnding => render_file_line_ending(self.line_ending),
                StatusLineElement::FileIndentStyle => render_file_indent_style(self.indent_style),
                StatusLineElement::FileType => match &self.language {
                    Some(name) => render_named(Some(name.as_str()), ""),
                    None => render_named(None, self.default_language.as_str()),
                },
                StatusLineElement::Selections => render_selections(
                    self.selections,
                    self.primary_index,
                ),
                StatusLineElement::PrimarySelectionLength => render_primary_selection_length(
                    self.primary_len,
                ),
                StatusLineElement::Position => render_position(self.row, self.col),
                StatusLineElement::PositionPercentage => render_position_percentage(
                    self.row,
                    self.lines,
                ),
                StatusLineElement::TotalLineNumbers => render_total_line_numbers(self.lines),
                StatusLineElement::Spacer => copy_str(" "),
                StatusLineElement::VersionControl => copy_str(self.head.as_str()),
                StatusLineElement::Register => {
                    return render_register(self.register);
                },
                StatusLineElement::CurrentWorkingDirectory => copy_str(self.cwd.as_str()),
                _ => {
                    return render_code_action_hint(self.focused, self.code_actions);
                },
            },
        )
    }
}

fn append_pieces(pieces: &mut Vec<Piece>, more: Vec<Piece>)
    ensures
        piece_views(final(pieces)@) == piece_views(old(pieces)@) + piece_views(more@),
{
    let ghost before = piece_views(pieces@);
    let ghost views = piece_views(more@);
    let mut more: Vec<Piece> = more;
    pieces.append(&mut more);
    assert(piece_views(pieces@) =~= before + views);
}

/// The pieces with their styles on top of a base style.
pub open spec fn based(pieces: Seq<PieceView>, base: Style) -> Seq<PieceView> {
    pieces.map_values(
        |piece: PieceView| PieceView { style: base.patched(piece.style), ..piece },
    )
}

impl RenderContext {
    /// The pieces of the elements of one side.
    pub open spec fn side(
        &self,
        elements: Seq<StatusLineElement>,
        base: Style,
        overflow: usize,
    ) -> Seq<PieceView>
        decreases elements.len(),
    {
        if elements.len() == 0 {
            Seq::empty()
        } else {
            self.side(elements.drop_last(), base, overflow) + based(
                self.element(elements.last(), overflow),
                base,
            )
        }
    }

    /// Whether one of the elements could be narrower.
    pub open spec fn any_shrinks(&self, elements: Seq<StatusLineElement>) -> bool {
        exists|i: int| 0 <= i < elements.len() && self.shrinks(#[trigger] elements[i])
    }

    fn render_side(&self, elements: &Vec<StatusLineElement>, base: Style, overflow: usize) -> (side:
        Vec<Piece>)
        requires
            self.wf(),
        ensures
            piece_views(side@) == self.side(elements@, base, overflow),
    {
        let mut side: Vec<Piece> = Vec::new();
        assert(piece_views(side@) =~= Seq::empty());
        let mut i: usize = 0;
        while i < elements.len()
            invariant
                i <= elements@.len(),
                self.wf(),
                piece_views(side@) == self.side(elements@.take(i as int), base, overflow),
            decreases elements.len() - i,
        {
            assert(elements@.take(i + 1).drop_last() =~= elements@.take(i as int));
            assert(elements@.take(i + 1).last() == elements@[i as int]);
            let mut pieces: Vec<Piece> = Vec::new();
            let ghost none = piece_views(pieces@);
            self.push_element(&mut pieces, elements[i], overflow);
            assert(none + self.element(elements@[i as int], overflow) =~= self.element(
                elements@[i as int],
                overflow,
            ));
            append_based(&mut side, &pieces, base);
            i += 1;
        }
        assert(elements@.take(i as int) =~= elements@);
        side
    }

    fn has_shrinkable(&self, elements: &Vec<StatusLineElement>) -> (has: bool)
        ensures
            has == self.any_shrinks(elements@),
    {
        let shrinks: bool = match &self.breadcrumbs {
            Some(breadcrumbs) => self.breadcrumbs_config.truncate && breadcrumbs.len() > 1,
            None => false,
        };
        let mut i: usize = 0;
        while i < elements.len()
            invariant
                i <= elements@.len(),
                shrinks == self.shrinks(StatusLineElement::Breadcrumbs),
                forall|k: int| 0 <= k < i ==> !self.shrinks(#[trigger] elements@[k]),
            decreases elements.len() - i,
        {
            if shrinks && elements[i] == StatusLineElement::Breadcrumbs {
                assert(self.shrinks(elements@[i as int]));
                return true;
            }
            i += 1;
        }
        false
    }

    /// The style under all elements.
    pub open spec fn base(&self) -> Style {
        or_plain(
            nearest(
                self.theme.scopes@,
                if self.focused {
                    "ui.statusline"@
                } else {
                    "ui.statusline.inactive"@
                },
            ),
        )
    }

    /// The columns that the sides overlap by in a statusline of that width.
    pub open spec fn overlap(&self, width: u16) -> usize {
        let left = counted(total_width(self.side(self.left@, self.base(), 0)));
        let right = counted(total_width(self.side(self.right@, self.base(), 0)));
        if counted(left + right) < width {
            0
        } else {
            (counted(left + right) - width) as usize
        }
    }

    /// The columns that shrinkable elements make up for: the overlap, if there are such elements.
    pub open spec fn overflow(&self, width: u16) -> usize {
        if self.any_shrinks(self.left@) || self.any_shrinks(self.right@) || self.any_shrinks(
            self.center@,
        ) {
            self.overlap(width)
        } else {
            0
        }
    }

    /// The picture with the statusline drawn in the first row of `viewport`, on a surface that ends
    /// at the column `right_edge`.
    pub open spec fn drawn(&self, picture: Picture, viewport: Rect, right_edge: int) -> Picture {
        let base = self.base();
        let overflow = self.overflow(viewport.width);
        let left = self.side(self.left@, base, overflow);
        let right = self.side(self.right@, base, overflow);
        let center = self.side(self.center@, base, overflow);
        let layout = layout_of(
            viewport,
            counted(total_width(left)),
            counted(total_width(right)),
            counted(total_width(center)),
        );
        let y = viewport.y as int;
        pieces_written(
            pieces_written(
                pieces_written(
                    styled(picture, Rect { height: 1, ..viewport }, base),
                    left,
                    layout.left,
                    y,
                    right_edge,
                ),
                right,
                layout.right,
                y,
                right_edge,
            ),
            center,
            layout.center,
            y,
            right_edge,
        )
    }

    /// Draws the statusline in the first row of `viewport`. If the sides overlap, shrinkable
    /// elements make room.
    pub fn render(&self, viewport: Rect, surface: &mut Surface)
        requires
            self.wf(),
            old(surface).wf(),
            viewport.height >= 1,
            covers(old(surface).area, viewport),
        ensures
            final(surface).wf(),
            final(surface).area == old(surface).area,
            final(surface)@ == self.drawn(
                old(surface)@,
                viewport,
                old(surface).area.x + old(surface).area.width,
            ),
    {
        let base: Style = if self.focused {
            self.theme.get("ui.statusline")
        } else {
            self.theme.get("ui.statusline.inactive")
        };
        surface.set_style(Rect { height: 1, ..viewport }, base);

        let mut left: Vec<Piece> = self.render_side(&self.left, base, 0);
        let mut right: Vec<Piece> = self.render_side(&self.right, base, 0);
        let mut center: Vec<Piece> = self.render_side(&self.center, base, 0);
        // If the sides overlap, render again so shrinkable elements make room.
        let overlap: usize = pieces_width(&left).saturating_add(
            pieces_width(&right),
        ).saturating_sub(viewport.width as usize);
        proof {
            crate::pieces::lemma_total_width(self.side(self.left@, base, 0));
            crate::pieces::lemma_total_width(self.side(self.right@, base, 0));
        }
        let shrinkable: bool = self.has_shrinkable(&self.left) || self.has_shrinkable(&self.right)
            || self.has_shrinkable(&self.center);
        if overlap > 0 && shrinkable {
            left = self.render_side(&self.left, base, overlap);
            right = self.render_side(&self.right, base, overlap);
            center = self.render_side(&self.center, base, overlap);
        }
        let layout: StatusLayout = lay_out(
            viewport,
            pieces_width(&left),
            pieces_width(&right),
            pieces_width(&center),
        );
        write_pieces(&left, layout.left, viewport.y, surface);
        write_pieces(&right, layout.right, viewport.y, surface);
        write_pieces(&center, layout.center, viewport.y, surface);
    }
}

fn append_based(side: &mut Vec<Piece>, pieces: &Vec<Piece>, base: Style)
    ensures
        piece_views(final(side)@) == piece_views(old(side)@) + based(piece_views(pieces@), base),
{
    let ghost before = piece_views(side@);
    let ghost goal = based(piece_views(pieces@), base);
    let mut i: usize = 0;
    assert(before =~= before + goal.take(0));
    while i < pieces.len()
        invariant
            i <= pieces@.len(),
            goal == based(piece_views(pieces@), base),
            piece_views(side@) == before + goal.take(i as int),
        decreases pieces.len() - i,
    {
        assert(piece_views(pieces@)[i as int] == pieces@[i as int]@);
        push_piece(side, pieces[i].text.as_str(), base.patch(pieces[i].style));
        i += 1;
        assert(piece_views(side@) =~= before + goal.take(i as int));
    }
    assert(goal.take(i as int) =~= goal);
}

/// A part of a row: where it starts and how many columns it has.
#[derive(Clone, Copy, Debug, PartialEq, Eq, Structural)]
pub struct Stretch {
    pub x: u16,
    pub width: u16,
}

/// Where the sides of a statusline go.
#[derive(Clone, Copy, Debug, PartialEq, Eq, Structural)]
pub struct StatusLayout {
    pub left: Stretch,
    pub right: Stretch,
    pub center: Stretch,
}

/// The larger of two widths, as a number of columns of the screen.
pub open spec fn edge_width(left: int, right: int) -> int {
    ((if left > right {
        left
    } else {
        right
    }) as usize as u16) as int
}

/// The columns that the center gets between edges of the width `edge`, with a column of space on
/// either side.
pub open spec fn center_room(width: u16, edge: int) -> int {
    if width < 2 * edge + 2 {
        0
    } else {
        width - (2 * edge + 2)
    }
}

/// Where the sides go in `viewport`, given their widths: the left one at its start, the right one
/// at its end, and the center in the middle, as far as the wider side leaves room for it.
pub open spec fn layout_of(viewport: Rect, left: int, right: int, center: int) -> StatusLayout {
    let right_width = right as usize as u16;
    let room = center_room(viewport.width, edge_width(left, right));
    let center_width = if room < (center as usize as u16) as int {
        room
    } else {
        (center as usize as u16) as int
    };
    StatusLayout {
        left: Stretch { x: viewport.x, width: left as usize as u16 },
        right: Stretch {
            x: (viewport.x + (if viewport.width < right_width {
                0
            } else {
                viewport.width - right_width
            })) as u16,
            width: right_width,
        },
        center: Stretch {
            x: (viewport.x + viewport.width / 2 - center_width / 2) as u16,
            width: center_width as u16,
        },
    }
}

/// The center of a statusline stays clear of both sides, and the right side ends at the end of the
/// statusline.
pub proof fn law_the_center_stays_clear(viewport: Rect, left: int, right: int, center: int)
    requires
        0 <= left <= viewport.width,
        0 <= right <= viewport.width,
        0 <= center <= u16::MAX,
        viewport.x + viewport.width <= u16::MAX,
    ensures
        ({
            let layout = layout_of(viewport, left, right, center);
            &&& layout.center.width > 0 ==> layout.left.x + left < layout.center.x
                && layout.center.x + layout.center.width <= layout.right.x
            &&& layout.right.x + layout.right.width == viewport.x + viewport.width
        }),
{
}

/// Where the sides go in `viewport`, given their widths.
pub fn lay_out(viewport: Rect, left: usize, right: usize, center: usize) -> (layout: StatusLayout)
    requires
        viewport.x + viewport.width <= u16::MAX,
    ensures
        layout == layout_of(viewport, left as int, right as int, center as int),
        viewport.x <= layout.right.x <= viewport.x + viewport.width,
        viewport.x <= layout.center.x,
        layout.center.x + layout.center.width <= viewport.x + viewport.width,
{
    let left_width: u16 = left as u16;
    let right_width: u16 = right as u16;
    let edge: u16 = (if left > right {
        left
    } else {
        right
    }) as u16;
    let edges: u32 = 2 * edge as u32 + 2;
    let room: u16 = if (viewport.width as u32) < edges {
        0
    } else {
        viewport.width - edges as u16
    };
    let wanted: u16 = center as u16;
    let center_width: u16 = if room < wanted {
        room
    } else {
        wanted
    };
    StatusLayout {
        left: Stretch { x: viewport.x, width: left_width },
        right: Stretch {
            x: viewport.x + viewport.width.saturating_sub(right_width),
            width: right_width,
        },
        center: Stretch {
            x: viewport.x + viewport.width / 2 - center_width / 2,
            width: center_width,
        },
    }
}

/// The picture with pieces written one after another from `x` on, left of `end`.
pub open spec fn written_from(
    picture: Picture,
    pieces: Seq<PieceView>,
    x: int,
    y: int,
    end: int,
) -> Picture
    decreases pieces.len(),
{
    if pieces.len() == 0 || x >= end {
        picture
    } else {
        let done = written(picture, x, y, symbols_of(pieces[0].text), end, pieces[0].style);
        written_from(done.picture, pieces.skip(1), done.x, y, end)
    }
}

/// The picture with pieces written in a stretch of a row, on a surface that ends at `right_edge`.
pub open spec fn pieces_written(
    picture: Picture,
    pieces: Seq<PieceView>,
    stretch: Stretch,
    y: int,
    right_edge: int,
) -> Picture {
    written_from(
        picture,
        pieces,
        stretch.x as int,
        y,
        if stretch.x + stretch.width < right_edge {
            stretch.x + stretch.width
        } else {
            right_edge
        },
    )
}

fn write_pieces(pieces: &Vec<Piece>, stretch: Stretch, y: u16, surface: &mut Surface)
    requires
        old(surface).wf(),
        old(surface).area.x <= stretch.x,
        old(surface).area.y <= y < old(surface).area.y + old(surface).area.height,
    ensures
        final(surface).wf(),
        final(surface).area == old(surface).area,
        final(surface)@ == pieces_written(
            old(surface)@,
            piece_views(pieces@),
            stretch,
            y as int,
            old(surface).area.x + old(surface).area.width,
        ),
{
    let right: u16 = surface.area.x + surface.area.width;
    let end: u16 = if (stretch.x as u32) + (stretch.width as u32) < right as u32 {
        stretch.x + stretch.width
    } else {
        right
    };
    let ghost all = piece_views(pieces@);
    let ghost goal = written_from(surface@, all, stretch.x as int, y as int, end as int);
    let mut x: u16 = stretch.x;
    let mut i: usize = 0;
    assert(all.skip(0) =~= all);
    while i < pieces.len() && x < end
        invariant
            i <= pieces@.len(),
            all == piece_views(pieces@),
            surface.wf(),
            surface.area == old(surface).area,
            surface.area.x <= x,
            end <= surface.area.x + surface.area.width,
            surface.area.y <= y < surface.area.y + surface.area.height,
            goal == written_from(surface@, all.skip(i as int), x as int, y as int, end as int),
        decreases pieces.len() - i,
    {
        assert(all.skip(i as int)[0] == pieces@[i as int]@);
        assert(all.skip(i as int).skip(1) =~= all.skip(i + 1));
        x = surface.set_stringn(x, y, pieces[i].text.as_str(), end - x, pieces[i].style);
        i += 1;
    }
}

/// Whether the pieces are a single one that reads `text`.
pub open spec fn reads(pieces: Seq<PieceView>, text: Seq<char>) -> bool {
    pieces.len() == 1 && pieces[0].text == text
}

impl RenderContext {
    /// The modification indicator tells a document with unsaved changes from one without.
    pub proof fn law_unsaved_changes_are_marked(self, overflow: usize)
        ensures
            self.modified ==> reads(
                self.element(StatusLineElement::FileModificationIndicator, overflow),
                "[+]"@,
            ),
            !self.modified ==> reads(
                self.element(StatusLineElement::FileModificationIndicator, overflow),
                "   "@,
            ),
    {
    }

    /// A document that can only be read is said to be so, and of another one nothing is.
    pub proof fn law_read_only_documents_are_marked(self, overflow: usize)
        ensures
            self.readonly ==> reads(
                self.element(StatusLineElement::ReadOnlyIndicator, overflow),
                " [readonly] "@,
            ),
            !self.readonly ==> reads(
                self.element(StatusLineElement::ReadOnlyIndicator, overflow),
                ""@,
            ),
    {
    }

    /// The mode of the focused view is shown by its own name, and in its own style if modes are
    /// colored. Of another view, as many blanks are shown as the name and two spaces are wide,
    /// without a style.
    pub proof fn law_the_mode_is_named(self, overflow: usize)
        ensures
            ({
                let pieces = self.element(StatusLineElement::Mode, overflow);
                let names = self.mode_names;
                let scopes = self.theme.scopes@;
                &&& pieces.len() == 1
                &&& self.focused && self.mode == Mode::Normal ==> pieces[0].text == " "@
                    + names.normal@ + " "@
                &&& self.focused && self.mode == Mode::Select ==> pieces[0].text == " "@
                    + names.select@ + " "@
                &&& self.focused && self.mode == Mode::Insert ==> pieces[0].text == " "@
                    + names.insert@ + " "@
                &&& self.focused && self.color_modes && self.mode == Mode::Normal
                    ==> pieces[0].style == or_plain(nearest(scopes, "ui.statusline.normal"@))
                &&& self.focused && self.color_modes && self.mode == Mode::Select
                    ==> pieces[0].style == or_plain(nearest(scopes, "ui.statusline.select"@))
                &&& self.focused && self.color_modes && self.mode == Mode::Insert
                    ==> pieces[0].style == or_plain(nearest(scopes, "ui.statusline.insert"@))
                &&& !self.focused || !self.color_modes ==> pieces[0].style == Style::plain()
                &&& !self.focused ==> {
                    &&& forall|i: int|
                        0 <= i < pieces[0].text.len() ==> #[trigger] pieces[0].text[i] == ' '
                    &&& self.mode == Mode::Normal && width_of(names.normal@) + 2 <= usize::MAX
                        ==> pieces[0].text.len() == width_of(names.normal@) + 2
                    &&& self.mode == Mode::Select && width_of(names.select@) + 2 <= usize::MAX
                        ==> pieces[0].text.len() == width_of(names.select@) + 2
                    &&& self.mode == Mode::Insert && width_of(names.insert@) + 2 <= usize::MAX
                        ==> pieces[0].text.len() == width_of(names.insert@) + 2
                }
            }),
    {
    }

    /// The spinner shows the frame it is at, or a blank of the same place.
    pub proof fn law_the_spinner_shows_its_frame(self, overflow: usize)
        ensures
            match self.spinner {
                Some(frame) => reads(
                    self.element(StatusLineElement::Spinner, overflow),
                    frame@,
                ),
                None => reads(self.element(StatusLineElement::Spinner, overflow), " "@),
            },
    {
    }

    /// A document goes by its path as seen from the working directory, by the last name of it or by
    /// its absolute path, each between spaces, and by the scratch name if it has none.
    pub proof fn law_documents_go_by_their_paths(self, overflow: usize)
        ensures
            match self.relative_path {
                Some(path) => {
                    &&& reads(
                        self.element(StatusLineElement::FileName, overflow),
                        " "@ + path_text(path@) + " "@,
                    )
                    &&& path@.len() > 0 ==> (path@[path@.len() - 1] matches Part::Normal(name)
                        ==> reads(
                        self.element(StatusLineElement::FileBaseName, overflow),
                        " "@ + lossy(name) + " "@,
                    ))
                    &&& path@.len() == 0 || !(path@[path@.len() - 1] is Normal) ==> reads(
                        self.element(StatusLineElement::FileBaseName, overflow),
                        " "@ + self.scratch_name@ + " "@,
                    )
                },
                None => {
                    &&& reads(
                        self.element(StatusLineElement::FileName, overflow),
                        " "@ + self.scratch_name@ + " "@,
                    )
                    &&& reads(
                        self.element(StatusLineElement::FileBaseName, overflow),
                        " "@ + self.scratch_name@ + " "@,
                    )
                },
            },
            match self.path {
                Some(path) => reads(
                    self.element(StatusLineElement::FileAbsolutePath, overflow),
                    " "@ + path_text(path@) + " "@,
                ),
                None => reads(
                    self.element(StatusLineElement::FileAbsolutePath, overflow),
                    " "@ + self.scratch_name@ + " "@,
                ),
            },
    {
    }

    /// An encoding is only shown if there is one to show.
    pub proof fn law_encodings_are_named(self, overflow: usize)
        ensures
            match self.encoding {
                Some(name) => reads(
                    self.element(StatusLineElement::FileEncoding, overflow),
                    " "@ + name@ + " "@,
                ),
                None => self.element(StatusLineElement::FileEncoding, overflow).len() == 0,
            },
    {
    }

    /// Every line ending is shown by its own name.
    pub proof fn law_line_endings_are_named(self, overflow: usize)
        ensures
            ({
                let pieces = self.element(StatusLineElement::FileLineEnding, overflow);
                let ending = self.line_ending;
                &&& ending == LineEnding::Crlf ==> reads(pieces, " "@ + "CRLF"@ + " "@)
                &&& ending == LineEnding::LF ==> reads(pieces, " "@ + "LF"@ + " "@)
                &&& ending == LineEnding::VT ==> reads(pieces, " "@ + "VT"@ + " "@)
                &&& ending == LineEnding::FF ==> reads(pieces, " "@ + "FF"@ + " "@)
                &&& ending == LineEnding::CR ==> reads(pieces, " "@ + "CR"@ + " "@)
                &&& ending == LineEnding::Nel ==> reads(pieces, " "@ + "NEL"@ + " "@)
                &&& ending == LineEnding::LS ==> reads(pieces, " "@ + "LS"@ + " "@)
                &&& ending == LineEnding::PS ==> reads(pieces, " "@ + "PS"@ + " "@)
            }),
    {
    }

    /// Lines are indented with tabs, with one space or with a number of spaces.
    pub proof fn law_indents_are_counted(self, overflow: usize)
        ensures
            ({
                let pieces = self.element(StatusLineElement::FileIndentStyle, overflow);
                match self.indent_style {
                    IndentStyle::Tabs => reads(pieces, " tabs "@),
                    IndentStyle::Spaces(indent) => {
                        &&& indent == 1 ==> reads(pieces, " 1 space "@)
                        &&& indent != 1 ==> reads(
                            pieces,
                            " "@ + decimal(indent as nat) + " spaces "@,
                        )
                    },
                }
            }),
    {
        reveal_strlit(" ");
        reveal_strlit("");
        reveal_strlit("s");
        reveal_strlit(" space");
        reveal_strlit(" spaces ");
        reveal_strlit(" 1 space ");
        if let IndentStyle::Spaces(indent) = self.indent_style {
            if indent == 1 {
                assert(decimal(1) =~= seq!['1']);
                assert(" "@ + decimal(1) + " space"@ + ""@ + " "@ =~= " 1 space "@);
            } else {
                assert(" "@ + decimal(indent as nat) + " space"@ + "s"@ + " "@ =~= " "@ + decimal(
                    indent as nat,
                ) + " spaces "@);
            }
        }
    }

    /// The language of a document is shown, or what the one of a document without is called.
    pub proof fn law_languages_are_named(self, overflow: usize)
        ensures
            match self.language {
                Some(name) => reads(
                    self.element(StatusLineElement::FileType, overflow),
                    " "@ + name@ + " "@,
                ),
                None => reads(
                    self.element(StatusLineElement::FileType, overflow),
                    " "@ + self.default_language@ + " "@,
                ),
            },
    {
    }

    /// Several selections are counted, the primary one among them from one on; a single one is not.
    pub proof fn law_selections_are_counted(self, overflow: usize)
        ensures
            ({
                let pieces = self.element(StatusLineElement::Selections, overflow);
                &&& self.selections == 1 ==> reads(pieces, " 1 sel "@)
                &&& self.selections != 1 ==> reads(
                    pieces,
                    " "@ + decimal((self.primary_index + 1) as nat) + "/"@ + decimal(
                        self.selections as nat,
                    ) + " sels "@,
                )
            }),
    {
    }

    /// The length of the primary selection is told in chars.
    pub proof fn law_selection_lengths_are_told(self, overflow: usize)
        ensures
            ({
                let pieces = self.element(StatusLineElement::PrimarySelectionLength, overflow);
                &&& self.primary_len == 1 ==> reads(pieces, " 1 char "@)
                &&& self.primary_len != 1 ==> reads(
                    pieces,
                    " "@ + decimal(self.primary_len as nat) + " chars "@,
                )
            }),
    {
        reveal_strlit(" ");
        reveal_strlit("");
        reveal_strlit("s");
        reveal_strlit(" char");
        reveal_strlit(" chars ");
        reveal_strlit(" 1 char ");
        let len = self.primary_len as nat;
        if len == 1 {
            assert(decimal(1) =~= seq!['1']);
            assert(" "@ + decimal(1) + " char"@ + ""@ + " "@ =~= " 1 char "@);
        } else {
            assert(" "@ + decimal(len) + " char"@ + "s"@ + " "@ =~= " "@ + decimal(len)
                + " chars "@);
        }
    }

    /// The position is told by row and column, in this order and from one on; the percentage is how
    /// much of the document is above the end of that row, rounded down; and the lines are counted.
    pub proof fn law_positions_are_told(self, overflow: usize)
        requires
            self.wf(),
        ensures
            reads(
                self.element(StatusLineElement::Position, overflow),
                " "@ + decimal((self.row + 1) as nat) + ":"@ + decimal((self.col + 1) as nat) + " "@,
            ),
            forall|percentage: nat|
                percentage * self.lines <= (self.row + 1) * 100 < (percentage + 1) * self.lines
                    ==> reads(
                    self.element(StatusLineElement::PositionPercentage, overflow),
                    #[trigger] decimal(percentage) + "%"@,
                ),
            reads(
                self.element(StatusLineElement::TotalLineNumbers, overflow),
                " "@ + decimal(self.lines as nat) + " "@,
            ),
    {
        assert forall|percentage: nat|
            percentage * self.lines <= (self.row + 1) * 100 < (percentage + 1)
                * self.lines implies reads(
            self.element(StatusLineElement::PositionPercentage, overflow),
            #[trigger] decimal(percentage) + "%"@,
        ) by {
            let part = (self.row + 1) * 100;
            let lines = self.lines as int;
            let p = percentage as int;
            assert(part / lines == p) by (nonlinear_arith)
                requires
                    p * lines <= part < (p + 1) * lines,
                    lines > 0,
            ;
        }
    }

    /// A separator is drawn in its own style, and a spacer is one blank.
    pub proof fn law_separators_are_drawn(self, overflow: usize)
        ensures
            reads(self.element(StatusLineElement::Separator, overflow), self.separator@),
            self.element(StatusLineElement::Separator, overflow)[0].style == or_plain(
                nearest(self.theme.scopes@, "ui.statusline.separator"@),
            ),
            reads(self.element(StatusLineElement::Spacer, overflow), " "@),
    {
    }

    /// The head of the version control and the working directory are shown as they are called.
    pub proof fn law_heads_and_directories_are_named(self, overflow: usize)
        ensures
            reads(self.element(StatusLineElement::VersionControl, overflow), self.head@),
            reads(self.element(StatusLineElement::CurrentWorkingDirectory, overflow), self.cwd@),
    {
    }

    /// A register is named while one is selected.
    pub proof fn law_registers_are_named(self, overflow: usize)
        ensures
            match self.register {
                Some(name) => reads(
                    self.element(StatusLineElement::Register, overflow),
                    seq![' ', 'r', 'e', 'g', '=', name, ' '],
                ),
                None => self.element(StatusLineElement::Register, overflow).len() == 0,
            },
    {
        reveal_strlit(" reg=");
        reveal_strlit(" ");
        if let Some(name) = self.register {
            assert(" reg="@.push(name) + " "@ =~= seq![' ', 'r', 'e', 'g', '=', name, ' ']);
        }
    }

    /// Code actions are hinted at where there are some, in the focused view only.
    pub proof fn law_code_actions_are_hinted_at(self, overflow: usize)
        ensures
            self.focused && self.code_actions ==> reads(
                self.element(StatusLineElement::CodeActionHint, overflow),
                " ⋮ "@,
            ),
            !self.focused || !self.code_actions ==> self.element(
                StatusLineElement::CodeActionHint,
                overflow,
            ).len() == 0,
    {
    }

    /// The counts of the diagnostics of the document and of the workspace come from its own
    /// diagnostics and its own severities to show. Those of the workspace follow a mark, which is
    /// not there without a count.
    pub proof fn law_diagnostics_are_those_of_their_scope(self, overflow: usize)
        ensures
            self.element(StatusLineElement::Diagnostics, overflow) == counts_shown(
                self.diagnostics@,
                self.shown@,
                self.theme.scopes@,
            ),
            ({
                let counts = counts_shown(
                    self.workspace_diagnostics@,
                    self.shown_of_workspace@,
                    self.theme.scopes@,
                );
                let pieces = self.element(StatusLineElement::WorkspaceDiagnostics, overflow);
                &&& counts.len() == 0 ==> pieces.len() == 0
                &&& counts.len() > 0 ==> pieces.len() == counts.len() + 1 && pieces[0].text
                    == " W "@ && pieces.skip(1) == counts
            }),
    {
        let counts = counts_shown(
            self.workspace_diagnostics@,
            self.shown_of_workspace@,
            self.theme.scopes@,
        );
        law_workspace_counts_follow_their_mark(
            self.workspace_diagnostics@,
            self.shown_of_workspace@,
            self.theme.scopes@,
        );
        if counts.len() > 0 {
            let pieces = self.element(StatusLineElement::WorkspaceDiagnostics, overflow);
            assert(pieces.skip(1) =~= counts);
        }
    }

    /// The breadcrumbs of the statusline are those of the cursor, and there are none without a
    /// syntax. They are shown whole where there is room.
    pub proof fn law_breadcrumbs_are_those_of_the_cursor(self)
        ensures
            match self.breadcrumbs {
                Some(breadcrumbs) => self.element(StatusLineElement::Breadcrumbs, 0)
                    == crumbs_laid_out(
                    styled_crumbs(breadcrumbs@, self.theme.scopes@),
                    self.breadcrumbs_config,
                    or_plain(nearest(self.theme.scopes@, "ui.statusline.separator"@)),
                    0,
                    breadcrumbs@.len() as int,
                ),
                None => forall|overflow: usize|
                    (#[trigger] self.element(StatusLineElement::Breadcrumbs, overflow)).len() == 0,
            },
    {
        if let Some(breadcrumbs) = self.breadcrumbs {
            assert(self.element(StatusLineElement::Breadcrumbs, 0) =~= crumbs_laid_out(
                styled_crumbs(breadcrumbs@, self.theme.scopes@),
                self.breadcrumbs_config,
                or_plain(nearest(self.theme.scopes@, "ui.statusline.separator"@)),
                0,
                breadcrumbs@.len() as int,
            ));
        }
    }

    /// The elements of a side follow each other in the order of the configuration: what one side
    /// shows is followed by what the elements after it show.
    pub proof fn law_sides_show_their_elements_in_order(
        self,
        first: Seq<StatusLineElement>,
        second: Seq<StatusLineElement>,
        base: Style,
        overflow: usize,
    )
        ensures
            self.side(first + second, base, overflow) == self.side(first, base, overflow)
                + self.side(second, base, overflow),
            first.len() == 1 ==> {
                let side = self.side(first, base, overflow);
                let pieces = self.element(first[0], overflow);
                &&& side.len() == pieces.len()
                &&& forall|i: int|
                    0 <= i < pieces.len() ==> (#[trigger] side[i]).text == pieces[i].text
                        && side[i].style == base.patched(pieces[i].style)
            },
        decreases second.len(),
    {
        if second.len() > 0 {
            let rest = second.drop_last();
            self.law_sides_show_their_elements_in_order(first, rest, base, overflow);
            assert((first + second).drop_last() =~= first + rest);
            assert((first + second).last() == second.last());
            assert(self.side(first + second, base, overflow) =~= self.side(first, base, overflow)
                + self.side(second, base, overflow));
        } else {
            assert(first + second =~= first);
            assert(self.side(first, base, overflow) + self.side(second, base, overflow)
                =~= self.side(first, base, overflow));
        }
        if first.len() == 1 {
            assert(self.side(first.drop_last(), base, overflow) =~= Seq::empty());
        }
    }

    /// The style under the elements tells the focused view from the others.
    pub proof fn law_the_focused_statusline_stands_out(self)
        ensures
            self.focused ==> self.base() == or_plain(
                nearest(self.theme.scopes@, "ui.statusline"@),
            ),
            !self.focused ==> self.base() == or_plain(
                nearest(self.theme.scopes@, "ui.statusline.inactive"@),
            ),
    {
    }
}

/// The sides of a statusline are at its edges, and the center is in its middle: the rooms on either
/// side of it differ by one column at most. It is as wide as it needs, as far as the wider side and
/// a column on either side leave room.
pub proof fn law_the_center_is_in_the_middle(viewport: Rect, left: int, right: int, center: int)
    requires
        0 <= left <= viewport.width,
        0 <= right <= viewport.width,
        0 <= center <= u16::MAX,
        viewport.x + viewport.width <= u16::MAX,
    ensures
        ({
            let layout = layout_of(viewport, left, right, center);
            let wider = if left < right {
                right
            } else {
                left
            };
            let before = layout.center.x - viewport.x;
            let after = viewport.x + viewport.width - (layout.center.x + layout.center.width);
            &&& layout.left.x == viewport.x && layout.left.width == left
            &&& layout.right.x == viewport.x + viewport.width - right && layout.right.width == right
            &&& -1 <= before - after <= 1
            &&& center + 2 * wider + 2 <= viewport.width ==> layout.center.width == center
            &&& center + 2 * wider + 2 > viewport.width > 2 * wider + 2 ==> layout.center.width
                == viewport.width - 2 * wider - 2
            &&& viewport.width <= 2 * wider + 2 ==> layout.center.width == 0
        }),
{
}

impl RenderContext {
    /// Elements that can be narrower are asked to be so by as many columns as the sides overlap, where
    /// one of the three sides has such an element, and not at all where the sides leave room.
    pub proof fn law_shrinking_makes_up_for_the_overlap(self, width: u16, left: int, right: int)
        requires
            left == total_width(self.side(self.left@, self.base(), 0)),
            right == total_width(self.side(self.right@, self.base(), 0)),
            left + right <= usize::MAX,
        ensures
            ({
                let shrinks = self.any_shrinks(self.left@) || self.any_shrinks(self.center@)
                    || self.any_shrinks(self.right@);
                &&& !shrinks || left + right <= width ==> self.overflow(width) == 0
                &&& shrinks && left + right > width ==> self.overflow(width) == left + right - width
            }),
    {
        crate::pieces::lemma_total_width(self.side(self.left@, self.base(), 0));
        crate::pieces::lemma_total_width(self.side(self.right@, self.base(), 0));
    }

    /// Breadcrumbs can be narrower if they may be cut short and there is more than one, and no other
    /// element can.
    pub proof fn law_only_breadcrumbs_shrink(self, element: StatusLineElement)
        ensures
            self.shrinks(element) <==> element == StatusLineElement::Breadcrumbs
                && self.breadcrumbs is Some && self.breadcrumbs->0@.len() > 1
                && self.breadcrumbs_config.truncate,
    {
    }
}

/// The pieces of a side are written one after another, each from where the one before it ended, as far
/// as there is room.
pub proof fn law_pieces_of_a_side_follow_each_other(
    picture: Picture,
    piece: PieceView,
    rest: Seq<PieceView>,
    x: int,
    y: int,
    end: int,
)
    ensures
        x >= end ==> written_from(picture, seq![piece] + rest, x, y, end) == picture,
        x < end ==> ({
            let done = written(picture, x, y, symbols_of(piece.text), end, piece.style);
            written_from(picture, seq![piece] + rest, x, y, end) == written_from(
                done.picture,
                rest,
                done.x,
                y,
                end,
            )
        }),
        written_from(picture, Seq::empty(), x, y, end) == picture,
{
    assert((seq![piece] + rest).skip(1) =~= rest);
}

} // verus!
