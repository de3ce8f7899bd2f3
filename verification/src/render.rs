//! Drawing the panel: rows shaped like `eza --tree`, and the rail between panel and editor.
//!
//! A row reads `[git][cursor][ancestor lanes][branch][tip][ icon ][label]…[unsaved]`, with the
//! unsaved mark in the last column so it stays visible when the label is cut short.

use crate::arena::{Children, Kind, LinkTarget, Node, NodeView, Special};
use crate::git::{in_ignored, GitStatus, GitStatuses};
use crate::ls_colors::{EntryType, LsColors};
use crate::marks::BufferMarks;
use crate::names::{lossy, name_text, Part, TreePath};
use crate::rect::Rect;
use crate::rows::{lanes_of, Row, RowView, Rows};
use crate::style::{Modifier, Style};
use crate::surface::{covers, put, styled, symbols_of, written, Picture, Surface};
use crate::theme::Styles;
use crate::tree::Tree;
use crate::viewport::pinned;
use crate::workspace::row_in;
use vstd::prelude::*;

verus! {

/// The side of the editor that the panel is docked at.
#[derive(Clone, Copy, Debug, PartialEq, Eq, Structural)]
pub enum FileTreeSide {
    Left,
    Right,
}

/// The columns of a row but for its label.
pub open spec fn row_marks(depth: int, root: bool, icons: bool) -> int {
    (if root {
        3
    } else {
        6 + 4 * depth
    }) + (match (icons, root) {
        (true, true) => 2int,
        (true, false) => 3,
        (false, true) => 0,
        (false, false) => 1,
    })
}

/// The columns a row needs to show its label in full, unsaved mark included.
pub open spec fn full_width(row: RowView, root: bool, icons: bool) -> int {
    row_marks(row.depth, root, icons) + row.label_width
}

/// A number of columns as far as it can be counted.
pub open spec fn counted(columns: int) -> int {
    if columns > usize::MAX {
        usize::MAX as int
    } else {
        columns
    }
}

/// The columns a row needs to show its label in full, unsaved mark included.
pub fn natural_width(row: &Row, root: bool, icons: bool) -> (width: usize)
    ensures
        width == counted(full_width(row@, root, icons)),
{
    // git and cursor marks, then the branch (non-root rows), then the unsaved mark
    let marks: usize = if root {
        3
    } else {
        let two: usize = row.depth.saturating_add(row.depth);
        two.saturating_add(two).saturating_add(6)
    };
    let icon: usize = match (icons, root) {
        (true, true) => 2,
        (true, false) => 3,
        (false, true) => 0,
        (false, false) => 1,
    };
    marks.saturating_add(icon).saturating_add(row.label_width)
}

/// Whether the entry could not be read or leads nowhere.
pub open spec fn has_failed(node: NodeView) -> bool {
    node.children is Unreadable || node.kind == Kind::Link(LinkTarget::Broken)
}

/// What an entry is to the rules for colors, and what it links to.
pub open spec fn entry_types(kind: Kind) -> (EntryType, Option<EntryType>) {
    match kind {
        Kind::Directory => (EntryType::Directory, None),
        Kind::File { executable } => if executable {
            (EntryType::Executable, None)
        } else {
            (EntryType::File, None)
        },
        Kind::Link(LinkTarget::File) => (EntryType::Link, Some(EntryType::File)),
        Kind::Link(LinkTarget::Directory) => (EntryType::Link, Some(EntryType::Directory)),
        Kind::Link(LinkTarget::Broken) => (EntryType::Orphan, None),
        Kind::Special(Special::Fifo) => (EntryType::Fifo, None),
        Kind::Special(Special::Socket) => (EntryType::Socket, None),
        Kind::Special(Special::BlockDevice) => (EntryType::BlockDevice, None),
        Kind::Special(Special::CharDevice) => (EntryType::CharDevice, None),
    }
}

fn types_of(kind: Kind) -> (types: (EntryType, Option<EntryType>))
    ensures
        types == entry_types(kind),
{
    match kind {
        Kind::Directory => (EntryType::Directory, None),
        Kind::File { executable } => if executable {
            (EntryType::Executable, None)
        } else {
            (EntryType::File, None)
        },
        Kind::Link(LinkTarget::File) => (EntryType::Link, Some(EntryType::File)),
        Kind::Link(LinkTarget::Directory) => (EntryType::Link, Some(EntryType::Directory)),
        Kind::Link(LinkTarget::Broken) => (EntryType::Orphan, None),
        Kind::Special(Special::Fifo) => (EntryType::Fifo, None),
        Kind::Special(Special::Socket) => (EntryType::Socket, None),
        Kind::Special(Special::BlockDevice) => (EntryType::BlockDevice, None),
        Kind::Special(Special::CharDevice) => (EntryType::CharDevice, None),
    }
}

/// Which icon a row shows.
#[derive(Clone, Copy, Debug, PartialEq, Eq, Structural)]
pub enum Icon {
    BrokenLink,
    UnreadableDirectory,
    Root,
    /// The one for a directory of that name.
    Directory { expanded: bool },
    /// The one for a file of that name.
    File,
}

/// Which icon the row of an entry shows.
pub open spec fn icon_of(root: bool, node: NodeView) -> Icon {
    if has_failed(node) {
        if node.kind is Link {
            Icon::BrokenLink
        } else {
            Icon::UnreadableDirectory
        }
    } else if root {
        Icon::Root
    } else {
        match node.kind {
            Kind::Directory => Icon::Directory { expanded: node.expanded },
            Kind::Link(LinkTarget::Directory) => Icon::Directory { expanded: false },
            _ => Icon::File,
        }
    }
}

fn failed_entry(node: &Node) -> (failed: bool)
    ensures
        failed == has_failed(node@),
{
    match &node.children {
        Children::Unreadable => true,
        _ => node.kind == Kind::Link(LinkTarget::Broken),
    }
}

/// Which icon the row of an entry shows.
pub fn icon(root: bool, node: &Node) -> (icon: Icon)
    ensures
        icon == icon_of(root, node@),
{
    if failed_entry(node) {
        return match node.kind {
            Kind::Link(_) => Icon::BrokenLink,
            _ => Icon::UnreadableDirectory,
        };
    }
    if root {
        return Icon::Root;
    }
    match node.kind {
        Kind::Directory => Icon::Directory { expanded: node.expanded },
        Kind::Link(LinkTarget::Directory) => Icon::Directory { expanded: false },
        _ => Icon::File,
    }
}

/// A piece of a row.
#[derive(Debug)]
pub struct Span<'a> {
    pub text: &'a str,
    pub style: Style,
}

/// What a piece of a row reads.
pub ghost struct SpanView {
    pub text: Seq<char>,
    pub style: Style,
}

impl<'a> Span<'a> {
    pub open spec fn view(&self) -> SpanView {
        SpanView { text: self.text@, style: self.style }
    }
}

pub open spec fn span_views(spans: Seq<Span>) -> Seq<SpanView> {
    spans.map_values(|span: Span| span@)
}

fn push_span<'a>(spans: &mut Vec<Span<'a>>, text: &'a str, style: Style)
    ensures
        span_views(final(spans)@) == span_views(old(spans)@).push(SpanView { text: text@, style }),
{
    let ghost before = span_views(spans@);
    spans.push(Span { text, style });
    assert(span_views(spans@) =~= before.push(SpanView { text: text@, style }));
}

/// The picture with the pieces of a row written from `x` on, left of `last`.
pub open spec fn spans_written(
    picture: Picture,
    spans: Seq<SpanView>,
    x: int,
    y: int,
    last: int,
) -> Picture
    decreases spans.len(),
{
    if spans.len() == 0 || x >= last {
        picture
    } else {
        let done = written(picture, x, y, symbols_of(spans[0].text), last, spans[0].style);
        spans_written(done.picture, spans.skip(1), done.x, y, last)
    }
}

/// One frame of the panel.
pub struct Scene<'a> {
    pub tree: &'a Tree,
    pub rows: &'a Rows,
    pub git: &'a GitStatuses,
    pub marks: &'a BufferMarks,
    pub palette: Option<&'a LsColors>,
    pub styles: &'a Styles,
    /// The cursor row, while the tree is focused.
    pub cursor: Option<usize>,
    /// The first ordinary row as drawn, i.e. while smooth scrolling.
    pub start: usize,
    /// The icons of the rows, if they show any.
    pub icons: Option<&'a Vec<String>>,
    pub guides: bool,
    pub side: FileTreeSide,
}

impl<'a> Scene<'a> {
    /// The rows are rows of the tree, and have icons if any are shown.
    pub open spec fn wf(&self) -> bool {
        &&& self.tree.wf()
        &&& self.rows.wf()
        &&& forall|i: int|
            0 <= i < self.rows@.len() ==> row_in(self.tree.shape(), #[trigger] self.rows@[i])
        &&& self.icons matches Some(icons) ==> icons@.len() == self.rows@.len()
    }

    /// The node of row `index`.
    pub open spec fn node_of(&self, index: int) -> NodeView {
        self.tree.shape().nodes[self.rows@[index].node]
    }

    /// The style of a whole row.
    pub open spec fn row_look(&self, index: int, pinned: bool) -> Style {
        if self.cursor matches Some(cursor) && cursor == index {
            self.styles.selected
        } else if pinned {
            self.styles.pinned
        } else if self.marks.focuses(self.rows@[index].path) {
            self.styles.active
        } else {
            self.styles.base
        }
    }

    /// The style that the palette gives to an entry.
    pub open spec fn palette_look(&self, node: NodeView) -> Option<Style> {
        let (entry_type, target) = entry_types(node.kind);
        match self.palette {
            Some(palette) => palette@.style(lossy(node.name), entry_type, target),
            None => None,
        }
    }

    /// The style of the label of an entry that is all right, in a row of the style `row`.
    pub open spec fn entry_look(&self, node: NodeView, row: Style) -> Style {
        let (entry_type, target) = entry_types(node.kind);
        match self.palette_look(node) {
            Some(colors) => row.patched(colors),
            None => if entry_type is Directory || target == Some(EntryType::Directory) {
                row.patched(self.styles.directory)
            } else {
                row
            },
        }
    }

    /// The style of the label of an entry in a row of the style `row`. A failure replaces the color
    /// but keeps the modifiers saying what the entry is.
    pub open spec fn label_look(&self, node: NodeView, path: Seq<Part>, row: Style) -> Style {
        let entry = self.entry_look(node, row);
        let style = if has_failed(node) && self.styles.error.fg is Some {
            Style { fg: self.styles.error.fg, ..entry }
        } else {
            entry
        };
        if in_ignored(self.git.left_out(), path) {
            style.with_modifier(Modifier { dim: true, ..Modifier::none() })
        } else {
            style
        }
    }

    /// The git mark of row `index`.
    pub open spec fn git_span(&self, index: int, row: Style) -> SpanView {
        let node = self.node_of(index);
        let status = if has_failed(node) {
            None
        } else {
            self.git.mark(self.rows@[index].path, node.kind is Directory)
        };
        match status {
            Some(status) => SpanView {
                text: if status is Deleted {
                    "▔"@
                } else {
                    "▍"@
                },
                style: row.patched(self.styles.mark_style(status)),
            },
            None => SpanView { text: " "@, style: row },
        }
    }

    /// The cursor mark of row `index`.
    pub open spec fn cursor_span(&self, index: int, row: Style) -> SpanView {
        SpanView {
            text: if self.cursor matches Some(cursor) && cursor == index {
                ">"@
            } else {
                " "@
            },
            style: row,
        }
    }

    /// The tip of the branch of row `index`: whether a directory is expanded, or a file open.
    pub open spec fn tip_span(&self, index: int, row: Style) -> SpanView {
        let guide = row.patched(self.styles.guide);
        let node = self.node_of(index);
        let path = self.rows@[index].path;
        if node.kind is Directory {
            SpanView {
                text: if node.expanded {
                    "▾"@
                } else {
                    "▸"@
                },
                style: guide,
            }
        } else if self.marks.focuses(path) {
            SpanView { text: "*"@, style: row.patched(self.styles.buffer_focused) }
        } else if self.marks.opens(path) {
            SpanView { text: "*"@, style: row.patched(self.styles.buffer) }
        } else {
            SpanView {
                text: if self.guides {
                    "─"@
                } else {
                    " "@
                },
                style: guide,
            }
        }
    }

    /// An ancestor lane.
    pub open spec fn lane_span(&self, row: Style) -> spec_fn(bool) -> SpanView {
        |continues: bool|
            SpanView {
                text: if self.guides && continues {
                    "│   "@
                } else {
                    "    "@
                },
                style: row.patched(self.styles.guide),
            }
    }

    /// What connects row `index` to the row it hangs from.
    pub open spec fn branch_spans(&self, index: int, row: Style) -> Seq<SpanView> {
        if index == 0 {
            Seq::empty()
        } else {
            lanes_of(self.rows@, index).map_values(self.lane_span(row)).push(
                SpanView {
                    text: if !self.guides {
                        "  "@
                    } else if self.rows@[index].last {
                        "└─"@
                    } else {
                        "├─"@
                    },
                    style: row.patched(self.styles.guide),
                },
            ).push(self.tip_span(index, row))
        }
    }

    /// The icon of row `index`, which takes the label's color but not its modifiers.
    pub open spec fn icon_spans(&self, index: int, row: Style, label: Style) -> Seq<SpanView> {
        let space = SpanView { text: " "@, style: row };
        match self.icons {
            Some(icons) => (if index == 0 {
                Seq::empty()
            } else {
                seq![space]
            }).push(
                SpanView { text: icons@[index]@, style: Style { fg: label.fg, ..row } },
            ).push(space),
            None => if index == 0 {
                Seq::empty()
            } else {
                seq![space]
            },
        }
    }

    /// The pieces of row `index`.
    pub open spec fn row_spans(&self, index: int, pinned: bool) -> Seq<SpanView> {
        let row = self.row_look(index, pinned);
        let label = self.label_look(self.node_of(index), self.rows@[index].path, row);
        (seq![self.git_span(index, row), self.cursor_span(index, row)] + self.branch_spans(
            index,
            row,
        ) + self.icon_spans(index, row, label)).push(
            SpanView { text: self.rows@[index].label, style: label },
        )
    }

    /// The picture with row `index` drawn in `area`.
    pub open spec fn row_drawn(
        &self,
        picture: Picture,
        index: int,
        pinned: bool,
        area: Rect,
    ) -> Picture {
        if area.width < 2 {
            picture
        } else {
            let row = self.row_look(index, pinned);
            let view = self.rows@[index];
            let label = self.label_look(self.node_of(index), view.path, row);
            let y = area.y as int;
            let last = area.x + area.width - 1;
            let spans = spans_written(
                styled(picture, area, row),
                self.row_spans(index, pinned),
                area.x as int,
                y,
                last,
            );
            let cut = if full_width(view, index == 0, self.icons is Some) > area.width {
                put(spans, last - 1, y, "…"@, label)
            } else {
                spans
            };
            if self.marks.marks(view.path) {
                put(cut, last, y, "+"@, row.patched(self.styles.unsaved))
            } else {
                put(cut, last, y, " "@, row)
            }
        }
    }
}

/// The unsaved mark of a row is in its last column, however its label is cut.
pub proof fn law_unsaved_marks_stay_visible(
    scene: Scene,
    picture: Picture,
    index: int,
    pinned: bool,
    area: Rect,
)
    requires
        area.width >= 2,
    ensures
        scene.row_drawn(picture, index, pinned, area)[(
            area.x + area.width - 1,
            area.y as int,
        )].symbol == (if scene.marks.marks(scene.rows@[index].path) {
            "+"@
        } else {
            " "@
        }),
{
}

/// Whether `area` is one that a row can be drawn in.
pub open spec fn is_row_of(surface: Surface, area: Rect) -> bool {
    surface.wf() && covers(surface.area, area) && area.height == 1
}

impl<'a> Scene<'a> {
    fn palette_style(&self, node: &Node) -> (style: Option<Style>)
        ensures
            style == self.palette_look(node@),
    {
        match self.palette {
            Some(palette) => {
                let (entry_type, target) = types_of(node.kind);
                let name: String = name_text(&node.name);
                palette.style(name.as_str(), entry_type, target)
            },
            None => None,
        }
    }

    fn entry_style(&self, node: &Node, row_style: Style) -> (style: Style)
        ensures
            style == self.entry_look(node@, row_style),
    {
        match self.palette_style(node) {
            Some(colors) => row_style.patch(colors),
            None => {
                let (entry_type, target) = types_of(node.kind);
                if entry_type == EntryType::Directory || target == Some(EntryType::Directory) {
                    row_style.patch(self.styles.directory)
                } else {
                    row_style
                }
            },
        }
    }

    fn label_style(&self, node: &Node, path: &TreePath, row_style: Style) -> (style: Style)
        ensures
            style == self.label_look(node@, path@, row_style),
    {
        let mut style: Style = self.entry_style(node, row_style);
        // A failure replaces the color but keeps the modifiers saying what the entry is.
        if failed_entry(node) {
            if let Some(color) = self.styles.error.fg {
                style = style.fg(color);
            }
        }
        if self.git.is_ignored(path) {
            let dim = Modifier { dim: true, ..Modifier::empty() };
            style = style.add_modifier(dim);
        }
        style
    }

    fn row_style(&self, index: usize, pinned: bool) -> (style: Style)
        requires
            self.wf(),
            index < self.rows@.len(),
        ensures
            style == self.row_look(index as int, pinned),
    {
        if self.cursor == Some(index) {
            self.styles.selected
        } else if pinned {
            self.styles.pinned
        } else if self.marks.is_focused(&self.rows.row(index).path) {
            self.styles.active
        } else {
            self.styles.base
        }
    }

    fn push_marks(&self, spans: &mut Vec<Span<'a>>, index: usize, row_style: Style)
        requires
            self.wf(),
            index < self.rows@.len(),
        ensures
            span_views(final(spans)@) == span_views(old(spans)@) + seq![
                self.git_span(index as int, row_style),
                self.cursor_span(index as int, row_style),
            ],
    {
        proof {
            assert(row_in(self.tree.shape(), self.rows@[index as int]));
        }
        let ghost before = span_views(spans@);
        let row: &Row = self.rows.row(index);
        let node: &Node = self.tree.node(row.node);
        let git: Option<GitStatus> = if failed_entry(node) {
            None
        } else {
            self.git.status(&row.path, node.kind == Kind::Directory)
        };
        match git {
            Some(GitStatus::Deleted) => push_span(spans, "▔", row_style.patch(self.styles.deleted)),
            Some(status) => push_span(spans, "▍", row_style.patch(self.styles.git(status))),
            None => push_span(spans, " ", row_style),
        }
        if self.cursor == Some(index) {
            push_span(spans, ">", row_style);
        } else {
            push_span(spans, " ", row_style);
        }
        assert(span_views(spans@) =~= before + seq![
            self.git_span(index as int, row_style),
            self.cursor_span(index as int, row_style),
        ]);
    }

    fn push_branch(&self, spans: &mut Vec<Span<'a>>, index: usize, row_style: Style)
        requires
            self.wf(),
            index < self.rows@.len(),
        ensures
            span_views(final(spans)@) == span_views(old(spans)@) + self.branch_spans(
                index as int,
                row_style,
            ),
    {
        let ghost before = span_views(spans@);
        if index == 0 {
            assert(span_views(spans@) =~= before + self.branch_spans(index as int, row_style));
            return ;
        }
        let row: &Row = self.rows.row(index);
        let guide: Style = row_style.patch(self.styles.guide);
        let lanes: Vec<bool> = self.rows.lanes(index);
        let ghost lane_views = lanes@.map_values(self.lane_span(row_style));
        let mut i: usize = 0;
        assert(span_views(spans@) =~= before + lane_views.take(0));
        while i < lanes.len()
            invariant
                i <= lanes@.len(),
                lane_views == lanes@.map_values(self.lane_span(row_style)),
                guide == row_style.patched(self.styles.guide),
                span_views(spans@) == before + lane_views.take(i as int),
            decreases lanes.len() - i,
        {
            if self.guides && lanes[i] {
                push_span(spans, "│   ", guide);
            } else {
                push_span(spans, "    ", guide);
            }
            i += 1;
            assert(span_views(spans@) =~= before + lane_views.take(i as int));
        }
        assert(lane_views.take(i as int) =~= lane_views);
        if !self.guides {
            push_span(spans, "  ", guide);
        } else if row.last {
            push_span(spans, "└─", guide);
        } else {
            push_span(spans, "├─", guide);
        }
        self.push_tip(spans, index, row_style);
        assert(span_views(spans@) =~= before + self.branch_spans(index as int, row_style));
    }

    fn push_tip(&self, spans: &mut Vec<Span<'a>>, index: usize, row_style: Style)
        requires
            self.wf(),
            index < self.rows@.len(),
        ensures
            span_views(final(spans)@) == span_views(old(spans)@).push(
                self.tip_span(index as int, row_style),
            ),
    {
        proof {
            assert(row_in(self.tree.shape(), self.rows@[index as int]));
        }
        let row: &Row = self.rows.row(index);
        let node: &Node = self.tree.node(row.node);
        let guide: Style = row_style.patch(self.styles.guide);
        if node.kind == Kind::Directory {
            if node.expanded {
                push_span(spans, "▾", guide);
            } else {
                push_span(spans, "▸", guide);
            }
        } else if self.marks.is_focused(&row.path) {
            push_span(spans, "*", row_style.patch(self.styles.buffer_focused));
        } else if self.marks.is_open(&row.path) {
            push_span(spans, "*", row_style.patch(self.styles.buffer));
        } else if self.guides {
            push_span(spans, "─", guide);
        } else {
            push_span(spans, " ", guide);
        }
    }

    fn push_icon(&self, spans: &mut Vec<Span<'a>>, index: usize, row_style: Style, label: Style)
        requires
            self.wf(),
            index < self.rows@.len(),
        ensures
            span_views(final(spans)@) == span_views(old(spans)@) + self.icon_spans(
                index as int,
                row_style,
                label,
            ),
    {
        let ghost before = span_views(spans@);
        if index != 0 {
            push_span(spans, " ", row_style);
        }
        if let Some(icons) = self.icons {
            // Like `eza`, the icon takes the label's color but not its modifiers.
            let icon_style = Style { fg: label.fg, ..row_style };
            push_span(spans, icons[index].as_str(), icon_style);
            push_span(spans, " ", row_style);
        }
        assert(span_views(spans@) =~= before + self.icon_spans(index as int, row_style, label));
    }

    /// Draws row `index` in `area`.
    pub fn render_row(&self, index: usize, pinned: bool, area: Rect, surface: &mut Surface)
        requires
            self.wf(),
            index < self.rows@.len(),
            is_row_of(*old(surface), area),
        ensures
            final(surface).wf(),
            final(surface).area == old(surface).area,
            final(surface)@ == self.row_drawn(old(surface)@, index as int, pinned, area),
    {
        if area.width < 2 {
            return ;
        }
        proof {
            assert(row_in(self.tree.shape(), self.rows@[index as int]));
        }
        let row: &Row = self.rows.row(index);
        let node: &Node = self.tree.node(row.node);
        let row_style: Style = self.row_style(index, pinned);
        surface.set_style(area, row_style);

        let label_style: Style = self.label_style(node, &row.path, row_style);
        let mut spans: Vec<Span> = Vec::new();
        self.push_marks(&mut spans, index, row_style);
        self.push_branch(&mut spans, index, row_style);
        self.push_icon(&mut spans, index, row_style, label_style);
        push_span(&mut spans, row.label.as_str(), label_style);
        assert(span_views(spans@) =~= self.row_spans(index as int, pinned));

        let last: u16 = area.x + area.width - 1;
        self.write_spans(&spans, area.x, area.y, last, surface);
        if natural_width(row, index == 0, self.icons.is_some()) > area.width as usize {
            surface.set(last - 1, area.y, "…", label_style);
        }
        if self.marks.is_modified(&row.path) {
            surface.set(last, area.y, "+", row_style.patch(self.styles.unsaved));
        } else {
            surface.set(last, area.y, " ", row_style);
        }
    }

    fn write_spans(&self, spans: &Vec<Span<'a>>, from: u16, y: u16, last: u16, surface: &mut Surface)
        requires
            old(surface).wf(),
            old(surface).area.x <= from <= last < old(surface).area.x + old(surface).area.width,
            old(surface).area.y <= y < old(surface).area.y + old(surface).area.height,
        ensures
            final(surface).wf(),
            final(surface).area == old(surface).area,
            final(surface)@ == spans_written(
                old(surface)@,
                span_views(spans@),
                from as int,
                y as int,
                last as int,
            ),
    {
        let ghost all = span_views(spans@);
        let ghost goal = spans_written(surface@, all, from as int, y as int, last as int);
        let mut x: u16 = from;
        let mut i: usize = 0;
        assert(all.skip(0) =~= all);
        while i < spans.len() && x < last
            invariant
                i <= spans@.len(),
                all == span_views(spans@),
                surface.wf(),
                surface.area == old(surface).area,
                surface.area.x <= from <= x <= last < surface.area.x + surface.area.width,
                surface.area.y <= y < surface.area.y + surface.area.height,
                goal == spans_written(surface@, all.skip(i as int), x as int, y as int, last as int),
            decreases spans.len() - i,
        {
            assert(all.skip(i as int)[0] == spans@[i as int]@);
            assert(all.skip(i as int).skip(1) =~= all.skip(i + 1));
            x = surface.set_stringn(x, y, spans[i].text, last - x, spans[i].style);
            i += 1;
        }
    }
}

/// The columns of a row but for its label: those of the git mark, the cursor and the unsaved mark,
/// four for every lane of its ancestors, two for its branch and one for the tip of that, and those of
/// an icon and the spaces around it. The root hangs from nothing.
pub proof fn law_columns_of_rows_add_up(depth: int, icons: bool)
    ensures
        row_marks(depth, true, false) == 1 + 1 + 1,
        row_marks(depth, true, true) == 1 + 1 + 1 + 2,
        row_marks(depth, false, false) == 1 + 1 + 4 * depth + 2 + 1 + 1 + 1,
        row_marks(depth, false, true) == 1 + 1 + 4 * depth + 2 + 1 + 3 + 1,
{
}

/// Every kind of entry has its own rule for colors. A file that can be executed is not one like
/// others, and a link goes with what it leads to.
pub proof fn law_kinds_have_their_own_colors()
    ensures
        entry_types(Kind::Directory) == (EntryType::Directory, None::<EntryType>),
        entry_types(Kind::File { executable: true }) == (EntryType::Executable, None::<EntryType>),
        entry_types(Kind::File { executable: false }) == (EntryType::File, None::<EntryType>),
        entry_types(Kind::Link(LinkTarget::File)) == (EntryType::Link, Some(EntryType::File)),
        entry_types(Kind::Link(LinkTarget::Directory)) == (
            EntryType::Link,
            Some(EntryType::Directory),
        ),
        entry_types(Kind::Link(LinkTarget::Broken)) == (EntryType::Orphan, None::<EntryType>),
        entry_types(Kind::Special(Special::Fifo)) == (EntryType::Fifo, None::<EntryType>),
        entry_types(Kind::Special(Special::Socket)) == (EntryType::Socket, None::<EntryType>),
        entry_types(Kind::Special(Special::BlockDevice)) == (
            EntryType::BlockDevice,
            None::<EntryType>,
        ),
        entry_types(Kind::Special(Special::CharDevice)) == (
            EntryType::CharDevice,
            None::<EntryType>,
        ),
{
}

/// Icons tell what entries are: links that lead nowhere, directories that cannot be read, the root,
/// directories that are expanded or not, links to directories like those that are not, and files.
pub proof fn law_icons_tell_what_entries_are(root: bool, node: NodeView)
    ensures
        node.kind == Kind::Link(LinkTarget::Broken) ==> icon_of(root, node) == Icon::BrokenLink,
        node.kind == Kind::Directory && node.children is Unreadable ==> icon_of(root, node)
            == Icon::UnreadableDirectory,
        root && node.kind == Kind::Directory && !(node.children is Unreadable) ==> icon_of(
            root,
            node,
        ) == Icon::Root,
        !root && node.kind == Kind::Directory && !(node.children is Unreadable) ==> icon_of(
            root,
            node,
        ) == (Icon::Directory { expanded: node.expanded }),
        !root && node.kind == Kind::Link(LinkTarget::Directory) && !(node.children is Unreadable)
            ==> icon_of(root, node) == (Icon::Directory { expanded: false }),
        !root && node.kind is File && !(node.children is Unreadable) ==> icon_of(root, node)
            == Icon::File,
        !root && node.kind == Kind::Link(LinkTarget::File) && !(node.children is Unreadable)
            ==> icon_of(root, node) == Icon::File,
        !root && node.kind is Special && !(node.children is Unreadable) ==> icon_of(root, node)
            == Icon::File,
{
}

impl<'a> Scene<'a> {
    /// A row starts with its git mark: a bar at the top for what is deleted and one at the side for
    /// other changes, each in its own style, and a blank where nothing changed or the entry failed.
    pub proof fn law_git_marks_are_drawn(self, index: int, row: Style)
        ensures
            ({
                let node = self.node_of(index);
                let mark = self.git.mark(self.rows@[index].path, node.kind is Directory);
                let span = self.git_span(index, row);
                let failed = node.children is Unreadable || node.kind == Kind::Link(
                    LinkTarget::Broken,
                );
                &&& failed || mark is None ==> span.text == " "@ && span.style == row
                &&& !failed && mark == Some(GitStatus::Deleted) ==> span.text == "▔"@ && span.style
                    == row.patched(self.styles.deleted)
                &&& !failed && mark == Some(GitStatus::Created) ==> span.text == "▍"@ && span.style
                    == row.patched(self.styles.created)
                &&& !failed && mark == Some(GitStatus::Modified) ==> span.text == "▍"@ && span.style
                    == row.patched(self.styles.modified)
                &&& !failed && mark == Some(GitStatus::Conflict) ==> span.text == "▍"@ && span.style
                    == row.patched(self.styles.conflict)
            }),
    {
    }

    /// The row of the cursor, and no other one, has its mark and is drawn as selected. Other rows are
    /// drawn as pinned, as that of the focused buffer, or like the panel.
    pub proof fn law_the_cursor_row_stands_out(self, index: int, pinned: bool, row: Style)
        ensures
            ({
                let at_cursor = self.cursor is Some && self.cursor->0 == index;
                let focused = self.marks.focused is Some && self.marks.focused->0@
                    == self.rows@[index].path;
                &&& at_cursor ==> self.cursor_span(index, row).text == ">"@
                &&& !at_cursor ==> self.cursor_span(index, row).text == " "@
                &&& at_cursor ==> self.row_look(index, pinned) == self.styles.selected
                &&& !at_cursor && pinned ==> self.row_look(index, pinned) == self.styles.pinned
                &&& !at_cursor && !pinned && focused ==> self.row_look(index, pinned)
                    == self.styles.active
                &&& !at_cursor && !pinned && !focused ==> self.row_look(index, pinned)
                    == self.styles.base
            }),
    {
    }

    /// The tip of a branch tells whether a directory is expanded, and whether a file is that of the
    /// focused buffer or of another one.
    pub proof fn law_tips_tell_what_is_open(self, index: int, row: Style)
        ensures
            ({
                let node = self.node_of(index);
                let path = self.rows@[index].path;
                let tip = self.tip_span(index, row);
                let focused = self.marks.focuses(path);
                let open = self.marks.opens(path);
                let file = node.kind != Kind::Directory;
                &&& node.kind == Kind::Directory && node.expanded ==> tip.text == "▾"@
                &&& node.kind == Kind::Directory && !node.expanded ==> tip.text == "▸"@
                &&& file && focused ==> tip.text == "*"@ && tip.style == row.patched(
                    self.styles.buffer_focused,
                )
                &&& file && !focused && open ==> tip.text == "*"@ && tip.style == row.patched(
                    self.styles.buffer,
                )
                &&& file && !focused && !open && self.guides ==> tip.text == "─"@
                &&& file && !focused && !open && !self.guides ==> tip.text == " "@
            }),
    {
    }

    /// A row hangs from a branch, the last one of its directory from the end of it. Lanes go on where
    /// more rows follow. Without guides there are blanks in their place.
    pub proof fn law_branches_are_drawn(self, index: int, row: Style)
        requires
            index != 0,
        ensures
            ({
                let spans = self.branch_spans(index, row);
                let lanes = lanes_of(self.rows@, index);
                let branch = spans[lanes.len() as int];
                &&& spans.len() == lanes.len() + 2
                &&& spans[lanes.len() as int + 1] == self.tip_span(index, row)
                &&& self.guides && self.rows@[index].last ==> branch.text == "└─"@
                &&& self.guides && !self.rows@[index].last ==> branch.text == "├─"@
                &&& !self.guides ==> branch.text == "  "@
                &&& forall|i: int|
                    0 <= i < lanes.len() ==> (#[trigger] spans[i]).text == if self.guides
                        && lanes[i] {
                        "│   "@
                    } else {
                        "    "@
                    }
            }),
            self.branch_spans(0, row).len() == 0,
    {
    }

    /// The label of an entry has its colors on top of the style of its row. One that failed has the
    /// color of errors, and one that is ignored is dim.
    pub proof fn law_labels_tell_what_is_wrong(self, node: NodeView, path: Seq<Part>, row: Style)
        ensures
            ({
                let label = self.label_look(node, path, row);
                let entry = self.entry_look(node, row);
                let failed = node.children is Unreadable || node.kind == Kind::Link(
                    LinkTarget::Broken,
                );
                let ignored = in_ignored(self.git.left_out(), path);
                &&& failed && self.styles.error.fg is Some ==> label.fg == self.styles.error.fg
                &&& !failed || self.styles.error.fg is None ==> label.fg == entry.fg
                &&& ignored ==> label.add_modifier.dim && !label.sub_modifier.dim
                &&& !ignored ==> label.add_modifier == entry.add_modifier && label.sub_modifier
                    == entry.sub_modifier
                &&& label.add_modifier.bold == entry.add_modifier.bold
                &&& label.bg == entry.bg
            }),
            self.palette_look(node) matches Some(colors) ==> self.entry_look(node, row)
                == row.patched(colors),
            self.palette_look(node) is None && (node.kind == Kind::Directory || node.kind
                == Kind::Link(LinkTarget::Directory)) ==> self.entry_look(node, row) == row.patched(
                self.styles.directory,
            ),
            self.palette_look(node) is None && node.kind is File ==> self.entry_look(node, row)
                == row,
    {
    }

    /// A row reads its git mark, the mark of the cursor, its branch, its icon and its label, in this
    /// order. The icon has the color of the label, between spaces.
    pub proof fn law_rows_read_in_order(self, index: int, pinned: bool)
        ensures
            ({
                let row = self.row_look(index, pinned);
                let label = self.label_look(self.node_of(index), self.rows@[index].path, row);
                let spans = self.row_spans(index, pinned);
                let branch = self.branch_spans(index, row);
                let n = branch.len() as int;
                &&& spans[0] == self.git_span(index, row)
                &&& spans[1] == self.cursor_span(index, row)
                &&& spans.subrange(2, 2 + n) == branch
                &&& spans[spans.len() - 1].text == self.rows@[index].label
                &&& spans[spans.len() - 1].style == label
                &&& self.icons is None && index == 0 ==> spans.len() == n + 3
                &&& self.icons is None && index != 0 ==> spans.len() == n + 4 && spans[n + 2].text
                    == " "@
                &&& self.icons matches Some(icons) ==> (index == 0 ==> spans.len() == n + 5
                    && spans[n + 2].text == icons@[index]@ && spans[n + 2].style.fg == label.fg
                    && spans[n + 3].text == " "@)
                &&& self.icons matches Some(icons) ==> (index != 0 ==> spans.len() == n + 6
                    && spans[n + 2].text == " "@ && spans[n + 3].text == icons@[index]@
                    && spans[n + 3].style.fg == label.fg && spans[n + 4].text == " "@)
            }),
    {
        let row = self.row_look(index, pinned);
        let branch = self.branch_spans(index, row);
        assert(self.row_spans(index, pinned).subrange(2, 2 + branch.len() as int) =~= branch);
    }
}

/// The pieces of a row are written one after another, each from where the one before it ended, as far
/// as there is room.
pub proof fn law_pieces_follow_each_other(
    picture: Picture,
    span: SpanView,
    rest: Seq<SpanView>,
    x: int,
    y: int,
    last: int,
)
    ensures
        x >= last ==> spans_written(picture, seq![span] + rest, x, y, last) == picture,
        x < last ==> ({
            let done = written(picture, x, y, symbols_of(span.text), last, span.style);
            spans_written(picture, seq![span] + rest, x, y, last) == spans_written(
                done.picture,
                rest,
                done.x,
                y,
                last,
            )
        }),
        spans_written(picture, Seq::empty(), x, y, last) == picture,
{
    assert((seq![span] + rest).skip(1) =~= rest);
}

} // verus!
