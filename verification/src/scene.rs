//! Drawing a whole frame of the panel.

use crate::rect::Rect;
use crate::render::{FileTreeSide, Scene};
use crate::rows::{ancestors_of, RowView};
use crate::scrollbar::{thumb_height, thumb_start};
use crate::style::Style;
use crate::surface::{cleared, covers, CellView, Picture, Surface};
use crate::viewport::{pinned, pinned_rows, rail_offset, thumb};
use std::ops::Range;
use vstd::prelude::*;

verus! {

/// The part of the panel that shows the rows.
pub open spec fn content_of(side: FileTreeSide, area: Rect) -> Rect {
    match side {
        FileTreeSide::Left => Rect { width: (area.width - 1) as u16, ..area },
        FileTreeSide::Right => Rect {
            x: (area.x + 1) as u16,
            width: (area.width - 1) as u16,
            ..area
        },
    }
}

/// The column of the rail.
pub open spec fn rail_of(side: FileTreeSide, area: Rect) -> int {
    match side {
        FileTreeSide::Left => area.x + area.width - 1,
        FileTreeSide::Right => area.x as int,
    }
}

/// The row shown at the `k`th place, when the ordinary rows start at `start`.
pub open spec fn row_shown(rows: Seq<RowView>, start: int, height: int, k: int) -> Option<int> {
    let above = pinned_rows(rows, start, height);
    if k < above.len() {
        Some(above[k])
    } else if start + k - above.len() < rows.len() {
        Some(start + k - above.len())
    } else {
        None
    }
}

/// Whether the thumb covers the `k`th place of the rail.
pub open spec fn thumb_covers(rows: Seq<RowView>, start: int, height: int, k: int) -> bool {
    let top = thumb_start(rows.len() as int, height, rail_offset(rows, start, height));
    rows.len() > height && top <= k < top + thumb_height(rows.len() as int, height)
}

proof fn lemma_ancestors_below(rows: Seq<RowView>, i: int)
    requires
        0 <= i,
    ensures
        forall|k: int|
            0 <= k < ancestors_of(rows, i).len() ==> 0 <= #[trigger] ancestors_of(rows, i)[k] < i,
    decreases i,
{
    match rows[i].parent {
        Some(parent) => if 0 <= parent < i {
            lemma_ancestors_below(rows, parent);
            let outer = ancestors_of(rows, parent);
            assert forall|k: int| 0 <= k < ancestors_of(rows, i).len() implies 0
                <= #[trigger] ancestors_of(rows, i)[k] < i by {
                if k < outer.len() {
                    assert(0 <= outer[k] < parent);
                }
            }
        },
        None => {},
    }
}

impl<'a> Scene<'a> {
    /// The picture with the first `count` rows of the panel drawn.
    pub open spec fn rows_drawn(&self, picture: Picture, content: Rect, count: int) -> Picture
        decreases count,
    {
        if count <= 0 {
            picture
        } else {
            let before = self.rows_drawn(picture, content, count - 1);
            let k = count - 1;
            let height = content.height as int;
            match row_shown(self.rows@, self.start as int, height, k) {
                Some(index) => self.row_drawn(
                    before,
                    index,
                    k < pinned_rows(self.rows@, self.start as int, height).len(),
                    Rect { y: (content.y + k) as u16, height: 1, ..content },
                ),
                None => before,
            }
        }
    }

    /// What the rail shows at its `k`th place, over a cell of the style `style`.
    pub open spec fn rail_cell(&self, height: int, k: int, style: Style) -> CellView {
        if thumb_covers(self.rows@, self.start as int, height, k) {
            CellView { symbol: "┃"@, style: style.patched(self.styles.thumb) }
        } else {
            CellView { symbol: "│"@, style: style.patched(self.styles.track) }
        }
    }

    /// The picture with the rail drawn at the column `rail`.
    pub open spec fn rail_drawn(&self, picture: Picture, rail: int, area: Rect) -> Picture {
        Map::new(
            |at: (int, int)| picture.dom().contains(at),
            |at: (int, int)|
                if at.0 == rail && area.y <= at.1 < area.y + area.height {
                    self.rail_cell(area.height as int, at.1 - area.y, picture[at].style)
                } else {
                    picture[at]
                },
        )
    }

    /// The picture with the panel drawn in `area`.
    pub open spec fn drawn(&self, picture: Picture, area: Rect) -> Picture {
        let content = content_of(self.side, area);
        self.rail_drawn(
            self.rows_drawn(
                cleared(picture, content, self.styles.base),
                content,
                content.height as int,
            ),
            rail_of(self.side, area),
            area,
        )
    }

    /// Draws the panel in `area`.
    pub fn render(&self, area: Rect, surface: &mut Surface)
        requires
            self.wf(),
            area.width >= 1,
            old(surface).wf(),
            covers(old(surface).area, area),
        ensures
            final(surface).wf(),
            final(surface).area == old(surface).area,
            final(surface)@ == self.drawn(old(surface)@, area),
    {
        let (content, rail) = match self.side {
            FileTreeSide::Left => (
                Rect { width: area.width - 1, ..area },
                area.x + (area.width - 1),
            ),
            FileTreeSide::Right => (
                Rect { x: area.x + 1, width: area.width - 1, ..area },
                area.x,
            ),
        };
        surface.clear_with(content, self.styles.base);
        self.render_rows(content, surface);
        self.render_rail(rail, area, surface);
    }

    #[verifier::rlimit(40)]
    #[verifier::spinoff_prover]
    fn render_rows(&self, content: Rect, surface: &mut Surface)
        requires
            self.wf(),
            old(surface).wf(),
            covers(old(surface).area, content),
        ensures
            final(surface).wf(),
            final(surface).area == old(surface).area,
            final(surface)@ == self.rows_drawn(old(surface)@, content, content.height as int),
    {
        let height: usize = content.height as usize;
        let above: Vec<usize> = pinned(self.rows, self.start, height);
        let ghost above_rows = pinned_rows(self.rows@, self.start as int, height as int);
        proof {
            if above_rows.len() > 0 {
                lemma_ancestors_below(self.rows@, self.start as int);
            }
            assert forall|k: int| 0 <= k < above@.len() implies (#[trigger] above@[k]) as int
                == above_rows[k] && above@[k] < self.rows@.len() by {
                assert(above@.map_values(|i: usize| i as int)[k] == above@[k] as int);
            }
        }
        let len: usize = self.rows.len();
        let mut k: u16 = 0;
        while k < content.height
            invariant
                k <= content.height,
                self.wf(),
                surface.wf(),
                surface.area == old(surface).area,
                covers(surface.area, content),
                height == content.height,
                len == self.rows@.len(),
                above_rows == pinned_rows(self.rows@, self.start as int, height as int),
                above@.len() == above_rows.len(),
                forall|k: int|
                    0 <= k < above@.len() ==> (#[trigger] above@[k]) as int == above_rows[k]
                        && above@[k] < self.rows@.len(),
                surface@ == self.rows_drawn(old(surface)@, content, k as int),
            decreases content.height - k,
        {
            let area = Rect { y: content.y + k, height: 1, ..content };
            let at: usize = k as usize;
            if at < above.len() {
                self.render_row(above[at], true, area, surface);
            } else if self.start < len && at - above.len() < len - self.start {
                self.render_row(self.start + (at - above.len()), false, area, surface);
            }
            k += 1;
        }
    }

    fn render_rail(&self, rail: u16, area: Rect, surface: &mut Surface)
        requires
            self.wf(),
            old(surface).wf(),
            covers(old(surface).area, area),
            area.x <= rail < area.x + area.width,
        ensures
            final(surface).wf(),
            final(surface).area == old(surface).area,
            final(surface)@ == self.rail_drawn(old(surface)@, rail as int, area),
    {
        let ghost before = surface@;
        let covered: Option<Range<usize>> = thumb(self.rows, self.start, area.height as usize);
        let mut k: u16 = 0;
        while k < area.height
            invariant
                k <= area.height,
                surface.wf(),
                surface.area == old(surface).area,
                covers(surface.area, area),
                area.x <= rail < area.x + area.width,
                match covered {
                    None => self.rows@.len() <= area.height,
                    Some(covered) => {
                        &&& self.rows@.len() > area.height
                        &&& covered.start == thumb_start(
                            self.rows@.len() as int,
                            area.height as int,
                            rail_offset(self.rows@, self.start as int, area.height as int),
                        )
                        &&& covered.end == covered.start + thumb_height(
                            self.rows@.len() as int,
                            area.height as int,
                        )
                    },
                },
                surface@.dom() == before.dom(),
                forall|at: (int, int)|
                    before.dom().contains(at) ==> #[trigger] surface@[at] == if at.0 == rail
                        && area.y <= at.1 < area.y + k {
                        self.rail_cell(area.height as int, at.1 - area.y, before[at].style)
                    } else {
                        before[at]
                    },
            decreases area.height - k,
        {
            let y: u16 = area.y + k;
            let ghost here = (rail as int, y as int);
            assert(crate::surface::inside(surface.area, here));
            assert(before.dom().contains(here));
            assert(surface@[here] == before[here]);
            let in_thumb: bool = match &covered {
                Some(covered) => covered.start <= k as usize && (k as usize) < covered.end,
                None => false,
            };
            if in_thumb {
                surface.set(rail, y, "┃", self.styles.thumb);
            } else {
                surface.set(rail, y, "│", self.styles.track);
            }
            k += 1;
        }
        assert(surface@ =~= self.rail_drawn(before, rail as int, area));
    }
}

/// The rail is one unbroken line from top to bottom.
pub proof fn law_the_rail_is_unbroken(scene: Scene, picture: Picture, area: Rect, y: int)
    requires
        area.width >= 1,
        area.y <= y < area.y + area.height,
        scene.drawn(picture, area).dom().contains((rail_of(scene.side, area), y)),
    ensures
        scene.drawn(picture, area)[(rail_of(scene.side, area), y)].symbol == "┃"@
            || scene.drawn(picture, area)[(rail_of(scene.side, area), y)].symbol == "│"@,
{
}

/// The rail is the column of the panel next to the editor: its last one on the left side of the screen,
/// and its first one on the right side. The rows have all other columns.
pub proof fn law_the_rail_is_next_to_the_editor(area: Rect, column: int)
    requires
        area.width >= 1,
        area.x + area.width <= u16::MAX,
        area.x <= column < area.x + area.width,
    ensures
        rail_of(FileTreeSide::Left, area) == area.x + area.width - 1,
        rail_of(FileTreeSide::Right, area) == area.x,
        forall|side: FileTreeSide|
            #![trigger content_of(side, area)]
            column == rail_of(side, area) || (content_of(side, area).x <= column < content_of(
                side,
                area,
            ).x + content_of(side, area).width),
        forall|side: FileTreeSide|
            #![trigger content_of(side, area)]
            !(content_of(side, area).x <= rail_of(side, area) < content_of(side, area).x
                + content_of(side, area).width) && content_of(side, area).height == area.height
                && content_of(side, area).y == area.y,
{
}

/// The rows pinned above come first, in their order, and the ordinary rows after them, from the first
/// one on.
pub proof fn law_pinned_rows_are_shown_first(rows: Seq<RowView>, start: int, height: int, k: int)
    requires
        0 <= k,
    ensures
        ({
            let above = pinned_rows(rows, start, height);
            &&& k < above.len() ==> row_shown(rows, start, height, k) == Some(above[k])
            &&& k >= above.len() && start + (k - above.len()) < rows.len() ==> row_shown(
                rows,
                start,
                height,
                k,
            ) == Some(start + (k - above.len()))
            &&& k >= above.len() && start + (k - above.len()) >= rows.len() ==> row_shown(
                rows,
                start,
                height,
                k,
            ) is None
        }),
{
}

impl<'a> Scene<'a> {
    /// The rail is thick where the thumb is and thin elsewhere, each in its own style. There is no
    /// thumb where all rows fit.
    pub proof fn law_the_thumb_stands_out(self, height: int, k: int, style: Style)
        ensures
            ({
                let rows = self.rows@;
                let top = thumb_start(
                    rows.len() as int,
                    height,
                    rail_offset(rows, self.start as int, height),
                );
                let on_thumb = rows.len() > height && top <= k < top + thumb_height(
                    rows.len() as int,
                    height,
                );
                let cell = self.rail_cell(height, k, style);
                &&& on_thumb ==> cell.symbol == "┃"@ && cell.style == style.patched(
                    self.styles.thumb,
                )
                &&& !on_thumb ==> cell.symbol == "│"@ && cell.style == style.patched(
                    self.styles.track,
                )
            }),
    {
    }
}

impl<'a> Scene<'a> {
    /// Every row is drawn on its own screen row, below those before it, and is drawn as pinned if it is
    /// one of the rows pinned above.
    pub proof fn law_rows_are_drawn_below_each_other(
        self,
        picture: Picture,
        content: Rect,
        k: int,
        index: int,
    )
        requires
            0 <= k < content.height,
            content.y + content.height <= u16::MAX,
            row_shown(self.rows@, self.start as int, content.height as int, k) == Some(index),
        ensures
            ({
                let pinned = k < pinned_rows(
                    self.rows@,
                    self.start as int,
                    content.height as int,
                ).len();
                let y = (content.y + k) as u16;
                &&& y == content.y + k
                &&& self.rows_drawn(picture, content, k + 1) == self.row_drawn(
                    self.rows_drawn(picture, content, k),
                    index,
                    pinned,
                    Rect { x: content.x, y, width: content.width, height: 1 },
                )
            }),
    {
    }

    /// The rail is drawn in its column, over the height of the panel, and nowhere else.
    pub proof fn law_the_rail_stays_in_its_column(
        self,
        picture: Picture,
        rail: int,
        area: Rect,
        at: (int, int),
    )
        requires
            picture.dom().contains(at),
        ensures
            at.0 != rail || at.1 < area.y || at.1 >= area.y + area.height ==> self.rail_drawn(
                picture,
                rail,
                area,
            )[at] == picture[at],
            at.0 == rail && area.y <= at.1 < area.y + area.height ==> self.rail_drawn(
                picture,
                rail,
                area,
            )[at] == self.rail_cell(area.height as int, at.1 - area.y, picture[at].style),
    {
    }
}

} // verus!
