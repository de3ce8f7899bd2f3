//! A grid of styled cells to draw on.

use crate::chars::copy_str;
use crate::rect::Rect;
use crate::style::Style;
use crate::width::{grapheme_views, graphemes_of, split_graphemes, text_width, width_of};
use vstd::prelude::*;

verus! {

/// One cell of a surface.
#[derive(Clone, Debug)]
pub struct Cell {
    pub symbol: String,
    pub style: Style,
}

/// What a cell shows.
pub ghost struct CellView {
    pub symbol: Seq<char>,
    pub style: Style,
}

/// The cells of a surface by column and row.
pub type Picture = Map<(int, int), CellView>;

impl Cell {
    pub open spec fn view(&self) -> CellView {
        CellView { symbol: self.symbol@, style: self.style }
    }
}

/// A cell that shows nothing.
pub open spec fn blank() -> CellView {
    CellView { symbol: seq![' '], style: Style::plain() }
}

/// The picture with another symbol at a cell, and its style patched.
pub open spec fn put(
    picture: Picture,
    x: int,
    y: int,
    symbol: Seq<char>,
    style: Style,
) -> Picture {
    picture.insert((x, y), CellView { symbol, style: picture[(x, y)].style.patched(style) })
}

/// Whether the cell at `at` is in the area.
pub open spec fn inside(area: Rect, at: (int, int)) -> bool {
    area.x <= at.0 < area.x + area.width && area.y <= at.1 < area.y + area.height
}

/// Whether the area lies in `outer`.
pub open spec fn covers(outer: Rect, area: Rect) -> bool {
    &&& outer.x <= area.x
    &&& area.x + area.width <= outer.x + outer.width
    &&& outer.y <= area.y
    &&& area.y + area.height <= outer.y + outer.height
}

/// The picture with the styles of an area patched.
pub open spec fn styled(picture: Picture, area: Rect, style: Style) -> Picture {
    Map::new(
        |at: (int, int)| picture.dom().contains(at),
        |at: (int, int)|
            if inside(area, at) {
                CellView { style: picture[at].style.patched(style), ..picture[at] }
            } else {
                picture[at]
            },
    )
}

/// The picture with an area cleared.
pub open spec fn cleared(picture: Picture, area: Rect, style: Style) -> Picture {
    Map::new(
        |at: (int, int)| picture.dom().contains(at),
        |at: (int, int)|
            if inside(area, at) {
                CellView { style: Style::plain().patched(style), ..blank() }
            } else {
                picture[at]
            },
    )
}

/// The picture with the `count` cells from `x` on blank.
pub open spec fn blanked(picture: Picture, x: int, y: int, count: int) -> Picture {
    Map::new(
        |at: (int, int)| picture.dom().contains(at),
        |at: (int, int)|
            if at.1 == y && x <= at.0 < x + count {
                blank()
            } else {
                picture[at]
            },
    )
}

/// A picture and the column after what was written last.
pub ghost struct Written {
    pub picture: Picture,
    pub x: int,
}

/// A grapheme and the columns that it takes.
#[derive(Debug)]
pub struct Symbol {
    pub text: String,
    pub width: usize,
}

/// A grapheme and the columns that it takes.
pub ghost struct SymbolView {
    pub text: Seq<char>,
    pub width: nat,
}

impl Symbol {
    pub open spec fn view(&self) -> SymbolView {
        SymbolView { text: self.text@, width: self.width as nat }
    }
}

pub open spec fn symbol_views(symbols: Seq<Symbol>) -> Seq<SymbolView> {
    symbols.map_values(|symbol: Symbol| symbol@)
}

/// The graphemes of a text.
pub open spec fn symbols_of(text: Seq<char>) -> Seq<SymbolView> {
    graphemes_of(text).map_values(
        |grapheme: Seq<char>| SymbolView { text: grapheme, width: width_of(grapheme) as nat },
    )
}

/// The graphemes of a text and the columns that they take.
pub fn symbols(text: &str) -> (symbols: Vec<Symbol>)
    ensures
        symbol_views(symbols@) == symbols_of(text@),
{
    let graphemes: Vec<String> = split_graphemes(text);
    let ghost all = grapheme_views(graphemes@);
    let mut symbols: Vec<Symbol> = Vec::new();
    let mut i: usize = 0;
    while i < graphemes.len()
        invariant
            i <= graphemes@.len(),
            all == grapheme_views(graphemes@),
            symbols@.len() == i,
            forall|k: int|
                0 <= k < i ==> (#[trigger] symbols@[k])@ == (SymbolView {
                    text: all[k],
                    width: width_of(all[k]) as nat,
                }),
        decreases graphemes.len() - i,
    {
        let text: String = copy_str(graphemes[i].as_str());
        let width: usize = text_width(graphemes[i].as_str());
        symbols.push(Symbol { text, width });
        i += 1;
    }
    assert(symbol_views(symbols@) =~= symbols_of(text@));
    symbols
}

/// The picture with symbols written from `x` on, left of `end`. A symbol that does not fit ends the
/// text, the cells that a wide symbol covers are blank.
pub open spec fn written(
    picture: Picture,
    x: int,
    y: int,
    symbols: Seq<SymbolView>,
    end: int,
    style: Style,
) -> Written
    decreases symbols.len(),
{
    if symbols.len() == 0 {
        Written { picture, x }
    } else {
        let width = symbols[0].width as int;
        let rest = symbols.skip(1);
        if width == 0 {
            written(picture, x, y, rest, end, style)
        } else if width > end - x {
            Written { picture, x }
        } else {
            let with = blanked(put(picture, x, y, symbols[0].text, style), x + 1, y, width - 1);
            written(with, x + width, y, rest, end, style)
        }
    }
}

/// Writing goes no further than to the end of the text's room, and changes no cell outside of it.
pub proof fn law_writing_stays_in_its_room(
    picture: Picture,
    x: int,
    y: int,
    symbols: Seq<SymbolView>,
    end: int,
    style: Style,
    at: (int, int),
)
    requires
        x <= end,
        picture.dom().contains(at),
    ensures
        x <= written(picture, x, y, symbols, end, style).x <= end,
        at.1 != y || at.0 < x || end <= at.0 ==> written(
            picture,
            x,
            y,
            symbols,
            end,
            style,
        ).picture[at] == picture[at],
        (forall|column: int| x <= column < end ==> #[trigger] picture.dom().contains((column, y)))
            ==> written(picture, x, y, symbols, end, style).picture.dom() == picture.dom(),
    decreases symbols.len(),
{
    if symbols.len() > 0 {
        let width = symbols[0].width as int;
        let rest = symbols.skip(1);
        if width == 0 {
            law_writing_stays_in_its_room(picture, x, y, rest, end, style, at);
        } else if width <= end - x {
            let first = put(picture, x, y, symbols[0].text, style);
            let with = blanked(first, x + 1, y, width - 1);
            law_writing_stays_in_its_room(with, x + width, y, rest, end, style, at);
            if at.1 != y || at.0 < x || end <= at.0 {
                assert(first[at] == picture[at]);
                assert(with[at] == first[at]);
            }
            if forall|column: int| x <= column < end ==> #[trigger]
                picture.dom().contains((column, y)) {
                assert(picture.dom().contains((x, y)));
                assert(with.dom() =~= picture.dom());
            }
        }
    }
}

/// A grid of cells. The cell at the top left has the coordinates of the area's corner.
#[derive(Debug)]
pub struct Surface {
    pub area: Rect,
    pub cells: Vec<Cell>,
}

/// Where the cell at a column and row is among the cells.
pub open spec fn cell_index(area: Rect, x: int, y: int) -> int {
    (y - area.y) * area.width + (x - area.x)
}

proof fn lemma_cell_index(area: Rect, x: int, y: int)
    requires
        inside(area, (x, y)),
    ensures
        0 <= cell_index(area, x, y) < area.width * area.height,
{
    let dy = y - area.y;
    let dx = x - area.x;
    let w = area.width as int;
    let h = area.height as int;
    assert(0 <= dy * w + dx < w * h) by (nonlinear_arith)
        requires
            0 <= dy < h,
            0 <= dx < w,
    ;
}

proof fn lemma_cell_index_differs(area: Rect, x: int, y: int, a: int, b: int)
    requires
        inside(area, (x, y)),
        inside(area, (a, b)),
        (x, y) != (a, b),
    ensures
        cell_index(area, x, y) != cell_index(area, a, b),
{
    let w = area.width as int;
    let dy = y - area.y;
    let db = b - area.y;
    let dx = x - area.x;
    let da = a - area.x;
    if dy < db {
        assert(dy * w + dx < db * w + da) by (nonlinear_arith)
            requires
                dy < db,
                0 <= dx < w,
                0 <= da,
        ;
    } else if db < dy {
        assert(db * w + da < dy * w + dx) by (nonlinear_arith)
            requires
                db < dy,
                0 <= da < w,
                0 <= dx,
        ;
    }
}

impl Surface {
    pub open spec fn wf(&self) -> bool {
        &&& self.cells@.len() == self.area.width * self.area.height
        &&& self.area.x + self.area.width <= u16::MAX
        &&& self.area.y + self.area.height <= u16::MAX
    }

    pub open spec fn view(&self) -> Picture {
        Map::new(
            |at: (int, int)| inside(self.area, at),
            |at: (int, int)| self.cells@[cell_index(self.area, at.0, at.1)]@,
        )
    }

    /// A surface of blank cells.
    pub fn empty(area: Rect) -> (surface: Surface)
        requires
            area.x + area.width <= u16::MAX,
            area.y + area.height <= u16::MAX,
        ensures
            surface.wf(),
            surface.area == area,
            forall|at: (int, int)| inside(area, at) ==> #[trigger] surface@[at] == blank(),
    {
        proof {
            assert(area.width * area.height <= 0xffff * 0xffff) by (nonlinear_arith)
                requires
                    0 <= area.width <= 0xffff,
                    0 <= area.height <= 0xffff,
            ;
        }
        let count: u32 = area.width as u32 * area.height as u32;
        let mut cells: Vec<Cell> = Vec::new();
        let mut i: u32 = 0;
        while i < count
            invariant
                i <= count,
                cells@.len() == i,
                forall|k: int| 0 <= k < i ==> (#[trigger] cells@[k])@ == blank(),
            decreases count - i,
        {
            let cell: Cell = blank_cell();
            cells.push(cell);
            i += 1;
        }
        let surface = Surface { area, cells };
        proof {
            assert forall|at: (int, int)| inside(area, at) implies #[trigger] surface@[at]
                == blank() by {
                lemma_cell_index(area, at.0, at.1);
            }
        }
        surface
    }

    fn index_of(&self, x: u16, y: u16) -> (index: usize)
        requires
            self.wf(),
            inside(self.area, (x as int, y as int)),
        ensures
            index == cell_index(self.area, x as int, y as int),
            index < self.cells@.len(),
    {
        let cells: usize = self.cells.len();
        proof {
            lemma_cell_index(self.area, x as int, y as int);
            assert(0 <= (y - self.area.y) * self.area.width) by (nonlinear_arith)
                requires
                    0 <= y - self.area.y,
                    0 <= self.area.width,
            ;
        }
        (y - self.area.y) as usize * self.area.width as usize + (x - self.area.x) as usize
    }

    /// The symbol of a cell.
    pub fn symbol(&self, x: u16, y: u16) -> (symbol: &str)
        requires
            self.wf(),
            inside(self.area, (x as int, y as int)),
        ensures
            symbol@ == self@[(x as int, y as int)].symbol,
    {
        self.cells[self.index_of(x, y)].symbol.as_str()
    }

    /// The style of a cell.
    pub fn style(&self, x: u16, y: u16) -> (style: Style)
        requires
            self.wf(),
            inside(self.area, (x as int, y as int)),
        ensures
            style == self@[(x as int, y as int)].style,
    {
        self.cells[self.index_of(x, y)].style
    }

    fn set_cell(&mut self, x: u16, y: u16, cell: Cell)
        requires
            old(self).wf(),
            inside(old(self).area, (x as int, y as int)),
        ensures
            final(self).wf(),
            final(self).area == old(self).area,
            final(self)@ == old(self)@.insert((x as int, y as int), cell@),
    {
        let index: usize = self.index_of(x, y);
        let ghost before = *self;
        self.cells.set(index, cell);
        proof {
            assert forall|at: (int, int)| inside(self.area, at) implies #[trigger] self@[at]
                == before@.insert((x as int, y as int), cell@)[at] by {
                lemma_cell_index(self.area, at.0, at.1);
                if at != (x as int, y as int) {
                    lemma_cell_index_differs(self.area, at.0, at.1, x as int, y as int);
                }
            }
            assert(self@ =~= before@.insert((x as int, y as int), cell@));
        }
    }

    /// Shows another symbol at a cell and patches its style.
    pub fn set(&mut self, x: u16, y: u16, symbol: &str, style: Style)
        requires
            old(self).wf(),
            inside(old(self).area, (x as int, y as int)),
        ensures
            final(self).wf(),
            final(self).area == old(self).area,
            final(self)@ == put(old(self)@, x as int, y as int, symbol@, style),
    {
        let style: Style = self.style(x, y).patch(style);
        self.set_cell(x, y, Cell { symbol: copy_str(symbol), style });
    }

    /// Patches the styles of an area.
    pub fn set_style(&mut self, area: Rect, style: Style)
        requires
            old(self).wf(),
            covers(old(self).area, area),
        ensures
            final(self).wf(),
            final(self).area == old(self).area,
            final(self)@ == styled(old(self)@, area, style),
    {
        let ghost before = self@;
        let mut y: u16 = area.y;
        while y < area.y + area.height
            invariant
                self.wf(),
                self.area == old(self).area,
                covers(self.area, area),
                area.y <= y <= area.y + area.height,
                self@.dom() == before.dom(),
                forall|at: (int, int)|
                    before.dom().contains(at) ==> #[trigger] self@[at] == if inside(area, at) && at.1
                        < y {
                        CellView { style: before[at].style.patched(style), ..before[at] }
                    } else {
                        before[at]
                    },
            decreases area.y + area.height - y,
        {
            let mut x: u16 = area.x;
            while x < area.x + area.width
                invariant
                    self.wf(),
                    self.area == old(self).area,
                    covers(self.area, area),
                    area.y <= y < area.y + area.height,
                    area.x <= x <= area.x + area.width,
                    self@.dom() == before.dom(),
                    forall|at: (int, int)|
                        before.dom().contains(at) ==> #[trigger] self@[at] == if inside(area, at)
                            && (at.1 < y || at.1 == y && at.0 < x) {
                            CellView { style: before[at].style.patched(style), ..before[at] }
                        } else {
                            before[at]
                        },
                decreases area.x + area.width - x,
            {
                let ghost done = self@;
                let ghost here = (x as int, y as int);
                assert(inside(area, here));
                let symbol: String = copy_str(self.symbol(x, y));
                let patched: Style = self.style(x, y).patch(style);
                self.set_cell(x, y, Cell { symbol, style: patched });
                assert(before.dom().contains(here));
                assert(done[here] == before[here]);
                x += 1;
            }
            y += 1;
        }
        assert(self@ =~= styled(before, area, style));
    }

    /// Clears an area.
    pub fn clear_with(&mut self, area: Rect, style: Style)
        requires
            old(self).wf(),
            covers(old(self).area, area),
        ensures
            final(self).wf(),
            final(self).area == old(self).area,
            final(self)@ == cleared(old(self)@, area, style),
    {
        let ghost before = self@;
        let plain: Style = Style::default().patch(style);
        let ghost empty = CellView { style: Style::plain().patched(style), ..blank() };
        let mut y: u16 = area.y;
        while y < area.y + area.height
            invariant
                self.wf(),
                self.area == old(self).area,
                covers(self.area, area),
                area.y <= y <= area.y + area.height,
                plain == empty.style,
                empty.symbol == blank().symbol,
                self@.dom() == before.dom(),
                forall|at: (int, int)|
                    before.dom().contains(at) ==> #[trigger] self@[at] == if inside(area, at) && at.1
                        < y {
                        empty
                    } else {
                        before[at]
                    },
            decreases area.y + area.height - y,
        {
            let mut x: u16 = area.x;
            while x < area.x + area.width
                invariant
                    self.wf(),
                    self.area == old(self).area,
                    covers(self.area, area),
                    area.y <= y < area.y + area.height,
                    area.x <= x <= area.x + area.width,
                    plain == empty.style,
                    empty.symbol == blank().symbol,
                    self@.dom() == before.dom(),
                    forall|at: (int, int)|
                        before.dom().contains(at) ==> #[trigger] self@[at] == if inside(area, at)
                            && (at.1 < y || at.1 == y && at.0 < x) {
                            empty
                        } else {
                            before[at]
                        },
                decreases area.x + area.width - x,
            {
                let ghost here = (x as int, y as int);
                assert(inside(area, here));
                let cell: Cell = blank_cell();
                let cell = Cell { style: plain, ..cell };
                assert(cell@ == empty);
                self.set_cell(x, y, cell);
                x += 1;
            }
            y += 1;
        }
        assert(self@ =~= cleared(before, area, style));
    }

    fn blank_cells(&mut self, x: u16, y: u16, count: u16)
        requires
            old(self).wf(),
            old(self).area.x <= x,
            x + count <= old(self).area.x + old(self).area.width,
            old(self).area.y <= y < old(self).area.y + old(self).area.height,
        ensures
            final(self).wf(),
            final(self).area == old(self).area,
            final(self)@ == blanked(old(self)@, x as int, y as int, count as int),
    {
        let ghost before = self@;
        let mut i: u16 = 0;
        while i < count
            invariant
                i <= count,
                self.wf(),
                self.area == old(self).area,
                self.area.x <= x,
                x + count <= self.area.x + self.area.width,
                self.area.y <= y < self.area.y + self.area.height,
                self@.dom() == before.dom(),
                forall|at: (int, int)|
                    before.dom().contains(at) ==> #[trigger] self@[at] == if at.1 == y && x <= at.0
                        < x + i {
                        blank()
                    } else {
                        before[at]
                    },
            decreases count - i,
        {
            assert(inside(self.area, ((x + i) as int, y as int)));
            let cell: Cell = blank_cell();
            self.set_cell(x + i, y, cell);
            i += 1;
        }
        assert(self@ =~= blanked(before, x as int, y as int, count as int));
    }

    /// Writes text from a cell on, over at most `width` columns. Returns the column after it.
    pub fn set_stringn(&mut self, x: u16, y: u16, text: &str, width: u16, style: Style) -> (next: u16)
        requires
            old(self).wf(),
            inside(old(self).area, (x as int, y as int)),
            x + width <= old(self).area.x + old(self).area.width,
        ensures
            final(self).wf(),
            final(self).area == old(self).area,
            x <= next <= x + width,
            ({
                let done = written(
                    old(self)@,
                    x as int,
                    y as int,
                    symbols_of(text@),
                    x + width,
                    style,
                );
                final(self)@ == done.picture && next == done.x
            }),
    {
        let symbols: Vec<Symbol> = symbols(text);
        self.set_symbols(x, y, &symbols, width, style)
    }

    /// Writes symbols from a cell on, over at most `width` columns. Returns the column after them.
    pub fn set_symbols(
        &mut self,
        x: u16,
        y: u16,
        symbols: &Vec<Symbol>,
        width: u16,
        style: Style,
    ) -> (next: u16)
        requires
            old(self).wf(),
            inside(old(self).area, (x as int, y as int)),
            x + width <= old(self).area.x + old(self).area.width,
        ensures
            final(self).wf(),
            final(self).area == old(self).area,
            x <= next <= x + width,
            ({
                let done = written(
                    old(self)@,
                    x as int,
                    y as int,
                    symbol_views(symbols@),
                    x + width,
                    style,
                );
                final(self)@ == done.picture && next == done.x
            }),
    {
        let end: u16 = x + width;
        let ghost all = symbol_views(symbols@);
        let ghost goal = written(self@, x as int, y as int, all, end as int, style);
        let mut at: u16 = x;
        let mut i: usize = 0;
        assert(all.skip(0) =~= all);
        while i < symbols.len()
            invariant
                i <= symbols@.len(),
                symbol_views(symbols@) == all,
                goal == written(old(self)@, x as int, y as int, all, end as int, style),
                self.wf(),
                self.area == old(self).area,
                self.area.y <= y < self.area.y + self.area.height,
                self.area.x <= x <= at <= end,
                end == x + width,
                end <= self.area.x + self.area.width,
                goal == written(self@, at as int, y as int, all.skip(i as int), end as int, style),
            decreases symbols.len() - i,
        {
            let symbol: &str = symbols[i].text.as_str();
            let columns: usize = symbols[i].width;
            assert(all.skip(i as int)[0] == symbols@[i as int]@);
            assert(all.skip(i as int).skip(1) =~= all.skip(i + 1));
            if columns != 0 {
                if columns > (end - at) as usize {
                    return at;
                }
                let columns: u16 = columns as u16;
                assert(inside(self.area, (at as int, y as int)));
                self.set(at, y, symbol, style);
                self.blank_cells(at + 1, y, columns - 1);
                at += columns;
            }
            i += 1;
        }
        assert(all.skip(i as int).len() == 0);
        at
    }
}

fn blank_cell() -> (cell: Cell)
    ensures
        cell@ == blank(),
{
    let mut symbol: String = String::new();
    symbol.push(' ');
    assert(symbol@ =~= seq![' ']);
    Cell { symbol, style: Style::default() }
}

/// Putting a symbol changes the one cell and nothing else, and its style goes over that of the cell.
pub proof fn law_symbols_change_one_cell(
    picture: Picture,
    x: int,
    y: int,
    symbol: Seq<char>,
    style: Style,
    at: (int, int),
)
    requires
        picture.dom().contains((x, y)),
    ensures
        put(picture, x, y, symbol, style)[(x, y)].symbol == symbol,
        put(picture, x, y, symbol, style)[(x, y)].style == picture[(x, y)].style.patched(style),
        at != (x, y) ==> put(picture, x, y, symbol, style)[at] == picture[at],
        put(picture, x, y, symbol, style).dom() == picture.dom(),
{
    assert(put(picture, x, y, symbol, style).dom() =~= picture.dom());
}

/// Styling an area keeps its symbols, puts the style over those of its cells, and changes no cell
/// outside of it.
pub proof fn law_areas_are_styled(picture: Picture, area: Rect, style: Style, at: (int, int))
    requires
        picture.dom().contains(at),
    ensures
        styled(picture, area, style)[at].symbol == picture[at].symbol,
        area.x <= at.0 < area.x + area.width && area.y <= at.1 < area.y + area.height ==> styled(
            picture,
            area,
            style,
        )[at].style == picture[at].style.patched(style),
        !(area.x <= at.0 < area.x + area.width && area.y <= at.1 < area.y + area.height) ==> styled(
            picture,
            area,
            style,
        )[at] == picture[at],
{
}

/// Clearing an area leaves blanks in it, of one style, and changes no cell outside of it.
pub proof fn law_areas_are_cleared(picture: Picture, area: Rect, style: Style, at: (int, int))
    requires
        picture.dom().contains(at),
    ensures
        area.x <= at.0 < area.x + area.width && area.y <= at.1 < area.y + area.height ==> cleared(
            picture,
            area,
            style,
        )[at].symbol == seq![' '] && cleared(picture, area, style)[at].style
            == Style::plain().patched(style),
        !(area.x <= at.0 < area.x + area.width && area.y <= at.1 < area.y + area.height) ==> cleared(
            picture,
            area,
            style,
        )[at] == picture[at],
{
}

/// The first symbol that takes columns and fits is written where the text starts, and the text goes on
/// after it. A symbol without columns is left out, and one that does not fit ends the text.
pub proof fn law_texts_are_written_symbol_by_symbol(
    picture: Picture,
    x: int,
    y: int,
    symbols: Seq<SymbolView>,
    end: int,
    style: Style,
)
    requires
        symbols.len() > 0,
        x <= end,
        picture.dom().contains((x, y)),
    ensures
        ({
            let done = written(picture, x, y, symbols, end, style);
            let width = symbols[0].width as int;
            &&& width == 0 ==> done == written(picture, x, y, symbols.skip(1), end, style)
            &&& width > end - x ==> done.picture == picture && done.x == x
            &&& 0 < width <= end - x ==> done.x >= x + width && done.picture[(x, y)].symbol
                == symbols[0].text && done.picture[(x, y)].style == picture[(x, y)].style.patched(
                style,
            )
        }),
{
    let width = symbols[0].width as int;
    if 0 < width <= end - x {
        let with = blanked(put(picture, x, y, symbols[0].text, style), x + 1, y, width - 1);
        assert(with.dom().contains((x, y)));
        law_writing_stays_in_its_room(
            with,
            x + width,
            y,
            symbols.skip(1),
            end,
            style,
            (x, y),
        );
    }
}

/// A wide symbol leaves blanks in the cells that it covers besides its own.
pub proof fn law_wide_symbols_cover_blanks(
    picture: Picture,
    x: int,
    y: int,
    symbols: Seq<SymbolView>,
    end: int,
    style: Style,
    column: int,
)
    requires
        symbols.len() > 0,
        x <= end,
        symbols[0].width <= end - x,
        x < column < x + symbols[0].width,
        picture.dom().contains((x, y)),
        picture.dom().contains((column, y)),
    ensures
        written(picture, x, y, symbols, end, style).picture[(column, y)] == blank(),
        blank().symbol == seq![' '],
{
    let width = symbols[0].width as int;
    let with = blanked(put(picture, x, y, symbols[0].text, style), x + 1, y, width - 1);
    assert(with.dom().contains((column, y)));
    assert(with[(column, y)] == blank());
    law_writing_stays_in_its_room(with, x + width, y, symbols.skip(1), end, style, (column, y));
}

} // verus!
