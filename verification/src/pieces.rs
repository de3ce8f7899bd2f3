//! Pieces of styled text, and numbers in text.

use crate::chars::{chars_of_str, copy_str};
use crate::render::counted;
use crate::style::Style;
use crate::width::{text_width, width_of};
use vstd::prelude::*;

verus! {

/// A piece of styled text.
#[derive(Debug)]
pub struct Piece {
    pub text: String,
    pub style: Style,
}

/// What a piece of styled text reads.
pub ghost struct PieceView {
    pub text: Seq<char>,
    pub style: Style,
}

pub open spec fn piece_views(pieces: Seq<Piece>) -> Seq<PieceView> {
    pieces.map_values(|piece: Piece| piece@)
}

/// A piece of a style.
pub open spec fn styled_piece(text: Seq<char>, style: Style) -> PieceView {
    PieceView { text, style }
}

/// A piece that is not styled.
pub open spec fn raw(text: Seq<char>) -> PieceView {
    PieceView { text, style: Style::plain() }
}

/// The columns that the pieces take.
pub open spec fn total_width(pieces: Seq<PieceView>) -> int
    decreases pieces.len(),
{
    if pieces.len() == 0 {
        0
    } else {
        total_width(pieces.drop_last()) + width_of(pieces.last().text)
    }
}

pub proof fn lemma_total_width(pieces: Seq<PieceView>)
    ensures
        0 <= total_width(pieces),
    decreases pieces.len(),
{
    if pieces.len() > 0 {
        lemma_total_width(pieces.drop_last());
    }
}

impl Piece {
    pub open spec fn view(&self) -> PieceView {
        PieceView { text: self.text@, style: self.style }
    }

    pub fn styled(text: String, style: Style) -> (piece: Piece)
        ensures
            piece@ == styled_piece(text@, style),
    {
        Piece { text, style }
    }

    pub fn copy(&self) -> (copy: Piece)
        ensures
            copy@ == self@,
    {
        Piece { text: copy_str(self.text.as_str()), style: self.style }
    }
}

/// The columns that the pieces take, as far as they can be counted.
pub fn pieces_width(pieces: &Vec<Piece>) -> (width: usize)
    ensures
        width == counted(total_width(piece_views(pieces@))),
{
    let ghost views = piece_views(pieces@);
    let mut width: usize = 0;
    let mut i: usize = 0;
    while i < pieces.len()
        invariant
            i <= pieces@.len(),
            views == piece_views(pieces@),
            width == counted(total_width(views.take(i as int))),
        decreases pieces.len() - i,
    {
        proof {
            assert(views.take(i + 1).drop_last() =~= views.take(i as int));
            assert(views.take(i + 1).last() == pieces@[i as int]@);
            lemma_total_width(views.take(i as int));
        }
        width = width.saturating_add(text_width(pieces[i].text.as_str()));
        i += 1;
    }
    assert(views.take(i as int) =~= views);
    width
}

pub(crate) fn push_piece(pieces: &mut Vec<Piece>, text: &str, style: Style)
    ensures
        piece_views(final(pieces)@) == piece_views(old(pieces)@).push(styled_piece(text@, style)),
{
    let ghost before = piece_views(pieces@);
    pieces.push(Piece { text: copy_str(text), style });
    assert(piece_views(pieces@) =~= before.push(styled_piece(text@, style)));
}

pub(crate) fn push_raw(pieces: &mut Vec<Piece>, text: &str)
    ensures
        piece_views(final(pieces)@) == piece_views(old(pieces)@).push(raw(text@)),
{
    push_piece(pieces, text, Style::default());
}

pub(crate) fn push_copies(pieces: &mut Vec<Piece>, more: &Vec<Piece>)
    ensures
        piece_views(final(pieces)@) == piece_views(old(pieces)@) + piece_views(more@),
{
    let ghost before = piece_views(pieces@);
    let ghost views = piece_views(more@);
    let mut i: usize = 0;
    assert(piece_views(pieces@) =~= before + views.take(0));
    while i < more.len()
        invariant
            i <= more@.len(),
            views == piece_views(more@),
            piece_views(pieces@) == before + views.take(i as int),
        decreases more.len() - i,
    {
        assert(views[i as int] == more@[i as int]@);
        push_piece(pieces, more[i].text.as_str(), more[i].style);
        i += 1;
        assert(piece_views(pieces@) =~= before + views.take(i as int));
    }
    assert(views.take(i as int) =~= views);
}

/// The digit for a number below ten.
pub open spec fn digit_char(n: int) -> char {
    ('0' as u32 + n) as char
}

/// A number as it is written.
pub open spec fn decimal(n: nat) -> Seq<char>
    decreases n,
{
    if n < 10 {
        seq![digit_char(n as int)]
    } else {
        decimal(n / 10).push(digit_char((n % 10) as int))
    }
}

fn digit(n: usize) -> (c: char)
    requires
        n < 10,
    ensures
        c == digit_char(n as int),
{
    match n {
        0 => '0',
        1 => '1',
        2 => '2',
        3 => '3',
        4 => '4',
        5 => '5',
        6 => '6',
        7 => '7',
        8 => '8',
        _ => '9',
    }
}

/// Writes a number.
pub(crate) fn push_number(text: &mut String, n: usize)
    ensures
        final(text)@ == old(text)@ + decimal(n as nat),
    decreases n,
{
    let ghost before = text@;
    if n >= 10 {
        push_number(text, n / 10);
    }
    text.push(digit(n % 10));
    assert(text@ =~= before + decimal(n as nat));
}

/// Writes text.
pub(crate) fn push_text(text: &mut String, more: &str)
    ensures
        final(text)@ == old(text)@ + more@,
{
    let ghost before = text@;
    let chars: Vec<char> = chars_of_str(more);
    let mut i: usize = 0;
    assert(text@ =~= before + chars@.take(0));
    while i < chars.len()
        invariant
            i <= chars@.len(),
            text@ == before + chars@.take(i as int),
        decreases chars.len() - i,
    {
        text.push(chars[i]);
        i += 1;
        assert(text@ =~= before + chars@.take(i as int));
    }
    assert(chars@.take(i as int) =~= more@);
}

/// The number that digits make.
pub open spec fn number_of(digits: Seq<char>) -> int
    decreases digits.len(),
{
    if digits.len() == 0 {
        0
    } else {
        number_of(digits.drop_last()) * 10 + (digits.last() as u32 - '0' as u32)
    }
}

/// A number is written in digits that make it, without a leading zero.
pub proof fn law_numbers_are_written(n: nat)
    ensures
        decimal(n).len() > 0,
        forall|i: int| 0 <= i < decimal(n).len() ==> '0' <= #[trigger] decimal(n)[i] <= '9',
        number_of(decimal(n)) == n,
        n > 0 ==> decimal(n)[0] != '0',
    decreases n,
{
    let last = digit_char((n % 10) as int);
    assert(last as u32 == '0' as u32 + n % 10);
    if n < 10 {
        assert(decimal(n).drop_last() =~= Seq::empty());
        assert(number_of(Seq::<char>::empty()) == 0);
    } else {
        law_numbers_are_written(n / 10);
        let before = decimal(n / 10);
        assert(decimal(n).drop_last() =~= before);
        assert forall|i: int| 0 <= i < decimal(n).len() implies '0' <= #[trigger] decimal(n)[i]
            <= '9' by {
            if i < before.len() {
                assert(decimal(n)[i] == before[i]);
            }
        }
        assert(decimal(n)[0] == before[0]);
    }
}

} // verus!
