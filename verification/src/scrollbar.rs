//! Where the thumb of a scrollbar is.

use std::ops::Range;
use vstd::arithmetic::div_mod::{
    lemma_div_is_ordered, lemma_div_multiples_vanish, lemma_fundamental_div_mod,
};
use vstd::prelude::*;

verus! {

/// The height of the thumb: the share of the content that is visible, rounded up.
pub open spec fn thumb_height(len: int, height: int) -> int {
    let share = height * height / len + if height * height % len == 0 {
        0int
    } else {
        1
    };
    if share < height {
        share
    } else {
        height
    }
}

/// The first row of the thumb when `offset` of `len - height` rows are scrolled by.
pub open spec fn thumb_start(len: int, height: int, offset: int) -> int {
    (height - thumb_height(len, height)) * offset / (len - height)
}

pub proof fn lemma_thumb_height(len: int, height: int)
    requires
        0 <= height < len,
    ensures
        0 <= thumb_height(len, height) <= height,
        height > 0 ==> thumb_height(len, height) > 0,
{
    assert(0 <= height * height) by (nonlinear_arith)
        requires
            0 <= height,
    ;
    assert(0 <= height * height / len) by (nonlinear_arith)
        requires
            0 <= height * height,
            0 < len,
    ;
    if height > 0 {
        assert(height * height > 0) by (nonlinear_arith)
            requires
                height > 0,
        ;
        lemma_fundamental_div_mod(height * height, len);
        if height * height / len == 0 && height * height % len == 0 {
            assert(len * (height * height / len) == 0) by (nonlinear_arith)
                requires
                    height * height / len == 0,
            ;
        }
    }
}

pub proof fn lemma_thumb_start(len: int, height: int, offset: int)
    requires
        0 <= height < len,
        0 <= offset,
    ensures
        0 <= thumb_start(len, height, offset),
        offset <= len - height ==> thumb_start(len, height, offset) <= height - thumb_height(
            len,
            height,
        ),
        offset == len - height ==> thumb_start(len, height, offset) == height - thumb_height(
            len,
            height,
        ),
        offset == 0 ==> thumb_start(len, height, offset) == 0,
{
    lemma_thumb_height(len, height);
    let rest = height - thumb_height(len, height);
    let span = len - height;
    assert(0 <= rest * offset) by (nonlinear_arith)
        requires
            0 <= rest,
            0 <= offset,
    ;
    assert(0 <= rest * offset / span) by (nonlinear_arith)
        requires
            0 <= rest * offset,
            0 < span,
    ;
    assert(rest * span / span == rest) by {
        assert(rest * span == span * rest) by (nonlinear_arith);
        lemma_div_multiples_vanish(rest, span);
    }
    if offset <= span {
        assert(rest * offset <= rest * span) by (nonlinear_arith)
            requires
                0 <= rest,
                0 <= offset <= span,
        ;
        lemma_div_is_ordered(rest * offset, rest * span, span);
    }
    if offset == 0 {
        assert(rest * offset == 0) by (nonlinear_arith)
            requires
                offset == 0,
        ;
    }
}

/// The thumb lies within the scrollbar and is not empty. It starts at the top when nothing is
/// scrolled by, and ends at the bottom when all is.
pub proof fn law_thumb_lies_in_the_rail(len: int, height: int, offset: int)
    requires
        0 < height < len,
        0 <= offset <= len - height,
    ensures
        0 <= thumb_start(len, height, offset),
        0 < thumb_height(len, height),
        thumb_start(len, height, offset) + thumb_height(len, height) <= height,
        offset == 0 ==> thumb_start(len, height, offset) == 0,
        offset == len - height ==> thumb_start(len, height, offset) + thumb_height(len, height)
            == height,
{
    lemma_thumb_height(len, height);
    lemma_thumb_start(len, height, offset);
}

/// The thumb never moves up as more rows are scrolled by.
pub proof fn law_thumb_follows_the_offset(len: int, height: int, less: int, more: int)
    requires
        0 < height < len,
        0 <= less <= more,
    ensures
        thumb_start(len, height, less) <= thumb_start(len, height, more),
{
    lemma_thumb_height(len, height);
    let rest = height - thumb_height(len, height);
    assert(rest * less <= rest * more) by (nonlinear_arith)
        requires
            0 <= rest,
            less <= more,
    ;
    lemma_div_is_ordered(rest * less, rest * more, len - height);
}

/// The product of two sizes.
pub(crate) fn product(a: usize, b: usize) -> (product: u128)
    ensures
        product == a * b,
{
    assert(a * b <= 0xffff_ffff_ffff_ffff * 0xffff_ffff_ffff_ffff) by (nonlinear_arith)
        requires
            0 <= a <= 0xffff_ffff_ffff_ffff,
            0 <= b <= 0xffff_ffff_ffff_ffff,
    ;
    a as u128 * b as u128
}

/// The rows of a scrollbar thumb for `len` rows of content shown `height` rows at a time,
/// scrolled down by `offset` rows. `None` when the content fits.
pub fn scrollbar_thumb(len: usize, height: usize, offset: usize) -> (thumb: Option<Range<usize>>)
    requires
        len > height ==> thumb_start(len as int, height as int, offset as int) + thumb_height(
            len as int,
            height as int,
        ) <= usize::MAX,
    ensures
        match thumb {
            None => len <= height,
            Some(rows) => {
                &&& len > height
                &&& rows.start == thumb_start(len as int, height as int, offset as int)
                &&& rows.end == rows.start + thumb_height(len as int, height as int)
            },
        },
{
    if len <= height {
        return None;
    }
    proof {
        lemma_thumb_height(len as int, height as int);
        lemma_thumb_start(len as int, height as int, offset as int);
    }
    let square: u128 = product(height, height);
    assert(square / len as u128 <= height) by (nonlinear_arith)
        requires
            height < len,
            square == height * height,
            0 <= height,
    ;
    let mut share: u128 = square / len as u128;
    if square % len as u128 != 0 {
        share += 1;
    }
    let thumb: usize = if share < height as u128 {
        share as usize
    } else {
        height
    };
    let start: usize = (product(height - thumb, offset) / (len - height) as u128) as usize;
    Some(start..start + thumb)
}

/// The thumb is as much of the rail as is visible of the content, rounded up to whole rows.
pub proof fn law_thumbs_show_the_share(len: int, height: int)
    requires
        0 < height < len,
    ensures
        thumb_height(len, height) * len >= height * height,
        (thumb_height(len, height) - 1) * len < height * height,
{
    let square = height * height;
    let q = square / len;
    let r = square % len;
    assert(square == q * len + r && 0 <= r < len) by (nonlinear_arith)
        requires
            q == square / len,
            r == square % len,
            0 < len,
    ;
    assert((q + 1) * len == q * len + len) by (nonlinear_arith);
    assert((q - 1) * len == q * len - len) by (nonlinear_arith);
    assert(square < height * len) by (nonlinear_arith)
        requires
            square == height * height,
            0 < height < len,
    ;
    assert(q < height) by (nonlinear_arith)
        requires
            q * len <= square,
            square < height * len,
            0 < len,
    ;
    assert(0 < square) by (nonlinear_arith)
        requires
            square == height * height,
            0 < height,
    ;
}

} // verus!
