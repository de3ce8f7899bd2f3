//! The trail of breadcrumbs in the statusline.

use crate::breadcrumbs::{Breadcrumb, BreadcrumbSegment};
use crate::chars::copy_str;
use crate::pieces::{
    piece_views, pieces_width, push_copies, push_piece, push_raw, raw, styled_piece, total_width,
    Piece, PieceView,
};
use crate::render::counted;
use crate::style::Style;
use crate::theme::{nearest, or_plain, Theme, ThemeScope};
use vstd::prelude::*;

verus! {

/// How breadcrumbs are shown.
#[derive(Debug)]
pub struct BreadcrumbsConfig {
    pub separator: String,
    /// Whether there is a separator in front of the first breadcrumb.
    pub leading_separator: bool,
    /// Whether outer breadcrumbs give way where there is no room.
    pub truncate: bool,
}

impl Default for BreadcrumbsConfig {
    fn default() -> (config: BreadcrumbsConfig)
        ensures
            config.separator@ == ">"@,
            config.leading_separator,
            config.truncate,
    {
        BreadcrumbsConfig { separator: copy_str(">"), leading_separator: true, truncate: true }
    }
}

pub open spec fn crumb_views(breadcrumbs: Seq<Vec<Piece>>) -> Seq<Seq<PieceView>> {
    breadcrumbs.map_values(|pieces: Vec<Piece>| piece_views(pieces@))
}

/// The breadcrumbs from `from` on up to `to`, each after a separator and followed by a space.
pub open spec fn crumbs_laid_out(
    breadcrumbs: Seq<Seq<PieceView>>,
    config: BreadcrumbsConfig,
    separator_style: Style,
    from: int,
    to: int,
) -> Seq<PieceView>
    decreases to - from,
{
    if to <= from {
        Seq::empty()
    } else {
        let i = to - 1;
        crumbs_laid_out(breadcrumbs, config, separator_style, from, i) + (if i > 0
            || config.leading_separator {
            seq![styled_piece(config.separator@, separator_style), raw(" "@)]
        } else {
            Seq::empty()
        }) + breadcrumbs[i] + seq![raw(" "@)]
    }
}

/// The trail with the outermost `skip` breadcrumbs replaced with an ellipsis.
pub open spec fn laid_out(
    breadcrumbs: Seq<Seq<PieceView>>,
    config: BreadcrumbsConfig,
    separator_style: Style,
    skip: int,
) -> Seq<PieceView> {
    (if skip > 0 {
        seq![styled_piece("…"@, separator_style), raw(" "@)]
    } else {
        Seq::empty()
    }) + crumbs_laid_out(
        breadcrumbs,
        config,
        separator_style,
        skip,
        breadcrumbs.len() as int,
    )
}

/// The widths of the trail with none, one and more of the outermost breadcrumbs left out, down to
/// the innermost one.
pub open spec fn trail_widths(
    breadcrumbs: Seq<Seq<PieceView>>,
    config: BreadcrumbsConfig,
    separator_style: Style,
) -> Seq<int> {
    Seq::new(
        breadcrumbs.len(),
        |skip: int| counted(total_width(laid_out(breadcrumbs, config, separator_style, skip))),
    )
}

/// How many breadcrumbs are left out: the fewest from `skip` on with which the trail is no wider
/// than `max_width`, or all but the innermost one.
pub open spec fn fewest_left_out(widths: Seq<int>, max_width: int, skip: int) -> int
    decreases widths.len() - skip,
{
    if skip + 1 >= widths.len() || widths[skip] <= max_width {
        skip
    } else {
        fewest_left_out(widths, max_width, skip + 1)
    }
}

/// How many breadcrumbs are left out to make the trail `overflow` columns narrower as far as
/// possible, given the widths of the trails to choose from.
pub open spec fn left_out(widths: Seq<int>, truncate: bool, overflow: usize) -> int {
    if truncate && overflow > 0 && widths.len() > 1 {
        let max_width = if widths[0] < overflow {
            0
        } else {
            widths[0] - overflow
        };
        fewest_left_out(widths, max_width, 1)
    } else {
        0
    }
}

/// The trail of `breadcrumbs`, made `overflow` columns narrower as far as possible.
pub open spec fn trail_of(
    breadcrumbs: Seq<Seq<PieceView>>,
    config: BreadcrumbsConfig,
    separator_style: Style,
    overflow: usize,
) -> Seq<PieceView> {
    let widths = trail_widths(breadcrumbs, config, separator_style);
    laid_out(breadcrumbs, config, separator_style, left_out(widths, config.truncate, overflow))
}

/// Where breadcrumbs are left out, the trail is narrower by the columns that were too few, unless
/// only the innermost breadcrumb is left.
pub proof fn law_trails_make_room(widths: Seq<int>, overflow: usize)
    requires
        widths.len() > 1,
        0 < overflow <= widths[0],
    ensures
        ({
            let skip = left_out(widths, true, overflow);
            &&& 1 <= skip < widths.len()
            &&& skip + 1 < widths.len() ==> widths[skip] <= widths[0] - overflow
            &&& forall|fewer: int| 1 <= fewer < skip ==> #[trigger] widths[fewer] > widths[0] - overflow
        }),
{
    lemma_narrow_enough(widths, widths[0] - overflow, 1);
}

proof fn lemma_narrow_enough(widths: Seq<int>, max_width: int, skip: int)
    requires
        skip < widths.len(),
    ensures
        ({
            let chosen = fewest_left_out(widths, max_width, skip);
            &&& skip <= chosen < widths.len()
            &&& chosen + 1 < widths.len() ==> widths[chosen] <= max_width
            &&& forall|fewer: int| skip <= fewer < chosen ==> #[trigger] widths[fewer] > max_width
        }),
    decreases widths.len() - skip,
{
    if skip + 1 < widths.len() && widths[skip] > max_width {
        lemma_narrow_enough(widths, max_width, skip + 1);
    }
}

/// The innermost breadcrumb is always kept: a trail ends with it and a space.
pub proof fn law_the_innermost_breadcrumb_is_kept(
    breadcrumbs: Seq<Seq<PieceView>>,
    config: BreadcrumbsConfig,
    separator_style: Style,
    overflow: usize,
)
    requires
        breadcrumbs.len() > 0,
    ensures
        (breadcrumbs.last() + seq![raw(" "@)]).is_suffix_of(
            trail_of(breadcrumbs, config, separator_style, overflow),
        ),
{
    let widths = trail_widths(breadcrumbs, config, separator_style);
    let skip = left_out(widths, config.truncate, overflow);
    if skip > 0 {
        let max_width = if widths[0] < overflow {
            0
        } else {
            widths[0] - overflow
        };
        lemma_narrow_enough(widths, max_width, 1);
    }
    let trail = laid_out(breadcrumbs, config, separator_style, skip);
    let end = breadcrumbs.last() + seq![raw(" "@)];
    let n = breadcrumbs.len() as int;
    let crumbs = crumbs_laid_out(breadcrumbs, config, separator_style, skip, n);
    let before = crumbs_laid_out(breadcrumbs, config, separator_style, skip, n - 1);
    let separator = if n - 1 > 0 || config.leading_separator {
        seq![styled_piece(config.separator@, separator_style), raw(" "@)]
    } else {
        Seq::empty()
    };
    let ellipsis = if skip > 0 {
        seq![styled_piece("…"@, separator_style), raw(" "@)]
    } else {
        Seq::empty()
    };
    assert(crumbs =~= before + separator + end);
    assert(trail =~= (ellipsis + before + separator) + end);
    assert(trail.subrange(trail.len() - end.len(), trail.len() as int) =~= end);
}

fn push_crumb(
    trail: &mut Vec<Piece>,
    breadcrumb: &Vec<Piece>,
    separated: bool,
    separator: &str,
    separator_style: Style,
)
    ensures
        piece_views(final(trail)@) == piece_views(old(trail)@) + (if separated {
            seq![styled_piece(separator@, separator_style), raw(" "@)]
        } else {
            Seq::empty()
        }) + piece_views(breadcrumb@) + seq![raw(" "@)],
{
    let ghost before = piece_views(trail@);
    if separated {
        push_piece(trail, separator, separator_style);
        push_raw(trail, " ");
    }
    let ghost between = piece_views(trail@);
    assert(between =~= before + (if separated {
        seq![styled_piece(separator@, separator_style), raw(" "@)]
    } else {
        Seq::empty()
    }));
    push_copies(trail, breadcrumb);
    push_raw(trail, " ");
    assert(piece_views(trail@) =~= between + piece_views(breadcrumb@) + seq![raw(" "@)]);
}

fn lay_out(
    breadcrumbs: &Vec<Vec<Piece>>,
    config: &BreadcrumbsConfig,
    separator_style: Style,
    skip: usize,
) -> (trail: Vec<Piece>)
    requires
        skip <= breadcrumbs@.len(),
    ensures
        piece_views(trail@) == laid_out(
            crumb_views(breadcrumbs@),
            *config,
            separator_style,
            skip as int,
        ),
{
    let ghost crumbs = crumb_views(breadcrumbs@);
    let mut trail: Vec<Piece> = Vec::new();
    if skip > 0 {
        push_piece(&mut trail, "…", separator_style);
        push_raw(&mut trail, " ");
    }
    let ghost start = piece_views(trail@);
    assert(start =~= (if skip > 0 {
        seq![styled_piece("…"@, separator_style), raw(" "@)]
    } else {
        Seq::empty()
    }));
    let mut i: usize = skip;
    assert(start =~= start + crumbs_laid_out(
        crumbs,
        *config,
        separator_style,
        skip as int,
        skip as int,
    ));
    while i < breadcrumbs.len()
        invariant
            skip <= i <= breadcrumbs@.len(),
            crumbs == crumb_views(breadcrumbs@),
            piece_views(trail@) == start + crumbs_laid_out(
                crumbs,
                *config,
                separator_style,
                skip as int,
                i as int,
            ),
        decreases breadcrumbs.len() - i,
    {
        assert(crumbs[i as int] == piece_views(breadcrumbs@[i as int]@));
        let ghost before = piece_views(trail@);
        push_crumb(
            &mut trail,
            &breadcrumbs[i],
            i > 0 || config.leading_separator,
            config.separator.as_str(),
            separator_style,
        );
        i += 1;
        assert(piece_views(trail@) =~= start + crumbs_laid_out(
            crumbs,
            *config,
            separator_style,
            skip as int,
            i as int,
        ));
    }
    trail
}

/// Lays out `breadcrumbs`, outermost first, each after a separator and followed by a space. If
/// `truncate` is enabled, the outermost breadcrumbs are replaced with an ellipsis until the trail
/// is `overflow` columns narrower, keeping at least the innermost one.
pub fn breadcrumb_trail(
    breadcrumbs: &Vec<Vec<Piece>>,
    config: &BreadcrumbsConfig,
    separator_style: Style,
    overflow: usize,
) -> (trail: Vec<Piece>)
    ensures
        piece_views(trail@) == trail_of(
            crumb_views(breadcrumbs@),
            *config,
            separator_style,
            overflow,
        ),
{
    let ghost crumbs = crumb_views(breadcrumbs@);
    let ghost all = trail_widths(crumbs, *config, separator_style);
    let whole: Vec<Piece> = lay_out(breadcrumbs, config, separator_style, 0);
    if !config.truncate || overflow == 0 || breadcrumbs.len() <= 1 {
        return whole;
    }
    let mut widths: Vec<usize> = Vec::new();
    let mut skip: usize = 0;
    while skip < breadcrumbs.len()
        invariant
            skip <= breadcrumbs@.len(),
            crumbs == crumb_views(breadcrumbs@),
            all == trail_widths(crumbs, *config, separator_style),
            widths@.len() == skip,
            forall|k: int| 0 <= k < skip ==> #[trigger] widths@[k] == all[k],
        decreases breadcrumbs.len() - skip,
    {
        let trail: Vec<Piece> = lay_out(breadcrumbs, config, separator_style, skip);
        widths.push(pieces_width(&trail));
        skip += 1;
    }
    assert(columns(widths@) =~= all);
    lay_out(breadcrumbs, config, separator_style, leave_out(&widths, config.truncate, overflow))
}

/// The widths as numbers of columns.
pub open spec fn columns(widths: Seq<usize>) -> Seq<int> {
    widths.map_values(|width: usize| width as int)
}

/// How many breadcrumbs are left out to make the trail `overflow` columns narrower as far as
/// possible, given the widths of the trail with none, one and more of them left out.
pub fn leave_out(widths: &Vec<usize>, truncate: bool, overflow: usize) -> (skip: usize)
    ensures
        skip == left_out(columns(widths@), truncate, overflow),
        widths@.len() > 0 ==> skip < widths@.len(),
{
    let ghost all = columns(widths@);
    if !truncate || overflow == 0 || widths.len() <= 1 {
        return 0;
    }
    let max_width: usize = widths[0].saturating_sub(overflow);
    let ghost chosen = left_out(all, truncate, overflow);
    let mut skip: usize = 1;
    while skip + 1 < widths.len() && widths[skip] > max_width
        invariant
            1 <= skip < widths@.len(),
            all == columns(widths@),
            chosen == fewest_left_out(all, max_width as int, skip as int),
        decreases widths.len() - skip,
    {
        skip += 1;
    }
    skip
}

/// The pieces of a breadcrumb: its segments in their styles, with spaces between them.
pub open spec fn crumb_pieces(
    segments: Seq<BreadcrumbSegment>,
    scopes: Seq<ThemeScope>,
) -> Seq<PieceView>
    decreases segments.len(),
{
    if segments.len() == 0 {
        Seq::empty()
    } else {
        let before = crumb_pieces(segments.drop_last(), scopes);
        let segment = segments.last();
        let piece = styled_piece(segment.text@, or_plain(nearest(scopes, segment.scope@)));
        if before.len() == 0 {
            before.push(piece)
        } else {
            before.push(raw(" "@)).push(piece)
        }
    }
}

/// The pieces of a breadcrumb: its segments in their styles, with spaces between them.
pub fn style_breadcrumb(breadcrumb: &Breadcrumb, theme: &Theme) -> (pieces: Vec<Piece>)
    ensures
        piece_views(pieces@) == crumb_pieces(breadcrumb.segments@, theme.scopes@),
{
    let segments: &Vec<BreadcrumbSegment> = &breadcrumb.segments;
    let mut pieces: Vec<Piece> = Vec::new();
    assert(piece_views(pieces@) =~= Seq::empty());
    let mut i: usize = 0;
    while i < segments.len()
        invariant
            i <= segments@.len(),
            piece_views(pieces@) == crumb_pieces(segments@.take(i as int), theme.scopes@),
        decreases segments.len() - i,
    {
        assert(segments@.take(i + 1).drop_last() =~= segments@.take(i as int));
        assert(segments@.take(i + 1).last() == segments@[i as int]);
        assert(piece_views(pieces@).len() == pieces@.len());
        if pieces.len() > 0 {
            push_raw(&mut pieces, " ");
        }
        push_piece(
            &mut pieces,
            segments[i].text.as_str(),
            theme.get(segments[i].scope.as_str()),
        );
        i += 1;
    }
    assert(segments@.take(i as int) =~= segments@);
    pieces
}

/// Every breadcrumb comes after a separator and a space, but for the first one if the trail has no
/// leading separator, and a space follows it.
pub proof fn law_breadcrumbs_are_separated(
    breadcrumbs: Seq<Seq<PieceView>>,
    config: BreadcrumbsConfig,
    separator_style: Style,
    from: int,
    i: int,
)
    requires
        0 <= from <= i < breadcrumbs.len(),
    ensures
        ({
            let before = crumbs_laid_out(breadcrumbs, config, separator_style, from, i);
            let after = crumbs_laid_out(breadcrumbs, config, separator_style, from, i + 1);
            let crumb = breadcrumbs[i];
            let n = before.len() as int;
            &&& after.take(n) == before
            &&& after[after.len() - 1].text == " "@
            &&& i > 0 || config.leading_separator ==> after.len() == n + 2 + crumb.len() + 1
                && after[n].text == config.separator@ && after[n].style == separator_style
                && after[n + 1].text == " "@ && after.subrange(n + 2, n + 2 + crumb.len()) == crumb
            &&& i == 0 && !config.leading_separator ==> after.len() == n + crumb.len() + 1
                && after.subrange(n, n + crumb.len()) == crumb
        }),
{
    let before = crumbs_laid_out(breadcrumbs, config, separator_style, from, i);
    let after = crumbs_laid_out(breadcrumbs, config, separator_style, from, i + 1);
    let crumb = breadcrumbs[i];
    let n = before.len() as int;
    assert(after.take(n) =~= before);
    if i > 0 || config.leading_separator {
        assert(after.subrange(n + 2, n + 2 + crumb.len()) =~= crumb);
    } else {
        assert(after.subrange(n, n + crumb.len()) =~= crumb);
    }
}

/// A trail with breadcrumbs left out starts with an ellipsis and goes on with those that are left; one
/// without starts with them.
pub proof fn law_left_out_breadcrumbs_are_marked(
    breadcrumbs: Seq<Seq<PieceView>>,
    config: BreadcrumbsConfig,
    separator_style: Style,
    skip: int,
)
    ensures
        ({
            let trail = laid_out(breadcrumbs, config, separator_style, skip);
            let left = crumbs_laid_out(
                breadcrumbs,
                config,
                separator_style,
                skip,
                breadcrumbs.len() as int,
            );
            &&& skip <= 0 ==> trail == left
            &&& skip > 0 ==> trail.len() == left.len() + 2 && trail[0].text == "…"@
                && trail[1].text == " "@ && trail.skip(2) == left
        }),
{
    let trail = laid_out(breadcrumbs, config, separator_style, skip);
    let left = crumbs_laid_out(
        breadcrumbs,
        config,
        separator_style,
        skip,
        breadcrumbs.len() as int,
    );
    if skip > 0 {
        assert(trail.skip(2) =~= left);
    } else {
        assert(trail =~= left);
    }
}

/// Breadcrumbs are only left out to make room, if that is wanted and there is more than one.
pub proof fn law_breadcrumbs_are_kept_while_there_is_room(
    widths: Seq<int>,
    truncate: bool,
    overflow: usize,
)
    ensures
        !truncate || overflow == 0 || widths.len() <= 1 ==> left_out(widths, truncate, overflow)
            == 0,
        truncate && overflow > 0 && widths.len() > 1 ==> left_out(widths, truncate, overflow) >= 1,
{
    if truncate && overflow > 0 && widths.len() > 1 {
        let max_width = if widths[0] < overflow {
            0
        } else {
            widths[0] - overflow
        };
        lemma_narrow_enough(widths, max_width, 1);
    }
}

/// Every segment of a breadcrumb is drawn in the style of its scope, with a space between it and the
/// one before it.
pub proof fn law_segments_are_drawn_in_their_scopes(
    segments: Seq<BreadcrumbSegment>,
    segment: BreadcrumbSegment,
    scopes: Seq<ThemeScope>,
)
    ensures
        ({
            let before = crumb_pieces(segments, scopes);
            let after = crumb_pieces(segments.push(segment), scopes);
            let n = before.len() as int;
            &&& after[after.len() - 1].text == segment.text@
            &&& after[after.len() - 1].style == or_plain(nearest(scopes, segment.scope@))
            &&& after.take(n) == before
            &&& n == 0 ==> after.len() == 1
            &&& n > 0 ==> after.len() == n + 2 && after[n].text == " "@
        }),
{
    assert(segments.push(segment).drop_last() =~= segments);
    let before = crumb_pieces(segments, scopes);
    let after = crumb_pieces(segments.push(segment), scopes);
    assert(after.take(before.len() as int) =~= before);
}

} // verus!
