//! Highlights that are laid over the syntax highlights of a text.

use vstd::prelude::*;

verus! {

/// A highlight, by its number in the theme.
#[derive(Clone, Copy, Debug, PartialEq, Eq, Structural)]
pub struct Highlight(pub u32);

/// How the highlights that are active change.
#[derive(Clone, Copy, Debug, PartialEq, Eq, Structural)]
pub enum HighlightEvent {
    /// The given highlights replace all active ones.
    Refresh,
    /// The given highlights are added to the active ones.
    Push,
}

/// A set of "overlay" highlights and ranges they apply to.
///
/// As overlays, the styles for the given `Highlight`s are merged on top of the syntax highlights.
#[derive(Clone, Debug)]
pub enum OverlayHighlights {
    /// All highlights use a single `Highlight`. The ranges do not overlap.
    Homogeneous { highlight: Highlight, ranges: Vec<std::ops::Range<usize>> },
    /// A collection of different highlights for given ranges, which do not overlap.
    Heterogenous { highlights: Vec<(Highlight, std::ops::Range<usize>)> },
}

/// A highlight and the range that it applies to.
pub ghost struct Span {
    pub highlight: Highlight,
    pub start: usize,
    pub end: usize,
}

impl OverlayHighlights {
    /// The highlights and their ranges.
    pub open spec fn view(&self) -> Seq<Span> {
        match self {
            OverlayHighlights::Homogeneous { highlight, ranges } => Seq::new(
                ranges@.len(),
                |i: int|
                    Span { highlight: *highlight, start: ranges@[i].start, end: ranges@[i].end },
            ),
            OverlayHighlights::Heterogenous { highlights } => Seq::new(
                highlights@.len(),
                |i: int|
                    Span {
                        highlight: highlights@[i].0,
                        start: highlights@[i].1.start,
                        end: highlights@[i].1.end,
                    },
            ),
        }
    }

    /// One highlight for one range.
    pub fn single(highlight: Highlight, range: std::ops::Range<usize>) -> (highlights: Self)
        ensures
            highlights@ == seq![Span { highlight, start: range.start, end: range.end }],
    {
        let mut ranges: Vec<std::ops::Range<usize>> = Vec::new();
        ranges.push(range);
        let highlights = OverlayHighlights::Homogeneous { highlight, ranges };
        assert(highlights@ =~= seq![Span { highlight, start: range.start, end: range.end }]);
        highlights
    }

    fn is_empty(&self) -> (empty: bool)
        ensures
            empty == (self@.len() == 0),
    {
        match self {
            OverlayHighlights::Homogeneous { ranges, .. } => ranges.len() == 0,
            OverlayHighlights::Heterogenous { highlights } => highlights.len() == 0,
        }
    }

    /// The highlight with index `idx`, and the start and the end of its range.
    fn get(&self, idx: usize) -> (span: Option<(Highlight, usize, usize)>)
        ensures
            match span {
                Some((highlight, start, end)) => idx < self@.len() <= usize::MAX
                    && self@[idx as int] == (Span {
                    highlight,
                    start,
                    end,
                }),
                None => idx >= self@.len(),
            },
    {
        match self {
            OverlayHighlights::Homogeneous { highlight, ranges } => if idx < ranges.len() {
                Some((*highlight, ranges[idx].start, ranges[idx].end))
            } else {
                None
            },
            OverlayHighlights::Heterogenous { highlights } => if idx < highlights.len() {
                Some((highlights[idx].0, highlights[idx].1.start, highlights[idx].1.end))
            } else {
                None
            },
        }
    }
}

/// Highlights of one kind, and how far the highlighter is with them.
#[derive(Clone, Debug)]
struct Overlay {
    highlights: OverlayHighlights,
    /// The position of the highlighter into the ranges of the overlay.
    idx: usize,
    /// The currently active highlight (and the ending character index) of this overlay.
    active_highlight: Option<(Highlight, usize)>,
}

/// How far the highlighter is with an overlay.
pub ghost struct OverlayState {
    pub spans: Seq<Span>,
    /// The number of spans that have been started.
    pub started: nat,
    /// The active highlight and the end of its range.
    pub active: Option<(Highlight, usize)>,
}

impl OverlayState {
    /// The start of the next span.
    pub open spec fn next_start(self) -> Option<usize> {
        if self.started < self.spans.len() {
            Some(self.spans[self.started as int].start)
        } else {
            None
        }
    }

    /// The end of the active span.
    pub open spec fn active_end(self) -> Option<usize> {
        match self.active {
            Some((_, end)) => Some(end),
            None => None,
        }
    }

    /// The number of spans, after those that have been started, that start at `pos`.
    pub open spec fn starting(self, pos: usize) -> nat
        decreases self.spans.len() - self.started,
    {
        if self.next_start() == Some(pos) {
            1 + OverlayState { started: self.started + 1, ..self }.starting(pos)
        } else {
            0
        }
    }

    /// The overlay after the highlighter went on to `pos`: a span that starts there is active, and
    /// one that ends there no longer is.
    pub open spec fn at(self, pos: usize) -> OverlayState {
        let n = self.starting(pos);
        let active = if n > 0 {
            let span = self.spans[self.started + n - 1];
            Some((span.highlight, span.end))
        } else if self.active_end() == Some(pos) {
            None
        } else {
            self.active
        };
        OverlayState { spans: self.spans, started: self.started + n, active }
    }

    /// Whether the highlighter is at `pos`: the started spans are those that start at or before
    /// it, and the active one is the one that covers it.
    pub open spec fn is_at(self, pos: int) -> bool {
        &&& self.started <= self.spans.len()
        &&& forall|i: int| 0 <= i < self.started ==> (#[trigger] self.spans[i]).start <= pos
        &&& forall|i: int|
            self.started <= i < self.spans.len() ==> (#[trigger] self.spans[i]).start > pos
        &&& self.active == (if self.started > 0 && self.spans[self.started - 1].end > pos {
            Some(
                (
                    self.spans[self.started - 1].highlight,
                    self.spans[self.started - 1].end,
                ),
            )
        } else {
            None
        })
    }
}

/// Whether spans are sorted, not empty, and do not overlap.
pub open spec fn spans_in_order(spans: Seq<Span>) -> bool {
    &&& forall|i: int| 0 <= i < spans.len() ==> (#[trigger] spans[i]).start < spans[i].end
    &&& forall|i: int, j: int|
        #![trigger spans[i], spans[j]]
        0 <= i < j < spans.len() ==> spans[i].end <= spans[j].start
}

/// Going on to the next position at which something changes keeps an overlay's highlights right:
/// if the active highlight was that of the span that covers `before`, then it stays that of the
/// span that covers each position up to `pos`, and after going on it is that of the span that
/// covers `pos`.
pub proof fn law_overlay_follows_positions(state: OverlayState, before: int, pos: usize)
    requires
        spans_in_order(state.spans),
        state.is_at(before),
        before < pos,
        state.next_start() matches Some(start) ==> pos <= start,
        state.active_end() matches Some(end) ==> pos <= end,
    ensures
        state.at(pos).is_at(pos as int),
        forall|between: int| before <= between < pos ==> #[trigger] state.is_at(between),
{
    let n = state.starting(pos);
    let spans = state.spans;
    if state.next_start() == Some(pos) {
        let next = OverlayState { started: state.started + 1, ..state };
        // the spans are not empty, so the one after it starts later
        assert(spans[state.started as int].start < spans[state.started as int].end);
        if state.started + 1 < spans.len() {
            assert(spans[state.started as int].end <= spans[state.started as int + 1].start);
        }
        assert(next.starting(pos) == 0);
        assert(n == 1);
    }
    let after = state.at(pos);
    assert forall|i: int| after.started <= i < spans.len() implies (#[trigger] spans[i]).start
        > pos by {
        if state.started < spans.len() {
            assert(spans[state.started as int].start < spans[state.started as int].end);
            if state.started < i {
                assert(spans[state.started as int].end <= spans[i].start);
            }
        }
    }
    assert forall|i: int| 0 <= i < after.started implies (#[trigger] spans[i]).start <= pos by {
        if i < state.started {
            assert(spans[i].start <= before);
        }
    }
    assert forall|between: int| before <= between < pos implies #[trigger] state.is_at(between) by {
        assert forall|i: int| state.started <= i < spans.len() implies (#[trigger] spans[i]).start
            > between by {
            if state.started < i {
                assert(spans[state.started as int].start < spans[state.started as int].end);
                assert(spans[state.started as int].end <= spans[i].start);
            }
        }
    }
}

impl Overlay {
    spec fn view(&self) -> OverlayState {
        OverlayState {
            spans: self.highlights@,
            started: self.idx as nat,
            active: self.active_highlight,
        }
    }

    fn new(highlights: OverlayHighlights) -> (overlay: Option<Overlay>)
        ensures
            match overlay {
                Some(overlay) => highlights@.len() > 0 && overlay@ == (OverlayState {
                    spans: highlights@,
                    started: 0,
                    active: None,
                }),
                None => highlights@.len() == 0,
            },
    {
        if highlights.is_empty() {
            None
        } else {
            Some(Overlay { highlights, idx: 0, active_highlight: None })
        }
    }

    /// The start of the next range.
    fn start(&self) -> (start: Option<usize>)
        ensures
            start == self@.next_start(),
    {
        match self.highlights.get(self.idx) {
            Some((_, start, _)) => Some(start),
            None => None,
        }
    }

    /// Activates the highlights that start at `pos`, and ends one that ends there.
    fn advance_to(&mut self, pos: usize)
        requires
            old(self)@.started <= old(self)@.spans.len(),
        ensures
            final(self)@ == old(self)@.at(pos),
            final(self)@.started <= final(self)@.spans.len(),
    {
        let ghost before = self@;
        if let Some((_, end)) = self.active_highlight {
            if end == pos {
                self.active_highlight = None;
            }
        }
        let ghost cleared = self@;
        proof {
            lemma_starting_active(before, cleared, pos);
        }
        while self.start() == Some(pos)
            invariant
                self@.spans == before.spans,
                self@.started <= self@.spans.len(),
                self@.started >= before.started,
                before.starting(pos) == self@.started - before.started + self@.starting(pos),
                self@.active == (if self@.started > before.started {
                    Some(
                        (
                            before.spans[self@.started - 1].highlight,
                            before.spans[self@.started - 1].end,
                        ),
                    )
                } else {
                    cleared.active
                }),
                cleared.active == (if before.active_end() == Some(pos) {
                    None
                } else {
                    before.active
                }),
            decreases self@.spans.len() - self@.started,
        {
            let ghost state = self@;
            proof {
                // only the number of started spans matters to what starts
                lemma_starting(state, OverlayState { started: state.started + 1, ..state }, pos);
            }
            if let Some((highlight, _, end)) = self.highlights.get(self.idx) {
                self.active_highlight = Some((highlight, end));
                self.idx = self.idx + 1;
            }
            proof {
                lemma_starting_active(
                    OverlayState { started: state.started + 1, ..state },
                    self@,
                    pos,
                );
            }
        }
        proof {
            assert(self@.starting(pos) == 0);
        }
    }
}

proof fn lemma_starting(state: OverlayState, next: OverlayState, pos: usize)
    requires
        state.next_start() == Some(pos),
        next == (OverlayState { started: state.started + 1, ..state }),
    ensures
        state.starting(pos) == 1 + next.starting(pos),
{
}

proof fn lemma_starting_active(a: OverlayState, b: OverlayState, pos: usize)
    requires
        a.spans == b.spans,
        a.started == b.started,
    ensures
        a.starting(pos) == b.starting(pos),
    decreases a.spans.len() - a.started,
{
    if a.next_start() == Some(pos) {
        lemma_starting_active(
            OverlayState { started: a.started + 1, ..a },
            OverlayState { started: b.started + 1, ..b },
            pos,
        );
    }
}

/// The least start of a next span, or `usize::MAX`.
pub open spec fn least_start(states: Seq<OverlayState>) -> usize
    decreases states.len(),
{
    if states.len() == 0 {
        usize::MAX
    } else {
        let least = least_start(states.drop_last());
        match states.last().next_start() {
            Some(start) if start < least => start,
            _ => least,
        }
    }
}

/// The least end of an active span, or `usize::MAX`.
pub open spec fn least_end(states: Seq<OverlayState>) -> usize
    decreases states.len(),
{
    if states.len() == 0 {
        usize::MAX
    } else {
        let least = least_end(states.drop_last());
        match states.last().active_end() {
            Some(end) if end < least => end,
            _ => least,
        }
    }
}

/// The active highlights of the overlays, in the order of the overlays.
pub open spec fn active_highlights(states: Seq<OverlayState>) -> Seq<Highlight>
    decreases states.len(),
{
    if states.len() == 0 {
        Seq::empty()
    } else {
        let before = active_highlights(states.drop_last());
        match states.last().active {
            Some((highlight, _)) => before.push(highlight),
            None => before,
        }
    }
}

/// The overlays that have highlights, none of them started.
pub open spec fn fresh(overlays: Seq<OverlayHighlights>) -> Seq<OverlayState>
    decreases overlays.len(),
{
    if overlays.len() == 0 {
        Seq::empty()
    } else {
        let before = fresh(overlays.drop_last());
        if overlays.last()@.len() == 0 {
            before
        } else {
            before.push(OverlayState { spans: overlays.last()@, started: 0, active: None })
        }
    }
}

/// The least start and the least end are no later than those of any overlay.
pub proof fn lemma_least(states: Seq<OverlayState>)
    ensures
        forall|i: int|
            0 <= i < states.len() ==> ((#[trigger] states[i]).next_start() matches Some(start)
                ==> least_start(states) <= start) && (states[i].active_end() matches Some(end)
                ==> least_end(states) <= end),
        least_start(states) < usize::MAX ==> exists|i: int|
            0 <= i < states.len() && (#[trigger] states[i]).next_start() == Some(
                least_start(states),
            ),
        least_end(states) < usize::MAX ==> exists|i: int|
            0 <= i < states.len() && (#[trigger] states[i]).active_end() == Some(
                least_end(states),
            ),
    decreases states.len(),
{
    if states.len() > 0 {
        let t = states.drop_last();
        lemma_least(t);
        assert forall|i: int| 0 <= i < states.len() implies ((
        #[trigger] states[i]).next_start() matches Some(start) ==> least_start(states) <= start) && (
        states[i].active_end() matches Some(end) ==> least_end(states) <= end) by {
            if i < t.len() {
                assert(t[i] == states[i]);
            }
        }
        if least_start(states) < usize::MAX {
            if least_start(t) == least_start(states) {
                let i = choose|i: int|
                    0 <= i < t.len() && (#[trigger] t[i]).next_start() == Some(least_start(t));
                assert(states[i].next_start() == Some(least_start(states)));
            } else {
                assert(states[states.len() - 1].next_start() == Some(least_start(states)));
            }
        }
        if least_end(states) < usize::MAX {
            if least_end(t) == least_end(states) {
                let i = choose|i: int|
                    0 <= i < t.len() && (#[trigger] t[i]).active_end() == Some(least_end(t));
                assert(states[i].active_end() == Some(least_end(states)));
            } else {
                assert(states[states.len() - 1].active_end() == Some(least_end(states)));
            }
        }
    }
}

/// The next position at which something changes, or `usize::MAX`.
pub open spec fn next_change(states: Seq<OverlayState>) -> usize {
    if least_start(states) < least_end(states) {
        least_start(states)
    } else {
        least_end(states)
    }
}

/// Whether the span covers `pos`.
pub open spec fn covers_pos(span: Span, pos: int) -> bool {
    span.start <= pos < span.end
}

/// The highlight of the span that covers `pos`.
pub open spec fn highlight_at(spans: Seq<Span>, pos: int) -> Option<Highlight> {
    if exists|i: int| 0 <= i < spans.len() && covers_pos(#[trigger] spans[i], pos) {
        Some(
            spans[choose|i: int|
                0 <= i < spans.len() && covers_pos(#[trigger] spans[i], pos)].highlight,
        )
    } else {
        None
    }
}

/// The highlights of all the spans that cover `pos`, in the order of the overlays.
pub open spec fn highlights_at(states: Seq<OverlayState>, pos: int) -> Seq<Highlight>
    decreases states.len(),
{
    if states.len() == 0 {
        Seq::empty()
    } else {
        let before = highlights_at(states.drop_last(), pos);
        match highlight_at(states.last().spans, pos) {
            Some(highlight) => before.push(highlight),
            None => before,
        }
    }
}

proof fn lemma_active_covers(state: OverlayState, pos: int)
    requires
        spans_in_order(state.spans),
        state.is_at(pos),
    ensures
        highlight_at(state.spans, pos) == match state.active {
            Some((highlight, _)) => Some(highlight),
            None => None,
        },
{
    let spans = state.spans;
    let last = state.started - 1;
    assert forall|i: int| 0 <= i < spans.len() && covers_pos(#[trigger] spans[i], pos) implies i
        == last by {
        if i < last {
            assert(spans[i].end <= spans[last].start);
            assert(spans[last].start <= pos);
        }
    }
    if state.started > 0 && spans[last].end > pos {
        assert(covers_pos(spans[last], pos));
    }
}

proof fn lemma_highlights_at(states: Seq<OverlayState>, pos: int)
    requires
        forall|i: int|
            0 <= i < states.len() ==> spans_in_order((#[trigger] states[i]).spans)
                && states[i].is_at(pos),
    ensures
        active_highlights(states) == highlights_at(states, pos),
    decreases states.len(),
{
    if states.len() > 0 {
        let t = states.drop_last();
        assert forall|i: int| 0 <= i < t.len() implies spans_in_order((#[trigger] t[i]).spans)
            && t[i].is_at(pos) by {
            assert(states[i] == t[i]);
        }
        lemma_highlights_at(t, pos);
        lemma_active_covers(states[states.len() - 1], pos);
    }
}

/// A highlighter starts before the first position.
pub proof fn law_fresh_overlays_are_at_the_start(overlays: Seq<OverlayHighlights>)
    ensures
        forall|i: int| 0 <= i < fresh(overlays).len() ==> (#[trigger] fresh(overlays)[i]).is_at(-1),
    decreases overlays.len(),
{
    if overlays.len() > 0 {
        law_fresh_overlays_are_at_the_start(overlays.drop_last());
        let before = fresh(overlays.drop_last());
        assert forall|i: int| 0 <= i < fresh(overlays).len() implies (
        #[trigger] fresh(overlays)[i]).is_at(-1) by {
            if i < before.len() {
                assert(fresh(overlays)[i] == before[i]);
            }
        }
    }
}

/// Going on to the next change keeps the highlights right: those that are then active are the ones of
/// all the spans that cover the position, and the change after it is the least later start or end of a
/// span.
pub proof fn law_highlights_follow_positions(states: Seq<OverlayState>, before: int)
    requires
        forall|i: int|
            0 <= i < states.len() ==> spans_in_order((#[trigger] states[i]).spans)
                && states[i].is_at(before),
        -1 <= before < next_change(states) < usize::MAX,
    ensures
        ({
            let pos = next_change(states);
            let after = states.map_values(|state: OverlayState| state.at(pos));
            &&& forall|i: int| 0 <= i < after.len() ==> (#[trigger] after[i]).is_at(pos as int)
            &&& active_highlights(after) == highlights_at(after, pos as int)
            &&& pos < next_change(after)
            &&& forall|i: int, k: int|
                0 <= i < after.len() && 0 <= k < after[i].spans.len() ==> (pos < (
                #[trigger] after[i].spans[k]).start ==> next_change(after) <= after[i].spans[k].start)
                    && (pos < after[i].spans[k].end ==> next_change(after) <= after[i].spans[k].end)
            &&& next_change(after) < usize::MAX ==> exists|i: int, k: int|
                0 <= i < after.len() && 0 <= k < after[i].spans.len() && (next_change(after) == (
                #[trigger] after[i].spans[k]).start || next_change(after) == after[i].spans[k].end)
        }),
{
    let pos = next_change(states);
    let go_on = |state: OverlayState| state.at(pos);
    let after = states.map_values(go_on);
    lemma_least(states);
    assert forall|i: int| 0 <= i < after.len() implies (#[trigger] after[i]).is_at(pos as int)
        && spans_in_order(after[i].spans) by {
        assert(spans_in_order(states[i].spans) && states[i].is_at(before));
        law_overlay_follows_positions(states[i], before, pos);
    }
    lemma_highlights_at(after, pos as int);
    lemma_least(after);
    let next = next_change(after);
    assert(pos < next) by {
        if least_start(after) < usize::MAX {
            let i = choose|i: int|
                0 <= i < after.len() && (#[trigger] after[i]).next_start() == Some(
                    least_start(after),
                );
            assert(after[i].is_at(pos as int));
        }
        if least_end(after) < usize::MAX {
            let i = choose|i: int|
                0 <= i < after.len() && (#[trigger] after[i]).active_end() == Some(least_end(after));
            assert(after[i].is_at(pos as int));
        }
    }
    assert forall|i: int, k: int| 0 <= i < after.len() && 0 <= k < after[i].spans.len() implies (pos
        < (#[trigger] after[i].spans[k]).start ==> next <= after[i].spans[k].start) && (pos
        < after[i].spans[k].end ==> next <= after[i].spans[k].end) by {
        let state = after[i];
        let spans = state.spans;
        assert(state.is_at(pos as int) && spans_in_order(spans));
        assert(spans[k].start < spans[k].end);
        if pos < spans[k].start {
            let first = state.started as int;
            assert(state.next_start() == Some(spans[first].start));
            if first < k {
                assert(spans[first].start < spans[first].end);
                assert(spans[first].end <= spans[k].start);
            }
        } else if pos < spans[k].end {
            let last = state.started - 1;
            if k < last {
                assert(spans[k].end <= spans[last].start);
            }
            assert(state.active_end() == Some(spans[k].end));
        }
    }
    if next < usize::MAX {
        if next == least_start(after) {
            let i = choose|i: int|
                0 <= i < after.len() && (#[trigger] after[i]).next_start() == Some(next);
            assert(after[i].spans[after[i].started as int].start == next);
        } else {
            let i = choose|i: int|
                0 <= i < after.len() && (#[trigger] after[i]).active_end() == Some(next);
            assert(after[i].is_at(pos as int));
            assert(after[i].spans[after[i].started - 1].end == next);
        }
    }
}

/// A collection of highlights to apply when rendering which merge on top of syntax highlights.
#[derive(Clone, Debug)]
pub struct OverlayHighlighter {
    overlays: Vec<Overlay>,
    next_highlight_start: usize,
    next_highlight_end: usize,
}

impl OverlayHighlighter {
    /// How far the highlighter is with each overlay.
    pub closed spec fn view(&self) -> Seq<OverlayState> {
        Seq::new(self.overlays@.len(), |i: int| self.overlays@[i]@)
    }

    spec fn counted(&self) -> bool {
        forall|i: int|
            0 <= i < self.overlays@.len() ==> (#[trigger] self.overlays@[i])@.started
                <= self.overlays@[i]@.spans.len()
    }

    /// Whether the next position at which something changes is known.
    pub closed spec fn wf(&self) -> bool {
        &&& self.next_highlight_start == least_start(self@)
        &&& self.next_highlight_end == least_end(self@)
        &&& self.counted()
    }

    /// The next position at which something changes.
    pub open spec fn next_offset(&self) -> usize {
        next_change(self@)
    }

    pub fn new(overlays: Vec<OverlayHighlights>) -> (highlighter: OverlayHighlighter)
        ensures
            highlighter.wf(),
            highlighter@ == fresh(overlays@),
    {
        let ghost given = overlays@;
        let mut highlighter = OverlayHighlighter {
            overlays: Vec::new(),
            next_highlight_start: usize::MAX,
            next_highlight_end: usize::MAX,
        };
        assert(highlighter@ =~= fresh(given.take(0)));
        for overlay in iter: overlays
            invariant
                iter.seq() == given,
                highlighter@ == fresh(given.take(iter.index() as int)),
                highlighter.counted(),
                highlighter.next_highlight_end == usize::MAX,
                least_end(highlighter@) == usize::MAX,
        {
            let ghost k = iter.index() as int;
            let ghost before = highlighter@;
            let ghost states = highlighter.overlays@;
            proof {
                assert(given.take(k + 1).drop_last() =~= given.take(k));
                assert(given.take(k + 1).last() == given[k]);
            }
            if let Some(overlay) = Overlay::new(overlay) {
                highlighter.overlays.push(overlay);
                proof {
                    assert(highlighter@ =~= before.push(overlay@));
                    assert(highlighter@.drop_last() =~= before);
                    assert forall|i: int| 0 <= i < highlighter.overlays@.len() implies (
                    #[trigger] highlighter.overlays@[i])@.started
                        <= highlighter.overlays@[i]@.spans.len() by {
                        if i < states.len() {
                            assert(states[i]@.started <= states[i]@.spans.len());
                        }
                    }
                }
            }
        }
        assert(given.take(given.len() as int) =~= given);
        highlighter.next_highlight_start = highlighter.find_start();
        assert(highlighter@ =~= fresh(given));
        highlighter
    }

    fn find_start(&self) -> (least: usize)
        ensures
            least == least_start(self@),
    {
        let mut least: usize = usize::MAX;
        let mut i: usize = 0;
        while i < self.overlays.len()
            invariant
                i <= self.overlays@.len(),
                least == least_start(self@.take(i as int)),
            decreases self.overlays.len() - i,
        {
            proof {
                assert(self@.take(i + 1).drop_last() =~= self@.take(i as int));
                assert(self@.take(i + 1).last() == self.overlays@[i as int]@);
            }
            if let Some(start) = self.overlays[i].start() {
                if start < least {
                    least = start;
                }
            }
            i += 1;
        }
        assert(self@.take(i as int) =~= self@);
        least
    }

    fn find_end(&self) -> (least: usize)
        ensures
            least == least_end(self@),
    {
        let mut least: usize = usize::MAX;
        let mut i: usize = 0;
        while i < self.overlays.len()
            invariant
                i <= self.overlays@.len(),
                least == least_end(self@.take(i as int)),
            decreases self.overlays.len() - i,
        {
            proof {
                assert(self@.take(i + 1).drop_last() =~= self@.take(i as int));
                assert(self@.take(i + 1).last() == self.overlays@[i as int]@);
            }
            if let Some((_, end)) = self.overlays[i].active_highlight {
                if end < least {
                    least = end;
                }
            }
            i += 1;
        }
        assert(self@.take(i as int) =~= self@);
        least
    }

    /// The current position in the overlay highlights.
    ///
    /// This method is meant to be used when treating this type as a cursor over the overlay
    /// highlights.
    ///
    /// `usize::MAX` is returned when there are no more overlay highlights.
    pub fn next_event_offset(&self) -> (offset: usize)
        requires
            self.wf(),
        ensures
            offset == self.next_offset(),
    {
        if self.next_highlight_start < self.next_highlight_end {
            self.next_highlight_start
        } else {
            self.next_highlight_end
        }
    }

    /// Goes on to the position `next_event_offset`. Returns how the active highlights change, and
    /// the highlights that are then active.
    pub fn advance(&mut self) -> (event: (HighlightEvent, Vec<Highlight>))
        requires
            old(self).wf(),
            old(self).next_offset() < usize::MAX,
        ensures
            final(self).wf(),
            final(self)@ == old(self)@.map_values(
                |state: OverlayState| state.at(old(self).next_offset()),
            ),
            event.0 == HighlightEvent::Refresh,
            event.1@ == active_highlights(final(self)@),
    {
        let pos: usize = self.next_event_offset();
        let ghost before = self@;
        let ghost go_on = |state: OverlayState| state.at(pos);
        let mut active: Vec<Highlight> = Vec::new();
        let mut i: usize = 0;
        while i < self.overlays.len()
            invariant
                i <= self.overlays@.len(),
                self.overlays@.len() == before.len(),
                go_on == (|state: OverlayState| state.at(pos)),
                self.counted(),
                forall|k: int| 0 <= k < i ==> (#[trigger] self.overlays@[k])@ == before[k].at(pos),
                forall|k: int| i <= k < before.len() ==> (#[trigger] self.overlays@[k])@ == before[k],
                active@ == active_highlights(before.take(i as int).map_values(go_on)),
            decreases self.overlays.len() - i,
        {
            let ghost old_overlays = self.overlays@;
            assert(self.overlays@[i as int]@.started <= self.overlays@[i as int]@.spans.len());
            let overlay: &mut Overlay = &mut self.overlays[i];
            overlay.advance_to(pos);
            if let Some((highlight, _)) = overlay.active_highlight {
                active.push(highlight);
            }
            proof {
                assert(self.overlays@[i as int]@ == before[i as int].at(pos));
                assert forall|k: int| 0 <= k < self.overlays@.len() implies (
                #[trigger] self.overlays@[k])@.started <= self.overlays@[k]@.spans.len() by {
                    if k != i {
                        assert(self.overlays@[k] == old_overlays[k]);
                        assert(old_overlays[k]@.started <= old_overlays[k]@.spans.len());
                    }
                }
                let next = before.take(i + 1).map_values(go_on);
                assert(next.drop_last() =~= before.take(i as int).map_values(go_on));
                assert(next.last() == before[i as int].at(pos));
            }
            i += 1;
        }
        proof {
            assert(before.take(i as int) =~= before);
            assert(self@ =~= before.map_values(go_on));
        }
        self.next_highlight_start = self.find_start();
        self.next_highlight_end = self.find_end();
        assert(self@ =~= before.map_values(go_on));
        (HighlightEvent::Refresh, active)
    }
}

} // verus!
