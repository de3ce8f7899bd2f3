//! The styles of a theme, and the ones of the file tree among them.

use crate::chars::{chars_of_str, part_of, same_chars};
use crate::git::GitStatus;
use crate::style::{Color, Style};
use vstd::prelude::*;

verus! {

/// The style of a scope like `ui.text.focus`.
#[derive(Debug)]
pub struct ThemeScope {
    pub name: String,
    pub style: Style,
}

/// A theme: the styles of scopes.
#[derive(Debug)]
pub struct Theme {
    pub scopes: Vec<ThemeScope>,
}

/// The style of the scope `name` itself.
pub open spec fn exact(scopes: Seq<ThemeScope>, name: Seq<char>) -> Option<Style>
    decreases scopes.len(),
{
    if scopes.len() == 0 {
        None
    } else if scopes[0].name@ == name {
        Some(scopes[0].style)
    } else {
        exact(scopes.skip(1), name)
    }
}

/// The scope around `name`: what is in front of its last dot.
pub open spec fn outer_scope(name: Seq<char>) -> Option<Seq<char>>
    decreases name.len(),
{
    if name.len() == 0 {
        None
    } else if name.last() == '.' {
        Some(name.drop_last())
    } else {
        outer_scope(name.drop_last())
    }
}

proof fn lemma_outer_scope(name: Seq<char>)
    ensures
        outer_scope(name) matches Some(outer) ==> outer.len() < name.len(),
    decreases name.len(),
{
    if name.len() > 0 && name.last() != '.' {
        lemma_outer_scope(name.drop_last());
    }
}

/// The style of the scope `name` or else of the closest scope around it.
pub open spec fn nearest(scopes: Seq<ThemeScope>, name: Seq<char>) -> Option<Style>
    decreases name.len(),
    via nearest_decreases
{
    match exact(scopes, name) {
        Some(style) => Some(style),
        None => match outer_scope(name) {
            Some(outer) => nearest(scopes, outer),
            None => None,
        },
    }
}

#[via_fn]
proof fn nearest_decreases(scopes: Seq<ThemeScope>, name: Seq<char>) {
    lemma_outer_scope(name);
}

/// A style, or else the plain one.
pub open spec fn or_plain(style: Option<Style>) -> Style {
    match style {
        Some(style) => style,
        None => Style::plain(),
    }
}

/// The style of the scope `name` itself, or else the nearest of its fallbacks.
pub open spec fn with_fallbacks(
    scopes: Seq<ThemeScope>,
    name: Seq<char>,
    first: Seq<char>,
    second: Option<Seq<char>>,
) -> Style {
    match (exact(scopes, name), nearest(scopes, first)) {
        (Some(style), _) => style,
        (None, Some(style)) => style,
        (None, None) => match second {
            Some(second) => or_plain(nearest(scopes, second)),
            None => Style::plain(),
        },
    }
}

impl Theme {
    pub fn try_get_exact(&self, name: &str) -> (style: Option<Style>)
        ensures
            style == exact(self.scopes@, name@),
    {
        let chars: Vec<char> = chars_of_str(name);
        self.find(&chars)
    }

    fn find(&self, name: &Vec<char>) -> (style: Option<Style>)
        ensures
            style == exact(self.scopes@, name@),
    {
        let mut i: usize = 0;
        assert(self.scopes@.skip(0) =~= self.scopes@);
        while i < self.scopes.len()
            invariant
                i <= self.scopes@.len(),
                exact(self.scopes@, name@) == exact(self.scopes@.skip(i as int), name@),
            decreases self.scopes.len() - i,
        {
            let chars: Vec<char> = chars_of_str(self.scopes[i].name.as_str());
            if same_chars(&chars, name) {
                return Some(self.scopes[i].style);
            }
            assert(self.scopes@.skip(i as int).skip(1) =~= self.scopes@.skip(i + 1));
            i += 1;
        }
        None
    }

    /// The style of the scope or of the closest one around it.
    pub fn try_get(&self, name: &str) -> (style: Option<Style>)
        ensures
            style == nearest(self.scopes@, name@),
    {
        let mut chars: Vec<char> = chars_of_str(name);
        loop
            invariant
                nearest(self.scopes@, name@) == nearest(self.scopes@, chars@),
            decreases chars.len(),
        {
            if let Some(style) = self.find(&chars) {
                return Some(style);
            }
            let mut dot: usize = chars.len();
            let ghost whole = chars@;
            assert(whole.take(dot as int) =~= whole);
            while dot > 0 && chars[dot - 1] != '.'
                invariant
                    dot <= chars@.len(),
                    whole == chars@,
                    outer_scope(whole) == outer_scope(whole.take(dot as int)),
                decreases dot,
            {
                assert(whole.take(dot as int).drop_last() =~= whole.take(dot - 1));
                dot -= 1;
            }
            if dot == 0 {
                return None;
            }
            assert(whole.take(dot as int).drop_last() =~= whole.take(dot - 1));
            chars = part_of(&chars, 0, dot - 1);
            assert(chars@ =~= whole.take(dot - 1));
        }
    }

    pub fn get(&self, name: &str) -> (style: Style)
        ensures
            style == or_plain(nearest(self.scopes@, name@)),
    {
        match self.try_get(name) {
            Some(style) => style,
            None => Style::default(),
        }
    }

    fn scope(&self, name: &str, first: &str, second: Option<&str>) -> (style: Style)
        ensures
            style == with_fallbacks(
                self.scopes@,
                name@,
                first@,
                match second {
                    Some(second) => Some(second@),
                    None => None,
                },
            ),
    {
        if let Some(style) = self.try_get_exact(name) {
            return style;
        }
        if let Some(style) = self.try_get(first) {
            return style;
        }
        match second {
            Some(second) => self.get(second),
            None => Style::default(),
        }
    }
}

/// The theme styles of the panel, resolved once per frame.
#[derive(Clone, Copy, Debug)]
pub struct Styles {
    pub base: Style,
    pub selected: Style,
    pub pinned: Style,
    pub active: Style,
    pub guide: Style,
    pub directory: Style,
    pub buffer: Style,
    pub buffer_focused: Style,
    pub unsaved: Style,
    pub error: Style,
    pub created: Style,
    pub modified: Style,
    pub deleted: Style,
    pub conflict: Style,
    pub track: Style,
    pub thumb: Style,
}

/// The style that a theme gives to the rows of the panel.
pub open spec fn base_style(scopes: Seq<ThemeScope>) -> Style {
    match exact(scopes, "ui.file-tree"@) {
        Some(style) => style,
        None => or_plain(nearest(scopes, "ui.background"@)).patched(
            or_plain(nearest(scopes, "ui.text"@)),
        ),
    }
}

/// The styles that a theme gives to the panel.
pub open spec fn panel_styles(scopes: Seq<ThemeScope>) -> Styles {
    let base = base_style(scopes);
    let track = or_plain(nearest(scopes, "ui.window"@));
    Styles {
        base,
        selected: base.patched(
            with_fallbacks(scopes, "ui.file-tree.selected"@, "ui.text.focus"@, None),
        ),
        pinned: base.patched(
            with_fallbacks(scopes, "ui.file-tree.pinned"@, "ui.virtual.ruler"@, None),
        ),
        active: base.patched(
            with_fallbacks(
                scopes,
                "ui.file-tree.active"@,
                "ui.bufferline.active"@,
                Some("ui.statusline.active"@),
            ),
        ),
        guide: with_fallbacks(
            scopes,
            "ui.file-tree.guide"@,
            "ui.virtual.indent-guide"@,
            Some("ui.virtual.whitespace"@),
        ),
        directory: with_fallbacks(
            scopes,
            "ui.file-tree.directory"@,
            "ui.text.directory"@,
            None,
        ),
        buffer: with_fallbacks(scopes, "ui.file-tree.buffer"@, "hint"@, None),
        buffer_focused: with_fallbacks(scopes, "ui.file-tree.buffer.focused"@, "info"@, None),
        unsaved: with_fallbacks(scopes, "ui.file-tree.unsaved"@, "info"@, None),
        error: with_fallbacks(scopes, "ui.file-tree.error"@, "error"@, None),
        created: or_plain(nearest(scopes, "diff.plus.gutter"@)),
        modified: or_plain(nearest(scopes, "diff.delta.gutter"@)),
        deleted: or_plain(nearest(scopes, "diff.minus.gutter"@)),
        conflict: or_plain(nearest(scopes, "diff.delta.conflict"@)),
        track,
        thumb: Style {
            fg: match or_plain(nearest(scopes, "ui.menu.scroll"@)).fg {
                Some(color) => Some(color),
                None => Some(Color::Reset),
            },
            ..track
        },
    }
}

impl Styles {
    /// The style of a git mark.
    pub open spec fn mark_style(self, status: GitStatus) -> Style {
        match status {
            GitStatus::Created => self.created,
            GitStatus::Modified => self.modified,
            GitStatus::Deleted => self.deleted,
            GitStatus::Conflict => self.conflict,
        }
    }

    // A scope of the tree falls back explicitly, as the scopes around it are those of `ui`.
    pub fn new(theme: &Theme) -> (styles: Styles)
        ensures
            styles == panel_styles(theme.scopes@),
    {
        let base: Style = match theme.try_get_exact("ui.file-tree") {
            Some(style) => style,
            None => theme.get("ui.background").patch(theme.get("ui.text")),
        };
        let track: Style = theme.get("ui.window");
        let selected: Style = theme.scope("ui.file-tree.selected", "ui.text.focus", None);
        let pinned: Style = theme.scope("ui.file-tree.pinned", "ui.virtual.ruler", None);
        let active: Style = theme.scope(
            "ui.file-tree.active",
            "ui.bufferline.active",
            Some("ui.statusline.active"),
        );
        Styles {
            base,
            selected: base.patch(selected),
            pinned: base.patch(pinned),
            active: base.patch(active),
            guide: theme.scope(
                "ui.file-tree.guide",
                "ui.virtual.indent-guide",
                Some("ui.virtual.whitespace"),
            ),
            directory: theme.scope("ui.file-tree.directory", "ui.text.directory", None),
            buffer: theme.scope("ui.file-tree.buffer", "hint", None),
            buffer_focused: theme.scope("ui.file-tree.buffer.focused", "info", None),
            unsaved: theme.scope("ui.file-tree.unsaved", "info", None),
            error: theme.scope("ui.file-tree.error", "error", None),
            created: theme.get("diff.plus.gutter"),
            modified: theme.get("diff.delta.gutter"),
            deleted: theme.get("diff.minus.gutter"),
            conflict: theme.get("diff.delta.conflict"),
            track,
            thumb: track.fg(
                match theme.get("ui.menu.scroll").fg {
                    Some(color) => color,
                    None => Color::Reset,
                },
            ),
        }
    }

    pub fn git(&self, status: GitStatus) -> (style: Style)
        ensures
            style == self.mark_style(status),
    {
        match status {
            GitStatus::Created => self.created,
            GitStatus::Modified => self.modified,
            GitStatus::Deleted => self.deleted,
            GitStatus::Conflict => self.conflict,
        }
    }
}

/// The style of a scope is that of the longest scope of the theme that it is or that is around it:
/// one that it starts with, up to one of its dots. Of two with the same name, the first counts. There
/// is a style exactly if there is such a scope.
pub proof fn law_the_nearest_scope_counts(scopes: Seq<ThemeScope>, name: Seq<char>)
    ensures
        match nearest(scopes, name) {
            Some(style) => exists|i: int|
                0 <= i < scopes.len() && is_around((#[trigger] scopes[i]).name@, name)
                    && scopes[i].style == style && (forall|k: int|
                    0 <= k < scopes.len() && is_around((#[trigger] scopes[k]).name@, name)
                        ==> scopes[k].name@.len() < scopes[i].name@.len() || (
                    scopes[k].name@.len() == scopes[i].name@.len() && i <= k)),
            None => forall|k: int|
                0 <= k < scopes.len() ==> !is_around((#[trigger] scopes[k]).name@, name),
        },
    decreases name.len(),
{
    lemma_exact(scopes, name);
    lemma_outer_scope(name);
    lemma_around_outer(name);
    assert forall|k: int|
        0 <= k < scopes.len() && is_around((#[trigger] scopes[k]).name@, name) && scopes[k].name@
            != name implies scopes[k].name@.len() < name.len() by {
        if scopes[k].name@.len() == name.len() {
            assert(name.take(name.len() as int) =~= name);
        }
    }
    match exact(scopes, name) {
        Some(style) => {
            let i = choose|i: int|
                0 <= i < scopes.len() && (#[trigger] scopes[i]).name@ == name && scopes[i].style
                    == style && forall|k: int|
                    0 <= k < i ==> (#[trigger] scopes[k]).name@ != name;
            assert(name.take(name.len() as int) =~= name);
            assert(is_around(scopes[i].name@, name));
            assert forall|k: int|
                0 <= k < scopes.len() && is_around(
                    (#[trigger] scopes[k]).name@,
                    name,
                ) implies scopes[k].name@.len() < scopes[i].name@.len() || (scopes[k].name@.len()
                == scopes[i].name@.len() && i <= k) by {}
        },
        None => match outer_scope(name) {
            Some(outer) => {
                law_the_nearest_scope_counts(scopes, outer);
                if let Some(style) = nearest(scopes, outer) {
                    let i = choose|i: int|
                        0 <= i < scopes.len() && is_around((#[trigger] scopes[i]).name@, outer)
                            && scopes[i].style == style && (forall|k: int|
                            0 <= k < scopes.len() && is_around(
                                (#[trigger] scopes[k]).name@,
                                outer,
                            ) ==> scopes[k].name@.len() < scopes[i].name@.len() || (
                            scopes[k].name@.len() == scopes[i].name@.len() && i <= k));
                    assert(is_around(scopes[i].name@, name));
                }
            },
            None => {},
        },
    }
}

/// Whether the scope `outer` is `name` or one around it.
pub open spec fn is_around(outer: Seq<char>, name: Seq<char>) -> bool {
    outer == name || (outer.len() < name.len() && name.take(outer.len() as int) == outer
        && name[outer.len() as int] == '.')
}

proof fn lemma_exact(scopes: Seq<ThemeScope>, name: Seq<char>)
    ensures
        match exact(scopes, name) {
            Some(style) => exists|i: int|
                0 <= i < scopes.len() && (#[trigger] scopes[i]).name@ == name && scopes[i].style
                    == style && forall|k: int|
                    0 <= k < i ==> (#[trigger] scopes[k]).name@ != name,
            None => forall|k: int|
                0 <= k < scopes.len() ==> (#[trigger] scopes[k]).name@ != name,
        },
    decreases scopes.len(),
{
    if scopes.len() > 0 {
        let rest = scopes.skip(1);
        assert forall|k: int| 0 <= k < rest.len() implies #[trigger] rest[k] == scopes[k + 1] by {}
        if scopes[0].name@ != name {
            lemma_exact(rest, name);
            match exact(rest, name) {
                Some(style) => {
                    let i = choose|i: int|
                        0 <= i < rest.len() && (#[trigger] rest[i]).name@ == name && rest[i].style
                            == style && forall|k: int|
                            0 <= k < i ==> (#[trigger] rest[k]).name@ != name;
                    assert(scopes[i + 1] == rest[i]);
                    assert forall|k: int| 0 <= k < i + 1 implies (
                    #[trigger] scopes[k]).name@ != name by {
                        if k > 0 {
                            assert(rest[k - 1] == scopes[k]);
                        }
                    }
                },
                None => {
                    assert forall|k: int| 0 <= k < scopes.len() implies (
                    #[trigger] scopes[k]).name@ != name by {
                        if k > 0 {
                            assert(rest[k - 1] == scopes[k]);
                        }
                    }
                },
            }
        }
    }
}

proof fn lemma_around_outer(name: Seq<char>)
    ensures
        match outer_scope(name) {
            Some(outer) => forall|scope: Seq<char>|
                scope != name ==> (#[trigger] is_around(scope, name) <==> is_around(scope, outer)),
            None => forall|scope: Seq<char>| scope != name ==> !#[trigger] is_around(scope, name),
        },
{
    lemma_last_dot(name);
    match outer_scope(name) {
        Some(outer) => {
            let n = outer.len() as int;
            assert forall|scope: Seq<char>| scope != name implies (#[trigger] is_around(scope, name)
                <==> is_around(scope, outer)) by {
                let m = scope.len() as int;
                if is_around(scope, name) {
                    assert(m <= n);
                    assert(outer.take(m) =~= name.take(m));
                    if m == n {
                        assert(outer.take(m) =~= outer);
                    }
                }
                if is_around(scope, outer) {
                    if m < n {
                        assert(name.take(m) =~= outer.take(m));
                        assert(name[m] == outer[m]);
                    }
                }
            }
        },
        None => {},
    }
}

proof fn lemma_last_dot(name: Seq<char>)
    ensures
        match outer_scope(name) {
            Some(outer) => outer.len() < name.len() && outer == name.take(outer.len() as int)
                && name[outer.len() as int] == '.' && forall|k: int|
                outer.len() < k < name.len() ==> #[trigger] name[k] != '.',
            None => forall|k: int| 0 <= k < name.len() ==> #[trigger] name[k] != '.',
        },
    decreases name.len(),
{
    if name.len() > 0 {
        let rest = name.drop_last();
        assert forall|k: int| 0 <= k < rest.len() implies #[trigger] rest[k] == name[k] by {}
        if name.last() == '.' {
            assert(rest =~= name.take(rest.len() as int));
        } else {
            lemma_last_dot(rest);
            match outer_scope(rest) {
                Some(outer) => {
                    assert(name.take(outer.len() as int) =~= rest.take(outer.len() as int));
                    assert forall|k: int| outer.len() < k < name.len() implies
                        #[trigger] name[k] != '.' by {
                        if k < rest.len() {
                            assert(rest[k] == name[k]);
                        }
                    }
                },
                None => {
                    assert forall|k: int| 0 <= k < name.len() implies #[trigger] name[k] != '.' by {
                        if k < rest.len() {
                            assert(rest[k] == name[k]);
                        }
                    }
                },
            }
        }
    }
}

/// Every part of the panel has the style of its own scope of the file tree where the theme sets it:
/// those of rows go over the style of the rows, the others stand alone.
pub proof fn law_panel_scopes_come_first(scopes: Seq<ThemeScope>)
    ensures
        ({
            let styles = panel_styles(scopes);
            &&& exact(scopes, "ui.file-tree"@) matches Some(style) ==> styles.base == style
            &&& exact(scopes, "ui.file-tree.selected"@) matches Some(style) ==> styles.selected
                == styles.base.patched(style)
            &&& exact(scopes, "ui.file-tree.pinned"@) matches Some(style) ==> styles.pinned
                == styles.base.patched(style)
            &&& exact(scopes, "ui.file-tree.active"@) matches Some(style) ==> styles.active
                == styles.base.patched(style)
            &&& exact(scopes, "ui.file-tree.guide"@) matches Some(style) ==> styles.guide == style
            &&& exact(scopes, "ui.file-tree.directory"@) matches Some(style) ==> styles.directory
                == style
            &&& exact(scopes, "ui.file-tree.buffer"@) matches Some(style) ==> styles.buffer
                == style
            &&& exact(scopes, "ui.file-tree.buffer.focused"@) matches Some(style)
                ==> styles.buffer_focused == style
            &&& exact(scopes, "ui.file-tree.unsaved"@) matches Some(style) ==> styles.unsaved
                == style
            &&& exact(scopes, "ui.file-tree.error"@) matches Some(style) ==> styles.error == style
        }),
{
}

/// Where a theme does not set a scope of the file tree, the scopes in place of it count in their
/// order, and where it sets none of those either, the style is plain.
pub proof fn law_panel_scopes_fall_back(scopes: Seq<ThemeScope>)
    ensures
        ({
            let styles = panel_styles(scopes);
            &&& exact(scopes, "ui.file-tree"@) is None ==> styles.base == or_plain(
                nearest(scopes, "ui.background"@),
            ).patched(or_plain(nearest(scopes, "ui.text"@)))
            &&& exact(scopes, "ui.file-tree.selected"@) is None ==> styles.selected
                == styles.base.patched(or_plain(nearest(scopes, "ui.text.focus"@)))
            &&& exact(scopes, "ui.file-tree.pinned"@) is None ==> styles.pinned
                == styles.base.patched(or_plain(nearest(scopes, "ui.virtual.ruler"@)))
            &&& exact(scopes, "ui.file-tree.active"@) is None ==> (nearest(
                scopes,
                "ui.bufferline.active"@,
            ) matches Some(style) ==> styles.active == styles.base.patched(style))
            &&& exact(scopes, "ui.file-tree.active"@) is None && nearest(
                scopes,
                "ui.bufferline.active"@,
            ) is None ==> styles.active == styles.base.patched(
                or_plain(nearest(scopes, "ui.statusline.active"@)),
            )
            &&& exact(scopes, "ui.file-tree.guide"@) is None ==> (nearest(
                scopes,
                "ui.virtual.indent-guide"@,
            ) matches Some(style) ==> styles.guide == style)
            &&& exact(scopes, "ui.file-tree.guide"@) is None && nearest(
                scopes,
                "ui.virtual.indent-guide"@,
            ) is None ==> styles.guide == or_plain(nearest(scopes, "ui.virtual.whitespace"@))
            &&& exact(scopes, "ui.file-tree.directory"@) is None ==> styles.directory == or_plain(
                nearest(scopes, "ui.text.directory"@),
            )
            &&& exact(scopes, "ui.file-tree.buffer"@) is None ==> styles.buffer == or_plain(
                nearest(scopes, "hint"@),
            )
            &&& exact(scopes, "ui.file-tree.buffer.focused"@) is None ==> styles.buffer_focused
                == or_plain(nearest(scopes, "info"@))
            &&& exact(scopes, "ui.file-tree.unsaved"@) is None ==> styles.unsaved == or_plain(
                nearest(scopes, "info"@),
            )
            &&& exact(scopes, "ui.file-tree.error"@) is None ==> styles.error == or_plain(
                nearest(scopes, "error"@),
            )
        }),
{
}

/// Git marks have the styles of the gutter: what is created that of added lines, what is modified
/// that of changed ones, what is deleted that of removed ones, and conflicts their own.
pub proof fn law_marks_have_the_styles_of_the_gutter(scopes: Seq<ThemeScope>)
    ensures
        ({
            let styles = panel_styles(scopes);
            &&& styles.mark_style(GitStatus::Created) == or_plain(
                nearest(scopes, "diff.plus.gutter"@),
            )
            &&& styles.mark_style(GitStatus::Modified) == or_plain(
                nearest(scopes, "diff.delta.gutter"@),
            )
            &&& styles.mark_style(GitStatus::Deleted) == or_plain(
                nearest(scopes, "diff.minus.gutter"@),
            )
            &&& styles.mark_style(GitStatus::Conflict) == or_plain(
                nearest(scopes, "diff.delta.conflict"@),
            )
        }),
{
}

/// The track of the scrollbar has the style of windows, and its thumb the color of menus on it.
pub proof fn law_scrollbars_look_like_menus(scopes: Seq<ThemeScope>)
    ensures
        ({
            let styles = panel_styles(scopes);
            &&& styles.track == or_plain(nearest(scopes, "ui.window"@))
            &&& styles.thumb.bg == styles.track.bg
            &&& styles.thumb.add_modifier == styles.track.add_modifier
            &&& or_plain(nearest(scopes, "ui.menu.scroll"@)).fg is Some ==> styles.thumb.fg
                == or_plain(nearest(scopes, "ui.menu.scroll"@)).fg
            &&& or_plain(nearest(scopes, "ui.menu.scroll"@)).fg is None ==> styles.thumb.fg == Some(
                Color::Reset,
            )
        }),
{
}

} // verus!
