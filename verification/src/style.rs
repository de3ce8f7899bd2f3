//! How text is styled on a terminal.

use vstd::prelude::*;

verus! {

#[derive(Clone, Copy, Debug, PartialEq, Eq, Structural)]
pub enum Color {
    Reset,
    Black,
    Red,
    Green,
    Yellow,
    Blue,
    Magenta,
    Cyan,
    Gray,
    LightRed,
    LightGreen,
    LightYellow,
    LightBlue,
    LightMagenta,
    LightCyan,
    LightGray,
    White,
    Rgb(u8, u8, u8),
    Indexed(u8),
}

#[derive(Clone, Copy, Debug, PartialEq, Eq, Structural)]
pub enum UnderlineStyle {
    Reset,
    Line,
    Curl,
    Dotted,
    Dashed,
    DoubleLine,
}

/// A set of ways in which text stands out.
#[derive(Clone, Copy, Debug, PartialEq, Eq, Structural)]
pub struct Modifier {
    pub bold: bool,
    pub dim: bool,
    pub italic: bool,
    pub slow_blink: bool,
    pub rapid_blink: bool,
    pub reversed: bool,
    pub hidden: bool,
    pub crossed_out: bool,
}

impl Modifier {
    pub open spec fn none() -> Modifier {
        Modifier {
            bold: false,
            dim: false,
            italic: false,
            slow_blink: false,
            rapid_blink: false,
            reversed: false,
            hidden: false,
            crossed_out: false,
        }
    }

    /// What is in one of the sets.
    pub open spec fn either(self, other: Modifier) -> Modifier {
        Modifier {
            bold: self.bold || other.bold,
            dim: self.dim || other.dim,
            italic: self.italic || other.italic,
            slow_blink: self.slow_blink || other.slow_blink,
            rapid_blink: self.rapid_blink || other.rapid_blink,
            reversed: self.reversed || other.reversed,
            hidden: self.hidden || other.hidden,
            crossed_out: self.crossed_out || other.crossed_out,
        }
    }

    /// What is in this set only.
    pub open spec fn without(self, other: Modifier) -> Modifier {
        Modifier {
            bold: self.bold && !other.bold,
            dim: self.dim && !other.dim,
            italic: self.italic && !other.italic,
            slow_blink: self.slow_blink && !other.slow_blink,
            rapid_blink: self.rapid_blink && !other.rapid_blink,
            reversed: self.reversed && !other.reversed,
            hidden: self.hidden && !other.hidden,
            crossed_out: self.crossed_out && !other.crossed_out,
        }
    }

    pub fn empty() -> (modifier: Modifier)
        ensures
            modifier == Modifier::none(),
    {
        Modifier {
            bold: false,
            dim: false,
            italic: false,
            slow_blink: false,
            rapid_blink: false,
            reversed: false,
            hidden: false,
            crossed_out: false,
        }
    }

    pub fn insert(self, other: Modifier) -> (modifier: Modifier)
        ensures
            modifier == self.either(other),
    {
        Modifier {
            bold: self.bold || other.bold,
            dim: self.dim || other.dim,
            italic: self.italic || other.italic,
            slow_blink: self.slow_blink || other.slow_blink,
            rapid_blink: self.rapid_blink || other.rapid_blink,
            reversed: self.reversed || other.reversed,
            hidden: self.hidden || other.hidden,
            crossed_out: self.crossed_out || other.crossed_out,
        }
    }

    pub fn remove(self, other: Modifier) -> (modifier: Modifier)
        ensures
            modifier == self.without(other),
    {
        Modifier {
            bold: self.bold && !other.bold,
            dim: self.dim && !other.dim,
            italic: self.italic && !other.italic,
            slow_blink: self.slow_blink && !other.slow_blink,
            rapid_blink: self.rapid_blink && !other.rapid_blink,
            reversed: self.reversed && !other.reversed,
            hidden: self.hidden && !other.hidden,
            crossed_out: self.crossed_out && !other.crossed_out,
        }
    }
}

/// How text looks; what is not set is left as it is.
#[derive(Clone, Copy, Debug, PartialEq, Eq, Structural)]
pub struct Style {
    pub fg: Option<Color>,
    pub bg: Option<Color>,
    pub underline_color: Option<Color>,
    pub underline_style: Option<UnderlineStyle>,
    pub add_modifier: Modifier,
    pub sub_modifier: Modifier,
}

impl Style {
    /// The style that leaves everything as it is.
    pub open spec fn plain() -> Style {
        Style {
            fg: None,
            bg: None,
            underline_color: None,
            underline_style: None,
            add_modifier: Modifier::none(),
            sub_modifier: Modifier::none(),
        }
    }

    pub open spec fn with_modifier(self, modifier: Modifier) -> Style {
        Style {
            sub_modifier: self.sub_modifier.without(modifier),
            add_modifier: self.add_modifier.either(modifier),
            ..self
        }
    }

    /// The style with what `other` sets set like that.
    pub open spec fn patched(self, other: Style) -> Style {
        Style {
            fg: if other.fg is Some {
                other.fg
            } else {
                self.fg
            },
            bg: if other.bg is Some {
                other.bg
            } else {
                self.bg
            },
            underline_color: if other.underline_color is Some {
                other.underline_color
            } else {
                self.underline_color
            },
            underline_style: if other.underline_style is Some {
                other.underline_style
            } else {
                self.underline_style
            },
            add_modifier: self.add_modifier.without(other.sub_modifier).either(other.add_modifier),
            sub_modifier: self.sub_modifier.without(other.add_modifier).either(other.sub_modifier),
        }
    }

    pub fn fg(self, color: Color) -> (style: Style)
        ensures
            style == (Style { fg: Some(color), ..self }),
    {
        Style { fg: Some(color), ..self }
    }

    pub fn underline_style(self, style: UnderlineStyle) -> (styled: Style)
        ensures
            styled == (Style { underline_style: Some(style), ..self }),
    {
        Style { underline_style: Some(style), ..self }
    }

    pub fn add_modifier(self, modifier: Modifier) -> (style: Style)
        ensures
            style == self.with_modifier(modifier),
    {
        Style {
            sub_modifier: self.sub_modifier.remove(modifier),
            add_modifier: self.add_modifier.insert(modifier),
            ..self
        }
    }

    /// The style with what `other` sets set like that.
    pub fn patch(self, other: Style) -> (style: Style)
        ensures
            style == self.patched(other),
    {
        Style {
            fg: match other.fg {
                Some(_) => other.fg,
                None => self.fg,
            },
            bg: match other.bg {
                Some(_) => other.bg,
                None => self.bg,
            },
            underline_color: match other.underline_color {
                Some(_) => other.underline_color,
                None => self.underline_color,
            },
            underline_style: match other.underline_style {
                Some(_) => other.underline_style,
                None => self.underline_style,
            },
            add_modifier: self.add_modifier.remove(other.sub_modifier).insert(other.add_modifier),
            sub_modifier: self.sub_modifier.remove(other.add_modifier).insert(other.sub_modifier),
        }
    }
}

impl Default for Style {
    fn default() -> (style: Style)
        ensures
            style == Style::plain(),
    {
        Style {
            fg: None,
            bg: None,
            underline_color: None,
            underline_style: None,
            add_modifier: Modifier::empty(),
            sub_modifier: Modifier::empty(),
        }
    }
}

/// A style that sets nothing changes nothing.
pub proof fn law_plain_patches_nothing(style: Style)
    ensures
        style.patched(Style::plain()) == style,
{
}

/// Of two styles on top of each other, the upper one counts where it sets a color or an
/// underline.
pub proof fn law_the_upper_style_counts(lower: Style, upper: Style)
    ensures
        ({
            let both = lower.patched(upper);
            &&& upper.fg is Some ==> both.fg == upper.fg
            &&& upper.fg is None ==> both.fg == lower.fg
            &&& upper.bg is Some ==> both.bg == upper.bg
            &&& upper.bg is None ==> both.bg == lower.bg
            &&& upper.underline_color is Some ==> both.underline_color == upper.underline_color
            &&& upper.underline_color is None ==> both.underline_color == lower.underline_color
            &&& upper.underline_style is Some ==> both.underline_style == upper.underline_style
            &&& upper.underline_style is None ==> both.underline_style == lower.underline_style
        }),
{
}

/// Of two styles on top of each other, the upper one counts where it adds a modifier or takes one
/// away, and what it does both to is added and taken away.
pub proof fn law_upper_modifiers_count(lower: Style, upper: Style)
    ensures
        ({
            let both = lower.patched(upper);
            let (added, taken) = (both.add_modifier, both.sub_modifier);
            &&& added.bold <==> upper.add_modifier.bold || (lower.add_modifier.bold
                && !upper.sub_modifier.bold)
            &&& taken.bold <==> upper.sub_modifier.bold || (lower.sub_modifier.bold
                && !upper.add_modifier.bold)
            &&& added.dim <==> upper.add_modifier.dim || (lower.add_modifier.dim
                && !upper.sub_modifier.dim)
            &&& taken.dim <==> upper.sub_modifier.dim || (lower.sub_modifier.dim
                && !upper.add_modifier.dim)
            &&& added.italic <==> upper.add_modifier.italic || (lower.add_modifier.italic
                && !upper.sub_modifier.italic)
            &&& taken.italic <==> upper.sub_modifier.italic || (lower.sub_modifier.italic
                && !upper.add_modifier.italic)
            &&& added.slow_blink <==> upper.add_modifier.slow_blink || (lower.add_modifier.slow_blink
                && !upper.sub_modifier.slow_blink)
            &&& taken.slow_blink <==> upper.sub_modifier.slow_blink || (lower.sub_modifier.slow_blink
                && !upper.add_modifier.slow_blink)
            &&& added.rapid_blink <==> upper.add_modifier.rapid_blink || (lower.add_modifier.rapid_blink
                && !upper.sub_modifier.rapid_blink)
            &&& taken.rapid_blink <==> upper.sub_modifier.rapid_blink || (lower.sub_modifier.rapid_blink
                && !upper.add_modifier.rapid_blink)
            &&& added.reversed <==> upper.add_modifier.reversed || (lower.add_modifier.reversed
                && !upper.sub_modifier.reversed)
            &&& taken.reversed <==> upper.sub_modifier.reversed || (lower.sub_modifier.reversed
                && !upper.add_modifier.reversed)
            &&& added.hidden <==> upper.add_modifier.hidden || (lower.add_modifier.hidden
                && !upper.sub_modifier.hidden)
            &&& taken.hidden <==> upper.sub_modifier.hidden || (lower.sub_modifier.hidden
                && !upper.add_modifier.hidden)
            &&& added.crossed_out <==> upper.add_modifier.crossed_out || (lower.add_modifier.crossed_out
                && !upper.sub_modifier.crossed_out)
            &&& taken.crossed_out <==> upper.sub_modifier.crossed_out || (lower.sub_modifier.crossed_out
                && !upper.add_modifier.crossed_out)
        }),
{
}

} // verus!
