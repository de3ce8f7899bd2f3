//! Entry colors from an `LS_COLORS` specification, the format GNU `ls`, `eza` and `vivid`
//! share.
//!
//! Only the foreground and the modifiers that compose with the tree's row backgrounds (bold,
//! dim, italic, underline, crossed out) are kept, so a rule can never hide the cursor row.

use crate::chars::{
    chars_of_str, lemma_next_sep, lemma_split_joined, next_sep, part_of, parts_view, same_chars,
    split, split_chars, string_of, trim, trimmed,
};
use crate::pieces::{decimal, digit_char, law_numbers_are_written};
use crate::style::{Color, Modifier, Style, UnderlineStyle};
use vstd::prelude::*;

verus! {

/// What kind of entry a name belongs to, in the terms of `LS_COLORS`.
#[derive(Clone, Copy, Debug, PartialEq, Eq, Structural)]
pub enum EntryType {
    Directory,
    File,
    Executable,
    Link,
    /// A link whose target is missing.
    Orphan,
    Fifo,
    Socket,
    BlockDevice,
    CharDevice,
}

impl EntryType {
    /// The key of the rules for the type.
    pub open spec fn key_text(self) -> Seq<char> {
        match self {
            EntryType::Directory => "di"@,
            EntryType::File => "fi"@,
            EntryType::Executable => "ex"@,
            EntryType::Link => "ln"@,
            EntryType::Orphan => "or"@,
            EntryType::Fifo => "pi"@,
            EntryType::Socket => "so"@,
            EntryType::BlockDevice => "bd"@,
            EntryType::CharDevice => "cd"@,
        }
    }

    fn key(self) -> (key: &'static str)
        ensures
            key@ == self.key_text(),
    {
        match self {
            EntryType::Directory => "di",
            EntryType::File => "fi",
            EntryType::Executable => "ex",
            EntryType::Link => "ln",
            EntryType::Orphan => "or",
            EntryType::Fifo => "pi",
            EntryType::Socket => "so",
            EntryType::BlockDevice => "bd",
            EntryType::CharDevice => "cd",
        }
    }
}

/// The value of a decimal digit.
pub open spec fn digit_value(c: char) -> int {
    c as int - '0' as int
}

/// The number that digits write, if all are digits.
pub open spec fn number_of(digits: Seq<char>) -> Option<int>
    decreases digits.len(),
{
    if digits.len() == 0 {
        Some(0)
    } else if '0' <= digits.last() <= '9' {
        match number_of(digits.drop_last()) {
            Some(number) => Some(number * 10 + digit_value(digits.last())),
            None => None,
        }
    } else {
        None
    }
}

/// The byte that a text writes in decimal, with a plus before it or not.
pub open spec fn byte_of_text(text: Seq<char>) -> Option<u8> {
    let digits = if text.len() > 0 && text[0] == '+' {
        text.skip(1)
    } else {
        text
    };
    if digits.len() == 0 {
        None
    } else {
        match number_of(digits) {
            Some(number) => if number <= 255 {
                Some(number as u8)
            } else {
                None
            },
            None => None,
        }
    }
}

/// The color that the arguments of `38` or `48` give, `5;index` or `2;red;green;blue`, and how many
/// of the codes are read for it.
pub open spec fn extended(codes: Seq<Option<u8>>) -> (Option<Color>, int) {
    if codes.len() == 0 {
        (None, 0)
    } else if codes[0] == Some(5u8) {
        if codes.len() == 1 {
            (None, 1)
        } else {
            match codes[1] {
                Some(index) => (Some(Color::Indexed(index)), 2),
                None => (None, 2),
            }
        }
    } else if codes[0] == Some(2u8) {
        if codes.len() == 1 {
            (None, 1)
        } else if codes[1] is None || codes.len() == 2 {
            (None, 2)
        } else if codes[2] is None || codes.len() == 3 {
            (None, 3)
        } else {
            match codes[3] {
                Some(blue) => (Some(Color::Rgb(codes[1]->0, codes[2]->0, blue)), 4),
                None => (None, 4),
            }
        }
    } else {
        (None, 1)
    }
}

/// Whether the code sets one of the kept modifiers.
pub open spec fn modifier_of(code: u8) -> Option<Modifier> {
    if code == 1 {
        Some(Modifier { bold: true, ..Modifier::none() })
    } else if code == 2 {
        Some(Modifier { dim: true, ..Modifier::none() })
    } else if code == 3 {
        Some(Modifier { italic: true, ..Modifier::none() })
    } else if code == 9 {
        Some(Modifier { crossed_out: true, ..Modifier::none() })
    } else {
        None
    }
}

/// The style after the first of the codes, and how many of them are read.
pub open spec fn after_code(style: Style, codes: Seq<Option<u8>>) -> (Style, int) {
    match codes[0] {
        None => (style, 1),
        Some(code) => {
            let rest = extended(codes.skip(1));
            if code == 0 {
                (Style::plain(), 1)
            } else if modifier_of(code) is Some {
                (style.with_modifier(modifier_of(code)->0), 1)
            } else if code == 4 {
                (Style { underline_style: Some(UnderlineStyle::Line), ..style }, 1)
            } else if 30 <= code <= 37 {
                (Style { fg: Some(Color::Indexed((code - 30) as u8)), ..style }, 1)
            } else if 90 <= code <= 97 {
                (Style { fg: Some(Color::Indexed((code - 82) as u8)), ..style }, 1)
            } else if code == 39 {
                (Style { fg: None, ..style }, 1)
            } else if code == 38 {
                (
                    if rest.0 is Some {
                        Style { fg: rest.0, ..style }
                    } else {
                        style
                    },
                    1 + rest.1,
                )
            } else if code == 48 {
                (style, 1 + rest.1)
            } else {
                (style, 1)
            }
        },
    }
}

/// The style after all of the codes.
pub open spec fn after_codes(style: Style, codes: Seq<Option<u8>>) -> Style
    decreases codes.len(),
{
    if codes.len() == 0 {
        style
    } else {
        let (next, read) = after_code(style, codes);
        if 0 < read <= codes.len() {
            after_codes(next, codes.skip(read))
        } else {
            next
        }
    }
}

/// The codes that SGR parameters are.
pub open spec fn codes_of(value: Seq<char>) -> Seq<Option<u8>> {
    split(value, ';').map_values(|part: Seq<char>| byte_of_text(trimmed(part)))
}

/// The style that SGR parameters give.
pub open spec fn style_of(value: Seq<char>) -> Style {
    after_codes(Style::plain(), codes_of(value))
}

/// Reads a byte that is written in decimal.
fn parse_byte(text: &Vec<char>) -> (byte: Option<u8>)
    ensures
        byte == byte_of_text(text@),
{
    let start: usize = if text.len() > 0 && text[0] == '+' {
        1
    } else {
        0
    };
    if start == text.len() {
        return None;
    }
    let ghost digits = text@.skip(start as int);
    assert(start == 0 ==> digits =~= text@);
    let mut number: u16 = 0;
    let mut i: usize = start;
    while i < text.len()
        invariant
            start <= i <= text@.len(),
            digits == text@.skip(start as int),
            digits.len() > 0,
            byte_of_text(text@) == match number_of(digits) {
                Some(number) => if number <= 255 {
                    Some(number as u8)
                } else {
                    None
                },
                None => None,
            },
            number_of(digits.take(i - start)) == Some(number as int),
            number <= 255,
        decreases text.len() - i,
    {
        let c: char = text[i];
        assert(digits.take(i + 1 - start).drop_last() =~= digits.take(i - start));
        assert(digits.take(i + 1 - start).last() == c);
        if !('0' <= c && c <= '9') {
            proof {
                lemma_number_prefix(digits, i + 1 - start);
            }
            return None;
        }
        number = number * 10 + (c as u32 - '0' as u32) as u16;
        if number > 255 {
            proof {
                lemma_number_prefix(digits, i + 1 - start);
            }
            return None;
        }
        i += 1;
    }
    assert(digits.take(i - start) =~= digits);
    Some(number as u8)
}

/// More digits make no smaller number, and a number of what is none.
proof fn lemma_number_prefix(digits: Seq<char>, n: int)
    requires
        0 <= n <= digits.len(),
    ensures
        number_of(digits.take(n)) is None ==> number_of(digits) is None,
        number_of(digits) is Some ==> number_of(digits.take(n)) is Some && 0 <= number_of(
            digits.take(n),
        )->0 <= number_of(digits)->0,
    decreases digits.len() - n,
{
    if n == digits.len() {
        assert(digits.take(n) =~= digits);
        lemma_number_positive(digits);
    } else {
        lemma_number_prefix(digits, n + 1);
        assert(digits.take(n + 1).drop_last() =~= digits.take(n));
        lemma_number_positive(digits.take(n));
    }
}

proof fn lemma_number_positive(digits: Seq<char>)
    ensures
        number_of(digits) matches Some(number) ==> number >= 0,
    decreases digits.len(),
{
    if digits.len() > 0 {
        lemma_number_positive(digits.drop_last());
    }
}

/// Reads the arguments of `38`/`48`: `5;index` or `2;red;green;blue`. Returns how many codes that
/// took, too.
fn extended_color(codes: &Vec<Option<u8>>, from: usize) -> (color: (Option<Color>, usize))
    requires
        from <= codes@.len(),
    ensures
        color.0 == extended(codes@.skip(from as int)).0,
        color.1 == extended(codes@.skip(from as int)).1,
        color.1 <= codes@.len() - from,
{
    let ghost rest = codes@.skip(from as int);
    let left: usize = codes.len() - from;
    if left == 0 {
        return (None, 0);
    }
    assert(rest[0] == codes@[from as int]);
    match codes[from] {
        Some(5) => {
            if left == 1 {
                return (None, 1);
            }
            assert(rest[1] == codes@[from + 1]);
            match codes[from + 1] {
                Some(index) => (Some(Color::Indexed(index)), 2),
                None => (None, 2),
            }
        },
        Some(2) => {
            if left == 1 {
                return (None, 1);
            }
            assert(rest[1] == codes@[from + 1]);
            let red: u8 = match codes[from + 1] {
                Some(red) => red,
                None => {
                    return (None, 2);
                },
            };
            if left == 2 {
                return (None, 2);
            }
            assert(rest[2] == codes@[from + 2]);
            let green: u8 = match codes[from + 2] {
                Some(green) => green,
                None => {
                    return (None, 3);
                },
            };
            if left == 3 {
                return (None, 3);
            }
            assert(rest[3] == codes@[from + 3]);
            match codes[from + 3] {
                Some(blue) => (Some(Color::Rgb(red, green, blue)), 4),
                None => (None, 4),
            }
        },
        _ => (None, 1),
    }
}

/// Parses SGR parameters like `01;38;2;255;0;0`, keeping the foreground and the safe modifiers.
pub fn parse_style(value: &str) -> (style: Style)
    ensures
        style == style_of(value@),
{
    parse_chars(&chars_of_str(value))
}

#[verifier::spinoff_prover]
#[verifier::rlimit(40)]
fn parse_chars(value: &Vec<char>) -> (style: Style)
    ensures
        style == style_of(value@),
{
    let parts: Vec<Vec<char>> = split_chars(value, ';');
    let mut codes: Vec<Option<u8>> = Vec::new();
    let ghost all = codes_of(value@);
    let mut i: usize = 0;
    while i < parts.len()
        invariant
            i <= parts@.len(),
            parts_view(parts@) == split(value@, ';'),
            all == codes_of(value@),
            codes@ == all.take(i as int),
        decreases parts.len() - i,
    {
        codes.push(parse_byte(&trim(&parts[i])));
        assert(split(value@, ';')[i as int] == parts@[i as int]@);
        i += 1;
        assert(codes@ =~= all.take(i as int));
    }
    assert(all.take(i as int) =~= all);
    let mut style: Style = Style::default();
    i = 0;
    assert(all.skip(0) =~= all);
    while i < codes.len()
        invariant
            i <= codes@.len(),
            codes@ == all,
            style_of(value@) == after_codes(Style::plain(), all),
            after_codes(Style::plain(), all) == after_codes(style, all.skip(i as int)),
        decreases codes.len() - i,
    {
        let ghost rest = all.skip(i as int);
        assert(rest[0] == all[i as int]);
        assert(rest.skip(1) =~= all.skip(i + 1));
        let ghost before = style;
        let start: usize = i;
        i += 1;
        match codes[start] {
            Some(0) => {
                style = Style::default();
            },
            Some(1) => {
                style = style.add_modifier(Modifier { bold: true, ..Modifier::empty() });
            },
            Some(2) => {
                style = style.add_modifier(Modifier { dim: true, ..Modifier::empty() });
            },
            Some(3) => {
                style = style.add_modifier(Modifier { italic: true, ..Modifier::empty() });
            },
            Some(4) => {
                style = style.underline_style(UnderlineStyle::Line);
            },
            Some(9) => {
                style = style.add_modifier(Modifier { crossed_out: true, ..Modifier::empty() });
            },
            Some(39) => {
                style = Style { fg: None, ..style };
            },
            Some(38) => {
                let (color, read) = extended_color(&codes, i);
                if let Some(color) = color {
                    style = style.fg(color);
                }
                i += read;
            },
            // Backgrounds are consumed whole so their arguments are not taken for codes.
            Some(48) => {
                let (_, read) = extended_color(&codes, i);
                i += read;
            },
            Some(code) => {
                if 30 <= code && code <= 37 {
                    style = style.fg(Color::Indexed(code - 30));
                } else if 90 <= code && code <= 97 {
                    style = style.fg(Color::Indexed(code - 82));
                }
            },
            None => {},
        }
        proof {
            assert(after_code(before, rest) == (style, i - start));
            assert(rest.skip(i - start) =~= all.skip(i as int));
        }
    }
    assert(all.skip(i as int) =~= Seq::empty());
    style
}

/// A rule of a specification: what it is for, and the style.
pub ghost struct RuleView {
    pub key: Seq<char>,
    pub style: Style,
}

/// A rule of a specification: what it is for, and the style.
#[derive(Debug)]
struct Rule {
    key: Vec<char>,
    style: Style,
}

spec fn rule_views(rules: Seq<Rule>) -> Seq<RuleView> {
    rules.map_values(|rule: Rule| RuleView { key: rule.key@, style: rule.style })
}

/// The key and the value of a rule, where it has both.
pub open spec fn rule_parts(rule: Seq<char>) -> Option<(Seq<char>, Seq<char>)> {
    let text = trimmed(rule);
    let at = next_sep(text, '=', 0);
    if at < text.len() && at > 0 {
        Some((text.take(at), text.skip(at + 1)))
    } else {
        None
    }
}

/// The parts of the rules of a specification.
pub open spec fn rules_of(spec_text: Seq<char>) -> Seq<(Seq<char>, Seq<char>)> {
    rules_in(split(spec_text, ':'))
}

pub open spec fn rules_in(rules: Seq<Seq<char>>) -> Seq<(Seq<char>, Seq<char>)>
    decreases rules.len(),
{
    if rules.len() == 0 {
        Seq::empty()
    } else {
        let earlier = rules_in(rules.drop_last());
        match rule_parts(rules.last()) {
            Some(parts) => earlier.push(parts),
            None => earlier,
        }
    }
}

/// Whether links take the color of what they point to by this rule.
pub open spec fn is_target_rule(rule: (Seq<char>, Seq<char>)) -> bool {
    rule.0 == "ln"@ && rule.1 == "target"@
}

/// The rules for entry types.
pub open spec fn type_rules(rules: Seq<(Seq<char>, Seq<char>)>) -> Seq<RuleView>
    decreases rules.len(),
{
    if rules.len() == 0 {
        Seq::empty()
    } else {
        let earlier = type_rules(rules.drop_last());
        let (key, value) = rules.last();
        if !is_target_rule(rules.last()) && key[0] != '*' {
            earlier.push(RuleView { key, style: style_of(value) })
        } else {
            earlier
        }
    }
}

/// The rules for the ends of names.
pub open spec fn pattern_rules(rules: Seq<(Seq<char>, Seq<char>)>) -> Seq<RuleView>
    decreases rules.len(),
{
    if rules.len() == 0 {
        Seq::empty()
    } else {
        let earlier = pattern_rules(rules.drop_last());
        let (key, value) = rules.last();
        if !is_target_rule(rules.last()) && key[0] == '*' && key.len() > 1 {
            earlier.push(RuleView { key: key.skip(1), style: style_of(value) })
        } else {
            earlier
        }
    }
}

/// The style of the last rule for `key`.
pub open spec fn last_rule(rules: Seq<RuleView>, key: Seq<char>) -> Option<Style>
    decreases rules.len(),
{
    if rules.len() == 0 {
        None
    } else if rules.last().key == key {
        Some(rules.last().style)
    } else {
        last_rule(rules.drop_last(), key)
    }
}

/// Whether `name` ends with `suffix`.
pub open spec fn ends_with(name: Seq<char>, suffix: Seq<char>) -> bool {
    suffix.len() <= name.len() && name.skip(name.len() - suffix.len()) == suffix
}

/// The rule with the longest end of `name`, the last one of those.
pub open spec fn longest_rule(rules: Seq<RuleView>, name: Seq<char>) -> Option<RuleView>
    decreases rules.len(),
{
    if rules.len() == 0 {
        None
    } else {
        let earlier = longest_rule(rules.drop_last(), name);
        let rule = rules.last();
        if ends_with(name, rule.key) && (earlier is None || earlier->0.key.len() <= rule.key.len()) {
            Some(rule)
        } else {
            earlier
        }
    }
}

/// A parsed `LS_COLORS` specification.
#[derive(Debug)]
pub struct LsColors {
    /// Rules for entry types, keyed like `di`.
    types: Vec<Rule>,
    /// Rules for the ends of names: `*.rs` is `.rs`.
    patterns: Vec<Rule>,
    /// `ln=target`: links take the color of what they point to.
    links_as_target: bool,
}

/// What a specification says.
pub ghost struct LsColorsView {
    pub types: Seq<RuleView>,
    pub patterns: Seq<RuleView>,
    pub links_as_target: bool,
}

/// What a specification that is written as `spec_text` says.
pub open spec fn colors_of(spec_text: Seq<char>) -> LsColorsView {
    let rules = rules_of(spec_text);
    LsColorsView {
        types: type_rules(rules),
        patterns: pattern_rules(rules),
        links_as_target: exists|i: int| 0 <= i < rules.len() && is_target_rule(#[trigger] rules[i]),
    }
}

/// Whether the specification is set to more than white space.
pub open spec fn is_set(spec_text: Option<&str>) -> bool {
    spec_text is Some && trimmed(spec_text->0@).len() > 0
}

/// The specifications that are set, one after the other.
pub open spec fn joined_specs(first: Option<&str>, second: Option<&str>) -> Option<Seq<char>> {
    if is_set(first) && is_set(second) {
        Some(first->0@ + seq![':'] + second->0@)
    } else if is_set(first) {
        Some(first->0@)
    } else if is_set(second) {
        Some(second->0@)
    } else {
        None
    }
}

impl LsColorsView {
    pub open spec fn type_style(self, entry_type: EntryType) -> Option<Style> {
        last_rule(self.types, entry_type.key_text())
    }

    pub open spec fn pattern_style(self, name: Seq<char>) -> Option<Style> {
        match longest_rule(self.patterns, name) {
            Some(rule) => Some(rule.style),
            None => None,
        }
    }

    /// The style of an entry.
    pub open spec fn style(
        self,
        name: Seq<char>,
        entry_type: EntryType,
        target: Option<EntryType>,
    ) -> Option<Style> {
        let shown = if entry_type is Link && target is Some && self.links_as_target {
            target->0
        } else {
            entry_type
        };
        match shown {
            EntryType::File => first_of(
                self.pattern_style(name),
                self.type_style(EntryType::File),
            ),
            EntryType::Executable => first_of(
                self.type_style(EntryType::Executable),
                first_of(self.pattern_style(name), self.type_style(EntryType::File)),
            ),
            EntryType::Orphan => first_of(
                self.type_style(EntryType::Orphan),
                self.type_style(EntryType::Link),
            ),
            _ => self.type_style(shown),
        }
    }
}

/// The first of two styles that is there.
pub open spec fn first_of(a: Option<Style>, b: Option<Style>) -> Option<Style> {
    if a is Some {
        a
    } else {
        b
    }
}

fn or_else(a: Option<Style>, b: Option<Style>) -> (style: Option<Style>)
    ensures
        style == first_of(a, b),
{
    match a {
        Some(_) => a,
        None => b,
    }
}

impl LsColors {
    pub closed spec fn view(&self) -> LsColorsView {
        LsColorsView {
            types: rule_views(self.types@),
            patterns: rule_views(self.patterns@),
            links_as_target: self.links_as_target,
        }
    }

    /// Parses a specification such as `di=1;34:*.rs=38;5;208`. Unreadable rules are skipped:
    /// real specifications collect entries from many tools.
    pub fn parse(spec_text: &str) -> (colors: LsColors)
        ensures
            colors@ == colors_of(spec_text@),
    {
        let parts: Vec<Vec<char>> = split_chars(&chars_of_str(spec_text), ':');
        let ghost texts = split(spec_text@, ':');
        let mut colors = LsColors {
            types: Vec::new(),
            patterns: Vec::new(),
            links_as_target: false,
        };
        assert(colors@.types =~= Seq::empty());
        assert(colors@.patterns =~= Seq::empty());
        let mut i: usize = 0;
        while i < parts.len()
            invariant
                i <= parts@.len(),
                parts_view(parts@) == texts,
                colors.reads(rules_in(texts.take(i as int))),
            decreases parts.len() - i,
        {
            proof {
                assert(texts.take(i + 1).drop_last() =~= texts.take(i as int));
                assert(texts.take(i + 1).last() == parts@[i as int]@);
            }
            colors.add_rule(
                &trim(&parts[i]),
                Ghost(parts@[i as int]@),
                Ghost(rules_in(texts.take(i as int))),
            );
            i += 1;
        }
        assert(texts.take(i as int) =~= texts);
        colors
    }

    /// Whether the colors are those of `rules`.
    spec fn reads(&self, rules: Seq<(Seq<char>, Seq<char>)>) -> bool {
        &&& self@.types == type_rules(rules)
        &&& self@.patterns == pattern_rules(rules)
        &&& self@.links_as_target == exists|i: int|
            0 <= i < rules.len() && is_target_rule(#[trigger] rules[i])
    }

    /// Adds the rule `text`, if it is one.
    fn add_rule(
        &mut self,
        text: &Vec<char>,
        Ghost(rule): Ghost<Seq<char>>,
        Ghost(rules): Ghost<Seq<(Seq<char>, Seq<char>)>>,
    )
        requires
            text@ == trimmed(rule),
            old(self).reads(rules),
        ensures
            final(self).reads(
                match rule_parts(rule) {
                    Some(parts) => rules.push(parts),
                    None => rules,
                },
            ),
    {
        let mut at: usize = 0;
        while at < text.len() && text[at] != '='
            invariant
                at <= text@.len(),
                next_sep(text@, '=', 0) == next_sep(text@, '=', at as int),
            decreases text.len() - at,
        {
            at += 1;
        }
        if at == text.len() || at == 0 {
            return ;
        }
        let key: Vec<char> = part_of(text, 0, at);
        let value: Vec<char> = part_of(text, at + 1, text.len());
        let ghost parts = (key@, value@);
        let ghost after = rules.push(parts);
        let ghost before = self@;
        proof {
            assert(key@ =~= text@.take(at as int));
            assert(value@ =~= text@.skip(at + 1));
            assert(rule_parts(rule) == Some(parts));
            assert(after.drop_last() =~= rules);
            assert(after.last() == parts);
            assert(after[rules.len() as int] == parts);
            assert forall|i: int| 0 <= i < rules.len() implies #[trigger] after[i] == rules[i] by {}
            if before.links_as_target {
                let i = choose|i: int| 0 <= i < rules.len() && is_target_rule(#[trigger] rules[i]);
                assert(is_target_rule(after[i]));
            }
        }
        let link: Vec<char> = chars_of_str("ln");
        let target: Vec<char> = chars_of_str("target");
        if same_chars(&key, &link) && same_chars(&value, &target) {
            self.links_as_target = true;
            assert(is_target_rule(after[rules.len() as int]));
            return ;
        }
        assert(!is_target_rule(parts));
        if key[0] == '*' {
            if key.len() > 1 {
                let style: Style = parse_chars(&value);
                let suffix: Vec<char> = part_of(&key, 1, key.len());
                assert(suffix@ =~= key@.skip(1));
                let ghost end = suffix@;
                self.patterns.push(Rule { key: suffix, style });
                assert(self@.patterns =~= before.patterns.push(RuleView { key: end, style }));
            }
        } else {
            let style: Style = parse_chars(&value);
            let ghost name = key@;
            self.types.push(Rule { key, style });
            assert(self@.types =~= before.types.push(RuleView { key: name, style }));
        }
    }

    /// Reads the values of `LS_COLORS` and then `EZA_COLORS`, whose rules win, like `eza` does.
    /// `None` if neither is set.
    pub fn from_environment(ls_colors: Option<&str>, eza_colors: Option<&str>) -> (colors: Option<
        LsColors,
    >)
        ensures
            match joined_specs(ls_colors, eza_colors) {
                Some(text) => colors is Some && colors->0@ == colors_of(text),
                None => colors is None,
            },
    {
        let mut text: Vec<char> = Vec::new();
        let mut set: bool = false;
        if let Some(spec_text) = ls_colors {
            let mut chars: Vec<char> = chars_of_str(spec_text);
            if trim(&chars).len() > 0 {
                text.append(&mut chars);
                set = true;
            }
        }
        if let Some(spec_text) = eza_colors {
            let mut chars: Vec<char> = chars_of_str(spec_text);
            if trim(&chars).len() > 0 {
                if set {
                    text.push(':');
                }
                text.append(&mut chars);
                set = true;
            }
        }
        if set {
            assert(text@ =~= joined_specs(ls_colors, eza_colors)->0);
            Some(LsColors::parse(string_of(&text).as_str()))
        } else {
            None
        }
    }

    /// The colors GNU `ls` uses when `LS_COLORS` is not set.
    pub fn gnu() -> (colors: LsColors)
        ensures
            colors@ == colors_of(
                "di=01;34:ln=01;36:pi=33:so=01;35:bd=01;33:cd=01;33:ex=01;32"@,
            ),
    {
        LsColors::parse("di=01;34:ln=01;36:pi=33:so=01;35:bd=01;33:cd=01;33:ex=01;32")
    }

    fn type_style(&self, entry_type: EntryType) -> (style: Option<Style>)
        ensures
            style == self@.type_style(entry_type),
    {
        let key: Vec<char> = chars_of_str(entry_type.key());
        let ghost rules = self@.types;
        let mut i: usize = self.types.len();
        assert(rules.take(i as int) =~= rules);
        while i > 0
            invariant
                i <= self.types@.len(),
                rules == self@.types,
                key@ == entry_type.key_text(),
                last_rule(rules, key@) == last_rule(rules.take(i as int), key@),
            decreases i,
        {
            i -= 1;
            assert(rules.take(i + 1).drop_last() =~= rules.take(i as int));
            assert(rules.take(i + 1).last() == rules[i as int]);
            if same_chars(&self.types[i].key, &key) {
                return Some(self.types[i].style);
            }
        }
        None
    }

    /// The rule with the longest suffix of `name`, so `*README.md` beats `*.md`.
    fn pattern_style(&self, name: &Vec<char>) -> (style: Option<Style>)
        ensures
            style == self@.pattern_style(name@),
    {
        let ghost rules = self@.patterns;
        let mut best: Option<usize> = None;
        let mut i: usize = 0;
        while i < self.patterns.len()
            invariant
                i <= self.patterns@.len(),
                rules == self@.patterns,
                match best {
                    Some(best) => best < i && longest_rule(rules.take(i as int), name@) == Some(
                        rules[best as int],
                    ),
                    None => longest_rule(rules.take(i as int), name@) is None,
                },
            decreases self.patterns.len() - i,
        {
            proof {
                assert(rules.take(i + 1).drop_last() =~= rules.take(i as int));
                assert(rules.take(i + 1).last() == rules[i as int]);
            }
            let len: usize = self.patterns[i].key.len();
            if len <= name.len() {
                let end: Vec<char> = part_of(name, name.len() - len, name.len());
                assert(end@ =~= name@.skip(name@.len() - len));
                let longer: bool = match best {
                    Some(best) => self.patterns[best].key.len() <= len,
                    None => true,
                };
                if same_chars(&end, &self.patterns[i].key) && longer {
                    best = Some(i);
                }
            }
            i += 1;
        }
        assert(rules.take(i as int) =~= rules);
        match best {
            Some(best) => Some(self.patterns[best].style),
            None => None,
        }
    }

    /// Whether executables have a rule of their own, which is only worth a `stat` if so.
    pub fn colors_executables(&self) -> (colors: bool)
        ensures
            colors == self@.type_style(EntryType::Executable) is Some,
    {
        self.type_style(EntryType::Executable).is_some()
    }

    /// The style of an entry called `name`. `target` is what a link points to, used when the
    /// specification says `ln=target`. Only regular files are matched by name, and an
    /// executable only if there is no `ex` rule.
    pub fn style(&self, name: &str, entry_type: EntryType, target: Option<EntryType>) -> (style:
        Option<Style>)
        ensures
            style == self@.style(name@, entry_type, target),
    {
        let chars: Vec<char> = chars_of_str(name);
        let shown: EntryType = match (entry_type, target) {
            (EntryType::Link, Some(target)) => if self.links_as_target {
                target
            } else {
                entry_type
            },
            _ => entry_type,
        };
        match shown {
            EntryType::File => or_else(
                self.pattern_style(&chars),
                self.type_style(EntryType::File),
            ),
            EntryType::Executable => or_else(
                self.type_style(EntryType::Executable),
                or_else(self.pattern_style(&chars), self.type_style(EntryType::File)),
            ),
            EntryType::Orphan => or_else(
                self.type_style(EntryType::Orphan),
                self.type_style(EntryType::Link),
            ),
            _ => self.type_style(shown),
        }
    }
}

/// The rule for a name is one that the name ends with, and no other such rule has a longer end.
pub proof fn law_the_longest_pattern_wins(rules: Seq<RuleView>, name: Seq<char>)
    ensures
        match longest_rule(rules, name) {
            Some(rule) => {
                &&& rules.contains(rule)
                &&& ends_with(name, rule.key)
                &&& forall|i: int|
                    0 <= i < rules.len() && ends_with(name, (#[trigger] rules[i]).key)
                        ==> rules[i].key.len() <= rule.key.len()
            },
            None => forall|i: int|
                0 <= i < rules.len() ==> !ends_with(name, (#[trigger] rules[i]).key),
        },
    decreases rules.len(),
{
    if rules.len() > 0 {
        let rest = rules.drop_last();
        law_the_longest_pattern_wins(rest, name);
        assert forall|i: int| 0 <= i < rest.len() implies #[trigger] rules[i] == rest[i] by {}
        assert(rules[rules.len() - 1] == rules.last());
        if let Some(rule) = longest_rule(rest, name) {
            assert(rules[rest.index_of(rule)] == rule);
        }
    }
}

proof fn lemma_rules_in(a: Seq<Seq<char>>, b: Seq<Seq<char>>)
    ensures
        rules_in(a + b) == rules_in(a) + rules_in(b),
    decreases b.len(),
{
    if b.len() == 0 {
        assert(a + b =~= a);
        assert(rules_in(a) + rules_in(b) =~= rules_in(a));
    } else {
        lemma_rules_in(a, b.drop_last());
        assert((a + b).drop_last() =~= a + b.drop_last());
        assert(rules_in(a + b) =~= rules_in(a) + rules_in(b));
    }
}

proof fn lemma_rules_of(a: Seq<char>, b: Seq<char>)
    ensures
        rules_of(a + seq![':'] + b) == rules_of(a) + rules_of(b),
{
    lemma_split_joined(a, b, ':', 0);
    lemma_rules_in(split(a, ':'), split(b, ':'));
}

/// Rules that cannot be read change nothing, wherever they stand in a specification.
pub proof fn law_unreadable_rules_change_nothing(
    before: Seq<char>,
    rule: Seq<char>,
    after: Seq<char>,
)
    requires
        !rule.contains(':'),
        rule_parts(rule) is None,
    ensures
        colors_of(before + seq![':'] + rule + seq![':'] + after) == colors_of(
            before + seq![':'] + after,
        ),
        colors_of(before + seq![':'] + rule) == colors_of(before),
        colors_of(rule + seq![':'] + after) == colors_of(after),
{
    lemma_next_sep(rule, ':', 0);
    assert(next_sep(rule, ':', 0) == rule.len()) by {
        if next_sep(rule, ':', 0) < rule.len() {
            assert(rule.contains(rule[next_sep(rule, ':', 0)]));
        }
    }
    assert(rule.subrange(0, rule.len() as int) =~= rule);
    assert(split(rule, ':') == seq![rule]);
    reveal_with_fuel(rules_in, 2);
    assert(seq![rule].drop_last() =~= Seq::empty());
    assert(rules_of(rule) =~= Seq::empty());
    lemma_rules_of(before, rule);
    lemma_rules_of(rule, after);
    lemma_rules_of(before, after);
    lemma_rules_of(before + seq![':'] + rule, after);
    assert(rules_of(before) + rules_of(rule) =~= rules_of(before));
    assert(rules_of(rule) + rules_of(after) =~= rules_of(after));
}

proof fn lemma_last_rule_without(rules: Seq<RuleView>, i: int, key: Seq<char>)
    requires
        0 <= i < rules.len(),
        rules[i].key != key,
    ensures
        last_rule(rules.remove(i), key) == last_rule(rules, key),
    decreases rules.len(),
{
    if i == rules.len() - 1 {
        assert(rules.remove(i) =~= rules.drop_last());
    } else {
        assert(rules.remove(i).drop_last() =~= rules.drop_last().remove(i));
        lemma_last_rule_without(rules.drop_last(), i, key);
    }
}

proof fn lemma_longest_rule_without(rules: Seq<RuleView>, i: int, name: Seq<char>)
    requires
        0 <= i < rules.len(),
        !ends_with(name, rules[i].key) || (longest_rule(rules, name) is Some && longest_rule(
            rules,
            name,
        )->0.key.len() > rules[i].key.len()),
    ensures
        longest_rule(rules.remove(i), name) == longest_rule(rules, name),
    decreases rules.len(),
{
    let rest = rules.drop_last();
    if i == rules.len() - 1 {
        assert(rules.remove(i) =~= rest);
    } else {
        assert(rules.remove(i).drop_last() =~= rest.remove(i));
        assert(rest[i] == rules[i]);
        if !ends_with(name, rules[i].key) || longest_rule(rest, name)->0.key.len()
            > rules[i].key.len() {
            law_the_longest_pattern_wins(rest, name);
            lemma_longest_rule_without(rest, i, name);
        } else {
            law_the_longest_pattern_wins(rest, name);
            lemma_no_longer_without(rest, i, name);
        }
    }
}

/// Without one of the rules the longest is no longer than before.
proof fn lemma_no_longer_without(rules: Seq<RuleView>, i: int, name: Seq<char>)
    requires
        0 <= i < rules.len(),
    ensures
        longest_rule(rules.remove(i), name) matches Some(rule) ==> longest_rule(rules, name) is Some
            && rule.key.len() <= longest_rule(rules, name)->0.key.len(),
{
    law_the_longest_pattern_wins(rules.remove(i), name);
    law_the_longest_pattern_wins(rules, name);
    if let Some(rule) = longest_rule(rules.remove(i), name) {
        let k = rules.remove(i).index_of(rule);
        if k < i {
            assert(rules[k] == rule);
        } else {
            assert(rules[k + 1] == rule);
        }
    }
}

/// Of two rules with the same key the later one counts: without the earlier one, every entry has the
/// style that it had.
pub proof fn law_later_rules_win(
    rules: Seq<RuleView>,
    earlier: int,
    later: int,
    key: Seq<char>,
    name: Seq<char>,
)
    requires
        0 <= earlier < later < rules.len(),
        rules[earlier].key == rules[later].key,
    ensures
        last_rule(rules.remove(earlier), key) == last_rule(rules, key),
        longest_rule(rules.remove(earlier), name) == longest_rule(rules, name),
    decreases rules.len(),
{
    let rest = rules.drop_last();
    assert(rules.remove(earlier).drop_last() =~= rest.remove(earlier));
    assert(rest[earlier] == rules[earlier]);
    if later < rules.len() - 1 {
        assert(rest[later] == rules[later]);
        law_later_rules_win(rest, earlier, later, key, name);
    } else {
        if rules[later].key != key {
            lemma_last_rule_without(rest, earlier, key);
        }
        law_the_longest_pattern_wins(rest, name);
        if !ends_with(name, rules[later].key) || longest_rule(rest, name)->0.key.len()
            > rules[later].key.len() {
            lemma_longest_rule_without(rest, earlier, name);
        } else {
            lemma_no_longer_without(rest, earlier, name);
        }
    }
}

/// A style from a specification sets no background, and of the modifiers only the ones that compose
/// with the rows: it takes none away, and nothing is hidden, reversed or blinking.
pub proof fn law_styles_compose_with_the_rows(style: Style, codes: Seq<Option<u8>>)
    requires
        style.bg is None,
        style.sub_modifier == Modifier::none(),
        !style.add_modifier.hidden,
        !style.add_modifier.reversed,
        !style.add_modifier.slow_blink,
        !style.add_modifier.rapid_blink,
    ensures
        after_codes(style, codes).bg is None,
        after_codes(style, codes).sub_modifier == Modifier::none(),
        !after_codes(style, codes).add_modifier.hidden,
        !after_codes(style, codes).add_modifier.reversed,
        !after_codes(style, codes).add_modifier.slow_blink,
        !after_codes(style, codes).add_modifier.rapid_blink,
    decreases codes.len(),
{
    if codes.len() > 0 {
        let (next, read) = after_code(style, codes);
        if 0 < read <= codes.len() {
            law_styles_compose_with_the_rows(next, codes.skip(read));
        }
    }
}

/// Every type of entry has its own key.
pub proof fn law_types_have_their_own_keys()
    ensures
        EntryType::Directory.key_text() == "di"@,
        EntryType::File.key_text() == "fi"@,
        EntryType::Executable.key_text() == "ex"@,
        EntryType::Link.key_text() == "ln"@,
        EntryType::Orphan.key_text() == "or"@,
        EntryType::Fifo.key_text() == "pi"@,
        EntryType::Socket.key_text() == "so"@,
        EntryType::BlockDevice.key_text() == "bd"@,
        EntryType::CharDevice.key_text() == "cd"@,
{
}

/// Single codes set what they stand for, leave the rest as it is, and take nothing more than
/// themselves: 0 forgets all, 1, 2, 3 and 9 make text bold, dim, italic and crossed out, 4
/// underlines it, and 30 to 37, 90 to 97 and 39 choose one of the dark colors, one of the bright
/// ones, or none.
pub proof fn law_codes_set_what_they_stand_for(style: Style, codes: Seq<Option<u8>>, code: u8)
    requires
        codes.len() > 0,
        codes[0] == Some(code),
        code != 38 && code != 48,
    ensures
        after_code(style, codes).1 == 1,
        ({
            let then = after_code(style, codes).0;
            &&& code == 0 ==> then == Style::plain()
            &&& code == 1 ==> then.add_modifier.bold && then.fg == style.fg
                && then.add_modifier.italic == style.add_modifier.italic
            &&& code == 2 ==> then.add_modifier.dim && then.fg == style.fg && then.add_modifier.bold
                == style.add_modifier.bold
            &&& code == 3 ==> then.add_modifier.italic && then.fg == style.fg
                && then.add_modifier.bold == style.add_modifier.bold
            &&& code == 4 ==> then.underline_style == Some(UnderlineStyle::Line) && then.fg
                == style.fg
            &&& code == 9 ==> then.add_modifier.crossed_out && then.fg == style.fg
                && then.add_modifier.bold == style.add_modifier.bold
            &&& 30 <= code <= 37 ==> (then.fg matches Some(Color::Indexed(index)) && index == code
                - 30)
            &&& 90 <= code <= 97 ==> (then.fg matches Some(Color::Indexed(index)) && index == code
                - 90 + 8)
            &&& code == 39 ==> then.fg is None && then.add_modifier == style.add_modifier
            &&& !(code == 0 || code == 1 || code == 2 || code == 3 || code == 4 || code == 9 || code
                == 39 || 30 <= code <= 37 || 90 <= code <= 97) ==> then == style
        }),
{
}

/// After 38 the color is the one of an index that follows a 5, or the one of red, green and blue that
/// follow a 2. After 48 the same codes are read, but set nothing, as rows have backgrounds of their
/// own.
pub proof fn law_extended_codes_choose_any_color(
    style: Style,
    codes: Seq<Option<u8>>,
    index: u8,
    red: u8,
    green: u8,
    blue: u8,
)
    ensures
        codes.len() >= 3 && codes[0] == Some(38u8) && codes[1] == Some(5u8) && codes[2] == Some(
            index,
        ) ==> after_code(style, codes) == (
            Style { fg: Some(Color::Indexed(index)), ..style },
            3int,
        ),
        codes.len() >= 3 && codes[0] == Some(48u8) && codes[1] == Some(5u8) && codes[2] == Some(
            index,
        ) ==> after_code(style, codes) == (style, 3int),
        codes.len() >= 5 && codes[0] == Some(38u8) && codes[1] == Some(2u8) && codes[2] == Some(red)
            && codes[3] == Some(green) && codes[4] == Some(blue) ==> after_code(style, codes) == (
            Style { fg: Some(Color::Rgb(red, green, blue)), ..style },
            5int,
        ),
        codes.len() >= 5 && codes[0] == Some(48u8) && codes[1] == Some(2u8) && codes[2] == Some(red)
            && codes[3] == Some(green) && codes[4] == Some(blue) ==> after_code(style, codes) == (
            style,
            5int,
        ),
{
    if codes.len() >= 3 {
        let rest = codes.skip(1);
        assert(rest[0] == codes[1] && rest[1] == codes[2]);
        if codes.len() >= 5 {
            assert(rest[2] == codes[3] && rest[3] == codes[4]);
        }
    }
}

impl LsColorsView {
    /// An entry has the style of the last rule for its type. A file has that of a pattern for its
    /// name before that, and a file that can be executed after the one for those. A link that leads
    /// nowhere falls back to the rule for links, and with `ln=target` a link goes by what it leads
    /// to.
    pub proof fn law_rules_are_tried_in_order(self, name: Seq<char>, target: EntryType)
        requires
            target is File || target is Directory,
        ensures
            self.style(name, EntryType::Directory, None) == last_rule(self.types, "di"@),
            self.style(name, EntryType::Fifo, None) == last_rule(self.types, "pi"@),
            self.style(name, EntryType::Socket, None) == last_rule(self.types, "so"@),
            self.style(name, EntryType::BlockDevice, None) == last_rule(self.types, "bd"@),
            self.style(name, EntryType::CharDevice, None) == last_rule(self.types, "cd"@),
            longest_rule(self.patterns, name) matches Some(rule) ==> self.style(
                name,
                EntryType::File,
                None,
            ) == Some(rule.style),
            longest_rule(self.patterns, name) is None ==> self.style(name, EntryType::File, None)
                == last_rule(self.types, "fi"@),
            last_rule(self.types, "ex"@) matches Some(style) ==> self.style(
                name,
                EntryType::Executable,
                None,
            ) == Some(style),
            last_rule(self.types, "ex"@) is None ==> self.style(name, EntryType::Executable, None)
                == self.style(name, EntryType::File, None),
            last_rule(self.types, "or"@) matches Some(style) ==> self.style(
                name,
                EntryType::Orphan,
                None,
            ) == Some(style),
            last_rule(self.types, "or"@) is None ==> self.style(name, EntryType::Orphan, None)
                == last_rule(self.types, "ln"@),
            self.links_as_target ==> self.style(name, EntryType::Link, Some(target)) == self.style(
                name,
                target,
                None,
            ),
            !self.links_as_target ==> self.style(name, EntryType::Link, Some(target)) == last_rule(
                self.types,
                "ln"@,
            ),
    {
    }
}

/// The style of the last rule with a key counts.
pub proof fn law_the_last_rule_counts(rules: Seq<RuleView>, key: Seq<char>)
    ensures
        match last_rule(rules, key) {
            Some(style) => exists|i: int|
                0 <= i < rules.len() && (#[trigger] rules[i]).key == key && rules[i].style == style
                    && forall|k: int| i < k < rules.len() ==> (#[trigger] rules[k]).key != key,
            None => forall|k: int| 0 <= k < rules.len() ==> (#[trigger] rules[k]).key != key,
        },
    decreases rules.len(),
{
    if rules.len() > 0 {
        let rest = rules.drop_last();
        assert forall|i: int| 0 <= i < rest.len() implies rest[i] == #[trigger] rules[i] by {}
        assert(rules[rules.len() - 1] == rules.last());
        if rules.last().key != key {
            law_the_last_rule_counts(rest, key);
            if let Some(style) = last_rule(rest, key) {
                let i = choose|i: int|
                    0 <= i < rest.len() && (#[trigger] rest[i]).key == key && rest[i].style == style
                        && forall|k: int| i < k < rest.len() ==> (#[trigger] rest[k]).key != key;
                assert(rules[i] == rest[i]);
                assert forall|k: int| i < k < rules.len() implies (#[trigger] rules[k]).key
                    != key by {
                    if k < rest.len() {
                        assert(rest[k] == rules[k]);
                    }
                }
            }
        }
    }
}

/// A rule is a key, an equals sign and codes, with white space around: the key is what is in front of
/// the first equals sign, and is not empty.
pub proof fn law_rules_are_keys_and_codes(key: Seq<char>, value: Seq<char>)
    requires
        key.len() > 0,
        !key.contains('='),
        trimmed(key + seq!['='] + value) == key + seq!['='] + value,
    ensures
        rule_parts(key + seq!['='] + value) == Some((key, value)),
{
    let text = key + seq!['='] + value;
    lemma_next_sep(text, '=', 0);
    let at = next_sep(text, '=', 0);
    assert(text[key.len() as int] == '=');
    if at < key.len() {
        assert(key[at] == '=');
    }
    assert(text.take(key.len() as int) =~= key);
    assert(text.skip(key.len() as int + 1) =~= value);
}

/// Two specifications of colors are read one after the other, so that the second one counts where
/// both have a rule. One that is not set, or blank, does not count.
pub proof fn law_specifications_are_read_in_order(first: &str, second: &str)
    ensures
        trimmed(first@).len() > 0 && trimmed(second@).len() > 0 ==> joined_specs(
            Some(first),
            Some(second),
        ) == Some(first@ + seq![':'] + second@),
        trimmed(first@).len() > 0 ==> joined_specs(Some(first), None) == Some(first@),
        trimmed(second@).len() > 0 ==> joined_specs(None, Some(second)) == Some(second@),
        trimmed(first@).len() == 0 && trimmed(second@).len() > 0 ==> joined_specs(
            Some(first),
            Some(second),
        ) == Some(second@),
        trimmed(first@).len() > 0 && trimmed(second@).len() == 0 ==> joined_specs(
            Some(first),
            Some(second),
        ) == Some(first@),
        trimmed(first@).len() == 0 && trimmed(second@).len() == 0 ==> joined_specs(
            Some(first),
            Some(second),
        ) is None,
        joined_specs(None, None) is None,
{
}

/// Codes are decimal numbers of a byte, with a plus sign in front at most.
pub proof fn law_codes_are_decimal(n: u8)
    ensures
        byte_of_text(decimal(n as nat)) == Some(n),
{
    lemma_number_of_decimal(n as nat);
    law_numbers_are_written(n as nat);
    assert('0' <= decimal(n as nat)[0] <= '9');
}

proof fn lemma_number_of_decimal(n: nat)
    ensures
        number_of(decimal(n)) == Some(n as int),
    decreases n,
{
    let digit = (n % 10) as int;
    let last = digit_char(digit);
    assert(last as u32 == '0' as u32 + digit);
    reveal_with_fuel(number_of, 2);
    if n < 10 {
        assert(decimal(n).drop_last() =~= Seq::<char>::empty());
    } else {
        lemma_number_of_decimal(n / 10);
        assert(decimal(n).drop_last() =~= decimal(n / 10));
    }
}

/// A rule with a key that starts with a star is one for names that end with the rest of it, and any
/// other rule is one for a type of entries. The rule `ln=target` is neither. The last rule that is
/// read comes last.
pub proof fn law_rules_are_for_types_or_for_names(
    rules: Seq<(Seq<char>, Seq<char>)>,
    key: Seq<char>,
    value: Seq<char>,
)
    requires
        key.len() > 0,
    ensures
        ({
            let (types, patterns) = (type_rules(rules), pattern_rules(rules));
            let all = rules.push((key, value));
            let target = key == "ln"@ && value == "target"@;
            let rule = RuleView { key, style: style_of(value) };
            let pattern = RuleView { key: key.skip(1), style: style_of(value) };
            &&& target ==> type_rules(all) == types && pattern_rules(all) == patterns
            &&& !target && key[0] != '*' ==> type_rules(all) == types.push(rule) && pattern_rules(
                all,
            ) == patterns
            &&& key[0] == '*' && key.len() > 1 && !target ==> type_rules(all) == types
                && pattern_rules(all) == patterns.push(pattern)
            &&& key[0] == '*' && key.len() == 1 && !target ==> type_rules(all) == types
                && pattern_rules(all) == patterns
        }),
{
    assert(rules.push((key, value)).drop_last() =~= rules);
}

/// Rules are read one after another, and those that cannot be read are left out.
pub proof fn law_rules_are_read_one_after_another(rules: Seq<Seq<char>>, rule: Seq<char>)
    ensures
        rule_parts(rule) is None ==> rules_in(rules.push(rule)) == rules_in(rules),
        rule_parts(rule) matches Some(parts) ==> rules_in(rules.push(rule)) == rules_in(rules).push(
            parts,
        ),
{
    assert(rules.push(rule).drop_last() =~= rules);
}

/// Links go by what they lead to exactly if one of the rules is `ln=target`.
pub proof fn law_links_go_by_their_target_if_asked(spec_text: Seq<char>)
    ensures
        colors_of(spec_text).links_as_target <==> rules_of(spec_text).contains(
            ("ln"@, "target"@),
        ),
        colors_of(spec_text).types == type_rules(rules_of(spec_text)),
        colors_of(spec_text).patterns == pattern_rules(rules_of(spec_text)),
{
    let rules = rules_of(spec_text);
    let rule = ("ln"@, "target"@);
    if rules.contains(rule) {
        assert(is_target_rule(rules[rules.index_of(rule)]));
    }
    if exists|i: int| 0 <= i < rules.len() && is_target_rule(#[trigger] rules[i]) {
        let i = choose|i: int| 0 <= i < rules.len() && is_target_rule(#[trigger] rules[i]);
        assert(rules[i] == rule);
    }
}

/// Codes are applied one after another: what one code leaves is what the next one goes on from.
pub proof fn law_codes_are_applied_in_order(style: Style, codes: Seq<Option<u8>>, code: u8)
    requires
        codes.len() > 0,
        codes[0] == Some(code),
        code != 38 && code != 48,
    ensures
        after_codes(style, codes) == after_codes(after_code(style, codes).0, codes.skip(1)),
        after_codes(style, Seq::empty()) == style,
{
    law_codes_set_what_they_stand_for(style, codes, code);
}

/// A name ends with a suffix exactly if it is something followed by it.
pub proof fn law_names_end_with_their_suffixes(front: Seq<char>, name: Seq<char>, suffix: Seq<char>)
    ensures
        ends_with(front + suffix, suffix),
        ends_with(name, suffix) ==> name == name.take(name.len() - suffix.len()) + suffix,
{
    assert((front + suffix).skip(front.len() as int) =~= suffix);
    if ends_with(name, suffix) {
        assert(name =~= name.take(name.len() - suffix.len()) + suffix);
    }
}

/// Codes are separated by semicolons, with white space around them.
pub proof fn law_codes_are_separated_by_semicolons(code: Seq<char>, rest: Seq<char>)
    requires
        !code.contains(';'),
    ensures
        codes_of(code) == seq![byte_of_text(trimmed(code))],
        codes_of(code + seq![';'] + rest) == seq![byte_of_text(trimmed(code))] + codes_of(rest),
{
    crate::chars::law_texts_are_split_at_separators(code, rest, ';');
    assert(codes_of(code) =~= seq![byte_of_text(trimmed(code))]);
    assert(codes_of(code + seq![';'] + rest) =~= seq![byte_of_text(trimmed(code))] + codes_of(rest));
}

proof fn lemma_numbers_have_digits(digits: Seq<char>)
    ensures
        number_of(digits) is Some ==> forall|i: int|
            0 <= i < digits.len() ==> '0' <= #[trigger] digits[i] <= '9',
    decreases digits.len(),
{
    if digits.len() > 0 && number_of(digits) is Some {
        let rest = digits.drop_last();
        lemma_numbers_have_digits(rest);
        assert forall|i: int| 0 <= i < digits.len() implies '0' <= #[trigger] digits[i] <= '9' by {
            if i < rest.len() {
                assert(rest[i] == digits[i]);
            }
        }
    }
}

/// What is no number is no code: nothing at all, and a text with anything but digits in it, after a
/// plus sign at its start.
pub proof fn law_other_texts_are_no_codes(text: Seq<char>, i: int)
    ensures
        text.len() == 0 ==> byte_of_text(text) is None,
        text == seq!['+'] ==> byte_of_text(text) is None,
        0 < i < text.len() && !('0' <= text[i] <= '9') ==> byte_of_text(text) is None,
        text.len() > 0 && text[0] != '+' && !('0' <= text[0] <= '9') ==> byte_of_text(text) is None,
{
    if text.len() > 0 {
        if text[0] == '+' {
            let digits = text.skip(1);
            lemma_numbers_have_digits(digits);
            if 0 < i < text.len() {
                assert(digits[i - 1] == text[i]);
            }
        } else {
            lemma_numbers_have_digits(text);
        }
    }
}

} // verus!
