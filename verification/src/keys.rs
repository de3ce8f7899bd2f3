//! The keys of a focused file tree. The one table below drives both the key handling and the
//! `?` help, so the two cannot disagree.

use crate::chars::{chars_of_str, copy_str, string_of};
use vstd::prelude::*;

verus! {

/// A key without its modifiers.
#[derive(Clone, Copy, Debug, PartialEq, Eq, Structural)]
pub enum KeyCode {
    Char(char),
    Backspace,
    Enter,
    Left,
    Right,
    Up,
    Down,
    Home,
    End,
    PageUp,
    PageDown,
    Tab,
    Delete,
    Insert,
    Esc,
}

/// A key that was pressed.
#[derive(Clone, Copy, Debug, PartialEq, Eq, Structural)]
pub struct KeyEvent {
    pub code: KeyCode,
    pub shift: bool,
    pub alt: bool,
    pub control: bool,
}

impl KeyEvent {
    /// The key `code` without modifiers.
    pub open spec fn plain_key(code: KeyCode) -> KeyEvent {
        KeyEvent { code, shift: false, alt: false, control: false }
    }

    /// The key of `c` with control held.
    pub open spec fn control_key(c: char) -> KeyEvent {
        KeyEvent { code: KeyCode::Char(c), shift: false, alt: false, control: true }
    }

    /// The key `code` without modifiers.
    pub fn plain(code: KeyCode) -> (key: KeyEvent)
        ensures
            key == KeyEvent::plain_key(code),
    {
        KeyEvent { code, shift: false, alt: false, control: false }
    }

    /// The key of `c` with control held.
    pub fn control(c: char) -> (key: KeyEvent)
        ensures
            key == KeyEvent::control_key(c),
    {
        KeyEvent { code: KeyCode::Char(c), shift: false, alt: false, control: true }
    }
}

#[derive(Clone, Copy, Debug, PartialEq, Eq, Structural)]
pub enum Action {
    Down,
    Up,
    Expand,
    Collapse,
    HalfPageDown,
    HalfPageUp,
    PageDown,
    PageUp,
    First,
    Last,
    AlignCenter,
    AlignTop,
    AlignBottom,
    Open,
    OpenHorizontal,
    OpenVertical,
    OpenExternally,
    Rename,
    MoveInWorkspace,
    Move,
    NewFile,
    NewDirectory,
    Delete,
    Search,
    NextMatch,
    PreviousMatch,
    Grow,
    Shrink,
    Fit,
    Help,
    Unfocus,
}

impl Action {
    /// What the help says of the action.
    pub open spec fn doc_text(self) -> Seq<char> {
        match self {
            Action::Down => "Move down"@,
            Action::Up => "Move up"@,
            Action::Expand => "Expand directory"@,
            Action::Collapse => "Collapse directory"@,
            Action::HalfPageDown => "Move half a page down"@,
            Action::HalfPageUp => "Move half a page up"@,
            Action::PageDown => "Move a page down"@,
            Action::PageUp => "Move a page up"@,
            Action::First => "Go to the first row"@,
            Action::Last => "Go to the last row"@,
            Action::AlignCenter => "Align the cursor row to the center"@,
            Action::AlignTop => "Align the cursor row to the top"@,
            Action::AlignBottom => "Align the cursor row to the bottom"@,
            Action::Open => "Open file or expand/collapse directory"@,
            Action::OpenHorizontal => "Open file in a horizontal split"@,
            Action::OpenVertical => "Open file in a vertical split"@,
            Action::OpenExternally => "Open in the default application"@,
            Action::Rename => "Rename"@,
            Action::MoveInWorkspace => "Move to a path in the workspace"@,
            Action::Move => "Move to a full path"@,
            Action::NewFile => "New file"@,
            Action::NewDirectory => "New directory"@,
            Action::Delete => "Delete for good"@,
            Action::Search => "Search for a file"@,
            Action::NextMatch => "Go to the next match"@,
            Action::PreviousMatch => "Go to the previous match"@,
            Action::Grow => "Widen the file tree"@,
            Action::Shrink => "Narrow the file tree"@,
            Action::Fit => "Fit the width to the widest row"@,
            Action::Help => "Show these keys"@,
            Action::Unfocus => "Return focus to the editor"@,
        }
    }

    fn doc(self) -> (doc: &'static str)
        ensures
            doc@ == self.doc_text(),
    {
        match self {
            Action::Down => "Move down",
            Action::Up => "Move up",
            Action::Expand => "Expand directory",
            Action::Collapse => "Collapse directory",
            Action::HalfPageDown => "Move half a page down",
            Action::HalfPageUp => "Move half a page up",
            Action::PageDown => "Move a page down",
            Action::PageUp => "Move a page up",
            Action::First => "Go to the first row",
            Action::Last => "Go to the last row",
            Action::AlignCenter => "Align the cursor row to the center",
            Action::AlignTop => "Align the cursor row to the top",
            Action::AlignBottom => "Align the cursor row to the bottom",
            Action::Open => "Open file or expand/collapse directory",
            Action::OpenHorizontal => "Open file in a horizontal split",
            Action::OpenVertical => "Open file in a vertical split",
            Action::OpenExternally => "Open in the default application",
            Action::Rename => "Rename",
            Action::MoveInWorkspace => "Move to a path in the workspace",
            Action::Move => "Move to a full path",
            Action::NewFile => "New file",
            Action::NewDirectory => "New directory",
            Action::Delete => "Delete for good",
            Action::Search => "Search for a file",
            Action::NextMatch => "Go to the next match",
            Action::PreviousMatch => "Go to the previous match",
            Action::Grow => "Widen the file tree",
            Action::Shrink => "Narrow the file tree",
            Action::Fit => "Fit the width to the widest row",
            Action::Help => "Show these keys",
            Action::Unfocus => "Return focus to the editor",
        }
    }
}

/// The key of a char.
pub open spec fn char_key(c: char) -> KeyEvent {
    KeyEvent::plain_key(KeyCode::Char(c))
}

/// Key sequences and the action that they trigger.
pub ghost struct BindingView {
    pub keys: Seq<Seq<KeyEvent>>,
    pub action: Action,
}

/// A binding of one key.
pub open spec fn by_key(key: KeyEvent, action: Action) -> BindingView {
    BindingView { keys: seq![seq![key]], action }
}

/// A binding of two keys that do the same.
pub open spec fn by_either(a: KeyEvent, b: KeyEvent, action: Action) -> BindingView {
    BindingView { keys: seq![seq![a], seq![b]], action }
}

/// A binding of a char after another, and of another key that does the same.
pub open spec fn by_chars_or(a: char, b: char, other: KeyEvent, action: Action) -> BindingView {
    BindingView { keys: seq![seq![char_key(a), char_key(b)], seq![other]], action }
}

/// A binding of a char after another.
pub open spec fn by_chars(a: char, b: char, action: Action) -> BindingView {
    BindingView { keys: seq![seq![char_key(a), char_key(b)]], action }
}

/// What the keys of the tree do.
pub open spec fn bound() -> Seq<BindingView> {
    seq![
        by_either(char_key('j'), KeyEvent::plain_key(KeyCode::Down), Action::Down),
        by_either(char_key('k'), KeyEvent::plain_key(KeyCode::Up), Action::Up),
        by_either(char_key('l'), KeyEvent::plain_key(KeyCode::Right), Action::Expand),
        by_either(char_key('h'), KeyEvent::plain_key(KeyCode::Left), Action::Collapse),
        by_key(KeyEvent::control_key('d'), Action::HalfPageDown),
        by_key(KeyEvent::control_key('u'), Action::HalfPageUp),
        by_key(KeyEvent::plain_key(KeyCode::PageDown), Action::PageDown),
        by_key(KeyEvent::plain_key(KeyCode::PageUp), Action::PageUp),
        by_chars_or('g', 'g', KeyEvent::plain_key(KeyCode::Home), Action::First),
        by_chars_or('g', 'e', KeyEvent::plain_key(KeyCode::End), Action::Last),
        BindingView {
            keys: seq![seq![char_key('z'), char_key('z')], seq![char_key('z'), char_key('c')]],
            action: Action::AlignCenter,
        },
        by_chars('z', 't', Action::AlignTop),
        by_chars('z', 'b', Action::AlignBottom),
        by_key(KeyEvent::plain_key(KeyCode::Enter), Action::Open),
        by_key(KeyEvent::control_key('s'), Action::OpenHorizontal),
        by_key(KeyEvent::control_key('v'), Action::OpenVertical),
        by_key(char_key('o'), Action::OpenExternally),
        by_key(char_key('r'), Action::Rename),
        by_key(char_key('R'), Action::MoveInWorkspace),
        by_key(KeyEvent::control_key('r'), Action::Move),
        by_key(char_key('a'), Action::NewFile),
        by_key(char_key('A'), Action::NewDirectory),
        by_key(char_key('d'), Action::Delete),
        by_key(char_key('/'), Action::Search),
        by_key(char_key('n'), Action::NextMatch),
        by_key(char_key('N'), Action::PreviousMatch),
        by_key(char_key('+'), Action::Grow),
        by_key(char_key('-'), Action::Shrink),
        by_key(char_key('='), Action::Fit),
        by_key(char_key('?'), Action::Help),
        by_key(KeyEvent::plain_key(KeyCode::Esc), Action::Unfocus),
    ]
}

/// Key sequences that trigger `action`, each one or two keys long.
#[derive(Debug)]
pub struct Binding {
    pub keys: Vec<Vec<KeyEvent>>,
    pub action: Action,
}

/// The key sequences in a list.
pub open spec fn sequences(keys: Seq<Vec<KeyEvent>>) -> Seq<Seq<KeyEvent>> {
    keys.map_values(|sequence: Vec<KeyEvent>| sequence@)
}

impl Binding {
    pub open spec fn view(&self) -> BindingView {
        BindingView { keys: sequences(self.keys@), action: self.action }
    }
}

/// The bindings in a list.
pub open spec fn binding_views(bindings: Seq<Binding>) -> Seq<BindingView> {
    bindings.map_values(|binding: Binding| binding@)
}

fn one_key(key: KeyEvent) -> (keys: Vec<KeyEvent>)
    ensures
        keys@ == seq![key],
{
    let mut keys: Vec<KeyEvent> = Vec::new();
    keys.push(key);
    assert(keys@ =~= seq![key]);
    keys
}

fn two_chars(a: char, b: char) -> (keys: Vec<KeyEvent>)
    ensures
        keys@ == seq![char_key(a), char_key(b)],
{
    let mut keys: Vec<KeyEvent> = Vec::new();
    keys.push(KeyEvent::plain(KeyCode::Char(a)));
    keys.push(KeyEvent::plain(KeyCode::Char(b)));
    assert(keys@ =~= seq![char_key(a), char_key(b)]);
    keys
}

fn bind(table: &mut Vec<Binding>, keys: Vec<KeyEvent>, action: Action)
    ensures
        binding_views(final(table)@) == binding_views(old(table)@).push(
            BindingView { keys: seq![keys@], action },
        ),
{
    let mut all: Vec<Vec<KeyEvent>> = Vec::new();
    let ghost sequence = keys@;
    all.push(keys);
    assert(sequences(all@) =~= seq![sequence]);
    table.push(Binding { keys: all, action });
    assert(binding_views(table@) =~= binding_views(old(table)@).push(
        BindingView { keys: seq![sequence], action },
    ));
}

fn bind_both(table: &mut Vec<Binding>, a: Vec<KeyEvent>, b: Vec<KeyEvent>, action: Action)
    ensures
        binding_views(final(table)@) == binding_views(old(table)@).push(
            BindingView { keys: seq![a@, b@], action },
        ),
{
    let mut all: Vec<Vec<KeyEvent>> = Vec::new();
    let ghost first = a@;
    let ghost second = b@;
    all.push(a);
    all.push(b);
    assert(sequences(all@) =~= seq![first, second]);
    table.push(Binding { keys: all, action });
    assert(binding_views(table@) =~= binding_views(old(table)@).push(
        BindingView { keys: seq![first, second], action },
    ));
}

/// What the keys of the tree do.
pub fn bindings() -> (table: Vec<Binding>)
    ensures
        binding_views(table@) == bound(),
{
    let mut t: Vec<Binding> = Vec::new();
    assert(binding_views(t@) =~= Seq::<BindingView>::empty());
    bind_both(
        &mut t,
        one_key(KeyEvent::plain(KeyCode::Char('j'))),
        one_key(KeyEvent::plain(KeyCode::Down)),
        Action::Down,
    );
    bind_both(
        &mut t,
        one_key(KeyEvent::plain(KeyCode::Char('k'))),
        one_key(KeyEvent::plain(KeyCode::Up)),
        Action::Up,
    );
    bind_both(
        &mut t,
        one_key(KeyEvent::plain(KeyCode::Char('l'))),
        one_key(KeyEvent::plain(KeyCode::Right)),
        Action::Expand,
    );
    bind_both(
        &mut t,
        one_key(KeyEvent::plain(KeyCode::Char('h'))),
        one_key(KeyEvent::plain(KeyCode::Left)),
        Action::Collapse,
    );
    bind(&mut t, one_key(KeyEvent::control('d')), Action::HalfPageDown);
    bind(&mut t, one_key(KeyEvent::control('u')), Action::HalfPageUp);
    bind(&mut t, one_key(KeyEvent::plain(KeyCode::PageDown)), Action::PageDown);
    bind(&mut t, one_key(KeyEvent::plain(KeyCode::PageUp)), Action::PageUp);
    bind_both(
        &mut t,
        two_chars('g', 'g'),
        one_key(KeyEvent::plain(KeyCode::Home)),
        Action::First,
    );
    bind_both(&mut t, two_chars('g', 'e'), one_key(KeyEvent::plain(KeyCode::End)), Action::Last);
    bind_both(&mut t, two_chars('z', 'z'), two_chars('z', 'c'), Action::AlignCenter);
    bind(&mut t, two_chars('z', 't'), Action::AlignTop);
    bind(&mut t, two_chars('z', 'b'), Action::AlignBottom);
    bind(&mut t, one_key(KeyEvent::plain(KeyCode::Enter)), Action::Open);
    bind(&mut t, one_key(KeyEvent::control('s')), Action::OpenHorizontal);
    bind(&mut t, one_key(KeyEvent::control('v')), Action::OpenVertical);
    bind(&mut t, one_key(KeyEvent::plain(KeyCode::Char('o'))), Action::OpenExternally);
    bind(&mut t, one_key(KeyEvent::plain(KeyCode::Char('r'))), Action::Rename);
    bind(&mut t, one_key(KeyEvent::plain(KeyCode::Char('R'))), Action::MoveInWorkspace);
    bind(&mut t, one_key(KeyEvent::control('r')), Action::Move);
    bind(&mut t, one_key(KeyEvent::plain(KeyCode::Char('a'))), Action::NewFile);
    bind(&mut t, one_key(KeyEvent::plain(KeyCode::Char('A'))), Action::NewDirectory);
    bind(&mut t, one_key(KeyEvent::plain(KeyCode::Char('d'))), Action::Delete);
    bind(&mut t, one_key(KeyEvent::plain(KeyCode::Char('/'))), Action::Search);
    bind(&mut t, one_key(KeyEvent::plain(KeyCode::Char('n'))), Action::NextMatch);
    bind(&mut t, one_key(KeyEvent::plain(KeyCode::Char('N'))), Action::PreviousMatch);
    bind(&mut t, one_key(KeyEvent::plain(KeyCode::Char('+'))), Action::Grow);
    bind(&mut t, one_key(KeyEvent::plain(KeyCode::Char('-'))), Action::Shrink);
    bind(&mut t, one_key(KeyEvent::plain(KeyCode::Char('='))), Action::Fit);
    bind(&mut t, one_key(KeyEvent::plain(KeyCode::Char('?'))), Action::Help);
    bind(&mut t, one_key(KeyEvent::plain(KeyCode::Esc)), Action::Unfocus);
    assert(binding_views(t@) =~= bound());
    t
}

/// What a key sequence comes to.
#[derive(Clone, Copy, Debug, PartialEq, Eq, Structural)]
pub enum Lookup {
    Action(Action),
    /// The start of a longer sequence.
    Prefix,
    Unbound,
}

/// Whether `keys` starts with `start`.
pub open spec fn continues(keys: Seq<KeyEvent>, start: Seq<KeyEvent>) -> bool {
    start.len() <= keys.len() && keys.take(start.len() as int) == start
}

/// The action of the first binding of `sequence`.
pub open spec fn first_action(table: Seq<BindingView>, sequence: Seq<KeyEvent>) -> Option<Action>
    decreases table.len(),
{
    if table.len() == 0 {
        None
    } else if table[0].keys.contains(sequence) {
        Some(table[0].action)
    } else {
        first_action(table.skip(1), sequence)
    }
}

/// Whether a sequence of the binding starts with `sequence`.
pub open spec fn continued_by(binding: BindingView, sequence: Seq<KeyEvent>) -> bool {
    exists|k: int|
        0 <= k < binding.keys.len() && continues(#[trigger] binding.keys[k], sequence)
}

/// What `sequence` comes to: the action bound to it, else whether it is the start of one.
pub open spec fn looked_up(table: Seq<BindingView>, sequence: Seq<KeyEvent>) -> Lookup {
    match first_action(table, sequence) {
        Some(action) => Lookup::Action(action),
        None => if exists|i: int|
            0 <= i < table.len() && continued_by(#[trigger] table[i], sequence) {
            Lookup::Prefix
        } else {
            Lookup::Unbound
        },
    }
}

proof fn lemma_first_action(table: Seq<BindingView>, sequence: Seq<KeyEvent>, i: int)
    requires
        0 <= i < table.len(),
        table[i].keys.contains(sequence),
        forall|j: int| 0 <= j < i ==> !(#[trigger] table[j]).keys.contains(sequence),
    ensures
        first_action(table, sequence) == Some(table[i].action),
    decreases i,
{
    if i > 0 {
        assert(!table[0].keys.contains(sequence));
        assert forall|j: int| 0 <= j < i - 1 implies !(#[trigger] table.skip(1)[j]).keys.contains(
            sequence,
        ) by {
            assert(table.skip(1)[j] == table[j + 1]);
        }
        lemma_first_action(table.skip(1), sequence, i - 1);
    }
}

proof fn lemma_no_action(table: Seq<BindingView>, sequence: Seq<KeyEvent>)
    requires
        forall|j: int| 0 <= j < table.len() ==> !(#[trigger] table[j]).keys.contains(sequence),
    ensures
        first_action(table, sequence) is None,
    decreases table.len(),
{
    if table.len() > 0 {
        assert(!table[0].keys.contains(sequence));
        assert forall|j: int| 0 <= j < table.len() - 1 implies !(#[trigger] table.skip(
            1,
        )[j]).keys.contains(sequence) by {
            assert(table.skip(1)[j] == table[j + 1]);
        }
        lemma_no_action(table.skip(1), sequence);
    }
}

/// Whether `keys` starts with `start`.
fn starts_with(keys: &Vec<KeyEvent>, start: &[KeyEvent]) -> (starts: bool)
    ensures
        starts == continues(keys@, start@),
{
    if start.len() > keys.len() {
        return false;
    }
    let mut i: usize = 0;
    while i < start.len()
        invariant
            start@.len() <= keys@.len(),
            i <= start@.len(),
            forall|k: int| 0 <= k < i ==> keys@[k] == start@[k],
        decreases start.len() - i,
    {
        if keys[i] != start[i] {
            assert(keys@.take(start@.len() as int)[i as int] != start@[i as int]);
            return false;
        }
        i += 1;
    }
    assert(keys@.take(start@.len() as int) =~= start@);
    true
}

/// What the keys pressed so far come to.
pub fn lookup(sequence: &[KeyEvent]) -> (lookup: Lookup)
    ensures
        lookup == looked_up(bound(), sequence@),
{
    let table: Vec<Binding> = bindings();
    let ghost views = binding_views(table@);
    let mut prefix: bool = false;
    let mut i: usize = 0;
    while i < table.len()
        invariant
            i <= table@.len(),
            views == binding_views(table@),
            views == bound(),
            forall|j: int| 0 <= j < i ==> !(#[trigger] views[j]).keys.contains(sequence@),
            prefix == exists|j: int| 0 <= j < i && continued_by(#[trigger] views[j], sequence@),
        decreases table.len() - i,
    {
        let keys: &Vec<Vec<KeyEvent>> = &table[i].keys;
        let ghost lists = sequences(keys@);
        let ghost earlier = prefix;
        assert(views[i as int].keys == lists);
        let mut k: usize = 0;
        while k < keys.len()
            invariant
                k <= keys@.len(),
                i < table@.len(),
                views == binding_views(table@),
                views == bound(),
                lists == sequences(keys@),
                views[i as int].keys == lists,
                views[i as int].action == table@[i as int].action,
                forall|j: int| 0 <= j < i ==> !(#[trigger] views[j]).keys.contains(sequence@),
                forall|j: int| 0 <= j < k ==> #[trigger] lists[j] != sequence@,
                prefix == (earlier || exists|j: int|
                    0 <= j < k && continues(#[trigger] lists[j], sequence@)),
            decreases keys.len() - k,
        {
            assert(lists[k as int] == keys@[k as int]@);
            if starts_with(&keys[k], sequence) {
                if keys[k].len() == sequence.len() {
                    proof {
                        assert(keys@[k as int]@.take(sequence@.len() as int)
                            =~= keys@[k as int]@);
                        assert(lists[k as int] == sequence@);
                        assert(views[i as int].keys.contains(sequence@));
                        lemma_first_action(views, sequence@, i as int);
                    }
                    return Lookup::Action(table[i].action);
                }
                prefix = true;
                assert(continues(lists[k as int], sequence@));
            }
            assert(lists[k as int] != sequence@) by {
                if lists[k as int] == sequence@ {
                    assert(sequence@.take(sequence@.len() as int) =~= sequence@);
                }
            }
            k += 1;
        }
        proof {
            assert(!views[i as int].keys.contains(sequence@));
            if prefix && !earlier {
                let j = choose|j: int| 0 <= j < k && continues(#[trigger] lists[j], sequence@);
                assert(continues(views[i as int].keys[j], sequence@));
                assert(continued_by(views[i as int], sequence@));
            }
            if continued_by(views[i as int], sequence@) {
                let j = choose|j: int|
                    0 <= j < views[i as int].keys.len() && continues(
                        #[trigger] views[i as int].keys[j],
                        sequence@,
                    );
                assert(continues(lists[j], sequence@));
            }
        }
        i += 1;
    }
    proof {
        lemma_no_action(views, sequence@);
    }
    if prefix {
        Lookup::Prefix
    } else {
        Lookup::Unbound
    }
}

/// The name of a key without its modifiers.
pub open spec fn code_text(code: KeyCode) -> Seq<char> {
    match code {
        KeyCode::Char(c) => if c == ' ' {
            "space"@
        } else if c == '-' {
            "minus"@
        } else if c == '<' {
            "lt"@
        } else if c == '>' {
            "gt"@
        } else {
            seq![c]
        },
        KeyCode::Backspace => "backspace"@,
        KeyCode::Enter => "ret"@,
        KeyCode::Left => "left"@,
        KeyCode::Right => "right"@,
        KeyCode::Up => "up"@,
        KeyCode::Down => "down"@,
        KeyCode::Home => "home"@,
        KeyCode::End => "end"@,
        KeyCode::PageUp => "pageup"@,
        KeyCode::PageDown => "pagedown"@,
        KeyCode::Tab => "tab"@,
        KeyCode::Delete => "del"@,
        KeyCode::Insert => "ins"@,
        KeyCode::Esc => "esc"@,
    }
}

/// The name of a key: its modifiers, then the key.
pub open spec fn key_text(key: KeyEvent) -> Seq<char> {
    (if key.shift {
        "S-"@
    } else {
        Seq::empty()
    }) + (if key.alt {
        "A-"@
    } else {
        Seq::empty()
    }) + (if key.control {
        "C-"@
    } else {
        Seq::empty()
    }) + code_text(key.code)
}

/// The names of keys, one after the other.
pub open spec fn sequence_text(keys: Seq<KeyEvent>) -> Seq<char>
    decreases keys.len(),
{
    if keys.len() == 0 {
        Seq::empty()
    } else {
        sequence_text(keys.drop_last()) + key_text(keys.last())
    }
}

/// What is left of the sequences that continue `prefix`, with commas between them.
pub open spec fn hint_text(keys: Seq<Seq<KeyEvent>>, prefix: Seq<KeyEvent>) -> Seq<char>
    decreases keys.len(),
{
    if keys.len() == 0 {
        Seq::empty()
    } else {
        let earlier = hint_text(keys.drop_last(), prefix);
        let last = keys.last();
        if last.len() > prefix.len() && continues(last, prefix) {
            let text = sequence_text(last.skip(prefix.len() as int));
            if earlier.len() == 0 {
                text
            } else {
                earlier + ", "@ + text
            }
        } else {
            earlier
        }
    }
}

/// The lines of the help for the keys that continue `prefix`: the keys and what they do.
pub open spec fn help_lines(table: Seq<BindingView>, prefix: Seq<KeyEvent>) -> Seq<
    (Seq<char>, Seq<char>),
>
    decreases table.len(),
{
    if table.len() == 0 {
        Seq::empty()
    } else {
        let earlier = help_lines(table.drop_last(), prefix);
        let hint = hint_text(table.last().keys, prefix);
        if hint.len() == 0 {
            earlier
        } else {
            earlier.push((hint, table.last().action.doc_text()))
        }
    }
}

/// The length of the longest of the keys in the help.
pub open spec fn widest_hint(lines: Seq<(Seq<char>, Seq<char>)>) -> nat
    decreases lines.len(),
{
    if lines.len() == 0 {
        0
    } else {
        let earlier = widest_hint(lines.drop_last());
        if lines.last().0.len() > earlier {
            lines.last().0.len()
        } else {
            earlier
        }
    }
}

/// The help as text, with what the keys do in a column of its own.
pub open spec fn help_text(lines: Seq<(Seq<char>, Seq<char>)>, width: nat) -> Seq<char>
    decreases lines.len(),
{
    if lines.len() == 0 {
        Seq::empty()
    } else {
        let (hint, doc) = lines.last();
        help_text(lines.drop_last(), width) + hint + Seq::new(
            (width - hint.len() + 2) as nat,
            |i: int| ' ',
        ) + doc + seq!['\n']
    }
}

/// What the help for the keys that continue `prefix` is called.
pub open spec fn help_title(prefix: Seq<KeyEvent>) -> Seq<char> {
    if prefix.len() == 0 {
        "File tree"@
    } else if prefix == seq![char_key('g')] {
        "Goto"@
    } else if prefix == seq![char_key('z')] {
        "View"@
    } else {
        ""@
    }
}

/// A titled box of help.
#[derive(Debug)]
pub struct Info {
    pub title: String,
    pub text: String,
}

fn push_text(chars: &mut Vec<char>, text: &str)
    ensures
        final(chars)@ == old(chars)@ + text@,
{
    let mut more: Vec<char> = chars_of_str(text);
    chars.append(&mut more);
}

fn push_code(chars: &mut Vec<char>, code: KeyCode)
    ensures
        final(chars)@ == old(chars)@ + code_text(code),
{
    let name: &str = match code {
        KeyCode::Char(c) => {
            if c == ' ' {
                "space"
            } else if c == '-' {
                "minus"
            } else if c == '<' {
                "lt"
            } else if c == '>' {
                "gt"
            } else {
                chars.push(c);
                assert(chars@ =~= old(chars)@ + seq![c]);
                return ;
            }
        },
        KeyCode::Backspace => "backspace",
        KeyCode::Enter => "ret",
        KeyCode::Left => "left",
        KeyCode::Right => "right",
        KeyCode::Up => "up",
        KeyCode::Down => "down",
        KeyCode::Home => "home",
        KeyCode::End => "end",
        KeyCode::PageUp => "pageup",
        KeyCode::PageDown => "pagedown",
        KeyCode::Tab => "tab",
        KeyCode::Delete => "del",
        KeyCode::Insert => "ins",
        KeyCode::Esc => "esc",
    };
    assert(name@ == code_text(code));
    push_text(chars, name);
}

fn push_key(chars: &mut Vec<char>, key: KeyEvent)
    ensures
        final(chars)@ == old(chars)@ + key_text(key),
{
    let ghost before = chars@;
    let mut name: Vec<char> = Vec::new();
    if key.shift {
        push_text(&mut name, "S-");
    }
    assert(name@ =~= (if key.shift {
        "S-"@
    } else {
        Seq::empty()
    }));
    let ghost shifted = name@;
    if key.alt {
        push_text(&mut name, "A-");
    }
    assert(name@ =~= shifted + (if key.alt {
        "A-"@
    } else {
        Seq::empty()
    }));
    let ghost with_alt = name@;
    if key.control {
        push_text(&mut name, "C-");
    }
    assert(name@ =~= with_alt + (if key.control {
        "C-"@
    } else {
        Seq::empty()
    }));
    push_code(&mut name, key.code);
    assert(name@ == key_text(key));
    chars.append(&mut name);
}

/// The names of the keys from the one at `from` on.
fn sequence(keys: &Vec<KeyEvent>, from: usize) -> (text: Vec<char>)
    requires
        from <= keys@.len(),
    ensures
        text@ == sequence_text(keys@.skip(from as int)),
{
    let ghost rest = keys@.skip(from as int);
    let mut text: Vec<char> = Vec::new();
    let mut i: usize = from;
    while i < keys.len()
        invariant
            from <= i <= keys@.len(),
            rest == keys@.skip(from as int),
            text@ == sequence_text(rest.take(i - from)),
        decreases keys.len() - i,
    {
        push_key(&mut text, keys[i]);
        assert(rest.take(i + 1 - from).drop_last() =~= rest.take(i - from));
        assert(rest.take(i + 1 - from).last() == keys@[i as int]);
        i += 1;
    }
    assert(rest.take(i - from) =~= rest);
    text
}

fn hint(keys: &Vec<Vec<KeyEvent>>, prefix: &[KeyEvent]) -> (text: Vec<char>)
    ensures
        text@ == hint_text(sequences(keys@), prefix@),
{
    let ghost lists = sequences(keys@);
    let mut text: Vec<char> = Vec::new();
    let mut i: usize = 0;
    while i < keys.len()
        invariant
            i <= keys@.len(),
            lists == sequences(keys@),
            text@ == hint_text(lists.take(i as int), prefix@),
        decreases keys.len() - i,
    {
        assert(lists.take(i + 1).drop_last() =~= lists.take(i as int));
        assert(lists.take(i + 1).last() == keys@[i as int]@);
        if keys[i].len() > prefix.len() && starts_with(&keys[i], prefix) {
            let mut next: Vec<char> = sequence(&keys[i], prefix.len());
            if text.len() > 0 {
                push_text(&mut text, ", ");
            }
            text.append(&mut next);
            assert(text@ =~= hint_text(lists.take(i + 1), prefix@));
        }
        i += 1;
    }
    assert(lists.take(i as int) =~= lists);
    text
}

/// The keys of a line of the help, and what they do.
struct Line {
    keys: Vec<char>,
    doc: &'static str,
}

spec fn line_views(lines: Seq<Line>) -> Seq<(Seq<char>, Seq<char>)> {
    lines.map_values(|line: Line| (line.keys@, line.doc@))
}

fn lines(prefix: &[KeyEvent]) -> (lines: Vec<Line>)
    ensures
        line_views(lines@) == help_lines(bound(), prefix@),
{
    let table: Vec<Binding> = bindings();
    let ghost views = binding_views(table@);
    let mut lines: Vec<Line> = Vec::new();
    assert(line_views(lines@) =~= Seq::empty());
    let mut i: usize = 0;
    while i < table.len()
        invariant
            i <= table@.len(),
            views == binding_views(table@),
            line_views(lines@) == help_lines(views.take(i as int), prefix@),
        decreases table.len() - i,
    {
        assert(views.take(i + 1).drop_last() =~= views.take(i as int));
        assert(views.take(i + 1).last() == table@[i as int]@);
        let keys: Vec<char> = hint(&table[i].keys, prefix);
        let ghost before = line_views(lines@);
        let ghost text = keys@;
        if keys.len() > 0 {
            lines.push(Line { keys, doc: table[i].action.doc() });
            assert(line_views(lines@) =~= before.push((text, table@[i as int].action.doc_text())));
        }
        i += 1;
    }
    assert(views.take(i as int) =~= views);
    lines
}

/// The keys of the file tree, or the ones continuing `prefix`, as an infobox.
pub fn info(prefix: &[KeyEvent]) -> (info: Info)
    ensures
        info.title@ == help_title(prefix@),
        info.text@ == help_text(
            help_lines(bound(), prefix@),
            widest_hint(help_lines(bound(), prefix@)),
        ),
{
    let lines: Vec<Line> = lines(prefix);
    let ghost views = line_views(lines@);
    let mut width: usize = 0;
    let mut i: usize = 0;
    while i < lines.len()
        invariant
            i <= lines@.len(),
            views == line_views(lines@),
            width == widest_hint(views.take(i as int)),
        decreases lines.len() - i,
    {
        assert(views.take(i + 1).drop_last() =~= views.take(i as int));
        assert(views.take(i + 1).last() == views[i as int]);
        if lines[i].keys.len() > width {
            width = lines[i].keys.len();
        }
        i += 1;
    }
    assert(views.take(i as int) =~= views);
    let mut text: Vec<char> = Vec::new();
    i = 0;
    while i < lines.len()
        invariant
            i <= lines@.len(),
            views == line_views(lines@),
            width == widest_hint(views),
            text@ == help_text(views.take(i as int), width as nat),
        decreases lines.len() - i,
    {
        proof {
            assert(views.take(i + 1).drop_last() =~= views.take(i as int));
            assert(views.take(i + 1).last() == views[i as int]);
            lemma_widest_hint(views, i as int);
        }
        let ghost before = text@;
        let len: usize = lines[i].keys.len();
        let mut k: usize = 0;
        while k < len
            invariant
                k <= len,
                i < lines@.len(),
                len == lines@[i as int].keys@.len(),
                text@ == before + lines@[i as int].keys@.take(k as int),
            decreases len - k,
        {
            text.push(lines[i].keys[k]);
            k += 1;
            assert(text@ =~= before + lines@[i as int].keys@.take(k as int));
        }
        let ghost hint = lines@[i as int].keys@;
        assert(hint.take(k as int) =~= hint);
        let ghost named = text@;
        let ghost gap = Seq::new((width - len + 2) as nat, |i: int| ' ');
        k = 0;
        while k < width - len
            invariant
                k <= width - len,
                len <= width,
                text@ == named + Seq::new(k as nat, |i: int| ' '),
            decreases width - len - k,
        {
            text.push(' ');
            k += 1;
            assert(text@ =~= named + Seq::new(k as nat, |i: int| ' '));
        }
        text.push(' ');
        text.push(' ');
        assert(text@ =~= named + gap);
        push_text(&mut text, lines[i].doc);
        text.push('\n');
        i += 1;
        assert(text@ =~= help_text(views.take(i as int), width as nat));
    }
    assert(views.take(i as int) =~= views);
    let title: &str = if prefix.len() == 0 {
        "File tree"
    } else if prefix.len() == 1 && prefix[0] == KeyEvent::plain(KeyCode::Char('g')) {
        assert(prefix@ =~= seq![char_key('g')]);
        "Goto"
    } else if prefix.len() == 1 && prefix[0] == KeyEvent::plain(KeyCode::Char('z')) {
        assert(prefix@ =~= seq![char_key('z')]);
        assert(prefix@[0] != seq![char_key('g')][0]);
        "View"
    } else {
        assert(prefix@ != seq![char_key('g')]) by {
            if prefix@ == seq![char_key('g')] {
                assert(prefix@[0] == char_key('g'));
            }
        }
        assert(prefix@ != seq![char_key('z')]) by {
            if prefix@ == seq![char_key('z')] {
                assert(prefix@[0] == char_key('z'));
            }
        }
        ""
    };
    Info { title: copy_str(title), text: string_of(&text) }
}

proof fn lemma_widest_hint(lines: Seq<(Seq<char>, Seq<char>)>, i: int)
    requires
        0 <= i < lines.len(),
    ensures
        lines[i].0.len() <= widest_hint(lines),
    decreases lines.len(),
{
    if i < lines.len() - 1 {
        lemma_widest_hint(lines.drop_last(), i);
    }
}

/// Whether `sequence` is one key, with control held or without modifiers.
pub open spec fn is_key(sequence: Seq<KeyEvent>, code: KeyCode, control: bool) -> bool {
    &&& sequence.len() == 1
    &&& sequence[0].code == code
    &&& sequence[0].control == control
    &&& !sequence[0].shift
    &&& !sequence[0].alt
}

/// Whether `sequence` is two chars, without modifiers.
pub open spec fn are_chars(sequence: Seq<KeyEvent>, first: char, second: char) -> bool {
    &&& sequence.len() == 2
    &&& sequence[0].code == KeyCode::Char(first)
    &&& sequence[1].code == KeyCode::Char(second)
    &&& !sequence[0].control && !sequence[0].shift && !sequence[0].alt
    &&& !sequence[1].control && !sequence[1].shift && !sequence[1].alt
}

/// What a sequence is bound to as the action it is for.
spec fn meant(sequence: Seq<KeyEvent>) -> Option<Action> {
    if is_key(sequence, KeyCode::Char('j'), false) || is_key(sequence, KeyCode::Down, false) {
        Some(Action::Down)
    } else if is_key(sequence, KeyCode::Char('k'), false) || is_key(sequence, KeyCode::Up, false) {
        Some(Action::Up)
    } else if is_key(sequence, KeyCode::Char('l'), false) || is_key(sequence, KeyCode::Right, false) {
        Some(Action::Expand)
    } else if is_key(sequence, KeyCode::Char('h'), false) || is_key(sequence, KeyCode::Left, false) {
        Some(Action::Collapse)
    } else if is_key(sequence, KeyCode::Char('d'), true) {
        Some(Action::HalfPageDown)
    } else if is_key(sequence, KeyCode::Char('u'), true) {
        Some(Action::HalfPageUp)
    } else if is_key(sequence, KeyCode::PageDown, false) {
        Some(Action::PageDown)
    } else if is_key(sequence, KeyCode::PageUp, false) {
        Some(Action::PageUp)
    } else if are_chars(sequence, 'g', 'g') || is_key(sequence, KeyCode::Home, false) {
        Some(Action::First)
    } else if are_chars(sequence, 'g', 'e') || is_key(sequence, KeyCode::End, false) {
        Some(Action::Last)
    } else if are_chars(sequence, 'z', 'z') || are_chars(sequence, 'z', 'c') {
        Some(Action::AlignCenter)
    } else if are_chars(sequence, 'z', 't') {
        Some(Action::AlignTop)
    } else if are_chars(sequence, 'z', 'b') {
        Some(Action::AlignBottom)
    } else if is_key(sequence, KeyCode::Enter, false) {
        Some(Action::Open)
    } else if is_key(sequence, KeyCode::Char('s'), true) {
        Some(Action::OpenHorizontal)
    } else if is_key(sequence, KeyCode::Char('v'), true) {
        Some(Action::OpenVertical)
    } else if is_key(sequence, KeyCode::Char('o'), false) {
        Some(Action::OpenExternally)
    } else if is_key(sequence, KeyCode::Char('r'), false) {
        Some(Action::Rename)
    } else if is_key(sequence, KeyCode::Char('R'), false) {
        Some(Action::MoveInWorkspace)
    } else if is_key(sequence, KeyCode::Char('r'), true) {
        Some(Action::Move)
    } else if is_key(sequence, KeyCode::Char('a'), false) {
        Some(Action::NewFile)
    } else if is_key(sequence, KeyCode::Char('A'), false) {
        Some(Action::NewDirectory)
    } else if is_key(sequence, KeyCode::Char('d'), false) {
        Some(Action::Delete)
    } else if is_key(sequence, KeyCode::Char('/'), false) {
        Some(Action::Search)
    } else if is_key(sequence, KeyCode::Char('n'), false) {
        Some(Action::NextMatch)
    } else if is_key(sequence, KeyCode::Char('N'), false) {
        Some(Action::PreviousMatch)
    } else if is_key(sequence, KeyCode::Char('+'), false) {
        Some(Action::Grow)
    } else if is_key(sequence, KeyCode::Char('-'), false) {
        Some(Action::Shrink)
    } else if is_key(sequence, KeyCode::Char('='), false) {
        Some(Action::Fit)
    } else if is_key(sequence, KeyCode::Char('?'), false) {
        Some(Action::Help)
    } else if is_key(sequence, KeyCode::Esc, false) {
        Some(Action::Unfocus)
    } else {
        None
    }
}

proof fn lemma_meant(sequence: Seq<KeyEvent>, i: int)
    requires
        0 <= i < bound().len(),
        bound()[i].keys.contains(sequence),
    ensures
        meant(sequence) == Some(bound()[i].action),
{
    let keys = bound()[i].keys;
    let k = keys.index_of(sequence);
    assert(keys[k] == sequence);
}

proof fn lemma_bound_to(sequence: Seq<KeyEvent>, i: int, k: int)
    requires
        0 <= i < bound().len(),
        0 <= k < bound()[i].keys.len(),
        sequence == bound()[i].keys[k],
    ensures
        bound()[i].keys.contains(sequence),
{
}

proof fn lemma_is_bound(sequence: Seq<KeyEvent>)
    requires
        meant(sequence) is Some,
    ensures
        exists|i: int| 0 <= i < bound().len() && (#[trigger] bound()[i]).keys.contains(sequence),
{
    if is_key(sequence, KeyCode::Char('j'), false) {
        assert(sequence =~= seq![char_key('j')]);
        lemma_bound_to(sequence, 0, 0);
    } else if is_key(sequence, KeyCode::Down, false) {
        assert(sequence =~= seq![KeyEvent::plain_key(KeyCode::Down)]);
        lemma_bound_to(sequence, 0, 1);
    } else if is_key(sequence, KeyCode::Char('k'), false) {
        assert(sequence =~= seq![char_key('k')]);
        lemma_bound_to(sequence, 1, 0);
    } else if is_key(sequence, KeyCode::Up, false) {
        assert(sequence =~= seq![KeyEvent::plain_key(KeyCode::Up)]);
        lemma_bound_to(sequence, 1, 1);
    } else if is_key(sequence, KeyCode::Char('l'), false) {
        assert(sequence =~= seq![char_key('l')]);
        lemma_bound_to(sequence, 2, 0);
    } else if is_key(sequence, KeyCode::Right, false) {
        assert(sequence =~= seq![KeyEvent::plain_key(KeyCode::Right)]);
        lemma_bound_to(sequence, 2, 1);
    } else if is_key(sequence, KeyCode::Char('h'), false) {
        assert(sequence =~= seq![char_key('h')]);
        lemma_bound_to(sequence, 3, 0);
    } else if is_key(sequence, KeyCode::Left, false) {
        assert(sequence =~= seq![KeyEvent::plain_key(KeyCode::Left)]);
        lemma_bound_to(sequence, 3, 1);
    } else if is_key(sequence, KeyCode::Char('d'), true) {
        assert(sequence =~= seq![KeyEvent::control_key('d')]);
        lemma_bound_to(sequence, 4, 0);
    } else if is_key(sequence, KeyCode::Char('u'), true) {
        assert(sequence =~= seq![KeyEvent::control_key('u')]);
        lemma_bound_to(sequence, 5, 0);
    } else if is_key(sequence, KeyCode::PageDown, false) {
        assert(sequence =~= seq![KeyEvent::plain_key(KeyCode::PageDown)]);
        lemma_bound_to(sequence, 6, 0);
    } else if is_key(sequence, KeyCode::PageUp, false) {
        assert(sequence =~= seq![KeyEvent::plain_key(KeyCode::PageUp)]);
        lemma_bound_to(sequence, 7, 0);
    } else if are_chars(sequence, 'g', 'g') {
        assert(sequence =~= seq![char_key('g'), char_key('g')]);
        lemma_bound_to(sequence, 8, 0);
    } else if is_key(sequence, KeyCode::Home, false) {
        assert(sequence =~= seq![KeyEvent::plain_key(KeyCode::Home)]);
        lemma_bound_to(sequence, 8, 1);
    } else if are_chars(sequence, 'g', 'e') {
        assert(sequence =~= seq![char_key('g'), char_key('e')]);
        lemma_bound_to(sequence, 9, 0);
    } else if is_key(sequence, KeyCode::End, false) {
        assert(sequence =~= seq![KeyEvent::plain_key(KeyCode::End)]);
        lemma_bound_to(sequence, 9, 1);
    } else if are_chars(sequence, 'z', 'z') {
        assert(sequence =~= seq![char_key('z'), char_key('z')]);
        lemma_bound_to(sequence, 10, 0);
    } else if are_chars(sequence, 'z', 'c') {
        assert(sequence =~= seq![char_key('z'), char_key('c')]);
        lemma_bound_to(sequence, 10, 1);
    } else if are_chars(sequence, 'z', 't') {
        assert(sequence =~= seq![char_key('z'), char_key('t')]);
        lemma_bound_to(sequence, 11, 0);
    } else if are_chars(sequence, 'z', 'b') {
        assert(sequence =~= seq![char_key('z'), char_key('b')]);
        lemma_bound_to(sequence, 12, 0);
    } else if is_key(sequence, KeyCode::Enter, false) {
        assert(sequence =~= seq![KeyEvent::plain_key(KeyCode::Enter)]);
        lemma_bound_to(sequence, 13, 0);
    } else if is_key(sequence, KeyCode::Char('s'), true) {
        assert(sequence =~= seq![KeyEvent::control_key('s')]);
        lemma_bound_to(sequence, 14, 0);
    } else if is_key(sequence, KeyCode::Char('v'), true) {
        assert(sequence =~= seq![KeyEvent::control_key('v')]);
        lemma_bound_to(sequence, 15, 0);
    } else if is_key(sequence, KeyCode::Char('o'), false) {
        assert(sequence =~= seq![char_key('o')]);
        lemma_bound_to(sequence, 16, 0);
    } else if is_key(sequence, KeyCode::Char('r'), false) {
        assert(sequence =~= seq![char_key('r')]);
        lemma_bound_to(sequence, 17, 0);
    } else if is_key(sequence, KeyCode::Char('R'), false) {
        assert(sequence =~= seq![char_key('R')]);
        lemma_bound_to(sequence, 18, 0);
    } else if is_key(sequence, KeyCode::Char('r'), true) {
        assert(sequence =~= seq![KeyEvent::control_key('r')]);
        lemma_bound_to(sequence, 19, 0);
    } else if is_key(sequence, KeyCode::Char('a'), false) {
        assert(sequence =~= seq![char_key('a')]);
        lemma_bound_to(sequence, 20, 0);
    } else if is_key(sequence, KeyCode::Char('A'), false) {
        assert(sequence =~= seq![char_key('A')]);
        lemma_bound_to(sequence, 21, 0);
    } else if is_key(sequence, KeyCode::Char('d'), false) {
        assert(sequence =~= seq![char_key('d')]);
        lemma_bound_to(sequence, 22, 0);
    } else if is_key(sequence, KeyCode::Char('/'), false) {
        assert(sequence =~= seq![char_key('/')]);
        lemma_bound_to(sequence, 23, 0);
    } else if is_key(sequence, KeyCode::Char('n'), false) {
        assert(sequence =~= seq![char_key('n')]);
        lemma_bound_to(sequence, 24, 0);
    } else if is_key(sequence, KeyCode::Char('N'), false) {
        assert(sequence =~= seq![char_key('N')]);
        lemma_bound_to(sequence, 25, 0);
    } else if is_key(sequence, KeyCode::Char('+'), false) {
        assert(sequence =~= seq![char_key('+')]);
        lemma_bound_to(sequence, 26, 0);
    } else if is_key(sequence, KeyCode::Char('-'), false) {
        assert(sequence =~= seq![char_key('-')]);
        lemma_bound_to(sequence, 27, 0);
    } else if is_key(sequence, KeyCode::Char('='), false) {
        assert(sequence =~= seq![char_key('=')]);
        lemma_bound_to(sequence, 28, 0);
    } else if is_key(sequence, KeyCode::Char('?'), false) {
        assert(sequence =~= seq![char_key('?')]);
        lemma_bound_to(sequence, 29, 0);
    } else if is_key(sequence, KeyCode::Esc, false) {
        assert(sequence =~= seq![KeyEvent::plain_key(KeyCode::Esc)]);
        lemma_bound_to(sequence, 30, 0);
    }
}

proof fn lemma_first_action_found(table: Seq<BindingView>, sequence: Seq<KeyEvent>)
    ensures
        match first_action(table, sequence) {
            Some(action) => exists|i: int|
                0 <= i < table.len() && (#[trigger] table[i]).keys.contains(sequence)
                    && table[i].action == action,
            None => forall|i: int|
                0 <= i < table.len() ==> !(#[trigger] table[i]).keys.contains(sequence),
        },
    decreases table.len(),
{
    if table.len() > 0 && !table[0].keys.contains(sequence) {
        let rest = table.skip(1);
        lemma_first_action_found(rest, sequence);
        match first_action(rest, sequence) {
            Some(action) => {
                let i = choose|i: int|
                    0 <= i < rest.len() && (#[trigger] rest[i]).keys.contains(sequence)
                        && rest[i].action == action;
                assert(table[i + 1] == rest[i]);
            },
            None => {
                assert forall|i: int| 0 <= i < table.len() implies !(
                #[trigger] table[i]).keys.contains(sequence) by {
                    if i > 0 {
                        assert(rest[i - 1] == table[i]);
                    }
                }
            },
        }
    } else if table.len() > 0 {
        assert(table[0].keys.contains(sequence));
    }
}

proof fn lemma_looked_up(sequence: Seq<KeyEvent>)
    ensures
        looked_up(bound(), sequence) matches Lookup::Action(action) ==> meant(sequence) == Some(
            action,
        ),
        meant(sequence) matches Some(action) ==> looked_up(bound(), sequence) == Lookup::Action(
            action,
        ),
{
    lemma_first_action_found(bound(), sequence);
    if let Some(action) = first_action(bound(), sequence) {
        let i = choose|i: int|
            0 <= i < bound().len() && (#[trigger] bound()[i]).keys.contains(sequence)
                && bound()[i].action == action;
        lemma_meant(sequence, i);
    }
    if meant(sequence) is Some {
        lemma_is_bound(sequence);
    }
}

/// Every action has its own keys, and no other keys have it: those that move in the tree, those
/// that open, change and search, and those of the panel itself.
pub proof fn law_actions_have_their_own_keys(sequence: Seq<KeyEvent>)
    ensures
        looked_up(bound(), sequence) == Lookup::Action(Action::Down) <==> is_key(sequence, KeyCode::Char('j'), false) || is_key(sequence, KeyCode::Down, false),
        looked_up(bound(), sequence) == Lookup::Action(Action::Up) <==> is_key(sequence, KeyCode::Char('k'), false) || is_key(sequence, KeyCode::Up, false),
        looked_up(bound(), sequence) == Lookup::Action(Action::Expand) <==> is_key(sequence, KeyCode::Char('l'), false) || is_key(sequence, KeyCode::Right, false),
        looked_up(bound(), sequence) == Lookup::Action(Action::Collapse) <==> is_key(sequence, KeyCode::Char('h'), false) || is_key(sequence, KeyCode::Left, false),
        looked_up(bound(), sequence) == Lookup::Action(Action::HalfPageDown) <==> is_key(sequence, KeyCode::Char('d'), true),
        looked_up(bound(), sequence) == Lookup::Action(Action::HalfPageUp) <==> is_key(sequence, KeyCode::Char('u'), true),
        looked_up(bound(), sequence) == Lookup::Action(Action::PageDown) <==> is_key(sequence, KeyCode::PageDown, false),
        looked_up(bound(), sequence) == Lookup::Action(Action::PageUp) <==> is_key(sequence, KeyCode::PageUp, false),
        looked_up(bound(), sequence) == Lookup::Action(Action::First) <==> are_chars(sequence, 'g', 'g') || is_key(sequence, KeyCode::Home, false),
        looked_up(bound(), sequence) == Lookup::Action(Action::Last) <==> are_chars(sequence, 'g', 'e') || is_key(sequence, KeyCode::End, false),
        looked_up(bound(), sequence) == Lookup::Action(Action::AlignCenter) <==> are_chars(sequence, 'z', 'z') || are_chars(sequence, 'z', 'c'),
        looked_up(bound(), sequence) == Lookup::Action(Action::AlignTop) <==> are_chars(sequence, 'z', 't'),
        looked_up(bound(), sequence) == Lookup::Action(Action::AlignBottom) <==> are_chars(sequence, 'z', 'b'),
        looked_up(bound(), sequence) == Lookup::Action(Action::Open) <==> is_key(sequence, KeyCode::Enter, false),
        looked_up(bound(), sequence) == Lookup::Action(Action::OpenHorizontal) <==> is_key(sequence, KeyCode::Char('s'), true),
        looked_up(bound(), sequence) == Lookup::Action(Action::OpenVertical) <==> is_key(sequence, KeyCode::Char('v'), true),
        looked_up(bound(), sequence) == Lookup::Action(Action::OpenExternally) <==> is_key(sequence, KeyCode::Char('o'), false),
        looked_up(bound(), sequence) == Lookup::Action(Action::Rename) <==> is_key(sequence, KeyCode::Char('r'), false),
        looked_up(bound(), sequence) == Lookup::Action(Action::MoveInWorkspace) <==> is_key(sequence, KeyCode::Char('R'), false),
        looked_up(bound(), sequence) == Lookup::Action(Action::Move) <==> is_key(sequence, KeyCode::Char('r'), true),
        looked_up(bound(), sequence) == Lookup::Action(Action::NewFile) <==> is_key(sequence, KeyCode::Char('a'), false),
        looked_up(bound(), sequence) == Lookup::Action(Action::NewDirectory) <==> is_key(sequence, KeyCode::Char('A'), false),
        looked_up(bound(), sequence) == Lookup::Action(Action::Delete) <==> is_key(sequence, KeyCode::Char('d'), false),
        looked_up(bound(), sequence) == Lookup::Action(Action::Search) <==> is_key(sequence, KeyCode::Char('/'), false),
        looked_up(bound(), sequence) == Lookup::Action(Action::NextMatch) <==> is_key(sequence, KeyCode::Char('n'), false),
        looked_up(bound(), sequence) == Lookup::Action(Action::PreviousMatch) <==> is_key(sequence, KeyCode::Char('N'), false),
        looked_up(bound(), sequence) == Lookup::Action(Action::Grow) <==> is_key(sequence, KeyCode::Char('+'), false),
        looked_up(bound(), sequence) == Lookup::Action(Action::Shrink) <==> is_key(sequence, KeyCode::Char('-'), false),
        looked_up(bound(), sequence) == Lookup::Action(Action::Fit) <==> is_key(sequence, KeyCode::Char('='), false),
        looked_up(bound(), sequence) == Lookup::Action(Action::Help) <==> is_key(sequence, KeyCode::Char('?'), false),
        looked_up(bound(), sequence) == Lookup::Action(Action::Unfocus) <==> is_key(sequence, KeyCode::Esc, false),
{
    lemma_looked_up(sequence);
}

/// Nothing pressed, `g` and `z` are the starts of sequences, and nothing else is.
pub proof fn law_g_and_z_start_sequences(sequence: Seq<KeyEvent>)
    ensures
        looked_up(bound(), sequence) == Lookup::Prefix <==> sequence.len() == 0 || is_key(
            sequence,
            KeyCode::Char('g'),
            false,
        ) || is_key(sequence, KeyCode::Char('z'), false),
{
    lemma_looked_up(sequence);
    if sequence.len() == 0 {
        assert(bound()[0].keys[0].take(0) =~= sequence);
        assert(continued_by(bound()[0], sequence));
    } else if is_key(sequence, KeyCode::Char('g'), false) {
        assert(bound()[8].keys[0].take(1) =~= sequence);
        assert(continued_by(bound()[8], sequence));
    } else if is_key(sequence, KeyCode::Char('z'), false) {
        assert(bound()[11].keys[0].take(1) =~= sequence);
        assert(continued_by(bound()[11], sequence));
    } else {
        assert forall|i: int| 0 <= i < bound().len() && meant(
            sequence,
        ) is None implies !continued_by(#[trigger] bound()[i], sequence) by {
            if continued_by(bound()[i], sequence) {
                let keys = bound()[i].keys;
                let k = choose|k: int| 0 <= k < keys.len() && continues(#[trigger] keys[k], sequence);
                assert(keys[k].take(sequence.len() as int) == sequence);
                assert(keys[k].len() <= 2);
                assert(sequence[0] == keys[k][0]);
                if sequence.len() == keys[k].len() {
                    assert(keys[k] =~= sequence);
                    assert(keys.contains(sequence));
                    lemma_meant(sequence, i);
                }
            }
        }
    }
}

/// The help says of every action what it does.
pub proof fn law_the_help_says_what_actions_do()
    ensures
        Action::Down.doc_text() == "Move down"@,
        Action::Up.doc_text() == "Move up"@,
        Action::Expand.doc_text() == "Expand directory"@,
        Action::Collapse.doc_text() == "Collapse directory"@,
        Action::HalfPageDown.doc_text() == "Move half a page down"@,
        Action::HalfPageUp.doc_text() == "Move half a page up"@,
        Action::PageDown.doc_text() == "Move a page down"@,
        Action::PageUp.doc_text() == "Move a page up"@,
        Action::First.doc_text() == "Go to the first row"@,
        Action::Last.doc_text() == "Go to the last row"@,
        Action::AlignCenter.doc_text() == "Align the cursor row to the center"@,
        Action::AlignTop.doc_text() == "Align the cursor row to the top"@,
        Action::AlignBottom.doc_text() == "Align the cursor row to the bottom"@,
        Action::Open.doc_text() == "Open file or expand/collapse directory"@,
        Action::OpenHorizontal.doc_text() == "Open file in a horizontal split"@,
        Action::OpenVertical.doc_text() == "Open file in a vertical split"@,
        Action::OpenExternally.doc_text() == "Open in the default application"@,
        Action::Rename.doc_text() == "Rename"@,
        Action::MoveInWorkspace.doc_text() == "Move to a path in the workspace"@,
        Action::Move.doc_text() == "Move to a full path"@,
        Action::NewFile.doc_text() == "New file"@,
        Action::NewDirectory.doc_text() == "New directory"@,
        Action::Delete.doc_text() == "Delete for good"@,
        Action::Search.doc_text() == "Search for a file"@,
        Action::NextMatch.doc_text() == "Go to the next match"@,
        Action::PreviousMatch.doc_text() == "Go to the previous match"@,
        Action::Grow.doc_text() == "Widen the file tree"@,
        Action::Shrink.doc_text() == "Narrow the file tree"@,
        Action::Fit.doc_text() == "Fit the width to the widest row"@,
        Action::Help.doc_text() == "Show these keys"@,
        Action::Unfocus.doc_text() == "Return focus to the editor"@,
{
}

/// Modifiers are named in front of the key that they are held with, shift before alt before control.
pub proof fn law_modifiers_are_named_in_front(key: KeyEvent)
    ensures
        !key.shift && !key.alt && !key.control ==> key_text(key) == code_text(key.code),
        key.shift ==> key_text(key) == "S-"@ + key_text(KeyEvent { shift: false, ..key }),
        !key.shift && key.alt ==> key_text(key) == "A-"@ + key_text(
            KeyEvent { alt: false, ..key },
        ),
        !key.shift && !key.alt && key.control ==> key_text(key) == "C-"@ + key_text(
            KeyEvent { control: false, ..key },
        ),
{
    assert(key_text(key) =~= (if key.shift {
        "S-"@
    } else {
        Seq::empty()
    }) + ((if key.alt {
        "A-"@
    } else {
        Seq::empty()
    }) + ((if key.control {
        "C-"@
    } else {
        Seq::empty()
    }) + code_text(key.code))));
    let less = if key.shift {
        KeyEvent { shift: false, ..key }
    } else if key.alt {
        KeyEvent { alt: false, ..key }
    } else {
        KeyEvent { control: false, ..key }
    };
    assert(key_text(less) =~= (if less.shift {
        "S-"@
    } else {
        Seq::empty()
    }) + ((if less.alt {
        "A-"@
    } else {
        Seq::empty()
    }) + ((if less.control {
        "C-"@
    } else {
        Seq::empty()
    }) + code_text(less.code))));
}

/// Keys are called by their char, but for those that would not be told apart in a text, and by their
/// names if they have none.
pub proof fn law_keys_are_called_by_their_names()
    ensures
        forall|c: char|
            c != ' ' && c != '-' && c != '<' && c != '>' ==> #[trigger] code_text(KeyCode::Char(c))
                == seq![c],
        code_text(KeyCode::Char(' ')) == "space"@,
        code_text(KeyCode::Char('-')) == "minus"@,
        code_text(KeyCode::Char('<')) == "lt"@,
        code_text(KeyCode::Char('>')) == "gt"@,
        code_text(KeyCode::Backspace) == "backspace"@,
        code_text(KeyCode::Enter) == "ret"@,
        code_text(KeyCode::Left) == "left"@,
        code_text(KeyCode::Right) == "right"@,
        code_text(KeyCode::Up) == "up"@,
        code_text(KeyCode::Down) == "down"@,
        code_text(KeyCode::Home) == "home"@,
        code_text(KeyCode::End) == "end"@,
        code_text(KeyCode::PageUp) == "pageup"@,
        code_text(KeyCode::PageDown) == "pagedown"@,
        code_text(KeyCode::Tab) == "tab"@,
        code_text(KeyCode::Delete) == "del"@,
        code_text(KeyCode::Insert) == "ins"@,
        code_text(KeyCode::Esc) == "esc"@,
{
}

/// The help is called by what it is for.
pub proof fn law_the_help_has_a_title(prefix: Seq<KeyEvent>)
    ensures
        prefix.len() == 0 ==> help_title(prefix) == "File tree"@,
        is_key(prefix, KeyCode::Char('g'), false) ==> help_title(prefix) == "Goto"@,
        is_key(prefix, KeyCode::Char('z'), false) ==> help_title(prefix) == "View"@,
        prefix.len() > 1 ==> help_title(prefix) == ""@,
{
    if is_key(prefix, KeyCode::Char('g'), false) {
        assert(prefix =~= seq![char_key('g')]);
    }
    if is_key(prefix, KeyCode::Char('z'), false) {
        assert(prefix =~= seq![char_key('z')]);
        assert(prefix[0] != seq![char_key('g')][0]);
    }
}

/// A binding is shown by what is left of its sequences after the keys pressed so far, with commas
/// between them, and not at all if none of them goes on from there.
pub proof fn law_hints_are_what_is_left_to_press(
    keys: Seq<Seq<KeyEvent>>,
    sequence: Seq<KeyEvent>,
    prefix: Seq<KeyEvent>,
)
    ensures
        ({
            let before = hint_text(keys, prefix);
            let after = hint_text(keys.push(sequence), prefix);
            let goes_on = sequence.len() > prefix.len() && sequence.take(prefix.len() as int)
                == prefix;
            let left = sequence_text(sequence.skip(prefix.len() as int));
            &&& !goes_on ==> after == before
            &&& goes_on && before.len() == 0 ==> after == left
            &&& goes_on && before.len() > 0 ==> after == before + ", "@ + left
        }),
        hint_text(Seq::empty(), prefix).len() == 0,
{
    assert(keys.push(sequence).drop_last() =~= keys);
}

/// The names of keys follow each other as they are pressed.
pub proof fn law_sequences_are_named_key_by_key(keys: Seq<KeyEvent>, key: KeyEvent)
    ensures
        sequence_text(keys.push(key)) == sequence_text(keys) + key_text(key),
        sequence_text(Seq::empty()).len() == 0,
{
    assert(keys.push(key).drop_last() =~= keys);
}

/// The help has a line for every binding that goes on from the keys pressed so far, with what is left
/// to press and what that does, in the order of the bindings.
pub proof fn law_the_help_lists_what_goes_on(
    table: Seq<BindingView>,
    binding: BindingView,
    prefix: Seq<KeyEvent>,
)
    ensures
        ({
            let before = help_lines(table, prefix);
            let after = help_lines(table.push(binding), prefix);
            let hint = hint_text(binding.keys, prefix);
            &&& hint.len() == 0 ==> after == before
            &&& hint.len() > 0 ==> after == before.push((hint, binding.action.doc_text()))
        }),
{
    assert(table.push(binding).drop_last() =~= table);
}

/// Every line of the help has what the keys do in the same column, two columns after the longest of
/// the hints.
pub proof fn law_the_help_has_two_columns(
    lines: Seq<(Seq<char>, Seq<char>)>,
    hint: Seq<char>,
    doc: Seq<char>,
    width: nat,
)
    requires
        hint.len() <= width,
    ensures
        ({
            let before = help_text(lines, width);
            let after = help_text(lines.push((hint, doc)), width);
            let start = before.len() as int;
            let column = start + width + 2;
            &&& after.take(start) == before
            &&& after.subrange(start, start + hint.len()) == hint
            &&& forall|i: int| start + hint.len() <= i < column ==> #[trigger] after[i] == ' '
            &&& after.subrange(column, column + doc.len()) == doc
            &&& after.len() == column + doc.len() + 1
            &&& after.last() == '\n'
        }),
{
    assert(lines.push((hint, doc)).drop_last() =~= lines);
    let before = help_text(lines, width);
    let after = help_text(lines.push((hint, doc)), width);
    let gap = Seq::new((width - hint.len() + 2) as nat, |i: int| ' ');
    assert(after == before + hint + gap + doc + seq!['\n']);
    let start = before.len() as int;
    let column = start + width + 2;
    assert(after.take(start) =~= before);
    assert(after.subrange(start, start + hint.len()) =~= hint);
    assert(after.subrange(column, column + doc.len()) =~= doc);
}

/// The widest hint is as long as the longest one.
pub proof fn law_the_widest_hint_is_the_longest(lines: Seq<(Seq<char>, Seq<char>)>, i: int)
    requires
        0 <= i < lines.len(),
    ensures
        lines[i].0.len() <= widest_hint(lines),
        exists|k: int| 0 <= k < lines.len() && (#[trigger] lines[k]).0.len() == widest_hint(lines),
    decreases lines.len(),
{
    lemma_widest_hint(lines, i);
    let rest = lines.drop_last();
    assert(lines[lines.len() - 1] == lines.last());
    if rest.len() > 0 && lines.last().0.len() <= widest_hint(rest) {
        law_the_widest_hint_is_the_longest(rest, 0);
        let k = choose|k: int| 0 <= k < rest.len() && (#[trigger] rest[k]).0.len() == widest_hint(rest);
        assert(lines[k] == rest[k]);
    }
}

} // verus!
