//! The order the file tree lists entries in, shared by the tree and its search.

use crate::chars::chars_of_str;
use crate::names::{lossy, name_text, part_name, parts_of, Component, Part, TreePath};
use std::cmp::Ordering;
use crate::pieces::number_of;
use vstd::prelude::*;
use vstd::utf8::{decode_utf8_encode_utf8, valid_utf8};

verus! {

/// How the entries of a directory are sorted.
#[derive(Clone, Copy, Debug, PartialEq, Eq, Structural)]
pub enum FileTreeSort {
    DirectoriesFirst,
    Alphabetical,
}

/// Where an entry sorts among its siblings when directories come first.
#[derive(Clone, Copy, Debug, PartialEq, Eq, Structural)]
pub enum Group {
    Directory,
    File,
    /// Broken links, fifos, sockets and devices.
    Other,
}

/// How two things are ordered.
#[derive(Clone, Copy, Debug, PartialEq, Eq, Structural)]
pub enum Order {
    Less,
    Equal,
    Greater,
}

impl Order {
    /// The order as a number, which is negative, zero or positive.
    pub open spec fn sign(self) -> int {
        match self {
            Order::Less => -1,
            Order::Equal => 0,
            Order::Greater => 1,
        }
    }

    /// This order, or `next` if it is a tie.
    pub open spec fn or(self, next: Order) -> Order {
        if self is Equal {
            next
        } else {
            self
        }
    }
}

/// The order of two numbers.
pub open spec fn number_order(a: int, b: int) -> Order {
    if a < b {
        Order::Less
    } else if a == b {
        Order::Equal
    } else {
        Order::Greater
    }
}

/// The order of two sequences by the first chars that differ, or by their lengths.
pub open spec fn char_order(a: Seq<char>, b: Seq<char>) -> Order
    decreases a.len(),
{
    if a.len() == 0 || b.len() == 0 {
        number_order(a.len() as int, b.len() as int)
    } else {
        number_order(a[0] as int, b[0] as int).or(char_order(a.skip(1), b.skip(1)))
    }
}

/// The lower case of a char that is not ASCII.
pub uninterp spec fn lower_of(c: char) -> Seq<char>;

/// Whether `c` is one of the capital letters A to Z.
pub open spec fn is_capital(c: char) -> bool {
    'A' <= c <= 'Z'
}

/// The lower case of an ASCII char: that of a letter A to Z is the small letter, 32 chars further on,
/// and other chars are their own.
pub open spec fn ascii_lower(c: char) -> char {
    if is_capital(c) {
        (c as u32 + 32) as char
    } else {
        c
    }
}

/// The lower case of a char.
pub open spec fn lowered(c: char) -> Seq<char> {
    if (c as u32) < 128 {
        seq![ascii_lower(c)]
    } else {
        lower_of(c)
    }
}

/// The lower case of `c` that `char::to_lowercase` returns. That of an ASCII char is the ASCII one.
#[verifier::external_body]
fn lowercase(c: char) -> (lower: Vec<char>)
    ensures
        (c as u32) < 128 ==> lower@ == seq![ascii_lower(c)],
        (c as u32) >= 128 ==> lower@ == lower_of(c),
{
    c.to_lowercase().collect()
}

/// Whether `c` is one of the digits 0 to 9.
pub open spec fn is_digit(c: char) -> bool {
    '0' <= c <= '9'
}

/// The number of digits that `s` starts with.
pub open spec fn digit_count(s: Seq<char>) -> nat
    decreases s.len(),
{
    if s.len() > 0 && is_digit(s[0]) {
        1 + digit_count(s.skip(1))
    } else {
        0
    }
}

/// A run of digits without the zeros that it starts with.
pub open spec fn significant(digits: Seq<char>) -> Seq<char>
    decreases digits.len(),
{
    if digits.len() > 0 && digits[0] == '0' {
        significant(digits.skip(1))
    } else {
        digits
    }
}

/// The order of two runs of digits by their values, and of equal values by their lengths.
pub open spec fn digits_order(a: Seq<char>, b: Seq<char>) -> Order {
    let x = significant(a);
    let y = significant(b);
    number_order(x.len() as int, y.len() as int).or(char_order(x, y)).or(
        number_order(a.len() as int, b.len() as int),
    )
}

/// The order of two names that ignores case and compares runs of digits by their values.
pub open spec fn folded_order(a: Seq<char>, b: Seq<char>) -> Order
    decreases a.len(),
{
    if a.len() == 0 || b.len() == 0 {
        number_order(a.len() as int, b.len() as int)
    } else if is_digit(a[0]) && is_digit(b[0]) {
        let m = digit_count(a) as int;
        let n = digit_count(b) as int;
        proof {
            lemma_digit_count(a);
        }
        digits_order(a.take(m), b.take(n)).or(folded_order(a.skip(m), b.skip(n)))
    } else if is_digit(a[0]) {
        Order::Less
    } else if is_digit(b[0]) {
        Order::Greater
    } else {
        char_order(lowered(a[0]), lowered(b[0])).or(folded_order(a.skip(1), b.skip(1)))
    }
}

/// The order of two names, see [`natural_cmp`].
pub open spec fn natural_order(a: Seq<char>, b: Seq<char>) -> Order {
    folded_order(a, b).or(char_order(a, b))
}

impl Group {
    /// The place of the group among the groups.
    pub open spec fn rank(self) -> int {
        match self {
            Group::Directory => 0,
            Group::File => 1,
            Group::Other => 2,
        }
    }
}

/// The order of two entries of one directory, see [`entry_cmp`].
pub open spec fn entry_order(
    sort: FileTreeSort,
    a: Seq<char>,
    a_group: Group,
    b: Seq<char>,
    b_group: Group,
) -> Order {
    match sort {
        FileTreeSort::DirectoriesFirst => number_order(a_group.rank(), b_group.rank()).or(
            natural_order(a, b),
        ),
        FileTreeSort::Alphabetical => natural_order(a, b),
    }
}

/// The group of a part of a path, which is a directory if another part follows.
pub open spec fn part_group(directory: bool) -> Group {
    if directory {
        Group::Directory
    } else {
        Group::File
    }
}

/// The order of two paths, see [`path_cmp`].
pub open spec fn path_order(
    sort: FileTreeSort,
    a: Seq<Part>,
    a_is_dir: bool,
    b: Seq<Part>,
    b_is_dir: bool,
) -> Order
    decreases a.len(),
{
    if a.len() == 0 || b.len() == 0 {
        number_order(a.len() as int, b.len() as int)
    } else if a[0] == b[0] {
        path_order(sort, a.skip(1), a_is_dir, b.skip(1), b_is_dir)
    } else {
        entry_order(
            sort,
            lossy(part_name(a[0])),
            part_group(a.len() > 1 || a_is_dir),
            lossy(part_name(b[0])),
            part_group(b.len() > 1 || b_is_dir),
        )
    }
}

proof fn lemma_char_order(a: Seq<char>, b: Seq<char>)
    ensures
        char_order(a, b).sign() == -char_order(b, a).sign(),
        char_order(a, b) is Equal <==> a == b,
    decreases a.len(),
{
    if a.len() > 0 && b.len() > 0 {
        lemma_char_order(a.skip(1), b.skip(1));
        if a[0] == b[0] && a.skip(1) == b.skip(1) {
            assert(a =~= seq![a[0]] + a.skip(1));
            assert(b =~= seq![b[0]] + b.skip(1));
        }
    } else if a.len() == b.len() {
        assert(a =~= b);
    }
}

proof fn lemma_char_order_transitive(a: Seq<char>, b: Seq<char>, c: Seq<char>)
    requires
        char_order(a, b).sign() <= 0,
        char_order(b, c).sign() <= 0,
    ensures
        char_order(a, c).sign() <= 0,
        char_order(a, b).sign() < 0 || char_order(b, c).sign() < 0 ==> char_order(a, c).sign() < 0,
    decreases a.len(),
{
    if a.len() > 0 && b.len() > 0 && c.len() > 0 {
        if a[0] == b[0] && b[0] == c[0] {
            lemma_char_order_transitive(a.skip(1), b.skip(1), c.skip(1));
        }
    }
}

proof fn lemma_significant(a: Seq<char>)
    ensures
        significant(a).len() <= a.len(),
        forall|i: int|
            0 <= i < a.len() - significant(a).len() ==> #[trigger] a[i] == '0',
        forall|i: int|
            0 <= i < significant(a).len() ==> #[trigger] significant(a)[i] == a[i + a.len()
                - significant(a).len()],
    decreases a.len(),
{
    if a.len() > 0 && a[0] == '0' {
        let t = a.skip(1);
        lemma_significant(t);
        assert forall|i: int| 0 <= i < a.len() - significant(a).len() implies #[trigger] a[i]
            == '0' by {
            if i > 0 {
                assert(t[i - 1] == a[i]);
            }
        }
    }
}

proof fn lemma_digits_order(a: Seq<char>, b: Seq<char>)
    ensures
        digits_order(a, b).sign() == -digits_order(b, a).sign(),
        digits_order(a, b) is Equal <==> a == b,
{
    let x = significant(a);
    let y = significant(b);
    lemma_char_order(x, y);
    lemma_significant(a);
    lemma_significant(b);
    if digits_order(a, b) is Equal {
        assert forall|i: int| 0 <= i < a.len() implies a[i] == b[i] by {
            let zeros = a.len() - x.len();
            if i >= zeros {
                assert(x[i - zeros] == a[i]);
                assert(y[i - zeros] == b[i]);
            }
        }
        assert(a =~= b);
    }
}

proof fn lemma_digits_order_transitive(a: Seq<char>, b: Seq<char>, c: Seq<char>)
    requires
        digits_order(a, b).sign() <= 0,
        digits_order(b, c).sign() <= 0,
    ensures
        digits_order(a, c).sign() <= 0,
        digits_order(a, b).sign() < 0 || digits_order(b, c).sign() < 0 ==> digits_order(a, c).sign()
            < 0,
{
    let x = significant(a);
    let y = significant(b);
    let z = significant(c);
    lemma_char_order(x, y);
    lemma_char_order(y, z);
    if x.len() == y.len() && y.len() == z.len() {
        lemma_char_order_transitive(x, y, z);
        lemma_char_order(x, z);
    }
}

pub proof fn lemma_digit_count(a: Seq<char>)
    ensures
        digit_count(a) <= a.len(),
        a.len() > 0 && is_digit(a[0]) ==> digit_count(a) > 0,
    decreases a.len(),
{
    if a.len() > 0 && is_digit(a[0]) {
        lemma_digit_count(a.skip(1));
    }
}

proof fn lemma_folded_order(a: Seq<char>, b: Seq<char>)
    ensures
        folded_order(a, b).sign() == -folded_order(b, a).sign(),
        a == b ==> folded_order(a, b) is Equal,
    decreases a.len(),
{
    if a.len() > 0 && b.len() > 0 {
        lemma_digit_count(a);
        lemma_digit_count(b);
        if is_digit(a[0]) && is_digit(b[0]) {
            let m = digit_count(a) as int;
            let n = digit_count(b) as int;
            lemma_digits_order(a.take(m), b.take(n));
            lemma_folded_order(a.skip(m), b.skip(n));
        } else if !is_digit(a[0]) && !is_digit(b[0]) {
            lemma_char_order(lowered(a[0]), lowered(b[0]));
            lemma_folded_order(a.skip(1), b.skip(1));
        }
    }
}

proof fn lemma_folded_order_transitive(a: Seq<char>, b: Seq<char>, c: Seq<char>)
    requires
        folded_order(a, b).sign() <= 0,
        folded_order(b, c).sign() <= 0,
    ensures
        folded_order(a, c).sign() <= 0,
        folded_order(a, b).sign() < 0 || folded_order(b, c).sign() < 0 ==> folded_order(a, c).sign()
            < 0,
    decreases a.len(),
{
    if a.len() > 0 && b.len() > 0 && c.len() > 0 {
        lemma_digit_count(a);
        lemma_digit_count(b);
        lemma_digit_count(c);
        if is_digit(a[0]) && is_digit(b[0]) && is_digit(c[0]) {
            let l = digit_count(a) as int;
            let m = digit_count(b) as int;
            let n = digit_count(c) as int;
            lemma_digits_order_transitive(a.take(l), b.take(m), c.take(n));
            if digits_order(a.take(l), b.take(m)) is Equal && digits_order(
                b.take(m),
                c.take(n),
            ) is Equal {
                lemma_digits_order(a.take(l), b.take(m));
                lemma_digits_order(b.take(m), c.take(n));
                lemma_digits_order(a.take(l), c.take(n));
                lemma_folded_order_transitive(a.skip(l), b.skip(m), c.skip(n));
            }
        } else if !is_digit(a[0]) && !is_digit(b[0]) && !is_digit(c[0]) {
            let x = lowered(a[0]);
            let y = lowered(b[0]);
            let z = lowered(c[0]);
            lemma_char_order_transitive(x, y, z);
            if char_order(x, y) is Equal && char_order(y, z) is Equal {
                lemma_char_order(x, y);
                lemma_char_order(y, z);
                lemma_char_order(x, z);
                lemma_folded_order_transitive(a.skip(1), b.skip(1), c.skip(1));
            }
        }
    }
}

/// Names are totally ordered: turning two names round turns their order round, only a name ties
/// with itself, and the order is transitive.
pub proof fn law_natural_order_is_total(a: Seq<char>, b: Seq<char>, c: Seq<char>)
    ensures
        natural_order(a, b).sign() == -natural_order(b, a).sign(),
        natural_order(a, b) is Equal <==> a == b,
        natural_order(a, b).sign() <= 0 && natural_order(b, c).sign() <= 0 ==> natural_order(
            a,
            c,
        ).sign() <= 0,
{
    lemma_folded_order(a, b);
    lemma_char_order(a, b);
    if natural_order(a, b).sign() <= 0 && natural_order(b, c).sign() <= 0 {
        lemma_folded_order_transitive(a, b, c);
        if folded_order(a, b) is Equal && folded_order(b, c) is Equal {
            lemma_char_order_transitive(a, b, c);
            lemma_folded_order(b, c);
            lemma_folded_order(c, b);
            lemma_folded_order(b, a);
            lemma_folded_order_transitive(c, b, a);
            lemma_folded_order(a, c);
        }
    }
}

/// Whether the names differ at most in the case of ASCII letters.
pub open spec fn same_but_case(a: Seq<char>, b: Seq<char>) -> bool {
    &&& a.len() == b.len()
    &&& forall|i: int|
        #![trigger a[i]]
        #![trigger b[i]]
        0 <= i < a.len() ==> a[i] == b[i] || ((a[i] as u32) < 128 && (b[i] as u32) < 128
            && ascii_lower(a[i]) == ascii_lower(b[i]))
}

proof fn lemma_same_but_case_skip(a: Seq<char>, b: Seq<char>, n: int)
    requires
        same_but_case(a, b),
        0 <= n <= a.len(),
    ensures
        same_but_case(a.skip(n), b.skip(n)),
{
    let x = a.skip(n);
    let y = b.skip(n);
    assert forall|i: int|
        #![trigger x[i]]
        #![trigger y[i]]
        0 <= i < x.len() implies x[i] == y[i] || ((x[i] as u32) < 128 && (y[i] as u32) < 128
        && ascii_lower(x[i]) == ascii_lower(y[i])) by {
        assert(x[i] == a[i + n] && y[i] == b[i + n]);
    }
}

proof fn lemma_digits_have_no_case(a: Seq<char>, b: Seq<char>)
    requires
        same_but_case(a, b),
    ensures
        digit_count(a) == digit_count(b),
        a.take(digit_count(a) as int) == b.take(digit_count(b) as int),
    decreases a.len(),
{
    if a.len() > 0 {
        assert(is_digit(a[0]) == is_digit(b[0]));
        if is_digit(a[0]) {
            lemma_same_but_case_skip(a, b, 1);
            lemma_digits_have_no_case(a.skip(1), b.skip(1));
            let n = digit_count(a) as int;
            lemma_digit_count(a.skip(1));
            assert(a.take(n) =~= seq![a[0]] + a.skip(1).take(n - 1));
            assert(b.take(n) =~= seq![b[0]] + b.skip(1).take(n - 1));
        }
    }
    assert(digit_count(a) == 0 ==> a.take(0) =~= b.take(0));
}

proof fn lemma_folded_order_ignores_case(
    a: Seq<char>,
    b: Seq<char>,
    x: Seq<char>,
    y: Seq<char>,
)
    requires
        same_but_case(a, x),
        same_but_case(b, y),
    ensures
        folded_order(a, b) == folded_order(x, y),
    decreases a.len(),
{
    if a.len() > 0 && b.len() > 0 {
        assert(is_digit(a[0]) == is_digit(x[0]));
        assert(is_digit(b[0]) == is_digit(y[0]));
        if is_digit(a[0]) && is_digit(b[0]) {
            lemma_digits_have_no_case(a, x);
            lemma_digits_have_no_case(b, y);
            lemma_digit_count(a);
            lemma_digit_count(b);
            let m = digit_count(a) as int;
            let n = digit_count(b) as int;
            lemma_same_but_case_skip(a, x, m);
            lemma_same_but_case_skip(b, y, n);
            lemma_folded_order_ignores_case(a.skip(m), b.skip(n), x.skip(m), y.skip(n));
        } else if !is_digit(a[0]) && !is_digit(b[0]) {
            assert(lowered(a[0]) == lowered(x[0]));
            assert(lowered(b[0]) == lowered(y[0]));
            lemma_same_but_case_skip(a, x, 1);
            lemma_same_but_case_skip(b, y, 1);
            lemma_folded_order_ignores_case(a.skip(1), b.skip(1), x.skip(1), y.skip(1));
        }
    }
}

/// Whether all chars are ASCII.
pub open spec fn all_ascii(s: Seq<char>) -> bool {
    forall|i: int| 0 <= i < s.len() ==> (#[trigger] s[i] as u32) < 128
}

proof fn lemma_folded_ties(a: Seq<char>, b: Seq<char>)
    requires
        all_ascii(a),
        all_ascii(b),
        folded_order(a, b) is Equal,
    ensures
        same_but_case(a, b),
    decreases a.len(),
{
    if a.len() > 0 && b.len() > 0 {
        let (m, n) = if is_digit(a[0]) && is_digit(b[0]) {
            (digit_count(a) as int, digit_count(b) as int)
        } else {
            (1, 1)
        };
        lemma_digit_count(a);
        lemma_digit_count(b);
        if is_digit(a[0]) && is_digit(b[0]) {
            lemma_digits_order(a.take(m), b.take(n));
            assert(a.take(m).len() == b.take(n).len());
        } else {
            lemma_char_order(lowered(a[0]), lowered(b[0]));
            assert(lowered(a[0])[0] == lowered(b[0])[0]);
        }
        assert forall|i: int| 0 <= i < a.len() - m implies (#[trigger] a.skip(m)[i] as u32) < 128 by {
            assert(a.skip(m)[i] == a[i + m]);
        }
        assert forall|i: int| 0 <= i < b.len() - n implies (#[trigger] b.skip(n)[i] as u32) < 128 by {
            assert(b.skip(n)[i] == b[i + n]);
        }
        lemma_folded_ties(a.skip(m), b.skip(n));
        assert forall|i: int|
            #![trigger a[i]]
            #![trigger b[i]]
            0 <= i < a.len() implies a[i] == b[i] || ((a[i] as u32) < 128 && (b[i] as u32) < 128
            && ascii_lower(a[i]) == ascii_lower(b[i])) by {
            if i >= m {
                assert(a.skip(m)[i - m] == a[i] && b.skip(n)[i - m] == b[i]);
            } else if is_digit(a[0]) && is_digit(b[0]) {
                assert(a.take(m)[i] == a[i] && b.take(n)[i] == b[i]);
            }
        }
    }
}

/// Names are ordered without regard to the case of ASCII letters, unless nothing else tells them
/// apart. In names of ASCII chars, that is where they are the same but for their case.
pub proof fn law_natural_order_ignores_case(
    a: Seq<char>,
    b: Seq<char>,
    x: Seq<char>,
    y: Seq<char>,
)
    requires
        same_but_case(a, x),
        same_but_case(b, y),
    ensures
        folded_order(x, y) == folded_order(a, b),
        folded_order(a, b) !is Equal ==> natural_order(x, y) == natural_order(a, b),
        all_ascii(a) && all_ascii(b) && !same_but_case(a, b) ==> natural_order(x, y)
            == natural_order(a, b),
{
    lemma_folded_order_ignores_case(a, b, x, y);
    if all_ascii(a) && all_ascii(b) && folded_order(a, b) is Equal {
        lemma_folded_ties(a, b);
    }
}

/// Entries are totally ordered: turning two entries round turns their order round, and the order
/// is transitive. With directories first, entries of one group come before all of the next.
pub proof fn law_entry_order_is_total(
    sort: FileTreeSort,
    a: Seq<char>,
    a_group: Group,
    b: Seq<char>,
    b_group: Group,
    c: Seq<char>,
    c_group: Group,
)
    ensures
        entry_order(sort, a, a_group, b, b_group).sign() == -entry_order(
            sort,
            b,
            b_group,
            a,
            a_group,
        ).sign(),
        entry_order(sort, a, a_group, b, b_group) is Equal ==> a == b,
        entry_order(sort, a, a_group, b, b_group).sign() <= 0 && entry_order(
            sort,
            b,
            b_group,
            c,
            c_group,
        ).sign() <= 0 ==> entry_order(sort, a, a_group, c, c_group).sign() <= 0,
        sort is DirectoriesFirst && a_group.rank() < b_group.rank() ==> entry_order(
            sort,
            a,
            a_group,
            b,
            b_group,
        ) is Less,
{
    law_natural_order_is_total(a, b, c);
    law_natural_order_is_total(b, a, c);
}

/// A directory comes right where its contents do: the paths below a directory come after it.
pub proof fn law_ancestors_come_first(
    sort: FileTreeSort,
    ancestor: Seq<Part>,
    below: Seq<Part>,
    below_is_dir: bool,
)
    requires
        below.len() > 0,
    ensures
        path_order(sort, ancestor, true, ancestor + below, below_is_dir) is Less,
    decreases ancestor.len(),
{
    let path = ancestor + below;
    if ancestor.len() > 0 {
        assert(path[0] == ancestor[0]);
        assert(path.skip(1) =~= ancestor.skip(1) + below);
        law_ancestors_come_first(sort, ancestor.skip(1), below, below_is_dir);
    }
}

/// Turning two paths round turns their order round.
pub proof fn law_path_order_turns_round(
    sort: FileTreeSort,
    a: Seq<Part>,
    a_is_dir: bool,
    b: Seq<Part>,
    b_is_dir: bool,
)
    ensures
        path_order(sort, a, a_is_dir, b, b_is_dir).sign() == -path_order(
            sort,
            b,
            b_is_dir,
            a,
            a_is_dir,
        ).sign(),
    decreases a.len(),
{
    if a.len() > 0 && b.len() > 0 {
        if a[0] == b[0] {
            law_path_order_turns_round(sort, a.skip(1), a_is_dir, b.skip(1), b_is_dir);
        } else {
            let x = lossy(part_name(a[0]));
            let y = lossy(part_name(b[0]));
            law_entry_order_is_total(
                sort,
                x,
                part_group(a.len() > 1 || a_is_dir),
                y,
                part_group(b.len() > 1 || b_is_dir),
                x,
                part_group(a.len() > 1 || a_is_dir),
            );
        }
    }
}

/// Whether the path is made of names only, all of them valid UTF-8.
pub open spec fn readable(path: Seq<Part>) -> bool {
    forall|i: int|
        0 <= i < path.len() ==> (#[trigger] path[i] matches Part::Normal(name) && valid_utf8(name))
}

/// Only a path ties with itself, where the paths are made of names that are valid UTF-8.
pub proof fn law_only_the_same_paths_tie(
    sort: FileTreeSort,
    a: Seq<Part>,
    a_is_dir: bool,
    b: Seq<Part>,
    b_is_dir: bool,
)
    requires
        readable(a),
        readable(b),
    ensures
        path_order(sort, a, a_is_dir, b, b_is_dir) is Equal <==> a == b,
    decreases a.len(),
{
    if a.len() > 0 && b.len() > 0 {
        if a[0] == b[0] {
            assert forall|i: int| 0 <= i < a.len() - 1 implies (
            #[trigger] a.skip(1)[i] matches Part::Normal(name) && valid_utf8(name)) by {
                assert(a.skip(1)[i] == a[i + 1]);
            }
            assert forall|i: int| 0 <= i < b.len() - 1 implies (
            #[trigger] b.skip(1)[i] matches Part::Normal(name) && valid_utf8(name)) by {
                assert(b.skip(1)[i] == b[i + 1]);
            }
            law_only_the_same_paths_tie(sort, a.skip(1), a_is_dir, b.skip(1), b_is_dir);
            assert(a =~= seq![a[0]] + a.skip(1));
            assert(b =~= seq![b[0]] + b.skip(1));
        } else {
            let x = part_name(a[0]);
            let y = part_name(b[0]);
            decode_utf8_encode_utf8(x);
            decode_utf8_encode_utf8(y);
            law_natural_order_is_total(lossy(x), lossy(y), lossy(x));
        }
    } else if a.len() == b.len() {
        assert(a =~= b);
    }
}

/// Whether two entries can be in one tree: one that another is below is a directory, and no entry is
/// both a directory and none.
pub open spec fn in_one_tree(a: Seq<Part>, a_is_dir: bool, b: Seq<Part>, b_is_dir: bool) -> bool {
    &&& a == b ==> a_is_dir == b_is_dir
    &&& a != b && a.is_prefix_of(b) ==> a_is_dir
    &&& a != b && b.is_prefix_of(a) ==> b_is_dir
}

/// Whether names are told apart by their texts.
pub open spec fn told_apart(a: Seq<Part>, b: Seq<Part>) -> bool {
    forall|i: int|
        0 <= i < a.len() && i < b.len() && #[trigger] a[i] != #[trigger] b[i] ==> lossy(
            part_name(a[i]),
        ) != lossy(part_name(b[i]))
}

proof fn lemma_in_one_tree_below(a: Seq<Part>, a_is_dir: bool, b: Seq<Part>, b_is_dir: bool)
    requires
        a.len() > 0,
        b.len() > 0,
        a[0] == b[0],
        in_one_tree(a, a_is_dir, b, b_is_dir),
        told_apart(a, b),
    ensures
        in_one_tree(a.skip(1), a_is_dir, b.skip(1), b_is_dir),
        told_apart(a.skip(1), b.skip(1)),
{
    let x = a.skip(1);
    let y = b.skip(1);
    assert(a =~= seq![a[0]] + x);
    assert(b =~= seq![a[0]] + y);
    if x.is_prefix_of(y) {
        assert(a =~= b.subrange(0, a.len() as int)) by {
            assert(x =~= y.subrange(0, x.len() as int));
            assert forall|i: int| 0 <= i < a.len() implies a[i] == b[i] by {
                if i > 0 {
                    assert(a[i] == x[i - 1]);
                    assert(y.subrange(0, x.len() as int)[i - 1] == y[i - 1]);
                }
            }
        }
    }
    if y.is_prefix_of(x) {
        assert(b =~= a.subrange(0, b.len() as int)) by {
            assert(y =~= x.subrange(0, y.len() as int));
            assert forall|i: int| 0 <= i < b.len() implies a[i] == b[i] by {
                if i > 0 {
                    assert(b[i] == y[i - 1]);
                    assert(x.subrange(0, y.len() as int)[i - 1] == x[i - 1]);
                }
            }
        }
    }
    assert forall|i: int|
        0 <= i < x.len() && i < y.len() && #[trigger] x[i] != #[trigger] y[i] implies lossy(
        part_name(x[i]),
    ) != lossy(part_name(y[i])) by {
        assert(x[i] == a[i + 1] && y[i] == b[i + 1]);
    }
}

proof fn lemma_same_group(a: Seq<Part>, a_is_dir: bool, b: Seq<Part>, b_is_dir: bool)
    requires
        a.len() > 0,
        b.len() > 0,
        a[0] == b[0],
        in_one_tree(a, a_is_dir, b, b_is_dir),
    ensures
        (a.len() > 1 || a_is_dir) == (b.len() > 1 || b_is_dir),
{
    if a.len() == 1 {
        assert(a =~= b.subrange(0, 1));
        if b.len() == 1 {
            assert(a =~= b);
        }
    } else if b.len() == 1 {
        assert(b =~= a.subrange(0, 1));
    }
}

/// The entries of a tree are totally ordered: only an entry ties with itself, and the order is
/// transitive, where names are told apart by their texts.
pub proof fn law_tree_order_is_total(
    sort: FileTreeSort,
    a: Seq<Part>,
    a_is_dir: bool,
    b: Seq<Part>,
    b_is_dir: bool,
    c: Seq<Part>,
    c_is_dir: bool,
)
    requires
        in_one_tree(a, a_is_dir, b, b_is_dir),
        in_one_tree(b, b_is_dir, c, c_is_dir),
        in_one_tree(a, a_is_dir, c, c_is_dir),
        told_apart(a, b),
        told_apart(b, c),
        told_apart(a, c),
    ensures
        path_order(sort, a, a_is_dir, b, b_is_dir) is Equal <==> a == b,
        path_order(sort, a, a_is_dir, b, b_is_dir).sign() <= 0 && path_order(
            sort,
            b,
            b_is_dir,
            c,
            c_is_dir,
        ).sign() <= 0 ==> path_order(sort, a, a_is_dir, c, c_is_dir).sign() <= 0,
    decreases a.len() + b.len(),
{
    if a.len() > 0 && b.len() > 0 {
        let a_group = part_group(a.len() > 1 || a_is_dir);
        let b_group = part_group(b.len() > 1 || b_is_dir);
        let c_group = part_group(c.len() > 1 || c_is_dir);
        let x = lossy(part_name(a[0]));
        let y = lossy(part_name(b[0]));
        if a[0] == b[0] {
            lemma_in_one_tree_below(a, a_is_dir, b, b_is_dir);
            lemma_same_group(a, a_is_dir, b, b_is_dir);
            assert(a =~= seq![a[0]] + a.skip(1));
            assert(b =~= seq![a[0]] + b.skip(1));
            if c.len() > 0 && c[0] == a[0] {
                lemma_in_one_tree_below(b, b_is_dir, c, c_is_dir);
                lemma_in_one_tree_below(a, a_is_dir, c, c_is_dir);
                law_tree_order_is_total(
                    sort,
                    a.skip(1),
                    a_is_dir,
                    b.skip(1),
                    b_is_dir,
                    c.skip(1),
                    c_is_dir,
                );
            } else {
                law_tree_order_is_total(
                    sort,
                    a.skip(1),
                    a_is_dir,
                    b.skip(1),
                    b_is_dir,
                    b.skip(1),
                    b_is_dir,
                );
            }
        } else {
            law_entry_order_is_total(sort, x, a_group, y, b_group, x, a_group);
            if c.len() > 0 {
                let z = lossy(part_name(c[0]));
                law_entry_order_is_total(sort, x, a_group, y, b_group, z, c_group);
                if b[0] == c[0] {
                    lemma_same_group(b, b_is_dir, c, c_is_dir);
                } else if a[0] == c[0] {
                    lemma_same_group(a, a_is_dir, c, c_is_dir);
                }
            }
        }
    } else if a.len() == b.len() {
        assert(a =~= b);
    }
}

fn order_numbers(a: usize, b: usize) -> (order: Order)
    ensures
        order == number_order(a as int, b as int),
{
    if a < b {
        Order::Less
    } else if a == b {
        Order::Equal
    } else {
        Order::Greater
    }
}

/// The order of `a[i..a_end]` and `b[k..b_end]`.
fn order_chars(
    a: &Vec<char>,
    i: usize,
    a_end: usize,
    b: &Vec<char>,
    k: usize,
    b_end: usize,
) -> (order: Order)
    requires
        i <= a_end <= a@.len(),
        k <= b_end <= b@.len(),
    ensures
        order == char_order(
            a@.subrange(i as int, a_end as int),
            b@.subrange(k as int, b_end as int),
        ),
{
    let ghost x = a@.subrange(i as int, a_end as int);
    let ghost y = b@.subrange(k as int, b_end as int);
    let mut n: usize = 0;
    assert(x.skip(0) =~= x);
    assert(y.skip(0) =~= y);
    while i + n < a_end && k + n < b_end
        invariant
            i + n <= a_end <= a@.len(),
            k + n <= b_end <= b@.len(),
            x == a@.subrange(i as int, a_end as int),
            y == b@.subrange(k as int, b_end as int),
            char_order(x, y) == char_order(x.skip(n as int), y.skip(n as int)),
        decreases a_end - i - n,
    {
        let p: char = a[i + n];
        let q: char = b[k + n];
        proof {
            assert(x.skip(n as int)[0] == p);
            assert(y.skip(n as int)[0] == q);
            assert(x.skip(n as int).skip(1) =~= x.skip(n + 1));
            assert(y.skip(n as int).skip(1) =~= y.skip(n + 1));
        }
        if p < q {
            return Order::Less;
        }
        if q < p {
            return Order::Greater;
        }
        n += 1;
    }
    order_numbers(a_end - i, b_end - k)
}

/// The end of the run of digits that starts at `from`.
fn digits_end(chars: &Vec<char>, from: usize) -> (end: usize)
    requires
        from <= chars@.len(),
    ensures
        end == from + digit_count(chars@.skip(from as int)),
        from <= end <= chars@.len(),
{
    let ghost s = chars@.skip(from as int);
    let mut end: usize = from;
    assert(s.skip(0) =~= s);
    while end < chars.len() && '0' <= chars[end] && chars[end] <= '9'
        invariant
            from <= end <= chars@.len(),
            s == chars@.skip(from as int),
            digit_count(s) == (end - from) + digit_count(s.skip(end - from)),
        decreases chars.len() - end,
    {
        assert(s.skip(end - from).skip(1) =~= s.skip(end - from + 1));
        assert(s.skip(end - from)[0] == chars@[end as int]);
        end += 1;
    }
    proof {
        if end < chars.len() {
            assert(s.skip(end - from)[0] == chars@[end as int]);
        }
    }
    end
}

/// The first digit of the run `from..end` that is not a zero.
fn skip_zeros(chars: &Vec<char>, from: usize, end: usize) -> (start: usize)
    requires
        from <= end <= chars@.len(),
    ensures
        from <= start <= end,
        significant(chars@.subrange(from as int, end as int)) == chars@.subrange(
            start as int,
            end as int,
        ),
{
    let ghost s = chars@.subrange(from as int, end as int);
    let mut start: usize = from;
    assert(s.skip(0) =~= s);
    while start < end && chars[start] == '0'
        invariant
            from <= start <= end <= chars@.len(),
            s == chars@.subrange(from as int, end as int),
            significant(s) == significant(s.skip(start - from)),
        decreases end - start,
    {
        assert(s.skip(start - from).skip(1) =~= s.skip(start - from + 1));
        assert(s.skip(start - from)[0] == chars@[start as int]);
        start += 1;
    }
    proof {
        assert(s.skip(start - from) =~= chars@.subrange(start as int, end as int));
        if start < end {
            assert(s.skip(start - from)[0] == chars@[start as int]);
        }
    }
    start
}

/// Compares the runs of digits `a[i..a_end]` and `b[k..b_end]` by value without parsing them, so
/// any length works.
fn order_digits(
    a: &Vec<char>,
    i: usize,
    a_end: usize,
    b: &Vec<char>,
    k: usize,
    b_end: usize,
) -> (order: Order)
    requires
        i <= a_end <= a@.len(),
        k <= b_end <= b@.len(),
    ensures
        order == digits_order(
            a@.subrange(i as int, a_end as int),
            b@.subrange(k as int, b_end as int),
        ),
{
    let a_start: usize = skip_zeros(a, i, a_end);
    let b_start: usize = skip_zeros(b, k, b_end);
    let lengths: Order = order_numbers(a_end - a_start, b_end - b_start);
    match lengths {
        Order::Equal => {
            let values: Order = order_chars(a, a_start, a_end, b, b_start, b_end);
            match values {
                Order::Equal => order_numbers(a_end - i, b_end - k),
                _ => values,
            }
        },
        _ => lengths,
    }
}

fn order_folded(a: &Vec<char>, b: &Vec<char>) -> (order: Order)
    ensures
        order == folded_order(a@, b@),
{
    let ghost s = a@;
    let ghost t = b@;
    let mut i: usize = 0;
    let mut k: usize = 0;
    assert(s.skip(0) =~= s);
    assert(t.skip(0) =~= t);
    while i < a.len() && k < b.len()
        invariant
            s == a@,
            t == b@,
            i <= s.len(),
            k <= t.len(),
            folded_order(s, t) == folded_order(s.skip(i as int), t.skip(k as int)),
        decreases a.len() - i,
    {
        let x: char = a[i];
        let y: char = b[k];
        let x_digit: bool = '0' <= x && x <= '9';
        let y_digit: bool = '0' <= y && y <= '9';
        let ghost p = s.skip(i as int);
        let ghost q = t.skip(k as int);
        assert(p[0] == x && q[0] == y);
        if x_digit && y_digit {
            let a_end: usize = digits_end(a, i);
            let b_end: usize = digits_end(b, k);
            proof {
                lemma_digit_count(p);
                assert(p.take(a_end - i) =~= s.subrange(i as int, a_end as int));
                assert(q.take(b_end - k) =~= t.subrange(k as int, b_end as int));
                assert(p.skip(a_end - i) =~= s.skip(a_end as int));
                assert(q.skip(b_end - k) =~= t.skip(b_end as int));
            }
            let order: Order = order_digits(a, i, a_end, b, k, b_end);
            match order {
                Order::Equal => {
                    i = a_end;
                    k = b_end;
                },
                _ => {
                    return order;
                },
            }
        } else if x_digit {
            return Order::Less;
        } else if y_digit {
            return Order::Greater;
        } else {
            let x_lower: Vec<char> = lowercase(x);
            let y_lower: Vec<char> = lowercase(y);
            proof {
                assert(x_lower@.subrange(0, x_lower@.len() as int) =~= x_lower@);
                assert(y_lower@.subrange(0, y_lower@.len() as int) =~= y_lower@);
                assert(p.skip(1) =~= s.skip(i + 1));
                assert(q.skip(1) =~= t.skip(k + 1));
            }
            let order: Order = order_chars(&x_lower, 0, x_lower.len(), &y_lower, 0, y_lower.len());
            match order {
                Order::Equal => {
                    i += 1;
                    k += 1;
                },
                _ => {
                    return order;
                },
            }
        }
    }
    order_numbers(a.len() - i, b.len() - k)
}

/// The order of two names.
pub fn order_names(a: &str, b: &str) -> (order: Order)
    ensures
        order == natural_order(a@, b@),
{
    let a_chars: Vec<char> = chars_of_str(a);
    let b_chars: Vec<char> = chars_of_str(b);
    let order: Order = order_folded(&a_chars, &b_chars);
    match order {
        Order::Equal => {
            assert(a_chars@.subrange(0, a_chars@.len() as int) =~= a_chars@);
            assert(b_chars@.subrange(0, b_chars@.len() as int) =~= b_chars@);
            order_chars(&a_chars, 0, a_chars.len(), &b_chars, 0, b_chars.len())
        },
        _ => order,
    }
}

/// The order of two entries of one directory.
pub fn order_entries(sort: FileTreeSort, a: &str, a_group: Group, b: &str, b_group: Group) -> (order:
    Order)
    ensures
        order == entry_order(sort, a@, a_group, b@, b_group),
{
    let groups: Order = match sort {
        FileTreeSort::DirectoriesFirst => order_groups(a_group, b_group),
        FileTreeSort::Alphabetical => Order::Equal,
    };
    match groups {
        Order::Equal => order_names(a, b),
        _ => groups,
    }
}

fn order_groups(a: Group, b: Group) -> (order: Order)
    ensures
        order == number_order(a.rank(), b.rank()),
{
    match (a, b) {
        (Group::Directory, Group::Directory) => Order::Equal,
        (Group::File, Group::File) => Order::Equal,
        (Group::Other, Group::Other) => Order::Equal,
        (Group::Directory, _) => Order::Less,
        (Group::File, Group::Other) => Order::Less,
        _ => Order::Greater,
    }
}

/// The order of two workspace-relative paths.
pub fn order_paths(
    sort: FileTreeSort,
    a: &TreePath,
    a_is_dir: bool,
    b: &TreePath,
    b_is_dir: bool,
) -> (order: Order)
    ensures
        order == path_order(sort, a@, a_is_dir, b@, b_is_dir),
{
    let x: &Vec<Component> = &a.components;
    let y: &Vec<Component> = &b.components;
    let ghost s = a@;
    let ghost t = b@;
    let mut i: usize = 0;
    assert(s.skip(0) =~= s);
    assert(t.skip(0) =~= t);
    while i < x.len() && i < y.len()
        invariant
            s == a@,
            t == b@,
            s == parts_of(x@),
            t == parts_of(y@),
            i <= x@.len(),
            i <= y@.len(),
            path_order(sort, s, a_is_dir, t, b_is_dir) == path_order(
                sort,
                s.skip(i as int),
                a_is_dir,
                t.skip(i as int),
                b_is_dir,
            ),
        decreases x.len() - i,
    {
        proof {
            assert(s.skip(i as int)[0] == x@[i as int]@);
            assert(t.skip(i as int)[0] == y@[i as int]@);
            assert(s.skip(i as int).skip(1) =~= s.skip(i + 1));
            assert(t.skip(i as int).skip(1) =~= t.skip(i + 1));
        }
        if !x[i].same(&y[i]) {
            let a_name: String = name_text(&x[i].name());
            let b_name: String = name_text(&y[i].name());
            let a_group: Group = if i + 1 < x.len() || a_is_dir {
                Group::Directory
            } else {
                Group::File
            };
            let b_group: Group = if i + 1 < y.len() || b_is_dir {
                Group::Directory
            } else {
                Group::File
            };
            return order_entries(sort, a_name.as_str(), a_group, b_name.as_str(), b_group);
        }
        i += 1;
    }
    order_numbers(x.len() - i, y.len() - i)
}

/// The same order in the terms of the standard library.
pub open spec fn to_ordering(order: Order) -> Ordering {
    match order {
        Order::Less => Ordering::Less,
        Order::Equal => Ordering::Equal,
        Order::Greater => Ordering::Greater,
    }
}

fn ordering_of(order: Order) -> (ordering: Ordering)
    ensures
        ordering == to_ordering(order),
{
    match order {
        Order::Less => Ordering::Less,
        Order::Equal => Ordering::Equal,
        Order::Greater => Ordering::Greater,
    }
}

/// Orders two entries of one directory.
pub fn entry_cmp(sort: FileTreeSort, a: (&str, Group), b: (&str, Group)) -> (ordering: Ordering)
    ensures
        ordering == to_ordering(entry_order(sort, a.0@, a.1, b.0@, b.1)),
{
    ordering_of(order_entries(sort, a.0, a.1, b.0, b.1))
}

/// Orders two workspace-relative paths the way the tree lists them, where `a_is_dir` and
/// `b_is_dir` tell whether the last component is a directory. An ancestor comes before its
/// descendants.
pub fn path_cmp(
    sort: FileTreeSort,
    a: &TreePath,
    a_is_dir: bool,
    b: &TreePath,
    b_is_dir: bool,
) -> (ordering: Ordering)
    ensures
        ordering == to_ordering(path_order(sort, a@, a_is_dir, b@, b_is_dir)),
{
    ordering_of(order_paths(sort, a, a_is_dir, b, b_is_dir))
}

/// Compares names like `eza` sorts them: ignoring case, with runs of digits compared by their
/// value, so `file2` comes before `file10`. Equal values put the shorter run first (`2` before
/// `02`), and names that still tie are ordered by their bytes.
pub fn natural_cmp(a: &str, b: &str) -> (ordering: Ordering)
    ensures
        ordering == to_ordering(natural_order(a@, b@)),
{
    ordering_of(order_names(a, b))
}

/// With directories first, directories come before files and those before everything else, whatever
/// they are called. Within one of the groups, and in a tree sorted by names alone, the names decide.
pub proof fn law_directories_come_before_files(a: Seq<char>, b: Seq<char>, a_group: Group, b_group: Group)
    ensures
        ({
            let sort = FileTreeSort::DirectoriesFirst;
            &&& entry_order(sort, a, Group::Directory, b, Group::File) is Less
            &&& entry_order(sort, a, Group::Directory, b, Group::Other) is Less
            &&& entry_order(sort, a, Group::File, b, Group::Other) is Less
            &&& entry_order(sort, a, Group::File, b, Group::Directory) is Greater
            &&& entry_order(sort, a, Group::Other, b, Group::Directory) is Greater
            &&& entry_order(sort, a, Group::Other, b, Group::File) is Greater
            &&& entry_order(sort, a, a_group, b, a_group) == natural_order(a, b)
        }),
        entry_order(FileTreeSort::Alphabetical, a, a_group, b, b_group) == natural_order(a, b),
{
}

/// Names that start with a digit come before those that do not, an empty name before all others, and
/// of two names that start with the same letter, whatever its case, the rest decides, unless it ties.
pub proof fn law_names_are_ordered_from_the_front(a: Seq<char>, b: Seq<char>)
    ensures
        a.len() == 0 && b.len() > 0 ==> natural_order(a, b) is Less,
        a.len() > 0 && b.len() > 0 && is_digit(a[0]) && !is_digit(b[0]) ==> natural_order(a, b)
            is Less,
        a.len() > 0 && b.len() > 0 && !is_digit(a[0]) && !is_digit(b[0]) && a[0] == b[0]
            ==> folded_order(a, b) == folded_order(a.skip(1), b.skip(1)),
{
    if a.len() > 0 && b.len() > 0 && a[0] == b[0] {
        lemma_char_order_same(lowered(a[0]));
    }
}

proof fn lemma_char_order_same(s: Seq<char>)
    ensures
        char_order(s, s) is Equal,
    decreases s.len(),
{
    if s.len() > 0 {
        lemma_char_order_same(s.skip(1));
    }
}

/// The powers of ten.
pub open spec fn tens(n: nat) -> int
    decreases n,
{
    if n == 0 {
        1
    } else {
        10 * tens((n - 1) as nat)
    }
}

/// Whether all chars are digits.
pub open spec fn all_digits(s: Seq<char>) -> bool {
    forall|i: int| 0 <= i < s.len() ==> is_digit(#[trigger] s[i])
}

proof fn lemma_tens(n: nat, more: nat)
    requires
        n <= more,
    ensures
        1 <= tens(n) <= tens(more),
    decreases more,
{
    if n < more {
        lemma_tens(n, (more - 1) as nat);
    } else if n > 0 {
        lemma_tens((n - 1) as nat, (n - 1) as nat);
    }
}

proof fn lemma_number_bound(s: Seq<char>)
    requires
        all_digits(s),
    ensures
        0 <= number_of(s) < tens(s.len()),
    decreases s.len(),
{
    if s.len() > 0 {
        let rest = s.drop_last();
        assert forall|i: int| 0 <= i < rest.len() implies is_digit(#[trigger] rest[i]) by {
            assert(rest[i] == s[i]);
        }
        lemma_number_bound(rest);
        assert(is_digit(s[s.len() - 1]));
    }
}

proof fn lemma_number_front(s: Seq<char>)
    requires
        s.len() > 0,
    ensures
        number_of(s) == (s[0] as u32 - '0' as u32) * tens((s.len() - 1) as nat) + number_of(
            s.skip(1),
        ),
    decreases s.len(),
{
    let first = s[0] as u32 - '0' as u32;
    if s.len() == 1 {
        assert(s.skip(1) =~= Seq::<char>::empty());
        assert(s.drop_last() =~= Seq::<char>::empty());
        assert(first * 1 == first) by (nonlinear_arith);
    } else {
        let front = s.drop_last();
        lemma_number_front(front);
        assert(s.skip(1).drop_last() =~= front.skip(1));
        assert(s.skip(1).last() == s.last());
        let power = tens((front.len() - 1) as nat);
        assert(first * power * 10 == first * (10 * power)) by (nonlinear_arith);
        let rest = number_of(front.skip(1));
        assert((first * power + rest) * 10 == first * power * 10 + rest * 10) by (nonlinear_arith);
    }
}

proof fn lemma_significant_number(s: Seq<char>)
    requires
        all_digits(s),
    ensures
        all_digits(significant(s)),
        number_of(significant(s)) == number_of(s),
        significant(s).len() > 0 ==> significant(s)[0] != '0',
    decreases s.len(),
{
    if s.len() > 0 && s[0] == '0' {
        let rest = s.skip(1);
        assert forall|i: int| 0 <= i < rest.len() implies is_digit(#[trigger] rest[i]) by {
            assert(rest[i] == s[i + 1]);
        }
        lemma_significant_number(rest);
        lemma_number_front(s);
        assert(0 * tens((s.len() - 1) as nat) == 0) by (nonlinear_arith);
    }
}

proof fn lemma_leading(s: Seq<char>)
    requires
        all_digits(s),
        s.len() > 0,
        s[0] != '0',
    ensures
        tens((s.len() - 1) as nat) <= number_of(s),
{
    lemma_number_front(s);
    let rest = s.skip(1);
    assert forall|i: int| 0 <= i < rest.len() implies is_digit(#[trigger] rest[i]) by {
        assert(rest[i] == s[i + 1]);
    }
    lemma_number_bound(rest);
    let first = s[0] as u32 - '0' as u32;
    let power = tens((s.len() - 1) as nat);
    lemma_tens((s.len() - 1) as nat, (s.len() - 1) as nat);
    assert(is_digit(s[0]));
    assert(power <= first * power) by (nonlinear_arith)
        requires
            1 <= first,
            1 <= power,
    ;
}

proof fn lemma_same_length(a: Seq<char>, b: Seq<char>)
    requires
        all_digits(a),
        all_digits(b),
        a.len() == b.len(),
    ensures
        char_order(a, b) is Less <==> number_of(a) < number_of(b),
        char_order(a, b) is Greater <==> number_of(a) > number_of(b),
    decreases a.len(),
{
    if a.len() > 0 {
        let (x, y) = (a.skip(1), b.skip(1));
        assert forall|i: int| 0 <= i < x.len() implies is_digit(#[trigger] x[i]) by {
            assert(x[i] == a[i + 1]);
        }
        assert forall|i: int| 0 <= i < y.len() implies is_digit(#[trigger] y[i]) by {
            assert(y[i] == b[i + 1]);
        }
        lemma_same_length(x, y);
        lemma_number_front(a);
        lemma_number_front(b);
        lemma_number_bound(x);
        lemma_number_bound(y);
        assert(is_digit(a[0]) && is_digit(b[0]));
        let power = tens((a.len() - 1) as nat);
        let (p, q) = (a[0] as u32 - '0' as u32, b[0] as u32 - '0' as u32);
        if p < q {
            assert(p * power + power <= q * power) by (nonlinear_arith)
                requires
                    p + 1 <= q,
                    0 <= power,
            ;
        } else if q < p {
            assert(q * power + power <= p * power) by (nonlinear_arith)
                requires
                    q + 1 <= p,
                    0 <= power,
            ;
        }
    } else {
        assert(number_of(a) == 0 && number_of(b) == 0);
    }
}

/// Runs of digits are ordered by the numbers that they make, and those of the same number by their
/// lengths.
pub proof fn law_digits_are_ordered_by_value(a: Seq<char>, b: Seq<char>)
    requires
        all_digits(a),
        all_digits(b),
    ensures
        number_of(a) < number_of(b) ==> digits_order(a, b) is Less,
        number_of(a) > number_of(b) ==> digits_order(a, b) is Greater,
        number_of(a) == number_of(b) && a.len() < b.len() ==> digits_order(a, b) is Less,
        number_of(a) == number_of(b) && a.len() > b.len() ==> digits_order(a, b) is Greater,
        number_of(a) == number_of(b) && a.len() == b.len() ==> digits_order(a, b) is Equal,
{
    let (x, y) = (significant(a), significant(b));
    lemma_significant_number(a);
    lemma_significant_number(b);
    lemma_number_bound(x);
    lemma_number_bound(y);
    if x.len() < y.len() {
        lemma_leading(y);
        lemma_tens(x.len(), (y.len() - 1) as nat);
    } else if y.len() < x.len() {
        lemma_leading(x);
        lemma_tens(y.len(), (x.len() - 1) as nat);
    } else {
        lemma_same_length(x, y);
    }
}

/// Names that go on with numbers where they first differ are ordered by these numbers.
pub proof fn law_numbers_in_names_count(a: Seq<char>, b: Seq<char>)
    requires
        a.len() > 0,
        b.len() > 0,
        is_digit(a[0]),
        is_digit(b[0]),
        number_of(a.take(digit_count(a) as int)) < number_of(b.take(digit_count(b) as int)),
    ensures
        natural_order(a, b) is Less,
{
    lemma_digit_run(a);
    lemma_digit_run(b);
    law_digits_are_ordered_by_value(
        a.take(digit_count(a) as int),
        b.take(digit_count(b) as int),
    );
}

proof fn lemma_digit_run(s: Seq<char>)
    ensures
        digit_count(s) <= s.len(),
        all_digits(s.take(digit_count(s) as int)),
        digit_count(s) < s.len() ==> !is_digit(s[digit_count(s) as int]),
    decreases s.len(),
{
    if s.len() > 0 && is_digit(s[0]) {
        let rest = s.skip(1);
        lemma_digit_run(rest);
        let run = s.take(digit_count(s) as int);
        assert forall|i: int| 0 <= i < run.len() implies is_digit(#[trigger] run[i]) by {
            if i > 0 {
                assert(rest.take(digit_count(rest) as int)[i - 1] == s[i]);
            }
        }
        if digit_count(rest) < rest.len() {
            assert(rest[digit_count(rest) as int] == s[digit_count(s) as int]);
        }
    }
}

/// Texts are ordered by the first chars in which they differ, and one that another starts with comes
/// before it.
pub proof fn law_texts_are_ordered_by_their_first_difference(
    same: Seq<char>,
    a: char,
    b: char,
    after_a: Seq<char>,
    after_b: Seq<char>,
)
    requires
        (a as int) < b as int,
    ensures
        char_order(same + seq![a] + after_a, same + seq![b] + after_b) is Less,
        char_order(same + seq![b] + after_b, same + seq![a] + after_a) is Greater,
        char_order(same, same + seq![a] + after_a) is Less,
    decreases same.len(),
{
    if same.len() > 0 {
        let rest = same.skip(1);
        law_texts_are_ordered_by_their_first_difference(rest, a, b, after_a, after_b);
        assert((same + seq![a] + after_a).skip(1) =~= rest + seq![a] + after_a);
        assert((same + seq![b] + after_b).skip(1) =~= rest + seq![b] + after_b);
    }
}

/// Paths are ordered by the first parts in which they differ, as entries of the directory that both
/// are in: what they have in common does not count.
pub proof fn law_paths_are_ordered_where_they_part(
    sort: FileTreeSort,
    same: Seq<Part>,
    a: Seq<Part>,
    a_is_dir: bool,
    b: Seq<Part>,
    b_is_dir: bool,
)
    requires
        a.len() > 0,
        b.len() > 0,
        a[0] != b[0],
    ensures
        path_order(sort, same + a, a_is_dir, same + b, b_is_dir) == entry_order(
            sort,
            lossy(part_name(a[0])),
            if a.len() > 1 || a_is_dir {
                Group::Directory
            } else {
                Group::File
            },
            lossy(part_name(b[0])),
            if b.len() > 1 || b_is_dir {
                Group::Directory
            } else {
                Group::File
            },
        ),
    decreases same.len(),
{
    if same.len() > 0 {
        let rest = same.skip(1);
        law_paths_are_ordered_where_they_part(sort, rest, a, a_is_dir, b, b_is_dir);
        assert((same + a).skip(1) =~= rest + a);
        assert((same + b).skip(1) =~= rest + b);
        assert((same + a)[0] == same[0] && (same + b)[0] == same[0]);
    } else {
        assert(same + a =~= a);
        assert(same + b =~= b);
    }
}

/// The letters A to Z are those of the small ones that are 32 chars further on, and no other ASCII char
/// is another one in lower case. So a name sorts like itself with one of its letters in the other case,
/// unless nothing else tells the two apart.
pub proof fn law_capitals_are_small_letters(c: char, front: Seq<char>, back: Seq<char>, other: Seq<char>)
    requires
        (c as u32) < 128,
    ensures
        'A' <= c <= 'Z' ==> ascii_lower(c) as u32 == c as u32 + 32,
        !('A' <= c <= 'Z') ==> ascii_lower(c) == c,
        folded_order(front + seq![ascii_lower(c)] + back, other) == folded_order(
            front + seq![c] + back,
            other,
        ),
{
    let a = front + seq![c] + back;
    let x = front + seq![ascii_lower(c)] + back;
    let small = ascii_lower(c);
    assert((small as u32) < 128 && ascii_lower(small) == small);
    assert forall|i: int|
        #![trigger a[i]]
        #![trigger x[i]]
        0 <= i < a.len() implies a[i] == x[i] || ((a[i] as u32) < 128 && (x[i] as u32) < 128
        && ascii_lower(a[i]) == ascii_lower(x[i])) by {
        if i == front.len() {
            assert(a[i] == c && x[i] == small);
        }
    }
    law_natural_order_ignores_case(a, other, x, other);
}

} // verus!
