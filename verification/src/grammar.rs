//! What the source of a pattern is made of, and that the parser reads exactly such sources.
//!
//! A source is written down as branches of parts, each an atom and how often it is repeated.
//! What such a source looks like and what it stands for is said here without looking at any
//! byte twice; the laws say that the parser takes the one for the other, and nothing else.
use crate::ast::Pattern;
use crate::parser::{
    atom_at, branches_at, byte_at, class_at, class_items, escape, joined, parts_at, pattern_in,
    repeat_at, whole,
};
use vstd::prelude::*;

verus! {

/// One item of a class.
pub enum Item {
    /// A byte.
    One(u8),
    /// The bytes from one to another.
    Span(u8, u8),
    /// What a byte stands for behind a backslash.
    Escaped(u8),
}

/// What can be repeated.
pub enum Atom {
    /// A byte that stands for itself.
    Byte(u8),
    /// `.`
    Dot,
    /// `^`
    Begin,
    /// `$`
    End,
    /// What a byte stands for behind a backslash.
    Escaped(u8),
    /// `[...]`, or `[^...]` if it is negated.
    Class(bool, Seq<Item>),
    /// `(...)`
    Group(Seq<Seq<Part>>),
}

/// How often an atom is repeated.
pub enum Times {
    Once,
    /// `*`
    Any,
    /// `+`
    Many,
    /// `?`
    Maybe,
}

/// An atom and how often it is repeated.
pub struct Part {
    pub atom: Atom,
    pub times: Times,
}

/// Whether `text` stands in `bytes` at `pos`.
pub open spec fn stands_at(bytes: Seq<u8>, pos: int, text: Seq<u8>) -> bool {
    &&& 0 <= pos
    &&& pos + text.len() <= bytes.len()
    &&& forall|i: int| 0 <= i < text.len() ==> bytes[pos + i] == #[trigger] text[i]
}

// ---------------------------------------------------------------------------
// Classes.
// ---------------------------------------------------------------------------

/// Whether `x` is an ASCII digit.
pub open spec fn is_digit(x: u8) -> bool {
    '0' as int <= x <= '9' as int
}

/// Whether `x` is an ASCII letter or digit or an underscore.
pub open spec fn is_word(x: u8) -> bool {
    is_digit(x) || 'a' as int <= x <= 'z' as int || 'A' as int <= x <= 'Z' as int || x
        == '_' as int
}

/// Whether `x` is ASCII white space: a space, or a tab, line feed, vertical tab, form feed or
/// carriage return.
pub open spec fn is_space(x: u8) -> bool {
    x == ' ' as int || x == 9 || x == 10 || x == 11 || x == 12 || x == 13
}

/// Whether a backslash and `b` stand for `x`.
pub open spec fn escape_has(b: u8, x: u8) -> bool {
    if b == 'd' as int {
        is_digit(x)
    } else if b == 'D' as int {
        !is_digit(x)
    } else if b == 'w' as int {
        is_word(x)
    } else if b == 'W' as int {
        !is_word(x)
    } else if b == 's' as int {
        is_space(x)
    } else if b == 'S' as int {
        !is_space(x)
    } else if b == 'n' as int {
        x == '\n' as int
    } else if b == 't' as int {
        x == '\t' as int
    } else if b == 'r' as int {
        x == '\r' as int
    } else {
        x == b
    }
}

/// Whether an item has `x`.
pub open spec fn item_has(item: Item, x: u8) -> bool {
    match item {
        Item::One(b) => x == b,
        Item::Span(lo, hi) => lo <= x <= hi,
        Item::Escaped(b) => escape_has(b, x),
    }
}

/// Whether one of the items has `x`.
pub open spec fn items_have(items: Seq<Item>, x: u8) -> bool {
    exists|i: int| 0 <= i < items.len() && item_has(#[trigger] items[i], x)
}

/// An item as it is written.
pub open spec fn item_image(item: Item) -> Seq<u8> {
    match item {
        Item::One(b) => seq![b],
        Item::Span(lo, hi) => seq![lo, 0x2du8, hi],
        Item::Escaped(b) => seq![0x5cu8, b],
    }
}

/// Items as they are written.
pub open spec fn items_image(items: Seq<Item>) -> Seq<u8>
    decreases items.len(),
{
    if items.len() == 0 {
        Seq::empty()
    } else {
        item_image(items[0]) + items_image(items.drop_first())
    }
}

/// Whether items are read one by one as they are written. A `]` closes the class unless it
/// stands first, a backslash escapes, and a `-` makes a span of the bytes on both sides of it
/// unless it stands last.
pub open spec fn are_items(items: Seq<Item>, first: bool) -> bool
    decreases items.len(),
{
    if items.len() == 0 {
        !first
    } else {
        let rest = items.drop_first();
        let dashed = rest.len() > 0 && item_image(rest[0])[0] == 0x2d && rest
            != seq![Item::One(0x2du8)];
        &&& match items[0] {
            Item::One(b) => b != 0x5c && (b != 0x5d || first) && !dashed,
            Item::Span(lo, hi) => lo != 0x5c && (lo != 0x5d || first) && hi != 0x5d && lo <= hi,
            Item::Escaped(b) => b != 0x5e && b != 0x24,
        }
        &&& are_items(rest, false)
    }
}

/// Whether items can stand in a class.
pub open spec fn is_class(negated: bool, items: Seq<Item>) -> bool {
    &&& are_items(items, true)
    &&& !negated ==> item_image(items[0])[0] != 0x5e
}

/// A class as it is written.
pub open spec fn class_image(negated: bool, items: Seq<Item>) -> Seq<u8> {
    (if negated {
        seq![0x5bu8, 0x5eu8]
    } else {
        seq![0x5bu8]
    }) + items_image(items) + seq![0x5du8]
}

proof fn lemma_escape(bytes: Seq<u8>, pos: int, in_class: bool)
    requires
        0 <= pos < bytes.len(),
        !in_class || (bytes[pos] != 0x5e && bytes[pos] != 0x24),
    ensures
        escape(bytes, pos, in_class) == Ok::<(Set<u8>, int), Seq<char>>(
            (Set::new(|x: u8| escape_has(bytes[pos], x)), pos + 1),
        ),
{
    let set = Set::new(|x: u8| escape_has(bytes[pos], x));
    if let Ok((found, _)) = escape(bytes, pos, in_class) {
        assert(found =~= set);
    }
}

proof fn lemma_items_first(items: Seq<Item>, x: u8)
    requires
        items.len() > 0,
    ensures
        items_have(items, x) <==> item_has(items[0], x) || items_have(items.drop_first(), x),
{
    let rest = items.drop_first();
    if items_have(items, x) {
        let i = choose|i: int| 0 <= i < items.len() && item_has(#[trigger] items[i], x);
        if i > 0 {
            assert(rest[i - 1] == items[i]);
        }
    }
    if items_have(rest, x) {
        let i = choose|i: int| 0 <= i < rest.len() && item_has(#[trigger] rest[i], x);
        assert(items[i + 1] == rest[i]);
    }
}

/// The items of a class are read one by one.
proof fn lemma_items_read(items: Seq<Item>, first: bool, bytes: Seq<u8>, pos: int, set: Set<u8>)
    requires
        are_items(items, first),
        stands_at(bytes, pos, items_image(items) + seq![0x5du8]),
    ensures
        class_items(bytes, pos, first, set) == Ok::<(Set<u8>, int), Seq<char>>(
            (
                set.union(Set::new(|x: u8| items_have(items, x))),
                pos + items_image(items).len() + 1,
            ),
        ),
    decreases items.len(),
{
    let text = items_image(items) + seq![0x5du8];
    if items.len() == 0 {
        assert(text[0] == 0x5d);
        assert(bytes[pos + 0] == 0x5d);
        assert(set.union(Set::new(|x: u8| items_have(items, x))) =~= set);
    } else {
        let rest = items.drop_first();
        let image = item_image(items[0]);
        let more = items_image(rest) + seq![0x5du8];
        let next = pos + image.len();
        let own = Set::new(|x: u8| item_has(items[0], x));
        assert(text =~= image + more);
        assert forall|i: int| 0 <= i < more.len() implies bytes[next + i] == #[trigger] more[i] by {
            assert(text[image.len() + i] == more[i]);
            assert(bytes[pos + (image.len() + i)] == text[image.len() + i]);
        }
        assert forall|i: int| 0 <= i < image.len() implies bytes[pos + i] == #[trigger] image[i] by {
            assert(text[i] == image[i]);
        }
        assert(image[0] == bytes[pos + 0]);
        lemma_items_read(rest, false, bytes, next, set.union(own));
        assert(set.union(own).union(Set::new(|x: u8| items_have(rest, x))) =~= set.union(
            Set::new(|x: u8| items_have(items, x)),
        )) by {
            assert forall|x: u8| #[trigger] items_have(items, x) <==> own.contains(x)
                || items_have(rest, x) by {
                lemma_items_first(items, x);
            }
        }
        match items[0] {
            Item::One(b) => {
                assert(own =~= set![b]);
                assert(more[0] == bytes[next + 0]);
                if rest.len() > 0 {
                    assert(items_image(rest)[0] == item_image(rest[0])[0]);
                    assert(more[0] == item_image(rest[0])[0]);
                    if rest == seq![Item::One(0x2du8)] {
                        assert(rest.drop_first() =~= Seq::empty());
                        assert(items_image(rest.drop_first()) =~= Seq::empty());
                        assert(items_image(rest) =~= seq![0x2du8]);
                        assert(more[1] == 0x5d);
                        assert(bytes[next + 1] == more[1]);
                    }
                }
            },
            Item::Span(lo, hi) => {
                assert(image[1] == bytes[pos + 1]);
                assert(image[2] == bytes[pos + 2]);
                assert(own =~= Set::new(|x: u8| lo <= x <= bytes[pos + 2]));
            },
            Item::Escaped(b) => {
                assert(image[1] == bytes[pos + 1]);
                lemma_escape(bytes, pos + 1, true);
                assert(own =~= Set::new(|x: u8| escape_has(bytes[pos + 1], x)));
            },
        }
    }
}

/// A class is read as the set of the bytes that one of its items has, or that none has if it
/// is negated.
pub proof fn classes_are_read(negated: bool, items: Seq<Item>, bytes: Seq<u8>, pos: int)
    requires
        is_class(negated, items),
        stands_at(bytes, pos, class_image(negated, items)),
    ensures
        class_at(bytes, pos) == Ok::<(Pattern, int), Seq<char>>(
            (
                Pattern::Class(Set::new(|x: u8| items_have(items, x) != negated)),
                pos + class_image(negated, items).len(),
            ),
        ),
{
    let text = class_image(negated, items);
    let body = items_image(items) + seq![0x5du8];
    let head: int = if negated {
        2
    } else {
        1
    };
    let from = pos + head;
    assert forall|i: int| 0 <= i < body.len() implies bytes[from + i] == #[trigger] body[i] by {
        assert(text[head + i] == body[i]);
        assert(bytes[pos + (head + i)] == text[head + i]);
    }
    assert(text[1] == bytes[pos + 1]);
    if !negated {
        assert(items_image(items)[0] == item_image(items[0])[0]);
        assert(body[0] == item_image(items[0])[0]);
    }
    lemma_items_read(items, true, bytes, from, Set::empty());
    let set = Set::<u8>::empty().union(Set::new(|x: u8| items_have(items, x)));
    if negated {
        assert(set.complement() =~= Set::new(|x: u8| items_have(items, x) != negated));
    } else {
        assert(set =~= Set::new(|x: u8| items_have(items, x) != negated));
    }
}

/// The bytes of a class of some items and further ones are those of the class of the first
/// together with those of the class of the others.
pub proof fn items_add_up(some: Seq<Item>, others: Seq<Item>, x: u8)
    ensures
        items_have(some + others, x) <==> items_have(some, x) || items_have(others, x),
{
    let all = some + others;
    if items_have(all, x) {
        let i = choose|i: int| 0 <= i < all.len() && item_has(#[trigger] all[i], x);
        if i < some.len() {
            assert(some[i] == all[i]);
        } else {
            assert(others[i - some.len()] == all[i]);
        }
    }
    if items_have(some, x) {
        let i = choose|i: int| 0 <= i < some.len() && item_has(#[trigger] some[i], x);
        assert(all[i] == some[i]);
    }
    if items_have(others, x) {
        let i = choose|i: int| 0 <= i < others.len() && item_has(#[trigger] others[i], x);
        assert(all[some.len() + i] == others[i]);
    }
}

/// What is read as items is written as items.
proof fn lemma_only_items(bytes: Seq<u8>, pos: int, first: bool, set: Set<u8>) -> (items: Seq<Item>)
    requires
        0 <= pos,
        class_items(bytes, pos, first, set) is Ok,
    ensures
        are_items(items, first),
        stands_at(bytes, pos, items_image(items) + seq![0x5du8]),
    decreases bytes.len() - pos,
{
    let b = bytes[pos];
    if b == 0x5d && !first {
        let items = Seq::<Item>::empty();
        assert(items_image(items) + seq![0x5du8] =~= seq![0x5du8]);
        items
    } else {
        let ranged = byte_at(bytes, pos + 1) == Some(0x2du8) && pos + 2 < bytes.len() && bytes[pos
            + 2] != 0x5d;
        let item = if b == 0x5c {
            Item::Escaped(bytes[pos + 1])
        } else if ranged {
            Item::Span(b, bytes[pos + 2])
        } else {
            Item::One(b)
        };
        let own = if b == 0x5c {
            escape(bytes, pos + 1, true)->Ok_0.0
        } else if ranged {
            Set::new(|x: u8| b <= x <= bytes[pos + 2])
        } else {
            set![b]
        };
        let next = pos + item_image(item).len();
        let rest = lemma_only_items(bytes, next, false, set.union(own));
        let items = seq![item] + rest;
        assert(items.drop_first() =~= rest);
        let text = items_image(items) + seq![0x5du8];
        let more = items_image(rest) + seq![0x5du8];
        assert(text =~= item_image(item) + more);
        assert forall|i: int| 0 <= i < text.len() implies bytes[pos + i] == #[trigger] text[i] by {
            if i >= item_image(item).len() {
                let j = i - item_image(item).len();
                assert(text[i] == more[j]);
                assert(bytes[next + j] == more[j]);
            }
        }
        if item is One && rest.len() > 0 {
            assert(items_image(rest)[0] == item_image(rest[0])[0]);
            assert(more[0] == item_image(rest[0])[0]);
            assert(bytes[next + 0] == more[0]);
            if more[0] == 0x2d {
                assert(bytes[pos + 1] == 0x2d);
                assert(more.len() >= 2);
                assert(bytes[next + 1] == more[1]);
                assert(bytes[pos + 2] == 0x5d);
                match rest[0] {
                    Item::One(d) => {
                        let last = rest.drop_first();
                        if last.len() > 0 {
                            assert(items_image(last)[0] == item_image(last[0])[0]);
                            assert(more[1] == item_image(last[0])[0]);
                            assert(are_items(last, false));
                        }
                        assert(rest =~= seq![Item::One(0x2du8)]);
                    },
                    Item::Span(lo, hi) => {
                        assert(more[1] == 0x2d);
                    },
                    Item::Escaped(_) => {},
                }
            }
        }
        items
    }
}

/// What is read as a class is written as one.
proof fn lemma_only_classes(bytes: Seq<u8>, pos: int) -> (written: (bool, Seq<Item>))
    requires
        0 <= pos < bytes.len(),
        bytes[pos] == 0x5b,
        class_at(bytes, pos) is Ok,
    ensures
        is_class(written.0, written.1),
        stands_at(bytes, pos, class_image(written.0, written.1)),
{
    let negated = byte_at(bytes, pos + 1) == Some(0x5eu8);
    let head: int = if negated {
        2
    } else {
        1
    };
    let items = lemma_only_items(bytes, pos + head, true, Set::empty());
    let text = class_image(negated, items);
    let body = items_image(items) + seq![0x5du8];
    assert forall|i: int| 0 <= i < text.len() implies bytes[pos + i] == #[trigger] text[i] by {
        if i >= head {
            assert(text[i] == body[i - head]);
            assert(bytes[pos + head + (i - head)] == body[i - head]);
        }
    }
    assert(items_image(items)[0] == item_image(items[0])[0]);
    assert(body[0] == item_image(items[0])[0]);
    assert(bytes[pos + head + 0] == body[0]);
    (negated, items)
}

// ---------------------------------------------------------------------------
// Whole sources.
// ---------------------------------------------------------------------------

/// Whether a byte stands for itself outside classes.
pub open spec fn is_plain(b: u8) -> bool {
    let c = b as char;
    !(c == '(' || c == ')' || c == '[' || c == '.' || c == '^' || c == '$' || c == '\\' || c == '|'
        || c == '*' || c == '+' || c == '?')
}

/// An atom as it is written.
pub open spec fn atom_image(atom: Atom) -> Seq<u8>
    decreases atom,
{
    match atom {
        Atom::Byte(b) => seq![b],
        Atom::Dot => seq!['.' as u8],
        Atom::Begin => seq!['^' as u8],
        Atom::End => seq!['$' as u8],
        Atom::Escaped(b) => seq!['\\' as u8, b],
        Atom::Class(negated, items) => class_image(negated, items),
        Atom::Group(branches) => seq!['(' as u8] + branches_image(branches, 0) + seq![')' as u8],
    }
}

/// How a repetition is written.
pub open spec fn times_image(times: Times) -> Seq<u8> {
    match times {
        Times::Once => Seq::empty(),
        Times::Any => seq!['*' as u8],
        Times::Many => seq!['+' as u8],
        Times::Maybe => seq!['?' as u8],
    }
}

/// The parts from the `i`-th on, as they are written.
pub open spec fn parts_image(parts: Seq<Part>, i: int) -> Seq<u8>
    decreases parts, parts.len() - i,
{
    if 0 <= i < parts.len() {
        atom_image(parts[i].atom) + times_image(parts[i].times) + parts_image(parts, i + 1)
    } else {
        Seq::empty()
    }
}

/// The branches from the `i`-th on, as they are written.
pub open spec fn branches_image(branches: Seq<Seq<Part>>, i: int) -> Seq<u8>
    decreases branches, branches.len() - i,
{
    if 0 <= i < branches.len() - 1 {
        parts_image(branches[i], 0) + seq!['|' as u8] + branches_image(branches, i + 1)
    } else if i == branches.len() - 1 && i >= 0 {
        parts_image(branches[i], 0)
    } else {
        Seq::empty()
    }
}

/// What an atom stands for.
pub open spec fn atom_meaning(atom: Atom) -> Pattern
    decreases atom,
{
    match atom {
        Atom::Byte(b) => Pattern::Class(Set::new(|x: u8| x == b)),
        Atom::Dot => Pattern::Class(Set::new(|x: u8| x != '\n' as int)),
        Atom::Begin => Pattern::Start,
        Atom::End => Pattern::End,
        Atom::Escaped(b) => Pattern::Class(Set::new(|x: u8| escape_has(b, x))),
        Atom::Class(negated, items) => Pattern::Class(
            Set::new(|x: u8| items_have(items, x) != negated),
        ),
        Atom::Group(branches) => if branches.len() == 1 {
            branch_meaning(branches[0])
        } else {
            branches_meaning(branches, 0)
        },
    }
}

/// An atom, repeated.
pub open spec fn repeated(times: Times, atom: Pattern) -> Pattern {
    match times {
        Times::Once => atom,
        Times::Any => Pattern::Star(Box::new(atom)),
        Times::Many => Pattern::Plus(Box::new(atom)),
        Times::Maybe => Pattern::Quest(Box::new(atom)),
    }
}

/// What the parts from the `i`-th on stand for, one behind the other.
pub open spec fn parts_meaning(parts: Seq<Part>, i: int) -> Pattern
    decreases parts, parts.len() - i,
{
    if 0 <= i < parts.len() {
        Pattern::Cat(
            Box::new(repeated(parts[i].times, atom_meaning(parts[i].atom))),
            Box::new(parts_meaning(parts, i + 1)),
        )
    } else {
        Pattern::Empty
    }
}

/// What a branch stands for. One part stands for itself.
pub open spec fn branch_meaning(parts: Seq<Part>) -> Pattern
    decreases parts, parts.len() + 1,
{
    if parts.len() == 1 {
        repeated(parts[0].times, atom_meaning(parts[0].atom))
    } else {
        parts_meaning(parts, 0)
    }
}

/// What the branches from the `i`-th on stand for, the first one first.
pub open spec fn branches_meaning(branches: Seq<Seq<Part>>, i: int) -> Pattern
    decreases branches, branches.len() - i,
{
    if 0 <= i < branches.len() - 1 {
        Pattern::Alt(
            Box::new(branch_meaning(branches[i])),
            Box::new(branches_meaning(branches, i + 1)),
        )
    } else if i == branches.len() - 1 && i >= 0 {
        Pattern::Last(Box::new(branch_meaning(branches[i])))
    } else {
        Pattern::Fail
    }
}

/// Whether an atom is read as it is written.
pub open spec fn is_atom(atom: Atom) -> bool
    decreases atom,
{
    match atom {
        Atom::Byte(b) => is_plain(b),
        Atom::Class(negated, items) => is_class(negated, items),
        Atom::Group(branches) => are_branches(branches),
        _ => true,
    }
}

/// Whether branches are read as they are written.
pub open spec fn are_branches(branches: Seq<Seq<Part>>) -> bool
    decreases branches,
{
    &&& branches.len() > 0
    &&& forall|i: int, j: int|
        0 <= i < branches.len() && 0 <= j < branches[i].len() ==> is_atom(
            (#[trigger] branches[i][j]).atom,
        )
}

/// Whether parts are read as they are written.
pub open spec fn are_parts(parts: Seq<Part>) -> bool {
    forall|j: int| 0 <= j < parts.len() ==> is_atom((#[trigger] parts[j]).atom)
}

/// What follows a part on its branch, or the branch.
spec fn ends_parts(bytes: Seq<u8>, pos: int) -> bool {
    match byte_at(bytes, pos) {
        None => true,
        Some(b) => b == 0x7c || b == 0x29,
    }
}

/// An atom begins with a byte that neither repeats anything nor ends a branch.
proof fn lemma_atom_begins(atom: Atom)
    requires
        is_atom(atom),
    ensures
        atom_image(atom).len() > 0,
        ({
            let b = atom_image(atom)[0];
            b != 0x2a && b != 0x2b && b != 0x3f && b != 0x7c && b != 0x29
        }),
{
}

proof fn lemma_stands_split(bytes: Seq<u8>, pos: int, a: Seq<u8>, b: Seq<u8>)
    ensures
        stands_at(bytes, pos, a + b) <==> stands_at(bytes, pos, a) && stands_at(
            bytes,
            pos + a.len(),
            b,
        ),
{
    let text = a + b;
    if stands_at(bytes, pos, text) {
        assert forall|i: int| 0 <= i < a.len() implies bytes[pos + i] == #[trigger] a[i] by {
            assert(text[i] == a[i]);
        }
        assert forall|i: int| 0 <= i < b.len() implies bytes[pos + a.len() + i]
            == #[trigger] b[i] by {
            assert(text[a.len() + i] == b[i]);
            assert(bytes[pos + (a.len() + i)] == text[a.len() + i]);
        }
    }
    if stands_at(bytes, pos, a) && stands_at(bytes, pos + a.len(), b) {
        assert forall|i: int| 0 <= i < text.len() implies bytes[pos + i] == #[trigger] text[i] by {
            if i >= a.len() {
                assert(text[i] == b[i - a.len()]);
                assert(bytes[pos + a.len() + (i - a.len())] == b[i - a.len()]);
            } else {
                assert(text[i] == a[i]);
            }
        }
    }
}

proof fn lemma_atom_read(atom: Atom, bytes: Seq<u8>, pos: int)
    requires
        is_atom(atom),
        stands_at(bytes, pos, atom_image(atom)),
    ensures
        atom_at(bytes, pos) == Ok::<(Pattern, int), Seq<char>>(
            (atom_meaning(atom), pos + atom_image(atom).len()),
        ),
    decreases atom, 0int,
{
    let text = atom_image(atom);
    lemma_atom_begins(atom);
    assert(bytes[pos + 0] == text[0]);
    match atom {
        Atom::Byte(b) => {
            assert(set![b] =~= Set::new(|x: u8| x == b));
        },
        Atom::Dot => {
            assert(Set::<u8>::full().remove(0x0au8) =~= Set::new(|x: u8| x != '\n' as int));
        },
        Atom::Begin | Atom::End => {},
        Atom::Escaped(b) => {
            assert(bytes[pos + 1] == text[1]);
            lemma_escape(bytes, pos + 1, false);
        },
        Atom::Class(negated, items) => {
            classes_are_read(negated, items, bytes, pos);
        },
        Atom::Group(branches) => {
            let open = seq!['(' as u8];
            let body = branches_image(branches, 0);
            let close = seq![')' as u8];
            lemma_stands_split(bytes, pos, open + body, close);
            lemma_stands_split(bytes, pos, open, body);
            assert(bytes[pos + 1 + body.len() + 0] == close[0]);
            lemma_branches_read(branches, 0, bytes, pos + 1);
            lemma_whole(branches);
        },
    }
}

/// One branch stands for itself.
proof fn lemma_whole(branches: Seq<Seq<Part>>)
    requires
        branches.len() > 0,
    ensures
        forall|end: int| #[trigger]
            whole(Ok::<(Pattern, int), Seq<char>>((branches_meaning(branches, 0), end))) == Ok::<
                (Pattern, int),
                Seq<char>,
            >((atom_meaning(Atom::Group(branches)), end)),
{
}

proof fn lemma_repeat_read(part: Part, bytes: Seq<u8>, pos: int)
    requires
        is_atom(part.atom),
        stands_at(bytes, pos, atom_image(part.atom) + times_image(part.times)),
        ({
            let end = pos + atom_image(part.atom).len() + times_image(part.times).len();
            byte_at(bytes, end) matches Some(b) ==> b != 0x2a && b != 0x2b && b != 0x3f
        }),
    ensures
        repeat_at(bytes, pos) == Ok::<(Pattern, int), Seq<char>>(
            (
                repeated(part.times, atom_meaning(part.atom)),
                pos + atom_image(part.atom).len() + times_image(part.times).len(),
            ),
        ),
    decreases part.atom, 1int,
{
    let a = atom_image(part.atom);
    let t = times_image(part.times);
    lemma_stands_split(bytes, pos, a, t);
    lemma_atom_read(part.atom, bytes, pos);
    if t.len() > 0 {
        assert(bytes[pos + a.len() + 0] == t[0]);
    }
}

proof fn lemma_parts_read(parts: Seq<Part>, i: int, bytes: Seq<u8>, pos: int)
    requires
        are_parts(parts),
        0 <= i <= parts.len(),
        stands_at(bytes, pos, parts_image(parts, i)),
        ends_parts(bytes, pos + parts_image(parts, i).len()),
    ensures
        parts_at(bytes, pos) == Ok::<(Pattern, int), Seq<char>>(
            (parts_meaning(parts, i), pos + parts_image(parts, i).len()),
        ),
    decreases parts, parts.len() - i,
{
    if i < parts.len() {
        let part = parts[i];
        let own = atom_image(part.atom) + times_image(part.times);
        let rest = parts_image(parts, i + 1);
        let next = pos + own.len();
        assert(is_atom(parts[i].atom));
        lemma_stands_split(bytes, pos, own, rest);
        lemma_stands_split(bytes, pos, atom_image(part.atom), times_image(part.times));
        lemma_atom_begins(part.atom);
        assert(bytes[pos + 0] == atom_image(part.atom)[0]);
        if i + 1 < parts.len() {
            assert(is_atom(parts[i + 1].atom));
            lemma_atom_begins(parts[i + 1].atom);
            assert(rest[0] == atom_image(parts[i + 1].atom)[0]);
            assert(bytes[next + 0] == rest[0]);
        }
        lemma_repeat_read(part, bytes, pos);
        lemma_parts_read(parts, i + 1, bytes, next);
    }
}

proof fn lemma_branch_read(parts: Seq<Part>, bytes: Seq<u8>, pos: int)
    requires
        are_parts(parts),
        stands_at(bytes, pos, parts_image(parts, 0)),
        ends_parts(bytes, pos + parts_image(parts, 0).len()),
    ensures
        joined(parts_at(bytes, pos)) == Ok::<(Pattern, int), Seq<char>>(
            (branch_meaning(parts), pos + parts_image(parts, 0).len()),
        ),
    decreases parts, parts.len() + 1,
{
    lemma_parts_read(parts, 0, bytes, pos);
    if parts.len() > 0 {
        assert(parts_meaning(parts, 0)->Cat_1 == parts_meaning(parts, 1));
        assert(*parts_meaning(parts, 0)->Cat_1 is Empty <==> parts.len() == 1);
    }
}

proof fn lemma_branches_read(branches: Seq<Seq<Part>>, i: int, bytes: Seq<u8>, pos: int)
    requires
        are_branches(branches),
        0 <= i < branches.len(),
        stands_at(bytes, pos, branches_image(branches, i)),
        byte_at(bytes, pos + branches_image(branches, i).len()) matches Some(b) ==> b == 0x29,
    ensures
        branches_at(bytes, pos) == Ok::<(Pattern, int), Seq<char>>(
            (branches_meaning(branches, i), pos + branches_image(branches, i).len()),
        ),
    decreases branches, branches.len() - i,
{
    let own = parts_image(branches[i], 0);
    assert(are_parts(branches[i])) by {
        assert forall|j: int| 0 <= j < branches[i].len() implies is_atom(
            (#[trigger] branches[i][j]).atom,
        ) by {}
    }
    if i < branches.len() - 1 {
        let bar = seq!['|' as u8];
        let rest = branches_image(branches, i + 1);
        lemma_stands_split(bytes, pos, own + bar, rest);
        lemma_stands_split(bytes, pos, own, bar);
        assert(bytes[pos + own.len() + 0] == bar[0]);
        lemma_branch_read(branches[i], bytes, pos);
        lemma_branches_read(branches, i + 1, bytes, pos + own.len() + 1);
    } else {
        lemma_branch_read(branches[i], bytes, pos);
    }
}

/// What branches of parts are written as is read as what they stand for: a byte for itself
/// unless it is a metacharacter, a class for its items, a group for its branches, parts one
/// behind the other, branches the first one first, and each repetition for its own.
pub proof fn sources_are_read(branches: Seq<Seq<Part>>)
    requires
        are_branches(branches),
    ensures
        pattern_in(branches_image(branches, 0)) == Ok::<Pattern, Seq<char>>(
            atom_meaning(Atom::Group(branches)),
        ),
{
    lemma_branches_read(branches, 0, branches_image(branches, 0), 0);
    lemma_whole(branches);
}

// ---------------------------------------------------------------------------
// Nothing else is read.
// ---------------------------------------------------------------------------

proof fn lemma_part_before(part: Part, parts: Seq<Part>, i: int)
    requires
        0 <= i <= parts.len(),
    ensures
        parts_image(seq![part] + parts, i + 1) == parts_image(parts, i),
    decreases parts.len() - i,
{
    let more = seq![part] + parts;
    if i < parts.len() {
        assert(more[i + 1] == parts[i]);
        lemma_part_before(part, parts, i + 1);
    }
}

proof fn lemma_branch_before(branch: Seq<Part>, branches: Seq<Seq<Part>>, i: int)
    requires
        0 <= i < branches.len(),
    ensures
        branches_image(seq![branch] + branches, i + 1) == branches_image(branches, i),
    decreases branches.len() - i,
{
    let more = seq![branch] + branches;
    assert(more[i + 1] == branches[i]);
    if i + 1 < branches.len() {
        lemma_branch_before(branch, branches, i + 1);
    }
}

proof fn lemma_only_atoms(bytes: Seq<u8>, pos: int) -> (atom: Atom)
    requires
        0 <= pos,
        atom_at(bytes, pos) is Ok,
    ensures
        is_atom(atom),
        stands_at(bytes, pos, atom_image(atom)),
    decreases bytes.len() - pos, 0int,
{
    let b = bytes[pos];
    if b == 0x28 {
        let (branches, end) = lemma_only_branches(bytes, pos + 1);
        let open = seq!['(' as u8];
        let body = branches_image(branches, 0);
        let close = seq![')' as u8];
        assert(stands_at(bytes, pos, open));
        lemma_stands_split(bytes, pos, open, body);
        assert(stands_at(bytes, pos + (open + body).len(), close));
        lemma_stands_split(bytes, pos, open + body, close);
        Atom::Group(branches)
    } else if b == 0x5b {
        let (negated, items) = lemma_only_classes(bytes, pos);
        Atom::Class(negated, items)
    } else if b == 0x2e {
        Atom::Dot
    } else if b == 0x5e {
        Atom::Begin
    } else if b == 0x24 {
        Atom::End
    } else if b == 0x5c {
        let atom = Atom::Escaped(bytes[pos + 1]);
        assert(stands_at(bytes, pos, atom_image(atom)));
        atom
    } else {
        Atom::Byte(b)
    }
}

proof fn lemma_only_repeats(bytes: Seq<u8>, pos: int) -> (part: Part)
    requires
        0 <= pos,
        repeat_at(bytes, pos) is Ok,
    ensures
        is_atom(part.atom),
        stands_at(bytes, pos, atom_image(part.atom) + times_image(part.times)),
        repeat_at(bytes, pos)->Ok_0.1 == pos + atom_image(part.atom).len() + times_image(
            part.times,
        ).len(),
    decreases bytes.len() - pos, 1int,
{
    let atom = lemma_only_atoms(bytes, pos);
    lemma_atom_read(atom, bytes, pos);
    let end = pos + atom_image(atom).len();
    let times = match byte_at(bytes, end) {
        Some(0x2au8) => Times::Any,
        Some(0x2bu8) => Times::Many,
        Some(0x3fu8) => Times::Maybe,
        _ => Times::Once,
    };
    assert(stands_at(bytes, end, times_image(times)));
    lemma_stands_split(bytes, pos, atom_image(atom), times_image(times));
    Part { atom, times }
}

proof fn lemma_only_parts(bytes: Seq<u8>, pos: int) -> (parts: Seq<Part>)
    requires
        0 <= pos <= bytes.len(),
        parts_at(bytes, pos) is Ok,
    ensures
        are_parts(parts),
        stands_at(bytes, pos, parts_image(parts, 0)),
        parts_at(bytes, pos)->Ok_0.1 == pos + parts_image(parts, 0).len(),
        ends_parts(bytes, parts_at(bytes, pos)->Ok_0.1),
    decreases bytes.len() - pos, 2int,
{
    if ends_parts(bytes, pos) {
        let none = Seq::<Part>::empty();
        assert(parts_image(none, 0) =~= Seq::empty());
        none
    } else {
        let part = lemma_only_repeats(bytes, pos);
        let own = atom_image(part.atom) + times_image(part.times);
        let next = pos + own.len();
        let rest = lemma_only_parts(bytes, next);
        let parts = seq![part] + rest;
        lemma_part_before(part, rest, 0);
        assert(parts[0] == part);
        assert(parts_image(parts, 0) =~= own + parts_image(rest, 0));
        lemma_stands_split(bytes, pos, own, parts_image(rest, 0));
        assert forall|j: int| 0 <= j < parts.len() implies is_atom((#[trigger] parts[j]).atom) by {
            if j > 0 {
                assert(parts[j] == rest[j - 1]);
            }
        }
        parts
    }
}

proof fn lemma_only_branches(bytes: Seq<u8>, pos: int) -> (written: (Seq<Seq<Part>>, int))
    requires
        0 <= pos <= bytes.len(),
        branches_at(bytes, pos) is Ok,
    ensures
        are_branches(written.0),
        stands_at(bytes, pos, branches_image(written.0, 0)),
        written.1 == pos + branches_image(written.0, 0).len(),
        branches_at(bytes, pos)->Ok_0.1 == written.1,
        byte_at(bytes, written.1) matches Some(b) ==> b == 0x29,
        whole(branches_at(bytes, pos)) is Ok,
        whole(branches_at(bytes, pos))->Ok_0.1 == written.1,
    decreases bytes.len() - pos, 3int,
{
    let parts = lemma_only_parts(bytes, pos);
    let own = parts_image(parts, 0);
    let next = pos + own.len();
    assert(joined(parts_at(bytes, pos))->Ok_0.1 == next);
    if byte_at(bytes, next) == Some(0x7cu8) {
        let bar = seq!['|' as u8];
        let (rest, end) = lemma_only_branches(bytes, next + 1);
        let branches = seq![parts] + rest;
        lemma_branch_before(parts, rest, 0);
        assert(branches[0] == parts);
        assert(branches_image(branches, 0) =~= own + bar + branches_image(rest, 0));
        assert(stands_at(bytes, next, bar));
        lemma_stands_split(bytes, pos, own, bar);
        lemma_stands_split(bytes, pos, own + bar, branches_image(rest, 0));
        assert forall|i: int, j: int|
            0 <= i < branches.len() && 0 <= j < branches[i].len() implies is_atom(
            (#[trigger] branches[i][j]).atom,
        ) by {
            if i > 0 {
                assert(branches[i] == rest[i - 1]);
                assert(is_atom(rest[i - 1][j].atom));
            } else {
                assert(is_atom(parts[j].atom));
            }
        }
        (branches, end)
    } else {
        let branches = seq![parts];
        assert(branches[0] == parts);
        assert forall|i: int, j: int|
            0 <= i < branches.len() && 0 <= j < branches[i].len() implies is_atom(
            (#[trigger] branches[i][j]).atom,
        ) by {
            assert(is_atom(parts[j].atom));
        }
        (branches, next)
    }
}

/// What is read as a pattern is written as branches of parts, and stands for what they stand
/// for. Everything else is refused.
pub proof fn only_sources_are_read(bytes: Seq<u8>)
    ensures
        pattern_in(bytes) is Ok <==> exists|branches: Seq<Seq<Part>>| #[trigger]
            are_branches(branches) && branches_image(branches, 0) == bytes,
        pattern_in(bytes) matches Ok(pattern) ==> exists|branches: Seq<Seq<Part>>| #[trigger]
            are_branches(branches) && branches_image(branches, 0) == bytes && pattern
                == atom_meaning(Atom::Group(branches)),
{
    if pattern_in(bytes) is Ok {
        let (branches, end) = lemma_only_branches(bytes, 0);
        let text = branches_image(branches, 0);
        assert(text =~= bytes) by {
            assert forall|i: int| 0 <= i < text.len() implies text[i] == #[trigger] bytes[i] by {
                assert(bytes[0 + i] == text[i]);
            }
        }
        sources_are_read(branches);
        assert(are_branches(branches));
    }
    if exists|branches: Seq<Seq<Part>>| #[trigger]
        are_branches(branches) && branches_image(branches, 0) == bytes {
        let branches = choose|branches: Seq<Seq<Part>>| #[trigger]
            are_branches(branches) && branches_image(branches, 0) == bytes;
        sources_are_read(branches);
    }
}

}
