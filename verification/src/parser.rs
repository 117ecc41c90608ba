//! The pattern parser: recursive descent over bytes.
//!
//! Supported syntax:
//! - literal bytes
//! - `.` any byte except newline
//! - `[abc]`, `[a-z]`, `[^...]` character classes
//! - `(...)` grouping, `|` alternation
//! - `*` `+` `?` greedy quantifiers
//! - `^` start-of-input, `$` end-of-input anchors
//! - `\d \w \s` and `\D \W \S`, `\n \t \r`, plus backslash-escaped metacharacters
use crate::ast::{alt_of, cat_of, has_branches, pattern_of, Node, Pattern, Regex};
use crate::byte_class::{digits, space_bytes, word_bytes, ByteClass};
use crate::text::push_char;
use vstd::prelude::*;
use vstd::utf8::encode_utf8;

verus! {

/// The byte at `pos`, if there is one.
pub open spec fn byte_at(bytes: Seq<u8>, pos: int) -> Option<u8> {
    if 0 <= pos < bytes.len() {
        Some(bytes[pos])
    } else {
        None
    }
}

/// What the bytes behind a backslash stand for, and where they end. Anchors are not
/// allowed inside character classes.
pub open spec fn escape(bytes: Seq<u8>, pos: int, in_class: bool) -> Result<
    (Set<u8>, int),
    Seq<char>,
> {
    match byte_at(bytes, pos) {
        None => Err("trailing backslash"@),
        Some(b) => if b == 0x64 {
            Ok((digits(), pos + 1))
        } else if b == 0x44 {
            Ok((digits().complement(), pos + 1))
        } else if b == 0x77 {
            Ok((word_bytes(), pos + 1))
        } else if b == 0x57 {
            Ok((word_bytes().complement(), pos + 1))
        } else if b == 0x73 {
            Ok((space_bytes(), pos + 1))
        } else if b == 0x53 {
            Ok((space_bytes().complement(), pos + 1))
        } else if b == 0x6e {
            Ok((set![0x0au8], pos + 1))
        } else if b == 0x74 {
            Ok((set![0x09u8], pos + 1))
        } else if b == 0x72 {
            Ok((set![0x0du8], pos + 1))
        } else if b == 0x5e && in_class {
            Err("`\\^` is not a valid escape"@)
        } else if b == 0x24 && in_class {
            Err("`\\$` is not a valid escape"@)
        } else {
            Ok((set![b], pos + 1))
        },
    }
}

/// The bytes that the items of a class from `pos` on add to `set`, and where the class
/// ends. A `]` as the first item is literal, and so is a `-` before the closing `]`.
pub open spec fn class_items(bytes: Seq<u8>, pos: int, first: bool, set: Set<u8>) -> Result<
    (Set<u8>, int),
    Seq<char>,
>
    decreases bytes.len() - pos,
{
    match byte_at(bytes, pos) {
        None => Err("unterminated character class"@),
        Some(b) => if b == 0x5d && !first {
            Ok((set, pos + 1))
        } else if b == 0x5c {
            match escape(bytes, pos + 1, true) {
                Ok((escaped, _)) => class_items(bytes, pos + 2, false, set.union(escaped)),
                Err(e) => Err(e),
            }
        } else if byte_at(bytes, pos + 1) == Some(0x2du8) && pos + 2 < bytes.len()
            && bytes[pos + 2] != 0x5d {
            if b > bytes[pos + 2] {
                Err("invalid class range"@)
            } else {
                class_items(
                    bytes,
                    pos + 3,
                    false,
                    set.union(Set::new(|x: u8| b <= x <= bytes[pos + 2])),
                )
            }
        } else {
            class_items(bytes, pos + 1, false, set.union(set![b]))
        },
    }
}

/// The class whose `[` stands at `pos`, and where it ends.
pub open spec fn class_at(bytes: Seq<u8>, pos: int) -> Result<(Pattern, int), Seq<char>> {
    let negated = byte_at(bytes, pos + 1) == Some(0x5eu8);
    let from = if negated {
        pos + 2
    } else {
        pos + 1
    };
    match class_items(bytes, from, true, Set::empty()) {
        Ok((set, end)) => Ok(
            (
                Pattern::Class(
                    if negated {
                        set.complement()
                    } else {
                        set
                    },
                ),
                end,
            ),
        ),
        Err(e) => Err(e),
    }
}

/// `atom := group | class | escape | anchor | literal`
pub open spec fn atom_at(bytes: Seq<u8>, pos: int) -> Result<(Pattern, int), Seq<char>>
    decreases bytes.len() - pos, 0int,
{
    match byte_at(bytes, pos) {
        None => Err("unexpected end of pattern"@),
        Some(b) => if b == 0x28 {
            match whole(branches_at(bytes, pos + 1)) {
                Ok((inner, end)) => if byte_at(bytes, end) == Some(0x29u8) {
                    Ok((inner, end + 1))
                } else {
                    Err("unbalanced `(`"@)
                },
                Err(e) => Err(e),
            }
        } else if b == 0x5b {
            class_at(bytes, pos)
        } else if b == 0x2e {
            Ok((Pattern::Class(Set::full().remove(0x0au8)), pos + 1))
        } else if b == 0x5e {
            Ok((Pattern::Start, pos + 1))
        } else if b == 0x24 {
            Ok((Pattern::End, pos + 1))
        } else if b == 0x5c {
            match escape(bytes, pos + 1, false) {
                Ok((set, end)) => Ok((Pattern::Class(set), end)),
                Err(e) => Err(e),
            }
        } else if b == 0x7c || b == 0x29 {
            Err("unexpected metacharacter"@)
        } else if b == 0x2a || b == 0x2b || b == 0x3f {
            Err("quantifier with nothing to repeat"@)
        } else {
            Ok((Pattern::Class(set![b]), pos + 1))
        },
    }
}

/// `repeat := atom ('*' | '+' | '?')?`
pub open spec fn repeat_at(bytes: Seq<u8>, pos: int) -> Result<(Pattern, int), Seq<char>>
    decreases bytes.len() - pos, 1int,
{
    match atom_at(bytes, pos) {
        Ok((atom, end)) => match byte_at(bytes, end) {
            Some(0x2au8) => Ok((Pattern::Star(Box::new(atom)), end + 1)),
            Some(0x2bu8) => Ok((Pattern::Plus(Box::new(atom)), end + 1)),
            Some(0x3fu8) => Ok((Pattern::Quest(Box::new(atom)), end + 1)),
            _ => Ok((atom, end)),
        },
        Err(e) => Err(e),
    }
}

/// `repeat*`, until `|` or `)` or the end. A part takes at least one byte.
pub open spec fn parts_at(bytes: Seq<u8>, pos: int) -> Result<(Pattern, int), Seq<char>>
    decreases bytes.len() - pos, 2int,
{
    match byte_at(bytes, pos) {
        None => Ok((Pattern::Empty, pos)),
        Some(b) => if b == 0x7c || b == 0x29 {
            Ok((Pattern::Empty, pos))
        } else {
            match repeat_at(bytes, pos) {
                Ok((first, next)) => if !(pos < next <= bytes.len()) {
                    Err(Seq::empty())
                } else {
                    match parts_at(bytes, next) {
                        Ok((rest, end)) => Ok((Pattern::Cat(Box::new(first), Box::new(rest)), end)),
                        Err(e) => Err(e),
                    }
                },
                Err(e) => Err(e),
            }
        },
    }
}

/// A concatenation of one part is that part.
pub open spec fn joined(parts: Result<(Pattern, int), Seq<char>>) -> Result<
    (Pattern, int),
    Seq<char>,
> {
    match parts {
        Ok((Pattern::Cat(first, rest), end)) => if *rest is Empty {
            Ok((*first, end))
        } else {
            parts
        },
        _ => parts,
    }
}

/// `concat ('|' concat)*`
pub open spec fn branches_at(bytes: Seq<u8>, pos: int) -> Result<(Pattern, int), Seq<char>>
    decreases bytes.len() - pos, 3int,
{
    match joined(parts_at(bytes, pos)) {
        Ok((first, next)) => if byte_at(bytes, next) == Some(0x7cu8) && next >= pos {
            match branches_at(bytes, next + 1) {
                Ok((rest, end)) => Ok((Pattern::Alt(Box::new(first), Box::new(rest)), end)),
                Err(e) => Err(e),
            }
        } else {
            Ok((Pattern::Last(Box::new(first)), next))
        },
        Err(e) => Err(e),
    }
}

/// An alternation of one branch is that branch.
pub open spec fn whole(branches: Result<(Pattern, int), Seq<char>>) -> Result<
    (Pattern, int),
    Seq<char>,
> {
    match branches {
        Ok((Pattern::Last(only), end)) => Ok((*only, end)),
        _ => branches,
    }
}

/// The pattern that `bytes` is the source of, or why it is the source of none.
pub open spec fn pattern_in(bytes: Seq<u8>) -> Result<Pattern, Seq<char>> {
    match whole(branches_at(bytes, 0)) {
        Ok((pattern, end)) => if end == bytes.len() {
            Ok(pattern)
        } else {
            Err(
                "unexpected byte `"@ + seq![bytes[end] as char] + "` after pattern"@,
            )
        },
        Err(e) => Err(e),
    }
}

/// No concatenation or alternation in `node` has fewer than two parts.
pub open spec fn tight(node: Node) -> bool
    decreases node,
{
    match node {
        Node::Concat(parts) => parts.len() >= 2 && forall|i: int|
            0 <= i < parts.len() ==> tight(#[trigger] parts[i]),
        Node::Alt(parts) => parts.len() >= 2 && forall|i: int|
            0 <= i < parts.len() ==> tight(#[trigger] parts[i]),
        Node::Star(inner) => tight(*inner),
        Node::Plus(inner) => tight(*inner),
        Node::Quest(inner) => tight(*inner),
        _ => true,
    }
}

/// Whether `node`, ending at `end`, is what the grammar says.
pub open spec fn agrees(
    node: Result<Node, String>,
    end: int,
    expected: Result<(Pattern, int), Seq<char>>,
) -> bool {
    match node {
        Ok(n) => expected == Ok::<(Pattern, int), Seq<char>>((n@, end)) && tight(n),
        Err(e) => expected == Err::<(Pattern, int), Seq<char>>(e@),
    }
}

struct Parser<'a> {
    bytes: &'a [u8],
    pos: usize,
}

impl<'a> Parser<'a> {
    fn new(input: &'a [u8]) -> (parser: Self)
        ensures
            parser.bytes@ == input@,
            parser.pos == 0,
    {
        Self { bytes: input, pos: 0 }
    }

    fn peek(&self) -> (byte: Option<u8>)
        ensures
            byte == byte_at(self.bytes@, self.pos as int),
    {
        if self.pos < self.bytes.len() {
            Some(self.bytes[self.pos])
        } else {
            None
        }
    }

    fn bump(&mut self) -> (byte: Option<u8>)
        requires
            old(self).pos <= old(self).bytes.len(),
        ensures
            byte == byte_at(old(self).bytes@, old(self).pos as int),
            final(self).bytes == old(self).bytes,
            final(self).pos == (if byte is Some {
                old(self).pos + 1
            } else {
                old(self).pos as int
            }),
            final(self).pos <= final(self).bytes.len(),
    {
        let byte = self.peek();
        if byte.is_some() {
            self.pos += 1;
        }
        byte
    }

    /// Parse what follows a backslash.
    fn parse_escape(&mut self, in_class: bool) -> (class: Result<ByteClass, String>)
        requires
            old(self).pos <= old(self).bytes.len(),
        ensures
            final(self).bytes == old(self).bytes,
            old(self).pos <= final(self).pos <= final(self).bytes.len(),
            match class {
                Ok(c) => escape(old(self).bytes@, old(self).pos as int, in_class) == Ok::<
                    (Set<u8>, int),
                    Seq<char>,
                >((c@, final(self).pos as int)),
                Err(e) => escape(old(self).bytes@, old(self).pos as int, in_class) == Err::<
                    (Set<u8>, int),
                    Seq<char>,
                >(e@),
            },
    {
        let byte: u8 = match self.bump() {
            Some(b) => b,
            None => {
                return Err("trailing backslash".to_owned());
            },
        };
        if byte == 0x64 {
            Ok(ByteClass::digit())
        } else if byte == 0x44 {
            Ok(ByteClass::digit().negate())
        } else if byte == 0x77 {
            Ok(ByteClass::word())
        } else if byte == 0x57 {
            Ok(ByteClass::word().negate())
        } else if byte == 0x73 {
            Ok(ByteClass::space())
        } else if byte == 0x53 {
            Ok(ByteClass::space().negate())
        } else if byte == 0x6e {
            Ok(ByteClass::byte(0x0a))
        } else if byte == 0x74 {
            Ok(ByteClass::byte(0x09))
        } else if byte == 0x72 {
            Ok(ByteClass::byte(0x0d))
        } else if byte == 0x5e && in_class {
            Err("`\\^` is not a valid escape".to_owned())
        } else if byte == 0x24 && in_class {
            Err("`\\$` is not a valid escape".to_owned())
        } else {
            Ok(ByteClass::byte(byte))
        }
    }

    /// Parse a `[...]` class: leading `^` negation, ranges `a-z`, escapes. A `]` as the
    /// first (or first-after-`^`) character is literal.
    fn parse_class(&mut self) -> (node: Result<Node, String>)
        requires
            old(self).pos < old(self).bytes.len(),
        ensures
            final(self).bytes == old(self).bytes,
            old(self).pos < final(self).pos <= final(self).bytes.len(),
            agrees(node, final(self).pos as int, class_at(old(self).bytes@, old(self).pos as int)),
    {
        let ghost bytes = self.bytes@;
        let ghost start = self.pos as int;
        self.bump();
        let mut class = ByteClass::empty();
        let negate = match self.peek() {
            Some(b) => b == 0x5e,
            None => false,
        };
        if negate {
            self.bump();
        }
        let mut first = true;
        let ghost items = class_items(bytes, self.pos as int, true, Set::empty());
        let mut open = true;
        while open
            invariant
                bytes == self.bytes@,
                self.bytes == old(self).bytes,
                start < self.pos <= self.bytes.len(),
                open ==> items == class_items(bytes, self.pos as int, first, class@),
                !open ==> items == Ok::<(Set<u8>, int), Seq<char>>((class@, self.pos as int)),
                class_at(bytes, start) == (match items {
                    Ok((set, end)) => Ok(
                        (
                            Pattern::Class(
                                if negate {
                                    set.complement()
                                } else {
                                    set
                                },
                            ),
                            end,
                        ),
                    ),
                    Err(e) => Err(e),
                }),
                old(self).bytes@ == bytes,
                old(self).pos == start,
            decreases (if open { 1int } else { 0 }) + self.bytes.len() - self.pos,
        {
            let ghost set = class@;
            let byte: u8 = match self.bump() {
                Some(b) => b,
                None => {
                    return Err("unterminated character class".to_owned());
                },
            };
            if byte == 0x5d && !first {
                open = false;
            } else {
                first = false;
                if byte == 0x5c {
                    match self.parse_escape(true) {
                        Ok(escaped) => {
                            class = class.union(&escaped);
                        },
                        Err(e) => {
                            return Err(e);
                        },
                    }
                } else {
                    let dash = match self.peek() {
                        Some(b) => b == 0x2d,
                        None => false,
                    };
                    if dash && self.bytes.len() - self.pos > 1 && self.bytes[self.pos + 1] != 0x5d {
                        let hi: u8 = self.bytes[self.pos + 1];
                        self.pos = self.pos + 2;
                        if byte > hi {
                            return Err("invalid class range".to_owned());
                        }
                        class = class.union(&ByteClass::range(byte, hi));
                    } else {
                        class = class.union(&ByteClass::byte(byte));
                    }
                }
            }
        }
        if negate {
            class = class.negate();
        }
        Ok(Node::Class(Box::new(class)))
    }
}

/// The concatenation of `parts` from the `i`-th on, and `tail` behind it.
spec fn cat_with(parts: Seq<Node>, i: int, tail: Pattern) -> Pattern
    decreases parts.len() - i,
{
    if 0 <= i < parts.len() {
        Pattern::Cat(Box::new(pattern_of(parts[i])), Box::new(cat_with(parts, i + 1, tail)))
    } else {
        tail
    }
}

/// The alternation of `branches` from the `i`-th on, and `tail` behind it.
spec fn alt_with(branches: Seq<Node>, i: int, tail: Pattern) -> Pattern
    decreases branches.len() - i,
{
    if 0 <= i < branches.len() {
        Pattern::Alt(
            Box::new(pattern_of(branches[i])),
            Box::new(alt_with(branches, i + 1, tail)),
        )
    } else {
        tail
    }
}

proof fn lemma_with_push(nodes: Seq<Node>, node: Node, i: int, tail: Pattern)
    requires
        0 <= i <= nodes.len(),
    ensures
        cat_with(nodes.push(node), i, tail) == cat_with(
            nodes,
            i,
            Pattern::Cat(Box::new(pattern_of(node)), Box::new(tail)),
        ),
        alt_with(nodes.push(node), i, tail) == alt_with(
            nodes,
            i,
            Pattern::Alt(Box::new(pattern_of(node)), Box::new(tail)),
        ),
    decreases nodes.len() - i,
{
    if i < nodes.len() {
        lemma_with_push(nodes, node, i + 1, tail);
    } else {
        assert(cat_with(nodes.push(node), i + 1, tail) == tail);
        assert(alt_with(nodes.push(node), i + 1, tail) == tail);
    }
}

proof fn lemma_cat_with(nodes: Seq<Node>, i: int)
    requires
        0 <= i,
    ensures
        cat_with(nodes, i, Pattern::Empty) == cat_of(nodes, i),
    decreases nodes.len() - i,
{
    if i < nodes.len() {
        lemma_cat_with(nodes, i + 1);
    }
}

proof fn lemma_alt_with(nodes: Seq<Node>, node: Node, i: int)
    requires
        0 <= i <= nodes.len(),
    ensures
        alt_with(nodes, i, Pattern::Last(Box::new(pattern_of(node)))) == alt_of(
            nodes.push(node),
            i,
        ),
    decreases nodes.len() - i,
{
    if i < nodes.len() {
        lemma_alt_with(nodes, node, i + 1);
    }
}

/// Put `head` in front of a parsed rest.
spec fn then_parts(parts: Seq<Node>, rest: Result<(Pattern, int), Seq<char>>) -> Result<
    (Pattern, int),
    Seq<char>,
> {
    match rest {
        Ok((tail, end)) => Ok((cat_with(parts, 0, tail), end)),
        Err(e) => Err(e),
    }
}

spec fn then_branches(branches: Seq<Node>, rest: Result<(Pattern, int), Seq<char>>) -> Result<
    (Pattern, int),
    Seq<char>,
> {
    match rest {
        Ok((tail, end)) => Ok((alt_with(branches, 0, tail), end)),
        Err(e) => Err(e),
    }
}

impl<'a> Parser<'a> {
    /// `alt := concat ('|' concat)*`
    fn parse_alt(&mut self) -> (node: Result<Node, String>)
        requires
            old(self).pos <= old(self).bytes.len(),
        ensures
            final(self).bytes == old(self).bytes,
            final(self).pos <= final(self).bytes.len(),
            node is Ok ==> old(self).pos <= final(self).pos,
            agrees(
                node,
                final(self).pos as int,
                whole(branches_at(old(self).bytes@, old(self).pos as int)),
            ),
        decreases old(self).bytes.len() - old(self).pos, 3int,
    {
        let ghost bytes = self.bytes@;
        let ghost start = self.pos as int;
        let mut branches: Vec<Node> = Vec::new();
        loop
            invariant
                bytes == self.bytes@,
                self.bytes == old(self).bytes,
                start == old(self).pos,
                start <= self.pos <= self.bytes.len(),
                branches.len() > 0 ==> start < self.pos,
                forall|i: int| 0 <= i < branches.len() ==> tight(#[trigger] branches[i]),
                branches_at(bytes, start) == then_branches(
                    branches@,
                    branches_at(bytes, self.pos as int),
                ),
            decreases self.bytes.len() - self.pos,
        {
            let ghost here = self.pos as int;
            let node = match self.parse_concat() {
                Ok(node) => node,
                Err(e) => {
                    return Err(e);
                },
            };
            let more = match self.peek() {
                Some(b) => b == 0x7c,
                None => false,
            };
            if more {
                self.bump();
                proof {
                    let tail = branches_at(bytes, self.pos as int);
                    if let Ok((t, _)) = tail {
                        lemma_with_push(branches@, node, 0, t);
                    }
                }
                branches.push(node);
            } else if branches.len() == 0 {
                return Ok(node);
            } else {
                proof {
                    lemma_alt_with(branches@, node, 0);
                }
                branches.push(node);
                return Ok(Node::Alt(branches));
            }
        }
    }

    /// `concat := repeat*`, until `|` or `)` or the end
    fn parse_concat(&mut self) -> (node: Result<Node, String>)
        requires
            old(self).pos <= old(self).bytes.len(),
        ensures
            final(self).bytes == old(self).bytes,
            final(self).pos <= final(self).bytes.len(),
            node is Ok ==> old(self).pos <= final(self).pos,
            agrees(
                node,
                final(self).pos as int,
                joined(parts_at(old(self).bytes@, old(self).pos as int)),
            ),
        decreases old(self).bytes.len() - old(self).pos, 2int,
    {
        let ghost bytes = self.bytes@;
        let ghost start = self.pos as int;
        let mut parts: Vec<Node> = Vec::new();
        let mut open = true;
        while open
            invariant
                bytes == self.bytes@,
                self.bytes == old(self).bytes,
                start == old(self).pos,
                start <= self.pos <= self.bytes.len(),
                forall|i: int| 0 <= i < parts.len() ==> tight(#[trigger] parts[i]),
                parts_at(bytes, start) == then_parts(parts@, parts_at(bytes, self.pos as int)),
                !open ==> parts_at(bytes, self.pos as int) == Ok::<(Pattern, int), Seq<char>>(
                    (Pattern::Empty, self.pos as int),
                ),
            decreases (if open { 1int } else { 0 }) + self.bytes.len() - self.pos,
        {
            let stop = match self.peek() {
                Some(b) => b == 0x7c || b == 0x29,
                None => true,
            };
            if stop {
                open = false;
            } else {
                let node = match self.parse_repeat() {
                    Ok(node) => node,
                    Err(e) => {
                        return Err(e);
                    },
                };
                proof {
                    let tail = parts_at(bytes, self.pos as int);
                    if let Ok((t, _)) = tail {
                        lemma_with_push(parts@, node, 0, t);
                    }
                }
                parts.push(node);
            }
        }
        proof {
            lemma_cat_with(parts@, 0);
        }
        if parts.len() == 0 {
            Ok(Node::Empty)
        } else if parts.len() == 1 {
            proof {
                assert(cat_of(parts@, 1) == Pattern::Empty);
            }
            Ok(parts.pop().unwrap())
        } else {
            proof {
                assert(cat_of(parts@, 1) is Cat);
            }
            Ok(Node::Concat(parts))
        }
    }

    /// `repeat := atom ('*' | '+' | '?')?`
    fn parse_repeat(&mut self) -> (node: Result<Node, String>)
        requires
            old(self).pos < old(self).bytes.len(),
        ensures
            final(self).bytes == old(self).bytes,
            final(self).pos <= final(self).bytes.len(),
            node is Ok ==> old(self).pos < final(self).pos,
            agrees(node, final(self).pos as int, repeat_at(old(self).bytes@, old(self).pos as int)),
        decreases old(self).bytes.len() - old(self).pos, 1int,
    {
        let atom = match self.parse_atom() {
            Ok(atom) => atom,
            Err(e) => {
                return Err(e);
            },
        };
        match self.peek() {
            Some(b) => {
                if b == 0x2a {
                    self.bump();
                    Ok(Node::Star(Box::new(atom)))
                } else if b == 0x2b {
                    self.bump();
                    Ok(Node::Plus(Box::new(atom)))
                } else if b == 0x3f {
                    self.bump();
                    Ok(Node::Quest(Box::new(atom)))
                } else {
                    Ok(atom)
                }
            },
            None => Ok(atom),
        }
    }

    /// `atom := group | class | escape | anchor | literal`
    fn parse_atom(&mut self) -> (node: Result<Node, String>)
        requires
            old(self).pos <= old(self).bytes.len(),
        ensures
            final(self).bytes == old(self).bytes,
            final(self).pos <= final(self).bytes.len(),
            node is Ok ==> old(self).pos < final(self).pos,
            agrees(node, final(self).pos as int, atom_at(old(self).bytes@, old(self).pos as int)),
        decreases old(self).bytes.len() - old(self).pos, 0int,
    {
        let b: u8 = match self.peek() {
            Some(b) => b,
            None => {
                return Err("unexpected end of pattern".to_owned());
            },
        };
        if b == 0x28 {
            self.bump();
            let inner = match self.parse_alt() {
                Ok(inner) => inner,
                Err(e) => {
                    return Err(e);
                },
            };
            let closed = match self.bump() {
                Some(c) => c == 0x29,
                None => false,
            };
            if !closed {
                return Err("unbalanced `(`".to_owned());
            }
            Ok(inner)
        } else if b == 0x5b {
            self.parse_class()
        } else if b == 0x2e {
            self.bump();
            Ok(Node::Class(Box::new(ByteClass::dot())))
        } else if b == 0x5e {
            self.bump();
            Ok(Node::StartAnchor)
        } else if b == 0x24 {
            self.bump();
            Ok(Node::EndAnchor)
        } else if b == 0x5c {
            self.bump();
            match self.parse_escape(false) {
                Ok(class) => Ok(Node::Class(Box::new(class))),
                Err(e) => Err(e),
            }
        } else if b == 0x7c || b == 0x29 {
            Err("unexpected metacharacter".to_owned())
        } else if b == 0x2a || b == 0x2b || b == 0x3f {
            Err("quantifier with nothing to repeat".to_owned())
        } else {
            self.bump();
            Ok(Node::Class(Box::new(ByteClass::byte(b))))
        }
    }

    /// `regex := alt`
    fn parse_regex(&mut self) -> (node: Result<Node, String>)
        requires
            old(self).pos == 0,
        ensures
            match node {
                Ok(n) => pattern_in(old(self).bytes@) == Ok::<Pattern, Seq<char>>(n@) && tight(n),
                Err(e) => pattern_in(old(self).bytes@) == Err::<Pattern, Seq<char>>(e@),
            },
    {
        let node = match self.parse_alt() {
            Ok(node) => node,
            Err(e) => {
                return Err(e);
            },
        };
        match self.peek() {
            Some(b) => {
                let mut message = "unexpected byte `".to_owned();
                push_char(&mut message, b as char);
                proof {
                    assert(message@ =~= "unexpected byte `"@ + seq![b as char]);
                }
                message.append("` after pattern");
                Err(message)
            },
            None => Ok(node),
        }
    }
}

/// Parse a pattern.
pub fn parse(pattern: &str) -> (node: Result<Node, String>)
    ensures
        match node {
            Ok(n) => pattern_in(encode_utf8(pattern@)) == Ok::<Pattern, Seq<char>>(n@) && tight(n),
            Err(e) => pattern_in(encode_utf8(pattern@)) == Err::<Pattern, Seq<char>>(e@),
        },
{
    Parser::new(pattern.as_bytes()).parse_regex()
}

impl Regex {
    /// Parse `pattern` and keep its source.
    pub fn new(pattern: &str) -> (re: Result<Self, String>)
        ensures
            match re {
                Ok(r) => r.source@ == pattern@ && r.parsed() && tight(r.ast),
                Err(e) => pattern_in(encode_utf8(pattern@)) == Err::<Pattern, Seq<char>>(e@),
            },
    {
        match parse(pattern) {
            Ok(ast) => Ok(Self { ast, source: pattern.to_owned() }),
            Err(e) => Err(e),
        }
    }

    /// The pattern is the one that the source text says.
    pub open spec fn parsed(&self) -> bool {
        pattern_in(encode_utf8(self.source@)) == Ok::<Pattern, Seq<char>>(self.ast@)
    }
}

/// Whether what was parsed, if anything was, has branches.
spec fn branched(parsed: Result<(Pattern, int), Seq<char>>) -> bool {
    match parsed {
        Ok((pattern, _)) => has_branches(pattern),
        Err(_) => true,
    }
}

proof fn lemma_atom_branched(bytes: Seq<u8>, pos: int)
    ensures
        branched(atom_at(bytes, pos)),
    decreases bytes.len() - pos, 0int,
{
    if byte_at(bytes, pos) == Some(0x28u8) {
        lemma_branches_branched(bytes, pos + 1);
    }
}

proof fn lemma_repeat_branched(bytes: Seq<u8>, pos: int)
    ensures
        branched(repeat_at(bytes, pos)),
    decreases bytes.len() - pos, 1int,
{
    lemma_atom_branched(bytes, pos);
}

proof fn lemma_parts_branched(bytes: Seq<u8>, pos: int)
    ensures
        branched(parts_at(bytes, pos)),
    decreases bytes.len() - pos, 2int,
{
    if let Some(b) = byte_at(bytes, pos) {
        if b != 0x7c && b != 0x29 {
            lemma_repeat_branched(bytes, pos);
            if let Ok((_, next)) = repeat_at(bytes, pos) {
                if pos < next <= bytes.len() {
                    lemma_parts_branched(bytes, next);
                }
            }
        }
    }
}

proof fn lemma_branches_branched(bytes: Seq<u8>, pos: int)
    ensures
        branched(branches_at(bytes, pos)),
        branched(whole(branches_at(bytes, pos))),
    decreases bytes.len() - pos, 3int,
{
    lemma_parts_branched(bytes, pos);
    assert(branched(joined(parts_at(bytes, pos))));
    if let Ok((_, next)) = joined(parts_at(bytes, pos)) {
        if byte_at(bytes, next) == Some(0x7cu8) && next >= pos {
            lemma_branches_branched(bytes, next + 1);
        }
    }
}

/// No alternation of a parsed pattern is without branches.
pub proof fn parsed_patterns_have_branches(bytes: Seq<u8>)
    ensures
        pattern_in(bytes) matches Ok(pattern) ==> has_branches(pattern),
{
    lemma_branches_branched(bytes, 0);
}

}
