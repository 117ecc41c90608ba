//! Parsed patterns.
use crate::byte_class::ByteClass;
use vstd::prelude::*;

verus! {

/// Parsed pattern. Quantifiers are greedy; alternation is leftmost-first.
///
/// `Class` boxes the membership table so that a node stays small.
#[derive(Debug, PartialEq, Eq)]
pub enum Node {
    Empty,
    Class(Box<ByteClass>),
    Concat(Vec<Node>),
    Alt(Vec<Node>),
    Star(Box<Node>),
    Plus(Box<Node>),
    Quest(Box<Node>),
    StartAnchor,
    EndAnchor,
}

/// A pattern as a mathematical value: a [`Node`] with its lists taken apart.
pub enum Pattern {
    /// Matches the empty string.
    Empty,
    /// Matches nothing: an alternation without branches.
    Fail,
    /// One byte of the set.
    Class(Set<u8>),
    /// The start of the input.
    Start,
    /// The end of the input.
    End,
    /// The first part of a concatenation, and the rest of it.
    Cat(Box<Pattern>, Box<Pattern>),
    /// The first branch of an alternation, and the rest of it.
    Alt(Box<Pattern>, Box<Pattern>),
    /// The last branch of an alternation.
    Last(Box<Pattern>),
    Star(Box<Pattern>),
    Plus(Box<Pattern>),
    Quest(Box<Pattern>),
}

/// The pattern that `node` stands for.
pub open spec fn pattern_of(node: Node) -> Pattern
    decreases node, 0int,
{
    match node {
        Node::Empty => Pattern::Empty,
        Node::Class(c) => Pattern::Class(c@),
        Node::Concat(parts) => cat_of(parts@, 0),
        Node::Alt(parts) => alt_of(parts@, 0),
        Node::Star(n) => Pattern::Star(Box::new(pattern_of(*n))),
        Node::Plus(n) => Pattern::Plus(Box::new(pattern_of(*n))),
        Node::Quest(n) => Pattern::Quest(Box::new(pattern_of(*n))),
        Node::StartAnchor => Pattern::Start,
        Node::EndAnchor => Pattern::End,
    }
}

/// The concatenation of `parts` from the `i`-th on.
pub open spec fn cat_of(parts: Seq<Node>, i: int) -> Pattern
    decreases parts, parts.len() - i,
{
    if 0 <= i < parts.len() {
        Pattern::Cat(Box::new(pattern_of(parts[i])), Box::new(cat_of(parts, i + 1)))
    } else {
        Pattern::Empty
    }
}

/// The alternation of `parts` from the `i`-th on.
pub open spec fn alt_of(parts: Seq<Node>, i: int) -> Pattern
    decreases parts, parts.len() - i,
{
    if 0 <= i < parts.len() - 1 {
        Pattern::Alt(Box::new(pattern_of(parts[i])), Box::new(alt_of(parts, i + 1)))
    } else if 0 <= i < parts.len() {
        Pattern::Last(Box::new(pattern_of(parts[i])))
    } else {
        Pattern::Fail
    }
}

impl View for Node {
    type V = Pattern;

    open spec fn view(&self) -> Pattern {
        pattern_of(*self)
    }
}

/// Whether no alternation of `pattern` is without branches.
pub open spec fn has_branches(pattern: Pattern) -> bool
    decreases pattern,
{
    match pattern {
        Pattern::Fail => false,
        Pattern::Cat(a, b) => has_branches(*a) && has_branches(*b),
        Pattern::Alt(a, b) => has_branches(*a) && has_branches(*b),
        Pattern::Last(p) => has_branches(*p),
        Pattern::Star(p) => has_branches(*p),
        Pattern::Plus(p) => has_branches(*p),
        Pattern::Quest(p) => has_branches(*p),
        _ => true,
    }
}

/// Whether a match of `pattern` may span zero bytes.
pub open spec fn may_be_empty(pattern: Pattern) -> bool
    decreases pattern,
{
    match pattern {
        Pattern::Empty | Pattern::Star(_) | Pattern::Quest(_) | Pattern::Start | Pattern::End => true,
        Pattern::Class(_) | Pattern::Fail => false,
        Pattern::Plus(p) => may_be_empty(*p),
        Pattern::Last(p) => may_be_empty(*p),
        Pattern::Cat(a, b) => may_be_empty(*a) && may_be_empty(*b),
        Pattern::Alt(a, b) => may_be_empty(*a) || may_be_empty(*b),
    }
}

impl Node {
    /// Whether any match can span zero bytes. Zero-width matches force a scan to
    /// advance one byte after recording one, to avoid an infinite loop.
    pub fn nullable(&self) -> (yes: bool)
        ensures
            yes == may_be_empty(self@),
        decreases *self, 0int,
    {
        match self {
            Node::Empty | Node::Star(_) | Node::Quest(_) => true,
            Node::StartAnchor | Node::EndAnchor => true,
            Node::Class(_) => false,
            Node::Plus(inner) => inner.nullable(),
            Node::Concat(parts) => Node::all_nullable(parts, 0),
            Node::Alt(parts) => Node::any_nullable(parts, 0),
        }
    }

    /// Whether each of `parts` from the `i`-th on is nullable.
    fn all_nullable(parts: &Vec<Node>, i: usize) -> (yes: bool)
        ensures
            yes == may_be_empty(cat_of(parts@, i as int)),
        decreases parts@, parts.len() - i,
    {
        if i >= parts.len() {
            true
        } else {
            parts[i].nullable() && Node::all_nullable(parts, i + 1)
        }
    }

    /// Whether one of `parts` from the `i`-th on is nullable.
    fn any_nullable(parts: &Vec<Node>, i: usize) -> (yes: bool)
        ensures
            yes == may_be_empty(alt_of(parts@, i as int)),
        decreases parts@, parts.len() - i,
    {
        if i >= parts.len() {
            false
        } else if parts[i].nullable() {
            true
        } else {
            if i + 1 < parts.len() {
                Node::any_nullable(parts, i + 1)
            } else {
                false
            }
        }
    }
}

/// Lists of parts with the same patterns stand for the same concatenation and the
/// same alternation.
proof fn lemma_same_parts(a: Seq<Node>, b: Seq<Node>, i: int)
    requires
        a.len() == b.len(),
        forall|j: int| 0 <= j < a.len() ==> pattern_of(a[j]) == pattern_of(b[j]),
    ensures
        cat_of(a, i) == cat_of(b, i),
        alt_of(a, i) == alt_of(b, i),
    decreases a.len() - i,
{
    if 0 <= i < a.len() {
        lemma_same_parts(a, b, i + 1);
    }
}

fn clone_all(parts: &Vec<Node>) -> (copies: Vec<Node>)
    ensures
        cat_of(copies@, 0) == cat_of(parts@, 0),
        alt_of(copies@, 0) == alt_of(parts@, 0),
    decreases parts@, 0int,
{
    let mut copies: Vec<Node> = Vec::new();
    let mut i: usize = 0;
    while i < parts.len()
        invariant
            i <= parts.len(),
            copies.len() == i,
            forall|j: int| 0 <= j < i ==> pattern_of(copies[j]) == pattern_of(parts[j]),
        decreases parts.len() - i,
    {
        copies.push(parts[i].clone());
        i += 1;
    }
    proof {
        lemma_same_parts(copies@, parts@, 0);
    }
    copies
}

impl Clone for Node {
    fn clone(&self) -> (copy: Self)
        ensures
            copy@ == self@,
        decreases *self, 0int,
    {
        match self {
            Node::Empty => Node::Empty,
            Node::Class(class) => Node::Class(Box::new(**class)),
            Node::Concat(parts) => Node::Concat(clone_all(parts)),
            Node::Alt(parts) => Node::Alt(clone_all(parts)),
            Node::Star(inner) => Node::Star(Box::new((**inner).clone())),
            Node::Plus(inner) => Node::Plus(Box::new((**inner).clone())),
            Node::Quest(inner) => Node::Quest(Box::new((**inner).clone())),
            Node::StartAnchor => Node::StartAnchor,
            Node::EndAnchor => Node::EndAnchor,
        }
    }
}

/// A parsed pattern together with its source text.
#[derive(Clone, Debug)]
pub struct Regex {
    pub ast: Node,
    pub source: String,
}

/// Whether the pattern can match the empty string.
pub fn nullable(re: &Regex) -> (yes: bool)
    ensures
        yes == may_be_empty(re.ast@),
{
    re.ast.nullable()
}

}
