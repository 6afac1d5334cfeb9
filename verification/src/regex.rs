//! Regular-expression syntax trees.
//!
//! Trees arrive fully formed from an external parser; this crate only
//! traverses them.  The supported operators are union, concatenation,
//! Kleene closure and literal characters over the byte alphabet.

use vstd::prelude::*;

verus! {

/// One literal character occurrence in a pattern: the byte value and the
/// index where it appeared in the pattern source.  The index serves
/// traceability during construction only and is never read afterwards.
pub type Position = (u8, usize);

/// A regular-expression syntax tree.
pub enum AST {
    /// Union: matches either operand.
    Or(Box<AST>, Box<AST>),
    /// Concatenation: matches the left operand followed by the right.
    Cat(Box<AST>, Box<AST>),
    /// Kleene closure: matches zero or more repetitions of the operand.
    Clos(Box<AST>),
    /// A single literal character.
    Char(Position),
}

impl AST {
    /// The number of nodes in the tree; bounds how many automaton states
    /// construction can allocate for it.
    pub open spec fn size(self) -> nat
        decreases self,
    {
        match self {
            AST::Or(l, r) => 1 + l.size() + r.size(),
            AST::Cat(l, r) => 1 + l.size() + r.size(),
            AST::Clos(op) => 1 + op.size(),
            AST::Char(_) => 1,
        }
    }

    /// Two trees denote the same pattern: they have the same shape and the
    /// same characters.  Source positions are ignored; they carry no
    /// meaning for matching.
    #[verifier::opaque]
    pub open spec fn same_pattern(self, other: AST) -> bool
        decreases self,
    {
        match (self, other) {
            (AST::Or(l1, r1), AST::Or(l2, r2)) => l1.same_pattern(*l2) && r1.same_pattern(*r2),
            (AST::Cat(l1, r1), AST::Cat(l2, r2)) => l1.same_pattern(*l2) && r1.same_pattern(*r2),
            (AST::Clos(o1), AST::Clos(o2)) => o1.same_pattern(*o2),
            (AST::Char((c1, _)), AST::Char((c2, _))) => c1 == c2,
            _ => false,
        }
    }
}

/// The language a pattern denotes: `lang(r, w)` holds when the byte
/// string `w` matches the regular expression `r`.
pub open spec fn lang(r: AST, w: Seq<u8>) -> bool
    decreases r, w.len(), 0int,
{
    match r {
        AST::Or(l, rr) => lang(*l, w) || lang(*rr, w),
        AST::Cat(l, rr) => exists|k: int|
            0 <= k <= w.len() && lang(*l, #[trigger] w.take(k)) && lang(*rr, w.skip(k)),
        AST::Clos(op) => star_lang(*op, w),
        AST::Char((c, _)) => w.len() == 1 && w[0] == c,
    }
}

/// Zero or more matches of `op` in sequence.
pub open spec fn star_lang(op: AST, w: Seq<u8>) -> bool
    decreases op, w.len(), 1int,
{
    ||| w.len() == 0
    ||| exists|k: int|
        1 <= k <= w.len() && lang(op, #[trigger] w.take(k)) && star_lang(op, w.skip(k))
}

/// Pattern identity is reflexive.
pub proof fn lemma_same_pattern_refl(a: AST)
    ensures
        a.same_pattern(a),
    decreases a,
{
    reveal(AST::same_pattern);
    match a {
        AST::Or(l, r) => {
            lemma_same_pattern_refl(*l);
            lemma_same_pattern_refl(*r);
        },
        AST::Cat(l, r) => {
            lemma_same_pattern_refl(*l);
            lemma_same_pattern_refl(*r);
        },
        AST::Clos(op) => {
            lemma_same_pattern_refl(*op);
        },
        AST::Char(_) => {},
    }
}

/// Pattern identity is symmetric.
pub proof fn lemma_same_pattern_sym(a: AST, b: AST)
    requires
        a.same_pattern(b),
    ensures
        b.same_pattern(a),
    decreases a,
{
    reveal(AST::same_pattern);
    match (a, b) {
        (AST::Or(l1, r1), AST::Or(l2, r2)) => {
            lemma_same_pattern_sym(*l1, *l2);
            lemma_same_pattern_sym(*r1, *r2);
        },
        (AST::Cat(l1, r1), AST::Cat(l2, r2)) => {
            lemma_same_pattern_sym(*l1, *l2);
            lemma_same_pattern_sym(*r1, *r2);
        },
        (AST::Clos(o1), AST::Clos(o2)) => {
            lemma_same_pattern_sym(*o1, *o2);
        },
        _ => {},
    }
}

/// Pattern identity is transitive.
pub proof fn lemma_same_pattern_trans(a: AST, b: AST, c: AST)
    requires
        a.same_pattern(b),
        b.same_pattern(c),
    ensures
        a.same_pattern(c),
    decreases a,
{
    reveal(AST::same_pattern);
    match (a, b, c) {
        (AST::Or(l1, r1), AST::Or(l2, r2), AST::Or(l3, r3)) => {
            lemma_same_pattern_trans(*l1, *l2, *l3);
            lemma_same_pattern_trans(*r1, *r2, *r3);
        },
        (AST::Cat(l1, r1), AST::Cat(l2, r2), AST::Cat(l3, r3)) => {
            lemma_same_pattern_trans(*l1, *l2, *l3);
            lemma_same_pattern_trans(*r1, *r2, *r3);
        },
        (AST::Clos(o1), AST::Clos(o2), AST::Clos(o3)) => {
            lemma_same_pattern_trans(*o1, *o2, *o3);
        },
        _ => {},
    }
}

/// Decides whether two trees denote the same pattern (same shape and
/// characters, positions ignored).
pub fn ast_eq(a: &AST, b: &AST) -> (r: bool)
    ensures
        r == a.same_pattern(*b),
    decreases *a,
{
    proof {
        reveal(AST::same_pattern);
    }
    match (a, b) {
        (AST::Or(l1, r1), AST::Or(l2, r2)) => ast_eq(&**l1, &**l2) && ast_eq(&**r1, &**r2),
        (AST::Cat(l1, r1), AST::Cat(l2, r2)) => ast_eq(&**l1, &**l2) && ast_eq(&**r1, &**r2),
        (AST::Clos(o1), AST::Clos(o2)) => ast_eq(&**o1, &**o2),
        (AST::Char((c1, _)), AST::Char((c2, _))) => c1 == c2,
        _ => false,
    }
}

/// Builds a structurally equal copy of a tree.
pub fn ast_copy(a: &AST) -> (r: AST)
    ensures
        r == *a,
    decreases *a,
{
    match a {
        AST::Or(l, r) => AST::Or(Box::new(ast_copy(&**l)), Box::new(ast_copy(&**r))),
        AST::Cat(l, r) => AST::Cat(Box::new(ast_copy(&**l)), Box::new(ast_copy(&**r))),
        AST::Clos(op) => AST::Clos(Box::new(ast_copy(&**op))),
        AST::Char(p) => AST::Char(*p),
    }
}

} // verus!
