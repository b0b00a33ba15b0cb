//! The code tree: a flat arena of nodes, and its mathematical shape.
//!
//! Internal nodes refer to their children by arena index; in a
//! well-formed arena the children stand strictly before their parent, so
//! every walk down the tree terminates.

use vstd::prelude::*;

verus! {

/// One node of a code tree, stored in a flat arena.
pub enum TreeNode {
    /// A leaf holding one symbol of the alphabet.
    Leaf { symbol: Vec<char> },
    /// An internal node; `left` and `right` are arena indices.
    Internal { left: usize, right: usize },
    /// The reserved placeholder child used when the alphabet has exactly
    /// one symbol; no codeword ever reaches it.
    Absent,
}

/// Mathematical shape of a code (sub)tree.
pub enum CodeShape {
    Absent,
    Leaf(Seq<char>),
    Node(Box<CodeShape>, Box<CodeShape>),
}

/// Every internal node's children stand strictly before it.
pub open spec fn arena_wf(nodes: Seq<TreeNode>) -> bool {
    forall|i: int|
        0 <= i < nodes.len() ==> match #[trigger] nodes[i] {
            TreeNode::Internal { left, right } => left < i && right < i,
            _ => true,
        }
}

/// The shape rooted at arena index `i`.  An index out of range, or a
/// child not strictly below its parent, reads as `Absent`.
pub open spec fn shape_of(nodes: Seq<TreeNode>, i: int) -> CodeShape
    decreases i,
{
    if 0 <= i < nodes.len() {
        match nodes[i] {
            TreeNode::Leaf { symbol } => CodeShape::Leaf(symbol@),
            TreeNode::Absent => CodeShape::Absent,
            TreeNode::Internal { left, right } => {
                if left < i && right < i {
                    CodeShape::Node(
                        Box::new(shape_of(nodes, left as int)),
                        Box::new(shape_of(nodes, right as int)),
                    )
                } else {
                    CodeShape::Absent
                }
            },
        }
    } else {
        CodeShape::Absent
    }
}

/// Extending the arena with new nodes does not change the shape rooted
/// at an existing index.
pub proof fn lemma_shape_frame(nodes1: Seq<TreeNode>, nodes2: Seq<TreeNode>, i: int)
    requires
        nodes1.len() <= nodes2.len(),
        forall|j: int| 0 <= j < nodes1.len() ==> nodes1[j] == nodes2[j],
        i < nodes1.len(),
    ensures
        shape_of(nodes2, i) == shape_of(nodes1, i),
    decreases i,
{
    if 0 <= i {
        match nodes1[i] {
            TreeNode::Internal { left, right } => {
                if left < i && right < i {
                    lemma_shape_frame(nodes1, nodes2, left as int);
                    lemma_shape_frame(nodes1, nodes2, right as int);
                }
            },
            _ => {},
        }
    }
}

/// The set of symbols on the leaves of a shape.
pub open spec fn shape_syms(t: CodeShape) -> Set<Seq<char>>
    decreases t,
{
    match t {
        CodeShape::Absent => Set::empty(),
        CodeShape::Leaf(s) => Set::empty().insert(s),
        CodeShape::Node(l, r) => shape_syms(*l).union(shape_syms(*r)),
    }
}

/// No symbol appears on two different leaves.
pub open spec fn shape_syms_distinct(t: CodeShape) -> bool
    decreases t,
{
    match t {
        CodeShape::Absent => true,
        CodeShape::Leaf(_) => true,
        CodeShape::Node(l, r) => {
            &&& shape_syms_distinct(*l)
            &&& shape_syms_distinct(*r)
            &&& shape_syms(*l).disjoint(shape_syms(*r))
        },
    }
}

/// The (symbol, codeword) pairs assigned by walking the shape: a step to
/// the first child appends `false` ("0"), a step to the second appends
/// `true` ("1"); a leaf's accumulated path is its codeword.
pub open spec fn shape_codes(t: CodeShape, prefix: Seq<bool>) -> Seq<(Seq<char>, Seq<bool>)>
    decreases t,
{
    match t {
        CodeShape::Absent => Seq::empty(),
        CodeShape::Leaf(s) => seq![(s, prefix)],
        CodeShape::Node(l, r) => shape_codes(*l, prefix.push(false)) + shape_codes(
            *r,
            prefix.push(true),
        ),
    }
}

/// `a` is a prefix of `b`.
pub open spec fn bits_prefix(a: Seq<bool>, b: Seq<bool>) -> bool {
    a.len() <= b.len() && b.subrange(0, a.len() as int) == a
}

/// Codes assigned under a distinct-leaf shape: every code extends the
/// prefix handed in (strictly, under an internal node), the symbols are
/// exactly the leaf symbols with no repetition, and no code is a prefix
/// of another.
pub proof fn lemma_shape_codes_wf(t: CodeShape, prefix: Seq<bool>)
    requires
        shape_syms_distinct(t),
    ensures
        forall|j: int|
            0 <= j < shape_codes(t, prefix).len() ==> bits_prefix(
                prefix,
                (#[trigger] shape_codes(t, prefix)[j]).1,
            ),
        t is Node ==> forall|j: int|
            0 <= j < shape_codes(t, prefix).len() ==> (#[trigger] shape_codes(t, prefix)[j]).1.len()
                > prefix.len(),
        forall|j: int|
            0 <= j < shape_codes(t, prefix).len() ==> shape_syms(t).contains(
                (#[trigger] shape_codes(t, prefix)[j]).0,
            ),
        forall|k: Seq<char>|
            shape_syms(t).contains(k) ==> exists|j: int|
                0 <= j < shape_codes(t, prefix).len() && (#[trigger] shape_codes(t, prefix)[j]).0
                    == k,
        forall|j1: int, j2: int|
            0 <= j1 < shape_codes(t, prefix).len() && 0 <= j2 < shape_codes(t, prefix).len() && j1
                != j2 ==> (#[trigger] shape_codes(t, prefix)[j1]).0 != (#[trigger] shape_codes(
                t,
                prefix,
            )[j2]).0,
        forall|j1: int, j2: int|
            0 <= j1 < shape_codes(t, prefix).len() && 0 <= j2 < shape_codes(t, prefix).len() && j1
                != j2 ==> !bits_prefix(
                (#[trigger] shape_codes(t, prefix)[j1]).1,
                (#[trigger] shape_codes(t, prefix)[j2]).1,
            ),
    decreases t,
{
    match t {
        CodeShape::Absent => {},
        CodeShape::Leaf(s) => {
            assert(prefix.subrange(0, prefix.len() as int) =~= prefix);
            assert forall|k: Seq<char>| shape_syms(t).contains(k) implies exists|j: int|
                0 <= j < shape_codes(t, prefix).len() && (#[trigger] shape_codes(t, prefix)[j]).0
                    == k by {
                assert((shape_codes(t, prefix)[0]).0 == k);
            }
        },
        CodeShape::Node(l, r) => {
            let p0 = prefix.push(false);
            let p1 = prefix.push(true);
            let cl = shape_codes(*l, p0);
            let cr = shape_codes(*r, p1);
            let cs = shape_codes(t, prefix);
            lemma_shape_codes_wf(*l, p0);
            lemma_shape_codes_wf(*r, p1);
            assert(cs == cl + cr);
            assert forall|j: int| 0 <= j < cs.len() implies bits_prefix(prefix, (cs[j]).1)
                && (cs[j]).1.len() > prefix.len() && shape_syms(t).contains((cs[j]).0) by {
                if j < cl.len() {
                    assert(cs[j] == cl[j]);
                    assert(bits_prefix(p0, cl[j].1));
                    assert(prefix.len() < cl[j].1.len());
                    assert(cl[j].1.subrange(0, p0.len() as int).subrange(0, prefix.len() as int)
                        =~= cl[j].1.subrange(0, prefix.len() as int));
                    assert(p0.subrange(0, prefix.len() as int) =~= prefix);
                    assert(bits_prefix(prefix, cl[j].1));
                } else {
                    let jj = j - cl.len();
                    assert(cs[j] == cr[jj]);
                    assert(bits_prefix(p1, cr[jj].1));
                    assert(prefix.len() < cr[jj].1.len());
                    assert(cr[jj].1.subrange(0, p1.len() as int).subrange(0, prefix.len() as int)
                        =~= cr[jj].1.subrange(0, prefix.len() as int));
                    assert(p1.subrange(0, prefix.len() as int) =~= prefix);
                    assert(bits_prefix(prefix, cr[jj].1));
                }
            }
            assert forall|k: Seq<char>| shape_syms(t).contains(k) implies exists|j: int|
                0 <= j < cs.len() && (#[trigger] cs[j]).0 == k by {
                if shape_syms(*l).contains(k) {
                    let j = choose|j: int| 0 <= j < cl.len() && (#[trigger] cl[j]).0 == k;
                    assert(cs[j] == cl[j]);
                } else {
                    let j = choose|j: int| 0 <= j < cr.len() && (#[trigger] cr[j]).0 == k;
                    assert(cs[j + cl.len()] == cr[j]);
                }
            }
            assert forall|j1: int, j2: int|
                0 <= j1 < cs.len() && 0 <= j2 < cs.len() && j1 != j2 implies (cs[j1]).0
                != (cs[j2]).0 && !bits_prefix((cs[j1]).1, (cs[j2]).1) by {
                let c1 = cs[j1];
                let c2 = cs[j2];
                if j1 < cl.len() && j2 < cl.len() {
                    assert(c1 == cl[j1] && c2 == cl[j2]);
                } else if j1 >= cl.len() && j2 >= cl.len() {
                    assert(c1 == cr[j1 - cl.len()] && c2 == cr[j2 - cl.len()]);
                } else {
                    let (a, b) = if j1 < cl.len() {
                        (c1, c2)
                    } else {
                        (c2, c1)
                    };
                    // `a` comes from the first child, `b` from the second:
                    // their symbols lie in disjoint leaf sets, and their
                    // codes part ways right after the shared prefix.
                    assert(shape_syms(*l).contains(a.0));
                    assert(shape_syms(*r).contains(b.0));
                    assert(a.0 != b.0);
                    assert(bits_prefix(p0, a.1) && bits_prefix(p1, b.1));
                    assert(a.1[prefix.len() as int] == false) by {
                        assert(a.1.subrange(0, p0.len() as int)[prefix.len() as int]
                            == a.1[prefix.len() as int]);
                    }
                    assert(b.1[prefix.len() as int] == true) by {
                        assert(b.1.subrange(0, p1.len() as int)[prefix.len() as int]
                            == b.1[prefix.len() as int]);
                    }
                    if bits_prefix(a.1, b.1) {
                        assert(b.1.subrange(0, a.1.len() as int)[prefix.len() as int]
                            == b.1[prefix.len() as int]);
                        assert(false);
                    }
                    if bits_prefix(b.1, a.1) {
                        assert(a.1.subrange(0, b.1.len() as int)[prefix.len() as int]
                            == a.1[prefix.len() as int]);
                        assert(false);
                    }
                }
            }
        },
    }
}

/// A code tree: the arena, and the root index if the tree is non-empty.
pub struct CodeTree {
    pub nodes: Vec<TreeNode>,
    pub root: Option<usize>,
}

impl CodeTree {
    /// Well-formedness: children stand before their parents, and the
    /// root, when present, is a valid index.
    pub open spec fn wf(self) -> bool {
        &&& arena_wf(self.nodes@)
        &&& match self.root {
            Option::Some(r) => r < self.nodes@.len(),
            Option::None => true,
        }
    }

    /// The shape of the whole tree, `None` when it has no root.
    pub open spec fn shape(self) -> Option<CodeShape> {
        match self.root {
            Option::Some(r) => Option::Some(shape_of(self.nodes@, r as int)),
            Option::None => Option::None,
        }
    }
}

} // verus!
