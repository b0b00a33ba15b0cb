//! Deterministic bottom-up construction of the prefix code.
//!
//! The working forest is kept ordered by weight descending, ties broken
//! by lexicographically smaller key first.  Ordering by raw weight is
//! the same as ordering by probability, since every probability is the
//! weight over the one shared total.  Each step removes the two
//! entries at the tail (the two lowest), joins them under a new node —
//! second-smallest on the left, smallest on the right — and reinserts
//! the merged entry, which keeps the smallest's key and carries the
//! combined weight, at its ordered position.  The last remaining entry
//! is the root.

use vstd::prelude::*;
use crate::tree::{CodeShape, TreeNode, CodeTree, shape_of, arena_wf, shape_syms, shape_syms_distinct, shape_codes, bits_prefix, lemma_shape_codes_wf, lemma_shape_frame};
use crate::table::{CodeTable, table_pairs};
use crate::freq::{FrequencyTable, subvec};
use crate::codec::copy_bits;

verus! {

/// Strict lexicographic order on symbols, by scalar value.
pub open spec fn lex_lt(a: Seq<char>, b: Seq<char>) -> bool
    decreases a.len(),
{
    if a.len() == 0 {
        b.len() > 0
    } else if b.len() == 0 {
        false
    } else if a[0] == b[0] {
        lex_lt(a.skip(1), b.skip(1))
    } else {
        (a[0] as u32) < (b[0] as u32)
    }
}

/// Comparing two symbols that agree on their first `i` units comes down
/// to comparing their tails.
proof fn lemma_lex_skip(a: Seq<char>, b: Seq<char>, i: int)
    requires
        0 <= i <= a.len(),
        i <= b.len(),
        forall|j: int| 0 <= j < i ==> a[j] == b[j],
    ensures
        lex_lt(a, b) == lex_lt(a.skip(i), b.skip(i)),
    decreases i,
{
    if i == 0 {
        assert(a.skip(0) =~= a);
        assert(b.skip(0) =~= b);
    } else {
        assert(a[0] == b[0]);
        lemma_lex_skip(a.skip(1), b.skip(1), i - 1);
        assert(a.skip(1).skip(i - 1) =~= a.skip(i));
        assert(b.skip(1).skip(i - 1) =~= b.skip(i));
    }
}

/// Exec comparison matching `lex_lt`.
pub fn sym_lt(a: &Vec<char>, b: &Vec<char>) -> (r: bool)
    ensures
        r == lex_lt(a@, b@),
{
    let mut i: usize = 0;
    while i < a.len() && i < b.len()
        invariant
            i <= a@.len(),
            i <= b@.len(),
            forall|j: int| 0 <= j < i ==> a@[j] == b@[j],
        decreases a@.len() - i,
    {
        if a[i] != b[i] {
            proof {
                lemma_lex_skip(a@, b@, i as int);
            }
            return (a[i] as u32) < (b[i] as u32);
        }
        i = i + 1;
    }
    proof {
        lemma_lex_skip(a@, b@, i as int);
    }
    a.len() < b.len()
}

/// One root in the working forest of the merge loop.
pub struct BuildEntry {
    pub key: Seq<char>,
    pub weight: nat,
    pub shape: CodeShape,
}

/// `x` stands strictly before `y` in the working order: higher weight
/// first, ties broken by lexicographically smaller key first.
pub open spec fn entry_before(x: BuildEntry, y: BuildEntry) -> bool {
    x.weight > y.weight || (x.weight == y.weight && lex_lt(x.key, y.key))
}

/// Insert `e` into the descending list `s`, after every entry that
/// stands before it.
pub open spec fn insert_desc(s: Seq<BuildEntry>, e: BuildEntry) -> Seq<BuildEntry>
    decreases s.len(),
{
    if s.len() == 0 {
        seq![e]
    } else if entry_before(s[0], e) {
        seq![s[0]] + insert_desc(s.skip(1), e)
    } else {
        seq![e] + s
    }
}

/// Position at which `insert_desc` places the new entry.
pub open spec fn insert_pos(s: Seq<BuildEntry>, e: BuildEntry) -> int
    decreases s.len(),
{
    if s.len() == 0 {
        0
    } else if entry_before(s[0], e) {
        1 + insert_pos(s.skip(1), e)
    } else {
        0
    }
}

/// `insert_desc` splices the new entry in at `insert_pos`.
proof fn lemma_insert_desc_split(s: Seq<BuildEntry>, e: BuildEntry)
    ensures
        0 <= insert_pos(s, e) <= s.len(),
        insert_desc(s, e) == s.take(insert_pos(s, e)) + seq![e] + s.skip(insert_pos(s, e)),
        insert_desc(s, e).len() == s.len() + 1,
    decreases s.len(),
{
    if s.len() == 0 {
        assert(insert_desc(s, e) =~= s.take(0) + seq![e] + s.skip(0));
    } else if entry_before(s[0], e) {
        lemma_insert_desc_split(s.skip(1), e);
        let p = insert_pos(s.skip(1), e);
        assert(insert_desc(s, e) =~= s.take(p + 1) + seq![e] + s.skip(p + 1));
    } else {
        assert(insert_desc(s, e) =~= s.take(0) + seq![e] + s.skip(0));
    }
}

/// Sort into the descending working order by repeated insertion.
pub open spec fn sort_desc(s: Seq<BuildEntry>) -> Seq<BuildEntry>
    decreases s.len(),
{
    if s.len() == 0 {
        Seq::empty()
    } else {
        insert_desc(sort_desc(s.drop_last()), s.last())
    }
}

/// One merge step: remove the two entries at the tail (the two lowest),
/// join them under a new node — second-smallest left, smallest right —
/// and reinsert the merged entry at its ordered position.  The merged
/// entry keeps the smallest's key for later tie-breaks and carries the
/// combined weight.
pub open spec fn merged_entry(s: Seq<BuildEntry>) -> BuildEntry
    recommends
        s.len() >= 2,
{
    let a = s.last();
    let b = s[s.len() - 2];
    BuildEntry {
        key: a.key,
        weight: (a.weight + b.weight) as nat,
        shape: CodeShape::Node(Box::new(b.shape), Box::new(a.shape)),
    }
}

pub open spec fn merge_once(s: Seq<BuildEntry>) -> Seq<BuildEntry>
    recommends
        s.len() >= 2,
{
    insert_desc(s.take(s.len() - 2), merged_entry(s))
}

/// Repeat merging until a single root remains.
pub open spec fn merge_all(s: Seq<BuildEntry>) -> Seq<BuildEntry>
    decreases s.len(),
    via merge_all_dec
{
    if s.len() <= 1 {
        s
    } else {
        merge_all(merge_once(s))
    }
}

#[via_fn]
proof fn merge_all_dec(s: Seq<BuildEntry>) {
    if s.len() > 1 {
        lemma_insert_desc_split(s.take(s.len() - 2), merged_entry(s));
    }
}

/// The total weight carried by a working forest.
pub open spec fn forest_weight(s: Seq<BuildEntry>) -> nat
    decreases s.len(),
{
    if s.len() == 0 {
        0
    } else {
        forest_weight(s.drop_last()) + s.last().weight
    }
}

/// The set of leaf symbols over a whole working forest.
pub open spec fn forest_syms(s: Seq<BuildEntry>) -> Set<Seq<char>>
    decreases s.len(),
{
    if s.len() == 0 {
        Set::empty()
    } else {
        forest_syms(s.drop_last()).union(shape_syms(s.last().shape))
    }
}

/// Forest invariant: every root has distinct leaves, and no symbol
/// appears under two different roots.
pub open spec fn forest_wf(s: Seq<BuildEntry>) -> bool {
    &&& forall|i: int| 0 <= i < s.len() ==> shape_syms_distinct((#[trigger] s[i]).shape)
    &&& forall|i: int, j: int|
        0 <= i < s.len() && 0 <= j < s.len() && i != j ==> shape_syms(s[i].shape).disjoint(
            shape_syms(s[j].shape),
        )
}

proof fn lemma_forest_weight_concat(x: Seq<BuildEntry>, y: Seq<BuildEntry>)
    ensures
        forest_weight(x + y) == forest_weight(x) + forest_weight(y),
    decreases y.len(),
{
    if y.len() == 0 {
        assert(x + y =~= x);
    } else {
        assert((x + y).drop_last() =~= x + y.drop_last());
        assert((x + y).last() == y.last());
        lemma_forest_weight_concat(x, y.drop_last());
    }
}

proof fn lemma_forest_syms_concat(x: Seq<BuildEntry>, y: Seq<BuildEntry>)
    ensures
        forest_syms(x + y) =~= forest_syms(x).union(forest_syms(y)),
    decreases y.len(),
{
    if y.len() == 0 {
        assert(x + y =~= x);
    } else {
        assert((x + y).drop_last() =~= x + y.drop_last());
        assert((x + y).last() == y.last());
        lemma_forest_syms_concat(x, y.drop_last());
    }
}

/// Splitting a forest at any position splits its weight and symbols.
proof fn lemma_forest_split(s: Seq<BuildEntry>, p: int)
    requires
        0 <= p <= s.len(),
    ensures
        forest_weight(s) == forest_weight(s.take(p)) + forest_weight(s.skip(p)),
        forest_syms(s) =~= forest_syms(s.take(p)).union(forest_syms(s.skip(p))),
{
    assert(s =~= s.take(p) + s.skip(p));
    lemma_forest_weight_concat(s.take(p), s.skip(p));
    lemma_forest_syms_concat(s.take(p), s.skip(p));
}

/// Inserting preserves the forest invariant and adds the entry's weight
/// and symbols.
proof fn lemma_insert_desc_forest(s: Seq<BuildEntry>, e: BuildEntry)
    requires
        forest_wf(s),
        shape_syms_distinct(e.shape),
        forall|i: int|
            0 <= i < s.len() ==> shape_syms(e.shape).disjoint(
                shape_syms((#[trigger] s[i]).shape),
            ),
    ensures
        forest_wf(insert_desc(s, e)),
        insert_desc(s, e).len() == s.len() + 1,
        forest_weight(insert_desc(s, e)) == forest_weight(s) + e.weight,
        forest_syms(insert_desc(s, e)) =~= forest_syms(s).union(shape_syms(e.shape)),
{
    lemma_insert_desc_split(s, e);
    let p = insert_pos(s, e);
    let r = insert_desc(s, e);
    assert forall|i: int| 0 <= i < r.len() implies r[i] == e || (exists|j: int|
        0 <= j < s.len() && s[j] == r[i] && (i < p ==> j == i) && (i > p ==> j == i - 1)) by {
        if i < p {
            assert(r[i] == s[i]);
        } else if i == p {
            assert(r[i] == e);
        } else {
            assert(r[i] == s[i - 1]);
        }
    }
    assert forall|i: int| 0 <= i < r.len() implies shape_syms_distinct(
        (#[trigger] r[i]).shape,
    ) by {
        if i < p {
            assert(r[i] == s[i]);
        } else if i == p {
            assert(r[i] == e);
        } else {
            assert(r[i] == s[i - 1]);
        }
    }
    assert forall|i: int, j: int| 0 <= i < r.len() && 0 <= j < r.len() && i != j implies shape_syms(
        r[i].shape,
    ).disjoint(shape_syms(r[j].shape)) by {
        let si: int = if i < p {
            i
        } else {
            i - 1
        };
        let sj: int = if j < p {
            j
        } else {
            j - 1
        };
        if i == p {
            assert(r[i] == e);
            if j < p {
                assert(r[j] == s[j]);
            } else {
                assert(r[j] == s[j - 1]);
            }
        } else if j == p {
            assert(r[j] == e);
            if i < p {
                assert(r[i] == s[i]);
            } else {
                assert(r[i] == s[i - 1]);
            }
            assert(shape_syms(e.shape).disjoint(shape_syms(r[i].shape)));
            assert forall|k: Seq<char>| shape_syms(r[i].shape).contains(k) implies !shape_syms(
                r[j].shape,
            ).contains(k) by {}
        } else {
            if i < p {
                assert(r[i] == s[i]);
            } else {
                assert(r[i] == s[i - 1]);
            }
            if j < p {
                assert(r[j] == s[j]);
            } else {
                assert(r[j] == s[j - 1]);
            }
            assert(si != sj);
        }
    }
    lemma_forest_split(s, p);
    let mid: Seq<BuildEntry> = seq![e];
    lemma_forest_weight_concat(s.take(p), mid);
    lemma_forest_weight_concat(s.take(p) + mid, s.skip(p));
    lemma_forest_syms_concat(s.take(p), mid);
    lemma_forest_syms_concat(s.take(p) + mid, s.skip(p));
    assert(forest_weight(mid) == e.weight) by {
        assert(forest_weight(Seq::<BuildEntry>::empty()) == 0);
        assert(mid.drop_last() =~= Seq::<BuildEntry>::empty());
        assert(forest_weight(mid) == forest_weight(mid.drop_last()) + mid.last().weight);
    }
    assert(forest_syms(mid) =~= shape_syms(e.shape)) by {
        assert(forest_syms(Seq::<BuildEntry>::empty()) =~= Set::<Seq<char>>::empty());
        assert(mid.drop_last() =~= Seq::<BuildEntry>::empty());
        assert(forest_syms(mid) =~= forest_syms(mid.drop_last()).union(
            shape_syms(mid.last().shape),
        ));
    }
}

/// One merge step keeps the forest invariant, the total weight and the
/// symbol set, and shortens the forest by one.
proof fn lemma_merge_once_forest(s: Seq<BuildEntry>)
    requires
        s.len() >= 2,
        forest_wf(s),
    ensures
        forest_wf(merge_once(s)),
        merge_once(s).len() == s.len() - 1,
        forest_weight(merge_once(s)) == forest_weight(s),
        forest_syms(merge_once(s)) =~= forest_syms(s),
{
    let n = s.len() as int;
    let t = s.take(n - 2);
    let a = s.last();
    let b = s[n - 2];
    let e = merged_entry(s);
    assert(forest_wf(t)) by {
        assert forall|i: int| 0 <= i < t.len() implies shape_syms_distinct(
            (#[trigger] t[i]).shape,
        ) by {
            assert(t[i] == s[i]);
        }
        assert forall|i: int, j: int|
            0 <= i < t.len() && 0 <= j < t.len() && i != j implies shape_syms(
            t[i].shape,
        ).disjoint(shape_syms(t[j].shape)) by {
            assert(t[i] == s[i] && t[j] == s[j]);
        }
    }
    assert(shape_syms(e.shape) =~= shape_syms(b.shape).union(shape_syms(a.shape)));
    assert(shape_syms_distinct(e.shape)) by {
        assert(shape_syms(s[n - 2].shape).disjoint(shape_syms(s[n - 1].shape)));
    }
    assert forall|i: int| 0 <= i < t.len() implies shape_syms(e.shape).disjoint(
        shape_syms((#[trigger] t[i]).shape),
    ) by {
        assert(t[i] == s[i]);
        assert(shape_syms(s[n - 2].shape).disjoint(shape_syms(s[i].shape)));
        assert(shape_syms(s[n - 1].shape).disjoint(shape_syms(s[i].shape)));
        assert forall|k: Seq<char>| shape_syms(e.shape).contains(k) implies !shape_syms(
            t[i].shape,
        ).contains(k) by {}
    }
    lemma_insert_desc_forest(t, e);
    assert(s.take(n - 2) =~= s.drop_last().drop_last());
    assert(forest_weight(s) == forest_weight(t) + b.weight + a.weight) by {
        assert(forest_weight(s) == forest_weight(s.drop_last()) + a.weight);
        assert(forest_weight(s.drop_last()) == forest_weight(s.drop_last().drop_last())
            + s.drop_last().last().weight);
        assert(s.drop_last().last() == b);
        assert(s.drop_last().drop_last() == t);
    }
    assert(forest_syms(s) =~= forest_syms(t).union(shape_syms(b.shape)).union(
        shape_syms(a.shape),
    )) by {
        assert(forest_syms(s) =~= forest_syms(s.drop_last()).union(shape_syms(a.shape)));
        assert(forest_syms(s.drop_last()) =~= forest_syms(s.drop_last().drop_last()).union(
            shape_syms(s.drop_last().last().shape),
        ));
        assert(s.drop_last().last() == b);
        assert(s.drop_last().drop_last() == t);
    }
}

/// Merging all the way down yields one root whose leaves are exactly the
/// forest's symbols, each on one leaf only; with at least two starting
/// entries the root is an internal node.
proof fn lemma_merge_all_forest(s: Seq<BuildEntry>)
    requires
        s.len() >= 1,
        forest_wf(s),
    ensures
        merge_all(s).len() == 1,
        shape_syms_distinct(merge_all(s)[0].shape),
        shape_syms(merge_all(s)[0].shape) =~= forest_syms(s),
        forest_weight(merge_all(s)) == forest_weight(s),
        s.len() >= 2 ==> merge_all(s)[0].shape is Node,
    decreases s.len(),
{
    if s.len() == 1 {
        assert(s.drop_last() =~= Seq::<BuildEntry>::empty());
        assert(forest_syms(Seq::<BuildEntry>::empty()) =~= Set::<Seq<char>>::empty());
        assert(forest_syms(s) =~= forest_syms(s.drop_last()).union(shape_syms(s.last().shape)));
        assert(forest_syms(s) =~= shape_syms(s[0].shape));
        assert(forest_weight(s) == forest_weight(s.drop_last()) + s.last().weight);
    } else {
        lemma_merge_once_forest(s);
        lemma_merge_all_forest(merge_once(s));
        if s.len() == 2 {
            assert(s.take(0) =~= Seq::<BuildEntry>::empty());
            assert(merge_once(s) =~= seq![merged_entry(s)]);
            assert(merge_all(merge_once(s)) == merge_once(s));
        } else {
            assert(merge_once(s).len() >= 2);
        }
    }
}

/// Total weight of a frequency table's entries.
pub open spec fn total_weight(entries: Seq<(Seq<char>, nat)>) -> nat
    decreases entries.len(),
{
    if entries.len() == 0 {
        0
    } else {
        total_weight(entries.drop_last()) + entries.last().1
    }
}

/// The initial working forest: one leaf per table entry, in table order.
pub open spec fn leaves_of(entries: Seq<(Seq<char>, nat)>) -> Seq<BuildEntry> {
    entries.map_values(
        |e: (Seq<char>, nat)| BuildEntry { key: e.0, weight: e.1, shape: CodeShape::Leaf(e.0) },
    )
}

/// The tree that deterministic merging builds from a table's entries:
/// none for an empty table; for a single symbol, a root whose first
/// child is that symbol's leaf and whose second child is the reserved
/// unreachable placeholder (so the lone symbol still gets a 1-bit
/// codeword); otherwise the result of the ordered merge loop.
pub open spec fn spec_build(entries: Seq<(Seq<char>, nat)>) -> Option<CodeShape> {
    if entries.len() == 0 {
        Option::None
    } else if entries.len() == 1 {
        Option::Some(
            CodeShape::Node(
                Box::new(CodeShape::Leaf(entries[0].0)),
                Box::new(CodeShape::Absent),
            ),
        )
    } else {
        Option::Some(merge_all(sort_desc(leaves_of(entries)))[0].shape)
    }
}

/// The (symbol, codeword) pairs that the built tree assigns.
pub open spec fn spec_huffman(entries: Seq<(Seq<char>, nat)>) -> Seq<(Seq<char>, Seq<bool>)> {
    match spec_build(entries) {
        Option::None => Seq::empty(),
        Option::Some(sh) => shape_codes(sh, Seq::empty()),
    }
}

/// Inserting adds the entry's weight, with no other condition.
proof fn lemma_insert_desc_weight(s: Seq<BuildEntry>, e: BuildEntry)
    ensures
        forest_weight(insert_desc(s, e)) == forest_weight(s) + e.weight,
{
    lemma_insert_desc_split(s, e);
    let p = insert_pos(s, e);
    let mid: Seq<BuildEntry> = seq![e];
    lemma_forest_split(s, p);
    lemma_forest_weight_concat(s.take(p), mid);
    lemma_forest_weight_concat(s.take(p) + mid, s.skip(p));
    assert(forest_weight(mid) == e.weight) by {
        assert(forest_weight(Seq::<BuildEntry>::empty()) == 0);
        assert(mid.drop_last() =~= Seq::<BuildEntry>::empty());
        assert(forest_weight(mid) == forest_weight(mid.drop_last()) + mid.last().weight);
    }
}

/// Every entry of the inserted list is the new entry or one of the old.
proof fn lemma_insert_desc_elem(s: Seq<BuildEntry>, e: BuildEntry)
    ensures
        forall|i: int|
            0 <= i < insert_desc(s, e).len() ==> (#[trigger] insert_desc(s, e)[i]) == e
                || exists|j: int| 0 <= j < s.len() && s[j] == insert_desc(s, e)[i],
{
    lemma_insert_desc_split(s, e);
    let p = insert_pos(s, e);
    let r = insert_desc(s, e);
    assert forall|i: int| 0 <= i < r.len() implies (#[trigger] r[i]) == e || exists|j: int|
        0 <= j < s.len() && s[j] == r[i] by {
        if i < p {
            assert(r[i] == s[i]);
        } else if i > p {
            assert(r[i] == s[i - 1]);
        }
    }
}

/// Every entry of the sorted list is one of the original entries.
proof fn lemma_sort_desc_elem(s: Seq<BuildEntry>)
    ensures
        sort_desc(s).len() == s.len(),
        forall|i: int|
            0 <= i < sort_desc(s).len() ==> exists|j: int|
                0 <= j < s.len() && s[j] == #[trigger] sort_desc(s)[i],
    decreases s.len(),
{
    if s.len() > 0 {
        let t = s.drop_last();
        lemma_sort_desc_elem(t);
        lemma_insert_desc_split(sort_desc(t), s.last());
        lemma_insert_desc_elem(sort_desc(t), s.last());
        assert forall|i: int| 0 <= i < sort_desc(s).len() implies exists|j: int|
            0 <= j < s.len() && s[j] == #[trigger] sort_desc(s)[i] by {
            if sort_desc(s)[i] == s.last() {
                assert(s[s.len() - 1] == sort_desc(s)[i]);
            } else {
                let jj = choose|jj: int|
                    0 <= jj < sort_desc(t).len() && sort_desc(t)[jj] == sort_desc(s)[i];
                let j2 = choose|j2: int| 0 <= j2 < t.len() && t[j2] == sort_desc(t)[jj];
                assert(s[j2] == sort_desc(s)[i]);
            }
        }
    }
}

/// Sorting keeps the forest invariant, the total weight and the symbols.
proof fn lemma_sort_desc_forest(s: Seq<BuildEntry>)
    requires
        forest_wf(s),
    ensures
        forest_wf(sort_desc(s)),
        sort_desc(s).len() == s.len(),
        forest_weight(sort_desc(s)) == forest_weight(s),
        forest_syms(sort_desc(s)) =~= forest_syms(s),
    decreases s.len(),
{
    if s.len() > 0 {
        let t = s.drop_last();
        let e = s.last();
        assert(forest_wf(t)) by {
            assert forall|i: int| 0 <= i < t.len() implies shape_syms_distinct(
                (#[trigger] t[i]).shape,
            ) by {
                assert(t[i] == s[i]);
            }
            assert forall|i: int, j: int|
                0 <= i < t.len() && 0 <= j < t.len() && i != j implies shape_syms(
                t[i].shape,
            ).disjoint(shape_syms(t[j].shape)) by {
                assert(t[i] == s[i] && t[j] == s[j]);
            }
        }
        lemma_sort_desc_forest(t);
        lemma_sort_desc_elem(t);
        assert(shape_syms_distinct(e.shape)) by {
            assert(e == s[s.len() - 1]);
        }
        assert forall|i: int| 0 <= i < sort_desc(t).len() implies shape_syms(e.shape).disjoint(
            shape_syms((#[trigger] sort_desc(t)[i]).shape),
        ) by {
            let j = choose|j: int| 0 <= j < t.len() && t[j] == sort_desc(t)[i];
            assert(t[j] == s[j]);
            assert(shape_syms(s[s.len() - 1].shape).disjoint(shape_syms(s[j].shape)));
        }
        lemma_insert_desc_forest(sort_desc(t), e);
        assert(forest_weight(s) == forest_weight(t) + e.weight);
        assert(forest_syms(s) =~= forest_syms(t).union(shape_syms(e.shape)));
    }
}

/// The initial forest of a table with distinct keys: well-formed, total
/// weight as in the table, and exactly the table's keys as symbols.
proof fn lemma_leaves_forest(entries: Seq<(Seq<char>, nat)>)
    requires
        forall|i: int, j: int|
            0 <= i < j < entries.len() ==> (#[trigger] entries[i]).0 != (#[trigger] entries[j]).0,
    ensures
        forest_wf(leaves_of(entries)),
        leaves_of(entries).len() == entries.len(),
        forest_weight(leaves_of(entries)) == total_weight(entries),
        forall|k: Seq<char>|
            forest_syms(leaves_of(entries)).contains(k) <==> exists|i: int|
                0 <= i < entries.len() && (#[trigger] entries[i]).0 == k,
    decreases entries.len(),
{
    let l = leaves_of(entries);
    assert forall|i: int| 0 <= i < l.len() implies shape_syms_distinct(
        (#[trigger] l[i]).shape,
    ) by {
        assert(l[i].shape == CodeShape::Leaf(entries[i].0));
    }
    assert forall|i: int, j: int|
        0 <= i < l.len() && 0 <= j < l.len() && i != j implies shape_syms(l[i].shape).disjoint(
        shape_syms(l[j].shape),
    ) by {
        assert(l[i].shape == CodeShape::Leaf(entries[i].0));
        assert(l[j].shape == CodeShape::Leaf(entries[j].0));
        if i < j {
            assert(entries[i].0 != entries[j].0);
        } else {
            assert(entries[j].0 != entries[i].0);
        }
        assert(shape_syms(l[i].shape) =~= Set::<Seq<char>>::empty().insert(entries[i].0));
        assert(shape_syms(l[j].shape) =~= Set::<Seq<char>>::empty().insert(entries[j].0));
    }
    if entries.len() > 0 {
        let t = entries.drop_last();
        assert forall|i: int, j: int|
            0 <= i < j < t.len() implies (#[trigger] t[i]).0 != (#[trigger] t[j]).0 by {
            assert(t[i] == entries[i] && t[j] == entries[j]);
        }
        lemma_leaves_forest(t);
        assert(l.drop_last() =~= leaves_of(t));
        assert(forest_weight(l) == forest_weight(l.drop_last()) + l.last().weight);
        assert(forest_syms(l) =~= forest_syms(l.drop_last()).union(shape_syms(l.last().shape)));
        assert(l.last().shape == CodeShape::Leaf(entries.last().0));
        assert forall|k: Seq<char>| forest_syms(l).contains(k) implies exists|i: int|
            0 <= i < entries.len() && (#[trigger] entries[i]).0 == k by {
            if forest_syms(leaves_of(t)).contains(k) {
                let i = choose|i: int| 0 <= i < t.len() && (#[trigger] t[i]).0 == k;
                assert(entries[i].0 == k);
            } else {
                assert(entries[entries.len() - 1].0 == k);
            }
        }
        assert forall|k: Seq<char>|
            (exists|i: int| 0 <= i < entries.len() && (#[trigger] entries[i]).0 == k)
            implies forest_syms(l).contains(k) by {
            let i = choose|i: int| 0 <= i < entries.len() && (#[trigger] entries[i]).0 == k;
            if i < entries.len() - 1 {
                assert(t[i].0 == k);
                assert(forest_syms(leaves_of(t)).contains(k));
            } else {
                assert(shape_syms(l.last().shape).contains(k));
            }
        }
    } else {
        assert(l =~= Seq::<BuildEntry>::empty());
    }
}

/// The built tree, when the table's keys are distinct: every symbol of
/// the table on exactly one leaf, and an internal node at the root.
pub proof fn lemma_spec_build_wf(entries: Seq<(Seq<char>, nat)>)
    requires
        forall|i: int, j: int|
            0 <= i < j < entries.len() ==> (#[trigger] entries[i]).0 != (#[trigger] entries[j]).0,
    ensures
        spec_build(entries) is None <==> entries.len() == 0,
        match spec_build(entries) {
            Option::Some(sh) => {
                &&& shape_syms_distinct(sh)
                &&& sh is Node
                &&& forall|k: Seq<char>|
                    shape_syms(sh).contains(k) <==> exists|i: int|
                        0 <= i < entries.len() && (#[trigger] entries[i]).0 == k
            },
            Option::None => true,
        },
{
    if entries.len() == 1 {
        let sh = spec_build(entries)->Some_0;
        assert(shape_syms(CodeShape::Leaf(entries[0].0)) =~= Set::<Seq<char>>::empty().insert(
            entries[0].0,
        ));
        assert(shape_syms(CodeShape::Absent) =~= Set::<Seq<char>>::empty());
        assert(shape_syms(CodeShape::Leaf(entries[0].0)).disjoint(
            shape_syms(CodeShape::Absent),
        ));
        assert(shape_syms_distinct(CodeShape::Leaf(entries[0].0)));
        assert(shape_syms_distinct(CodeShape::Absent));
        assert(sh == CodeShape::Node(
            Box::new(CodeShape::Leaf(entries[0].0)),
            Box::new(CodeShape::Absent),
        ));
        assert(shape_syms_distinct(sh));
        assert forall|k: Seq<char>| shape_syms(sh).contains(k) implies exists|i: int|
            0 <= i < entries.len() && (#[trigger] entries[i]).0 == k by {
            assert(entries[0].0 == k);
        }
    } else if entries.len() >= 2 {
        lemma_leaves_forest(entries);
        lemma_sort_desc_forest(leaves_of(entries));
        lemma_merge_all_forest(sort_desc(leaves_of(entries)));
    }
}

/// No codeword of a built table is a prefix of another, the symbols are
/// distinct, and every codeword is non-empty.
pub proof fn lemma_huffman_prefix_free(entries: Seq<(Seq<char>, nat)>)
    requires
        forall|i: int, j: int|
            0 <= i < j < entries.len() ==> (#[trigger] entries[i]).0 != (#[trigger] entries[j]).0,
    ensures
        forall|i: int, j: int|
            0 <= i < spec_huffman(entries).len() && 0 <= j < spec_huffman(entries).len() && i != j
                ==> !bits_prefix(
                (#[trigger] spec_huffman(entries)[i]).1,
                (#[trigger] spec_huffman(entries)[j]).1,
            ),
        forall|i: int, j: int|
            0 <= i < spec_huffman(entries).len() && 0 <= j < spec_huffman(entries).len() && i != j
                ==> (#[trigger] spec_huffman(entries)[i]).0 != (#[trigger] spec_huffman(
                entries,
            )[j]).0,
        forall|i: int|
            0 <= i < spec_huffman(entries).len() ==> (#[trigger] spec_huffman(
                entries,
            )[i]).1.len() >= 1,
{
    lemma_spec_build_wf(entries);
    match spec_build(entries) {
        Option::None => {},
        Option::Some(sh) => {
            lemma_shape_codes_wf(sh, Seq::empty());
        },
    }
}

/// A table with exactly one symbol assigns it the single-bit codeword
/// "0".
pub proof fn lemma_singleton_code(entries: Seq<(Seq<char>, nat)>)
    requires
        entries.len() == 1,
    ensures
        spec_huffman(entries) =~= seq![(entries[0].0, seq![false])],
{
    let sh = spec_build(entries)->Some_0;
    let p0 = Seq::<bool>::empty().push(false);
    let p1 = Seq::<bool>::empty().push(true);
    assert(shape_codes(sh, Seq::empty()) == shape_codes(CodeShape::Leaf(entries[0].0), p0)
        + shape_codes(CodeShape::Absent, p1));
    assert(p0 =~= seq![false]);
    assert(spec_huffman(entries) =~= seq![(entries[0].0, p0)]);
}

/// One root of the working forest as exec data: the tie-break key, the
/// weight, and the arena index of the subtree.
struct WorkItem {
    key: Vec<char>,
    weight: usize,
    node: usize,
}

/// The working order on exec items: higher weight first, ties by
/// lexicographically smaller key first.
spec fn item_ord(a: WorkItem, b: WorkItem) -> bool {
    a.weight > b.weight || (a.weight == b.weight && lex_lt(a.key@, b.key@))
}

/// Position at which an item is spliced into the ordered working list.
spec fn item_pos(s: Seq<WorkItem>, e: WorkItem) -> int
    decreases s.len(),
{
    if s.len() == 0 {
        0
    } else if item_ord(s[0], e) {
        1 + item_pos(s.skip(1), e)
    } else {
        0
    }
}

proof fn lemma_item_pos_at(s: Seq<WorkItem>, e: WorkItem, idx: int)
    requires
        0 <= idx <= s.len(),
        forall|j: int| 0 <= j < idx ==> item_ord(#[trigger] s[j], e),
        idx == s.len() || !item_ord(s[idx], e),
    ensures
        item_pos(s, e) == idx,
    decreases s.len(),
{
    if s.len() > 0 && idx > 0 {
        assert(item_ord(s[0], e));
        assert forall|j: int| 0 <= j < idx - 1 implies item_ord(#[trigger] s.skip(1)[j], e) by {
            assert(s.skip(1)[j] == s[j + 1]);
        }
        if idx - 1 < s.skip(1).len() {
            assert(s.skip(1)[idx - 1] == s[idx]);
        }
        lemma_item_pos_at(s.skip(1), e, idx - 1);
    }
}

/// The forest entry that an exec item stands for, given the arena.
spec fn item_view(nodes: Seq<TreeNode>, it: WorkItem) -> BuildEntry {
    BuildEntry { key: it.key@, weight: it.weight as nat, shape: shape_of(nodes, it.node as int) }
}

spec fn work_view(nodes: Seq<TreeNode>, s: Seq<WorkItem>) -> Seq<BuildEntry> {
    s.map_values(|it: WorkItem| item_view(nodes, it))
}

proof fn lemma_item_pos_view(nodes: Seq<TreeNode>, s: Seq<WorkItem>, e: WorkItem)
    ensures
        insert_pos(work_view(nodes, s), item_view(nodes, e)) == item_pos(s, e),
    decreases s.len(),
{
    let vs = work_view(nodes, s);
    let ve = item_view(nodes, e);
    if s.len() > 0 {
        assert(vs[0] == item_view(nodes, s[0]));
        assert(entry_before(vs[0], ve) == item_ord(s[0], e));
        if item_ord(s[0], e) {
            lemma_item_pos_view(nodes, s.skip(1), e);
            assert(vs.skip(1) =~= work_view(nodes, s.skip(1)));
        }
    }
}

/// Splicing an item into the exec list matches `insert_desc` on views.
proof fn lemma_work_view_split(nodes: Seq<TreeNode>, s: Seq<WorkItem>, e: WorkItem)
    ensures
        work_view(nodes, s.take(item_pos(s, e)) + seq![e] + s.skip(item_pos(s, e))) =~=
            insert_desc(work_view(nodes, s), item_view(nodes, e)),
{
    lemma_item_pos_view(nodes, s, e);
    lemma_insert_desc_split(work_view(nodes, s), item_view(nodes, e));
    let p = item_pos(s, e);
    let vs = work_view(nodes, s);
    let ve = item_view(nodes, e);
    let lhs = work_view(nodes, s.take(p) + seq![e] + s.skip(p));
    let rhs = vs.take(p) + seq![ve] + vs.skip(p);
    assert(0 <= p <= s.len());
    assert forall|i: int| 0 <= i < lhs.len() implies lhs[i] == rhs[i] by {
        let x = s.take(p) + seq![e] + s.skip(p);
        assert(lhs[i] == item_view(nodes, x[i]));
        if i < p {
            assert(x[i] == s[i]);
            assert(rhs[i] == vs[i]);
        } else if i == p {
            assert(x[i] == e);
            assert(rhs[i] == ve);
        } else {
            assert(x[i] == s[i - 1]);
            assert(rhs[i] == vs[i - 1]);
        }
    }
}

fn item_comes_before(a: &WorkItem, b: &WorkItem) -> (r: bool)
    ensures
        r == item_ord(*a, *b),
{
    if a.weight != b.weight {
        a.weight > b.weight
    } else {
        sym_lt(&a.key, &b.key)
    }
}

/// Splice `it` into the ordered working list, after every item that
/// stands before it.
#[verifier::loop_isolation(false)]
fn insert_work(work: &mut Vec<WorkItem>, it: WorkItem)
    ensures
        0 <= item_pos(old(work)@, it) <= old(work)@.len(),
        final(work)@ == old(work)@.take(item_pos(old(work)@, it)) + seq![it] + old(
            work,
        )@.skip(item_pos(old(work)@, it)),
{
    let mut idx: usize = 0;
    while idx < work.len() && item_comes_before(&work[idx], &it)
        invariant
            work@ == old(work)@,
            idx <= work@.len(),
            forall|j: int| 0 <= j < idx ==> item_ord(#[trigger] work@[j], it),
        decreases work@.len() - idx,
    {
        idx = idx + 1;
    }
    proof {
        lemma_item_pos_at(work@, it, idx as int);
    }
    let ghost before = work@;
    work.insert(idx, it);
    proof {
        assert(work@ =~= before.take(idx as int) + seq![it] + before.skip(idx as int));
    }
}

/// Walk the subtree at `idx` and append each leaf's (symbol, path) pair:
/// `false` ("0") for a step to the first child, `true` ("1") for the
/// second.
fn assign_codes(
    nodes: &Vec<TreeNode>,
    idx: usize,
    prefix: &Vec<bool>,
    tkeys: &mut Vec<Vec<char>>,
    tcodes: &mut Vec<Vec<bool>>,
)
    requires
        arena_wf(nodes@),
        idx < nodes@.len(),
        old(tkeys)@.len() == old(tcodes)@.len(),
    ensures
        final(tkeys)@.len() == final(tcodes)@.len(),
        table_pairs(final(tkeys)@, final(tcodes)@) =~= table_pairs(old(tkeys)@, old(tcodes)@)
            + shape_codes(shape_of(nodes@, idx as int), prefix@),
    decreases idx,
{
    match &nodes[idx] {
        TreeNode::Leaf { symbol } => {
            tkeys.push(subvec(symbol, 0, symbol.len()));
            tcodes.push(copy_bits(prefix));
            proof {
                assert(symbol@.subrange(0, symbol@.len() as int) =~= symbol@);
                assert(shape_of(nodes@, idx as int) == CodeShape::Leaf(symbol@));
            }
        },
        TreeNode::Absent => {
            proof {
                assert(shape_of(nodes@, idx as int) == CodeShape::Absent);
            }
        },
        TreeNode::Internal { left, right } => {
            let l: usize = *left;
            let r: usize = *right;
            proof {
                assert(match nodes@[idx as int] {
                    TreeNode::Internal { left, right } => left < idx && right < idx,
                    _ => true,
                });
            }
            let ghost mid_shape = shape_of(nodes@, idx as int);
            proof {
                assert(mid_shape == CodeShape::Node(
                    Box::new(shape_of(nodes@, l as int)),
                    Box::new(shape_of(nodes@, r as int)),
                ));
            }
            let mut p0 = copy_bits(prefix);
            p0.push(false);
            assign_codes(nodes, l, &p0, tkeys, tcodes);
            let mut p1 = copy_bits(prefix);
            p1.push(true);
            assign_codes(nodes, r, &p1, tkeys, tcodes);
            proof {
                assert(p0@ =~= prefix@.push(false));
                assert(p1@ =~= prefix@.push(true));
                assert(shape_codes(mid_shape, prefix@) == shape_codes(
                    shape_of(nodes@, l as int),
                    prefix@.push(false),
                ) + shape_codes(shape_of(nodes@, r as int), prefix@.push(true)));
                assert(table_pairs(tkeys@, tcodes@) =~= table_pairs(
                    old(tkeys)@,
                    old(tcodes)@,
                ) + shape_codes(mid_shape, prefix@));
            }
        },
    }
}

/// Build the code tree and the codeword table from a frequency table.
///
/// The construction is deterministic: the working forest is ordered by
/// weight descending with ties broken by key ascending, and both
/// results are pinned to `spec_build` / `spec_huffman` of the table's
/// entries, so the same table always yields the same tree and codes.
#[verifier::loop_isolation(false)]
pub fn build_code(freq: &FrequencyTable) -> (r: (CodeTree, CodeTable))
    requires
        freq.wf(),
        total_weight(freq.entries()) <= usize::MAX,
    ensures
        r.0.wf(),
        r.1.wf(),
        r.0.shape() == spec_build(freq.entries()),
        r.1.entries() =~= spec_huffman(freq.entries()),
        forall|k: Seq<char>| #[trigger] r.1.contains_sym(k) <==> freq.contains_sym(k),
{
    let ghost entries = freq.entries();
    proof {
        assert forall|i: int, j: int|
            0 <= i < j < entries.len() implies (#[trigger] entries[i]).0 != (
        #[trigger] entries[j]).0 by {
            assert(entries[i].0 == freq.keys@[i]@);
            assert(entries[j].0 == freq.keys@[j]@);
        }
    }
    let k = freq.len();
    if k == 0 {
        let tree = CodeTree { nodes: Vec::new(), root: Option::None };
        let table = CodeTable { keys: Vec::new(), codes: Vec::new() };
        proof {
            assert(table.entries() =~= spec_huffman(entries));
            assert forall|x: Seq<char>|
                #[trigger] table.contains_sym(x) <==> freq.contains_sym(x) by {}
        }
        return (tree, table);
    }
    if k == 1 {
        let mut nodes: Vec<TreeNode> = Vec::new();
        nodes.push(TreeNode::Leaf { symbol: subvec(&freq.keys[0], 0, freq.keys[0].len()) });
        nodes.push(TreeNode::Absent);
        nodes.push(TreeNode::Internal { left: 0, right: 1 });
        let tree = CodeTree { nodes, root: Option::Some(2) };
        let mut keys: Vec<Vec<char>> = Vec::new();
        keys.push(subvec(&freq.keys[0], 0, freq.keys[0].len()));
        let mut c: Vec<bool> = Vec::new();
        c.push(false);
        let mut codes: Vec<Vec<bool>> = Vec::new();
        codes.push(c);
        let table = CodeTable { keys, codes };
        proof {
            let k0 = freq.keys@[0]@;
            assert(k0.subrange(0, k0.len() as int) =~= k0);
            assert(entries[0].0 == k0);
            assert(tree.nodes@[0] is Leaf);
            assert(arena_wf(tree.nodes@));
            assert(shape_of(tree.nodes@, 0) == CodeShape::Leaf(k0));
            assert(shape_of(tree.nodes@, 1) == CodeShape::Absent);
            assert(shape_of(tree.nodes@, 2) == CodeShape::Node(
                Box::new(CodeShape::Leaf(k0)),
                Box::new(CodeShape::Absent),
            ));
            assert(tree.shape() == spec_build(entries));
            lemma_singleton_code(entries);
            assert(table.entries() =~= spec_huffman(entries));
            assert(table.wf());
            assert forall|x: Seq<char>|
                #[trigger] table.contains_sym(x) <==> freq.contains_sym(x) by {
                if table.contains_sym(x) {
                    assert(freq.keys@[0]@ == x);
                }
                if freq.contains_sym(x) {
                    let i = choose|i: int| 0 <= i < freq.keys@.len() && freq.keys@[i]@ == x;
                    assert(table.keys@[0]@ == x);
                }
            }
        }
        return (tree, table);
    }
    // General case: at least two symbols.
    let mut nodes: Vec<TreeNode> = Vec::new();
    let mut work: Vec<WorkItem> = Vec::new();
    let mut t: usize = 0;
    while t < k
        invariant
            t <= k,
            nodes@.len() == t,
            work@.len() == t,
            arena_wf(nodes@),
            forall|j: int| 0 <= j < work@.len() ==> (#[trigger] work@[j]).node < nodes@.len(),
            work_view(nodes@, work@) =~= sort_desc(leaves_of(entries.take(t as int))),
        decreases k - t,
    {
        let key_for_item = subvec(&freq.keys[t], 0, freq.keys[t].len());
        let key_for_node = subvec(&freq.keys[t], 0, freq.keys[t].len());
        let ghost old_nodes = nodes@;
        let ghost old_work = work@;
        let node_id = nodes.len();
        nodes.push(TreeNode::Leaf { symbol: key_for_node });
        let it = WorkItem { key: key_for_item, weight: freq.weights[t], node: node_id };
        proof {
            let kt = freq.keys@[t as int]@;
            assert(kt.subrange(0, kt.len() as int) =~= kt);
            assert(arena_wf(nodes@)) by {
                assert forall|i: int| 0 <= i < nodes@.len() implies match #[trigger] nodes@[i] {
                    TreeNode::Internal { left, right } => left < i && right < i,
                    _ => true,
                } by {
                    if i < old_nodes.len() {
                        assert(nodes@[i] == old_nodes[i]);
                    }
                }
            }
            assert(shape_of(nodes@, t as int) == CodeShape::Leaf(kt));
            assert forall|j: int| 0 <= j < old_work.len() implies item_view(
                nodes@,
                #[trigger] old_work[j],
            ) == item_view(old_nodes, old_work[j]) by {
                lemma_shape_frame(old_nodes, nodes@, old_work[j].node as int);
            }
            assert(work_view(nodes@, old_work) =~= work_view(old_nodes, old_work));
        }
        insert_work(&mut work, it);
        proof {
            let p = item_pos(old_work, it);
            lemma_work_view_split(nodes@, old_work, it);
            assert(work_view(nodes@, work@) =~= insert_desc(
                work_view(nodes@, old_work),
                item_view(nodes@, it),
            ));
            let l1 = leaves_of(entries.take(t + 1));
            assert(l1.drop_last() =~= leaves_of(entries.take(t as int)));
            assert(l1.last() == item_view(nodes@, it)) by {
                assert(entries[t as int].0 == freq.keys@[t as int]@);
                assert(entries[t as int].1 == freq.weights@[t as int] as nat);
            }
            assert(sort_desc(l1) == insert_desc(sort_desc(l1.drop_last()), l1.last()));
            assert(work_view(nodes@, work@) =~= sort_desc(l1));
            lemma_insert_desc_split(work_view(nodes@, old_work), item_view(nodes@, it));
        }
        t = t + 1;
    }
    proof {
        assert(entries.take(k as int) =~= entries);
    }
    let ghost w0 = work_view(nodes@, work@);
    proof {
        assert(w0 =~= sort_desc(leaves_of(entries)));
        lemma_leaves_forest(entries);
        lemma_sort_desc_forest(leaves_of(entries));
        assert(forest_weight(w0) == total_weight(entries));
    }
    while work.len() > 1
        invariant
            work@.len() >= 1,
            arena_wf(nodes@),
            forall|j: int| 0 <= j < work@.len() ==> (#[trigger] work@[j]).node < nodes@.len(),
            merge_all(work_view(nodes@, work@)) == merge_all(w0),
            forest_weight(work_view(nodes@, work@)) == forest_weight(w0),
        decreases work@.len(),
    {
        let ghost v_full = work_view(nodes@, work@);
        let ghost n = work@.len() as int;
        proof {
            lemma_forest_weight_tail(v_full);
        }
        let a = work.pop().unwrap();
        let b = work.pop().unwrap();
        proof {
            assert(work@ =~= work@.take(work@.len() as int));
            assert(v_full[n - 1] == item_view(nodes@, a));
            assert(v_full[n - 2] == item_view(nodes@, b));
            assert(a.weight + b.weight <= forest_weight(v_full));
        }
        let ghost old_nodes = nodes@;
        let ghost work2 = work@;
        let idx = nodes.len();
        nodes.push(TreeNode::Internal { left: b.node, right: a.node });
        let merged = WorkItem { key: a.key, weight: a.weight + b.weight, node: idx };
        proof {
            assert(arena_wf(nodes@)) by {
                assert forall|i: int| 0 <= i < nodes@.len() implies match #[trigger] nodes@[i] {
                    TreeNode::Internal { left, right } => left < i && right < i,
                    _ => true,
                } by {
                    if i < old_nodes.len() {
                        assert(nodes@[i] == old_nodes[i]);
                    }
                }
            }
            lemma_shape_frame(old_nodes, nodes@, a.node as int);
            lemma_shape_frame(old_nodes, nodes@, b.node as int);
            assert(shape_of(nodes@, idx as int) == CodeShape::Node(
                Box::new(shape_of(old_nodes, b.node as int)),
                Box::new(shape_of(old_nodes, a.node as int)),
            ));
            assert(item_view(nodes@, merged) == merged_entry(v_full));
            assert forall|j: int| 0 <= j < work2.len() implies item_view(
                nodes@,
                #[trigger] work2[j],
            ) == item_view(old_nodes, work2[j]) by {
                lemma_shape_frame(old_nodes, nodes@, work2[j].node as int);
            }
            assert(work2 =~= work2.take(work2.len() as int));
            assert(work_view(nodes@, work2) =~= v_full.take(n - 2)) by {
                assert forall|j: int| 0 <= j < work2.len() implies work_view(nodes@, work2)[j]
                    == v_full.take(n - 2)[j] by {
                    assert(work_view(nodes@, work2)[j] == item_view(nodes@, work2[j]));
                    assert(item_view(old_nodes, work2[j]) == v_full[j]);
                }
            }
        }
        insert_work(&mut work, merged);
        proof {
            lemma_work_view_split(nodes@, work2, merged);
            assert(work_view(nodes@, work@) =~= insert_desc(
                work_view(nodes@, work2),
                item_view(nodes@, merged),
            ));
            assert(insert_desc(work_view(nodes@, work2), item_view(nodes@, merged))
                == merge_once(v_full));
            assert(merge_all(v_full) == merge_all(merge_once(v_full)));
            lemma_insert_desc_split(work_view(nodes@, work2), item_view(nodes@, merged));
            lemma_insert_desc_weight(v_full.take(n - 2), merged_entry(v_full));
        }
    }
    let rt = work[0].node;
    let ghost sh = spec_build(entries)->Some_0;
    proof {
        let v1 = work_view(nodes@, work@);
        assert(merge_all(v1) == v1);
        assert(v1 =~= merge_all(w0));
        assert(v1[0] == item_view(nodes@, work@[0]));
        assert(shape_of(nodes@, rt as int) == merge_all(sort_desc(leaves_of(entries)))[0].shape);
        assert(sh == shape_of(nodes@, rt as int));
        lemma_spec_build_wf(entries);
        lemma_shape_codes_wf(sh, Seq::empty());
    }
    let tree = CodeTree { nodes, root: Option::Some(rt) };
    let mut tkeys: Vec<Vec<char>> = Vec::new();
    let mut tcodes: Vec<Vec<bool>> = Vec::new();
    let prefix: Vec<bool> = Vec::new();
    assign_codes(&tree.nodes, rt, &prefix, &mut tkeys, &mut tcodes);
    let table = CodeTable { keys: tkeys, codes: tcodes };
    proof {
        assert(table_pairs(Seq::<Vec<char>>::empty(), Seq::<Vec<bool>>::empty()) =~= Seq::<(
            Seq<char>,
            Seq<bool>,
        )>::empty());
        assert(table.entries() =~= shape_codes(sh, Seq::empty()));
        assert(table.entries() =~= spec_huffman(entries));
        let cs = shape_codes(sh, Seq::empty());
        assert forall|i: int, j: int|
            0 <= i < j < table.keys@.len() implies table.keys@[i]@ != table.keys@[j]@ by {
            assert(table.entries()[i].0 == table.keys@[i]@);
            assert(table.entries()[j].0 == table.keys@[j]@);
            assert(cs[i].0 != cs[j].0);
        }
        assert forall|i: int| 0 <= i < table.codes@.len() implies (
        #[trigger] table.codes@[i])@.len() >= 1 by {
            assert(table.entries()[i].1 == table.codes@[i]@);
            assert(cs[i].1.len() > 0);
        }
        assert forall|i: int, j: int|
            0 <= i < table.codes@.len() && 0 <= j < table.codes@.len() && i != j
            implies !bits_prefix(table.codes@[i]@, table.codes@[j]@) by {
            assert(table.entries()[i].1 == table.codes@[i]@);
            assert(table.entries()[j].1 == table.codes@[j]@);
            assert(!bits_prefix(cs[i].1, cs[j].1));
        }
        assert(table.wf());
        assert forall|x: Seq<char>| #[trigger] table.contains_sym(x) <==> freq.contains_sym(
            x,
        ) by {
            if table.contains_sym(x) {
                let i = choose|i: int| 0 <= i < table.keys@.len() && table.keys@[i]@ == x;
                assert(cs[i].0 == x);
                assert(shape_syms(sh).contains(x));
                let j = choose|j: int| 0 <= j < entries.len() && (#[trigger] entries[j]).0 == x;
                assert(freq.keys@[j]@ == x);
            }
            if freq.contains_sym(x) {
                let i = choose|i: int| 0 <= i < freq.keys@.len() && freq.keys@[i]@ == x;
                assert(entries[i].0 == x);
                assert(shape_syms(sh).contains(x));
                let j = choose|j: int|
                    0 <= j < cs.len() && (#[trigger] cs[j]).0 == x;
                assert(table.keys@[j]@ == x);
            }
        }
    }
    (tree, table)
}

/// Total weight read from a forest's last two entries.
proof fn lemma_forest_weight_tail(s: Seq<BuildEntry>)
    requires
        s.len() >= 2,
    ensures
        forest_weight(s) == forest_weight(s.take(s.len() - 2)) + s[s.len() - 2].weight
            + s.last().weight,
{
    assert(forest_weight(s) == forest_weight(s.drop_last()) + s.last().weight);
    assert(forest_weight(s.drop_last()) == forest_weight(s.drop_last().drop_last())
        + s.drop_last().last().weight);
    assert(s.drop_last().last() == s[s.len() - 2]);
    assert(s.drop_last().drop_last() =~= s.take(s.len() - 2));
}

/// The symbol-to-codeword table alone.
///
/// Same construction as `build_code`; the result is pinned to
/// `spec_huffman` of the table's entries, so two builds from the same
/// frequency table yield identical code tables.
pub fn huffman(frequencies: &FrequencyTable) -> (r: CodeTable)
    requires
        frequencies.wf(),
        total_weight(frequencies.entries()) <= usize::MAX,
    ensures
        r.wf(),
        r.entries() =~= spec_huffman(frequencies.entries()),
        forall|k: Seq<char>| #[trigger] r.contains_sym(k) <==> frequencies.contains_sym(k),
{
    let (_tree, table) = build_code(frequencies);
    table
}

} // verus!
