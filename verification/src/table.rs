//! The symbol-to-codeword table produced by code construction.

use vstd::prelude::*;
use crate::tree::bits_prefix;
use crate::freq::sym_eq;

verus! {

/// The (symbol, codeword) pairs held in two parallel columns.
pub open spec fn table_pairs(keys: Seq<Vec<char>>, codes: Seq<Vec<bool>>) -> Seq<
    (Seq<char>, Seq<bool>),
> {
    Seq::new(keys.len(), |i: int| (keys[i]@, codes[i]@))
}

/// A mapping from symbol to codeword.
///
/// Built from a proper binary tree, so the stored codewords are
/// non-empty and prefix-free.
pub struct CodeTable {
    pub keys: Vec<Vec<char>>,
    pub codes: Vec<Vec<bool>>,
}

impl CodeTable {
    /// Well-formedness: one codeword per key, keys distinct, codewords
    /// non-empty, and no codeword a prefix of another.
    pub open spec fn wf(self) -> bool {
        &&& self.keys@.len() == self.codes@.len()
        &&& forall|i: int, j: int|
            0 <= i < j < self.keys@.len() ==> self.keys@[i]@ != self.keys@[j]@
        &&& forall|i: int| 0 <= i < self.codes@.len() ==> (#[trigger] self.codes@[i])@.len() >= 1
        &&& forall|i: int, j: int|
            0 <= i < self.codes@.len() && 0 <= j < self.codes@.len() && i != j ==> !bits_prefix(
                self.codes@[i]@,
                self.codes@[j]@,
            )
    }

    pub open spec fn num_syms(self) -> nat {
        self.keys@.len()
    }

    pub open spec fn sym_at(self, i: int) -> Seq<char> {
        self.keys@[i]@
    }

    pub open spec fn code_at(self, i: int) -> Seq<bool> {
        self.codes@[i]@
    }

    pub open spec fn contains_sym(self, k: Seq<char>) -> bool {
        exists|i: int| 0 <= i < self.keys@.len() && self.keys@[i]@ == k
    }

    pub open spec fn idx_of(self, k: Seq<char>) -> int {
        choose|i: int| 0 <= i < self.keys@.len() && self.keys@[i]@ == k
    }

    /// Codeword stored for `k` (meaningful only when `contains_sym(k)`).
    pub open spec fn code_of(self, k: Seq<char>) -> Seq<bool> {
        self.codes@[self.idx_of(k)]@
    }

    /// The table's contents as (symbol, codeword) pairs, in storage order.
    pub open spec fn entries(self) -> Seq<(Seq<char>, Seq<bool>)> {
        table_pairs(self.keys@, self.codes@)
    }

    /// In a well-formed table the stored index of a present key is
    /// unique, so `code_of` agrees with the codeword at any index
    /// holding the key.
    pub proof fn lemma_code_at_idx(self, i: int)
        requires
            self.wf(),
            0 <= i < self.num_syms(),
        ensures
            self.idx_of(self.sym_at(i)) == i,
            self.contains_sym(self.sym_at(i)),
            self.code_of(self.sym_at(i)) == self.code_at(i),
    {
        let k = self.sym_at(i);
        assert(self.contains_sym(k));
        let j = self.idx_of(k);
        assert(0 <= j < self.keys@.len() && self.keys@[j]@ == k);
        if i < j {
            assert(self.keys@[i]@ != self.keys@[j]@);
        } else if j < i {
            assert(self.keys@[j]@ != self.keys@[i]@);
        }
    }

    pub fn len(&self) -> (r: usize)
        ensures
            r == self.num_syms(),
    {
        self.keys.len()
    }

    /// Codeword stored for `key`, if the symbol is present.
    pub fn get(&self, key: &Vec<char>) -> (r: Option<&Vec<bool>>)
        requires
            self.wf(),
        ensures
            match r {
                Some(c) => self.contains_sym(key@) && c@ == self.code_of(key@),
                None => !self.contains_sym(key@),
            },
    {
        let mut i: usize = 0;
        while i < self.keys.len()
            invariant
                self.wf(),
                i <= self.keys@.len(),
                forall|j: int| 0 <= j < i ==> self.keys@[j]@ != key@,
            decreases self.keys@.len() - i,
        {
            if sym_eq(&self.keys[i], key) {
                proof {
                    self.lemma_code_at_idx(i as int);
                }
                return Some(&self.codes[i]);
            }
            i = i + 1;
        }
        return None;
    }
}

/// A symbol is present in a sequence of (symbol, codeword) pairs.
pub open spec fn tbl_contains(tbl: Seq<(Seq<char>, Seq<bool>)>, k: Seq<char>) -> bool {
    exists|i: int| 0 <= i < tbl.len() && (#[trigger] tbl[i]).0 == k
}

/// The codeword paired with `k` (meaningful only when `tbl_contains`).
pub open spec fn tbl_code(tbl: Seq<(Seq<char>, Seq<bool>)>, k: Seq<char>) -> Seq<bool> {
    tbl[choose|i: int| 0 <= i < tbl.len() && (#[trigger] tbl[i]).0 == k].1
}

impl CodeTable {
    /// The pair view of a well-formed table agrees with its lookup
    /// functions.
    pub proof fn lemma_tbl_entries(self, k: Seq<char>)
        requires
            self.wf(),
        ensures
            tbl_contains(self.entries(), k) == self.contains_sym(k),
            self.contains_sym(k) ==> tbl_code(self.entries(), k) == self.code_of(k),
    {
        let tbl = self.entries();
        if self.contains_sym(k) {
            let i = self.idx_of(k);
            assert(0 <= i < self.keys@.len() && self.keys@[i]@ == k);
            assert(tbl[i].0 == k);
            assert(tbl_contains(tbl, k));
            let j = choose|j: int| 0 <= j < tbl.len() && (#[trigger] tbl[j]).0 == k;
            assert(self.keys@[j]@ == k);
            if i < j {
                assert(self.keys@[i]@ != self.keys@[j]@);
            } else if j < i {
                assert(self.keys@[j]@ != self.keys@[i]@);
            }
        }
        if tbl_contains(tbl, k) {
            let j = choose|j: int| 0 <= j < tbl.len() && (#[trigger] tbl[j]).0 == k;
            assert(self.keys@[j]@ == k);
            assert(self.contains_sym(k));
        }
    }
}

} // verus!
