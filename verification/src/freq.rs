//! Weighted frequency estimation over sliding windows.
//!
//! For each window length `i` in `1..=m` and each start position, the
//! length-`i` window of the text contributes the weight `i^alpha` to the
//! running total of that subsequence (`alpha == 0` gives plain counts).

use vstd::prelude::*;

verus! {

/// `b` raised to the power `e`.
pub open spec fn pow_nat(b: nat, e: nat) -> nat
    decreases e,
{
    if e == 0 {
        1
    } else {
        b * pow_nat(b, (e - 1) as nat)
    }
}

/// Weight contributed by one window of length `len`: `len^alpha`.
/// With `alpha == 0` every window weighs 1.
pub open spec fn window_weight(len: nat, alpha: nat) -> nat {
    pow_nat(len, alpha)
}

/// `k` occurs in `text` as the window starting at `j`.
pub open spec fn occurs_at(text: Seq<char>, k: Seq<char>, j: int) -> bool {
    0 <= j && j + k.len() <= text.len() && text.subrange(j, j + k.len() as int) == k
}

/// Number of start positions in `[0, hi)` at which `k` occurs in `text`.
pub open spec fn occ_upto(text: Seq<char>, k: Seq<char>, hi: int) -> nat
    decreases hi,
{
    if hi <= 0 {
        0
    } else {
        occ_upto(text, k, hi - 1) + (if occurs_at(text, k, hi - 1) {
            1nat
        } else {
            0nat
        })
    }
}

/// Total number of occurrences of `k` in `text` (all windows of length
/// `k.len()` start before `text.len() - k.len() + 1`).
pub open spec fn occ(text: Seq<char>, k: Seq<char>) -> nat {
    occ_upto(text, k, text.len() - k.len() + 1)
}

/// Occurrence counts never exceed the number of positions scanned.
proof fn lemma_occ_upto_bound(text: Seq<char>, k: Seq<char>, hi: int)
    requires
        hi >= 0,
    ensures
        occ_upto(text, k, hi) <= hi,
    decreases hi,
{
    if hi > 0 {
        lemma_occ_upto_bound(text, k, hi - 1);
    }
}

/// A power of a positive base is positive.
proof fn lemma_pow_nat_pos(b: nat, e: nat)
    requires
        1 <= b,
    ensures
        1 <= pow_nat(b, e),
    decreases e,
{
    if e > 0 {
        lemma_pow_nat_pos(b, (e - 1) as nat);
        assert(b * pow_nat(b, (e - 1) as nat) >= 1) by (nonlinear_arith)
            requires
                b >= 1,
                pow_nat(b, (e - 1) as nat) >= 1,
        {}
    }
}

/// Raising a positive base to a higher power gives at least as much.
proof fn lemma_pow_nat_exp_mono(b: nat, e1: nat, e2: nat)
    requires
        1 <= b,
        e1 <= e2,
    ensures
        pow_nat(b, e1) <= pow_nat(b, e2),
    decreases e2 - e1,
{
    if e1 < e2 {
        lemma_pow_nat_exp_mono(b, e1, (e2 - 1) as nat);
        lemma_pow_nat_pos(b, (e2 - 1) as nat);
        assert(pow_nat(b, (e2 - 1) as nat) <= b * pow_nat(b, (e2 - 1) as nat))
            by (nonlinear_arith)
            requires
                b >= 1,
                pow_nat(b, (e2 - 1) as nat) >= 1,
        {}
    }
}

/// Raising a larger base to the same power gives at least as much.
proof fn lemma_pow_nat_base_mono(a: nat, b: nat, e: nat)
    requires
        1 <= a <= b,
    ensures
        pow_nat(a, e) <= pow_nat(b, e),
    decreases e,
{
    if e > 0 {
        lemma_pow_nat_base_mono(a, b, (e - 1) as nat);
        lemma_pow_nat_pos(a, (e - 1) as nat);
        assert(a * pow_nat(a, (e - 1) as nat) <= b * pow_nat(b, (e - 1) as nat))
            by (nonlinear_arith)
            requires
                1 <= a <= b,
                1 <= pow_nat(a, (e - 1) as nat) <= pow_nat(b, (e - 1) as nat),
        {}
    }
}

/// `base^e`, proved not to overflow under the stated bound.
fn pow_usize(base: usize, e: u32) -> (r: usize)
    requires
        1 <= base,
        pow_nat(base as nat, e as nat) <= usize::MAX,
    ensures
        r == pow_nat(base as nat, e as nat),
{
    let mut acc: usize = 1;
    let mut k: u32 = 0;
    while k < e
        invariant
            k <= e,
            1 <= base,
            pow_nat(base as nat, e as nat) <= usize::MAX,
            acc == pow_nat(base as nat, k as nat),
        decreases e - k,
    {
        proof {
            lemma_pow_nat_exp_mono(base as nat, (k + 1) as nat, e as nat);
            assert(pow_nat(base as nat, (k + 1) as nat) == base * pow_nat(
                base as nat,
                k as nat,
            ));
        }
        acc = acc * base;
        k = k + 1;
    }
    acc
}

/// Element-wise equality of two symbols.
pub fn sym_eq(a: &Vec<char>, b: &Vec<char>) -> (r: bool)
    ensures
        r == (a@ == b@),
{
    if a.len() != b.len() {
        return false;
    }
    let mut i: usize = 0;
    while i < a.len()
        invariant
            i <= a@.len(),
            a@.len() == b@.len(),
            forall|j: int| 0 <= j < i ==> a@[j] == b@[j],
        decreases a@.len() - i,
    {
        if a[i] != b[i] {
            return false;
        }
        i = i + 1;
    }
    proof {
        assert(a@ =~= b@);
    }
    true
}

/// Copy of the units of `v` in positions `[a, b)`.
pub fn subvec(v: &Vec<char>, a: usize, b: usize) -> (r: Vec<char>)
    requires
        a <= b <= v@.len(),
    ensures
        r@ == v@.subrange(a as int, b as int),
{
    let mut r: Vec<char> = Vec::new();
    let mut i: usize = a;
    while i < b
        invariant
            a <= i <= b <= v@.len(),
            r@ == v@.subrange(a as int, i as int),
        decreases b - i,
    {
        r.push(v[i]);
        proof {
            assert(r@ =~= v@.subrange(a as int, i + 1));
        }
        i = i + 1;
    }
    r
}

/// A table of weighted occurrence counts, keyed by symbol.
///
/// Keys are stored once each; the table behaves as a finite mapping from
/// symbol (a sequence of scalar units) to its accumulated weight.
pub struct FrequencyTable {
    pub keys: Vec<Vec<char>>,
    pub weights: Vec<usize>,
}

impl FrequencyTable {
    /// Well-formedness: one weight per key, and keys are distinct.
    pub open spec fn wf(self) -> bool {
        &&& self.keys@.len() == self.weights@.len()
        &&& forall|i: int, j: int|
            0 <= i < j < self.keys@.len() ==> self.keys@[i]@ != self.keys@[j]@
    }

    pub open spec fn num_syms(self) -> nat {
        self.keys@.len()
    }

    pub open spec fn sym_at(self, i: int) -> Seq<char> {
        self.keys@[i]@
    }

    pub open spec fn weight_at(self, i: int) -> nat {
        self.weights@[i] as nat
    }

    pub open spec fn contains_sym(self, k: Seq<char>) -> bool {
        exists|i: int| 0 <= i < self.keys@.len() && self.keys@[i]@ == k
    }

    pub open spec fn idx_of(self, k: Seq<char>) -> int {
        choose|i: int| 0 <= i < self.keys@.len() && self.keys@[i]@ == k
    }

    /// Weight stored for `k` (meaningful only when `contains_sym(k)`).
    pub open spec fn weight_of(self, k: Seq<char>) -> nat {
        self.weights@[self.idx_of(k)] as nat
    }

    /// The table's contents as (symbol, weight) pairs, in storage order.
    pub open spec fn entries(self) -> Seq<(Seq<char>, nat)> {
        Seq::new(self.keys@.len(), |i: int| (self.keys@[i]@, self.weights@[i] as nat))
    }

    /// In a well-formed table the stored index of a present key is unique,
    /// so `weight_of` agrees with the weight at any index holding the key.
    pub proof fn lemma_weight_at_idx(self, i: int)
        requires
            self.wf(),
            0 <= i < self.num_syms(),
        ensures
            self.idx_of(self.sym_at(i)) == i,
            self.contains_sym(self.sym_at(i)),
            self.weight_of(self.sym_at(i)) == self.weight_at(i),
    {
        let k = self.sym_at(i);
        assert(self.contains_sym(k));
        let j = self.idx_of(k);
        assert(0 <= j < self.keys@.len() && self.keys@[j]@ == k);
        if i < j {
            assert(self.keys@[i]@ != self.keys@[j]@);
        } else if j < i {
            assert(self.keys@[j]@ != self.keys@[i]@);
        }
    }

    /// An empty table.
    pub fn new() -> (r: FrequencyTable)
        ensures
            r.wf(),
            r.num_syms() == 0,
            forall|k: Seq<char>| !r.contains_sym(k),
    {
        FrequencyTable { keys: Vec::new(), weights: Vec::new() }
    }

    pub fn len(&self) -> (r: usize)
        ensures
            r == self.num_syms(),
    {
        self.keys.len()
    }

    /// Weight stored for `key`, if the symbol is present.
    pub fn get(&self, key: &Vec<char>) -> (r: Option<usize>)
        requires
            self.wf(),
        ensures
            match r {
                Some(w) => self.contains_sym(key@) && w as nat == self.weight_of(key@),
                None => !self.contains_sym(key@),
            },
    {
        let mut i: usize = 0;
        while i < self.keys.len()
            invariant
                self.wf(),
                i <= self.keys@.len(),
                forall|j: int| 0 <= j < i ==> self.keys@[j]@ != key@,
            decreases self.keys@.len() - i,
        {
            if sym_eq(&self.keys[i], key) {
                proof {
                    self.lemma_weight_at_idx(i as int);
                }
                return Some(self.weights[i]);
            }
            i = i + 1;
        }
        return None;
    }

    /// Add `w` to the weight of `key`, inserting the key if it is new.
    #[verifier::loop_isolation(false)]
    pub fn add_weight(&mut self, key: &Vec<char>, w: usize)
        requires
            old(self).wf(),
            old(self).contains_sym(key@) ==> old(self).weight_of(key@) + w <= usize::MAX,
        ensures
            final(self).wf(),
            final(self).contains_sym(key@),
            forall|k: Seq<char>|
                #[trigger] final(self).contains_sym(k) <==> (old(self).contains_sym(k) || k
                    == key@),
            final(self).weight_of(key@) == if old(self).contains_sym(key@) {
                old(self).weight_of(key@) + w
            } else {
                w as int
            },
            forall|k: Seq<char>|
                k != key@ && old(self).contains_sym(k) ==> #[trigger] final(self).weight_of(k)
                    == old(self).weight_of(k),
    {
        let mut i: usize = 0;
        while i < self.keys.len()
            invariant
                *self == *old(self),
                old(self).wf(),
                i <= old(self).keys@.len(),
                forall|j: int| 0 <= j < i ==> old(self).keys@[j]@ != key@,
            decreases old(self).keys@.len() - i,
        {
            if sym_eq(&self.keys[i], key) {
                proof {
                    assert(old(self).keys@[i as int]@ == key@);
                    assert(old(self).contains_sym(key@));
                    old(self).lemma_weight_at_idx(i as int);
                    assert(old(self).weight_of(key@) == old(self).weights@[i as int]);
                    assert(old(self).weights@[i as int] + w <= usize::MAX);
                }
                let cur = self.weights[i];
                self.weights[i] = cur + w;
                proof {
                    assert(self.keys@ == old(self).keys@);
                    assert(self.wf());
                    assert forall|k: Seq<char>|
                        #[trigger] self.contains_sym(k) <==> (old(self).contains_sym(k) || k
                            == key@) by {
                        if self.contains_sym(k) {
                            let jj = choose|jj: int|
                                0 <= jj < self.keys@.len() && self.keys@[jj]@ == k;
                            assert(old(self).keys@[jj]@ == k);
                            assert(old(self).contains_sym(k));
                        }
                        if old(self).contains_sym(k) {
                            let jj = choose|jj: int|
                                0 <= jj < old(self).keys@.len() && old(self).keys@[jj]@ == k;
                            assert(self.keys@[jj]@ == k);
                            assert(self.contains_sym(k));
                        }
                    }
                    self.lemma_weight_at_idx(i as int);
                    assert(self.weight_of(key@) == old(self).weight_of(key@) + w);
                    assert forall|k: Seq<char>| k != key@ && old(self).contains_sym(k)
                        implies #[trigger] self.weight_of(k) == old(self).weight_of(k) by {
                        let jj = choose|jj: int|
                            0 <= jj < old(self).keys@.len() && old(self).keys@[jj]@ == k;
                        old(self).lemma_weight_at_idx(jj);
                        self.lemma_weight_at_idx(jj);
                    }
                }
                return ;
            }
            i = i + 1;
        }
        self.keys.push(subvec(key, 0, key.len()));
        self.weights.push(w);
        proof {
            assert(key@.subrange(0, key@.len() as int) =~= key@);
            let n = old(self).keys@.len() as int;
            assert(self.keys@[n]@ == key@);
            assert(!old(self).contains_sym(key@));
            assert(self.wf());
            assert forall|k: Seq<char>|
                #[trigger] self.contains_sym(k) <==> (old(self).contains_sym(k) || k == key@) by {
                if self.contains_sym(k) {
                    let jj = choose|jj: int| 0 <= jj < self.keys@.len() && self.keys@[jj]@ == k;
                    if jj < n {
                        assert(old(self).keys@[jj]@ == k);
                        assert(old(self).contains_sym(k));
                    }
                }
                if old(self).contains_sym(k) {
                    let jj = choose|jj: int| 0 <= jj < old(self).keys@.len() && old(self).keys@[jj]@ == k;
                    assert(self.keys@[jj]@ == k);
                    assert(self.contains_sym(k));
                }
            }
            self.lemma_weight_at_idx(n);
            assert(self.weight_of(key@) == w);
            assert forall|k: Seq<char>| k != key@ && old(self).contains_sym(k)
                implies #[trigger] self.weight_of(k) == old(self).weight_of(k) by {
                let jj = choose|jj: int| 0 <= jj < old(self).keys@.len() && old(self).keys@[jj]@ == k;
                old(self).lemma_weight_at_idx(jj);
                self.lemma_weight_at_idx(jj);
            }
        }
    }
}

/// Weighted frequencies of every subsequence of `text` with length
/// `1..=m`: each window of length `i` starting at some position adds
/// `i^alpha` to its subsequence's total, so a symbol `k` ends up with
/// weight `occ(text, k) * window_weight(k.len(), alpha)`.
///
/// Window lengths beyond the text length contribute nothing; an empty
/// text yields an empty table.
pub fn frequency_estimation(text: &Vec<char>, n: usize, m: usize, alpha: u32) -> (r:
    FrequencyTable)
    requires
        n == text@.len(),
        n * window_weight(m as nat, alpha as nat) <= usize::MAX,
    ensures
        r.wf(),
        forall|k: Seq<char>|
            #[trigger] r.contains_sym(k) <==> (1 <= k.len() <= m && occ(text@, k) > 0),
        forall|k: Seq<char>|
            #[trigger] r.contains_sym(k) ==> r.weight_of(k) == occ(text@, k) * window_weight(
                k.len(),
                alpha as nat,
            ),
{
    let mut table = FrequencyTable::new();
    let mtop: usize = if m < n {
        m
    } else {
        n
    };
    let mut li: usize = 0;
    while li < mtop
        invariant
            table.wf(),
            mtop == if m < n {
                m as int
            } else {
                n as int
            },
            li <= mtop,
            n == text@.len(),
            n * window_weight(m as nat, alpha as nat) <= usize::MAX,
            forall|k: Seq<char>|
                #[trigger] table.contains_sym(k) <==> (1 <= k.len() <= li && occ(text@, k) > 0),
            forall|k: Seq<char>|
                #[trigger] table.contains_sym(k) ==> table.weight_of(k) == occ(text@, k)
                    * window_weight(k.len(), alpha as nat),
        decreases mtop - li,
    {
        let i: usize = li + 1;
        proof {
            lemma_pow_nat_base_mono(i as nat, m as nat, alpha as nat);
            lemma_pow_nat_pos(i as nat, alpha as nat);
            assert(pow_nat(i as nat, alpha as nat) <= n * window_weight(m as nat, alpha as nat))
                by (nonlinear_arith)
                requires
                    1 <= n,
                    pow_nat(i as nat, alpha as nat) <= window_weight(m as nat, alpha as nat),
            {}
        }
        let w: usize = pow_usize(i, alpha);
        let mut j: usize = 0;
        while j <= n - i
            invariant
                table.wf(),
                1 <= i <= mtop,
                mtop <= m,
                mtop <= n,
                j <= n - i + 1,
                n == text@.len(),
                w == window_weight(i as nat, alpha as nat),
                w <= window_weight(m as nat, alpha as nat),
                n * window_weight(m as nat, alpha as nat) <= usize::MAX,
                forall|k: Seq<char>|
                    #[trigger] table.contains_sym(k) <==> ((1 <= k.len() < i && occ(text@, k)
                        > 0) || (k.len() == i && occ_upto(text@, k, j as int) > 0)),
                forall|k: Seq<char>|
                    #[trigger] table.contains_sym(k) && k.len() < i ==> table.weight_of(k) == occ(
                        text@,
                        k,
                    ) * window_weight(k.len(), alpha as nat),
                forall|k: Seq<char>|
                    #[trigger] table.contains_sym(k) && k.len() == i ==> table.weight_of(k)
                        == occ_upto(text@, k, j as int) * window_weight(i as nat, alpha as nat),
            decreases n - i + 1 - j,
        {
            let s = subvec(text, j, j + i);
            let ghost sv = text@.subrange(j as int, (j + i) as int);
            proof {
                assert(sv.len() == i);
                assert(occurs_at(text@, sv, j as int));
                lemma_occ_upto_bound(text@, sv, j as int);
                if table.contains_sym(sv) {
                    assert(table.weight_of(sv) == occ_upto(text@, sv, j as int) * window_weight(
                        i as nat,
                        alpha as nat,
                    ));
                    assert(occ_upto(text@, sv, j as int) * window_weight(i as nat, alpha as nat)
                        + w <= n * window_weight(m as nat, alpha as nat)) by (nonlinear_arith)
                        requires
                            occ_upto(text@, sv, j as int) + 1 <= n,
                            w == window_weight(i as nat, alpha as nat),
                            window_weight(i as nat, alpha as nat) <= window_weight(
                                m as nat,
                                alpha as nat,
                            ),
                    {}
                } else {
                    assert(occ_upto(text@, sv, j as int) == 0);
                }
            }
            table.add_weight(&s, w);
            proof {
                assert forall|k: Seq<char>| k.len() == i implies #[trigger] occ_upto(
                    text@,
                    k,
                    j + 1,
                ) == occ_upto(text@, k, j as int) + (if k == sv {
                    1nat
                } else {
                    0nat
                }) by {
                    if k == sv {
                        assert(occurs_at(text@, k, j as int));
                    } else {
                        assert(!occurs_at(text@, k, j as int));
                    }
                }
                assert(table.weight_of(sv) == occ_upto(text@, sv, j + 1) * window_weight(
                    i as nat,
                    alpha as nat,
                )) by (nonlinear_arith)
                    requires
                        table.weight_of(sv) == occ_upto(text@, sv, j as int) * window_weight(
                            i as nat,
                            alpha as nat,
                        ) + window_weight(i as nat, alpha as nat),
                        occ_upto(text@, sv, j + 1) == occ_upto(text@, sv, j as int) + 1,
                {}
            }
            j = j + 1;
        }
        proof {
            assert forall|k: Seq<char>| k.len() == i implies #[trigger] occ_upto(
                text@,
                k,
                (n - i + 1) as int,
            ) == occ(text@, k) by {
                assert(text@.len() - k.len() + 1 == n - i + 1);
            }
        }
        li = i;
    }
    proof {
        assert forall|k: Seq<char>| mtop < k.len() <= m implies occ(text@, k) == 0 by {
            assert(text@.len() - k.len() + 1 <= 0);
        }
        assert forall|k: Seq<char>|
            #[trigger] table.contains_sym(k) <==> (1 <= k.len() <= m && occ(text@, k) > 0) by {
        }
    }
    table
}

} // verus!
