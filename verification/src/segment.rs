//! Segmentation of a text into codewords: an exact minimum-bit-length
//! segmentation found by dynamic programming, and a greedy heuristic
//! that repeatedly takes the window with the best local compression
//! ratio.

use vstd::prelude::*;
use crate::CodeError;
use crate::freq::subvec;
use crate::table::{CodeTable, tbl_contains, tbl_code};
use crate::codec::{extend_bits, copy_bits};

verus! {

/// `p` lists the boundaries of a segmentation of `text[lo..hi]`:
/// strictly increasing positions from `lo` to `hi`, each segment at
/// most `m` units long and present in the table.
pub open spec fn valid_cuts(
    text: Seq<char>,
    tbl: Seq<(Seq<char>, Seq<bool>)>,
    m: int,
    p: Seq<int>,
    lo: int,
    hi: int,
) -> bool {
    &&& p.len() >= 1
    &&& p[0] == lo
    &&& p[p.len() - 1] == hi
    &&& forall|t: int|
        0 <= t < p.len() - 1 ==> {
            &&& (#[trigger] p[t]) < p[t + 1]
            &&& p[t + 1] - p[t] <= m
            &&& 0 <= p[t]
            &&& p[t + 1] <= text.len()
            &&& tbl_contains(tbl, text.subrange(p[t], p[t + 1]))
        }
}

/// The bits produced by a segmentation: the codewords of its segments,
/// concatenated front to back.
pub open spec fn cuts_enc(
    text: Seq<char>,
    tbl: Seq<(Seq<char>, Seq<bool>)>,
    p: Seq<int>,
) -> Seq<bool>
    decreases p.len(),
{
    if p.len() <= 1 {
        Seq::empty()
    } else {
        tbl_code(tbl, text.subrange(p[0], p[1])) + cuts_enc(text, tbl, p.skip(1))
    }
}

/// A segmentation's bits split at its last segment.
proof fn lemma_cuts_enc_last(text: Seq<char>, tbl: Seq<(Seq<char>, Seq<bool>)>, p: Seq<int>)
    requires
        p.len() >= 2,
    ensures
        cuts_enc(text, tbl, p) == cuts_enc(text, tbl, p.drop_last()) + tbl_code(
            tbl,
            text.subrange(p[p.len() - 2], p[p.len() - 1]),
        ),
    decreases p.len(),
{
    if p.len() == 2 {
        assert(p.skip(1).len() == 1);
        assert(cuts_enc(text, tbl, p.skip(1)) =~= Seq::<bool>::empty());
        assert(p.drop_last().len() == 1);
        assert(cuts_enc(text, tbl, p.drop_last()) =~= Seq::<bool>::empty());
        assert(cuts_enc(text, tbl, p) =~= tbl_code(tbl, text.subrange(p[0], p[1])));
        assert(cuts_enc(text, tbl, p.drop_last()) + tbl_code(
            tbl,
            text.subrange(p[0], p[1]),
        ) =~= tbl_code(tbl, text.subrange(p[0], p[1])));
    } else {
        lemma_cuts_enc_last(text, tbl, p.skip(1));
        assert(p.skip(1).drop_last() =~= p.drop_last().skip(1));
        assert(p.skip(1)[p.skip(1).len() - 2] == p[p.len() - 2]);
        assert(p.skip(1)[p.skip(1).len() - 1] == p[p.len() - 1]);
        assert(p.drop_last()[0] == p[0] && p.drop_last()[1] == p[1]);
        let c0 = tbl_code(tbl, text.subrange(p[0], p[1]));
        let cl = tbl_code(tbl, text.subrange(p[p.len() - 2], p[p.len() - 1]));
        assert(cuts_enc(text, tbl, p) == c0 + (cuts_enc(text, tbl, p.drop_last().skip(1)) + cl));
        assert(cuts_enc(text, tbl, p.drop_last()) == c0 + cuts_enc(
            text,
            tbl,
            p.drop_last().skip(1),
        ));
        assert(c0 + (cuts_enc(text, tbl, p.drop_last().skip(1)) + cl) =~= (c0 + cuts_enc(
            text,
            tbl,
            p.drop_last().skip(1),
        )) + cl);
    }
}

/// Dropping the last boundary of a segmentation leaves a segmentation
/// of the shorter prefix.
proof fn lemma_valid_cuts_prefix(
    text: Seq<char>,
    tbl: Seq<(Seq<char>, Seq<bool>)>,
    m: int,
    p: Seq<int>,
    lo: int,
    hi: int,
)
    requires
        valid_cuts(text, tbl, m, p, lo, hi),
        p.len() >= 2,
    ensures
        valid_cuts(text, tbl, m, p.drop_last(), lo, p[p.len() - 2]),
        p[p.len() - 2] < hi,
        hi - p[p.len() - 2] <= m,
        0 <= p[p.len() - 2],
        hi <= text.len(),
        tbl_contains(tbl, text.subrange(p[p.len() - 2], hi)),
{
    let q = p.drop_last();
    assert(p[p.len() - 2] < p[p.len() - 1]);
    assert forall|t: int| 0 <= t < q.len() - 1 implies {
        &&& (#[trigger] q[t]) < q[t + 1]
        &&& q[t + 1] - q[t] <= m
        &&& 0 <= q[t]
        &&& q[t + 1] <= text.len()
        &&& tbl_contains(tbl, text.subrange(q[t], q[t + 1]))
    } by {
        assert(q[t] == p[t] && q[t + 1] == p[t + 1]);
        assert((#[trigger] p[t]) < p[t + 1]);
    }
}

/// A segmentation extended by one more segment.
proof fn lemma_valid_cuts_extend(
    text: Seq<char>,
    tbl: Seq<(Seq<char>, Seq<bool>)>,
    m: int,
    p: Seq<int>,
    lo: int,
    mid: int,
    hi: int,
)
    requires
        valid_cuts(text, tbl, m, p, lo, mid),
        mid < hi,
        hi - mid <= m,
        0 <= mid,
        hi <= text.len(),
        tbl_contains(tbl, text.subrange(mid, hi)),
    ensures
        valid_cuts(text, tbl, m, p.push(hi), lo, hi),
        cuts_enc(text, tbl, p.push(hi)) == cuts_enc(text, tbl, p) + tbl_code(
            tbl,
            text.subrange(mid, hi),
        ),
{
    let q = p.push(hi);
    assert(q[q.len() - 1] == hi);
    assert forall|t: int| 0 <= t < q.len() - 1 implies {
        &&& (#[trigger] q[t]) < q[t + 1]
        &&& q[t + 1] - q[t] <= m
        &&& 0 <= q[t]
        &&& q[t + 1] <= text.len()
        &&& tbl_contains(tbl, text.subrange(q[t], q[t + 1]))
    } by {
        if t < p.len() - 1 {
            assert(q[t] == p[t] && q[t + 1] == p[t + 1]);
            assert((#[trigger] p[t]) < p[t + 1]);
        } else {
            assert(q[t] == p[p.len() - 1] && q[t + 1] == hi);
        }
    }
    lemma_cuts_enc_last(text, tbl, q);
    assert(q.drop_last() =~= p);
    assert(q[q.len() - 2] == mid);
}

/// `bits` is the encoding of some segmentation of the whole text, and
/// no segmentation encodes to fewer bits.
pub open spec fn is_minimal_encoding(
    text: Seq<char>,
    tbl: Seq<(Seq<char>, Seq<bool>)>,
    m: int,
    bits: Seq<bool>,
) -> bool {
    &&& exists|p: Seq<int>|
        #[trigger] valid_cuts(text, tbl, m, p, 0, text.len() as int) && cuts_enc(text, tbl, p)
            == bits
    &&& forall|q: Seq<int>|
        #[trigger] valid_cuts(text, tbl, m, q, 0, text.len() as int) ==> bits.len() <= cuts_enc(
            text,
            tbl,
            q,
        ).len()
}

/// Exact minimum-length segmentation by dynamic programming.
///
/// For each end position the shortest encoding of the prefix is kept;
/// when two last segments give equal total length the smaller start
/// position wins (candidates are scanned in increasing start order and
/// replaced only when strictly shorter).  A text that the table's
/// codewords cannot cover completely is reported as
/// `SegmentationFailure`.
#[verifier::loop_isolation(false)]
pub fn segment_optimal(text: &Vec<char>, table: &CodeTable, m: usize) -> (r: Result<
    Vec<bool>,
    CodeError,
>)
    requires
        table.wf(),
    ensures
        match r {
            Ok(bits) => is_minimal_encoding(text@, table.entries(), m as int, bits@),
            Err(e) => e == CodeError::SegmentationFailure && forall|q: Seq<int>|
                !valid_cuts(text@, table.entries(), m as int, q, 0, text@.len() as int),
        },
{
    let ghost tbl = table.entries();
    let n = text.len();
    let mut dp: Vec<Option<Vec<bool>>> = Vec::new();
    let first: Vec<bool> = Vec::new();
    dp.push(Option::Some(first));
    let ghost mut wits: Seq<Seq<int>> = seq![seq![0int]];
    proof {
        assert(valid_cuts(text@, tbl, m as int, seq![0int], 0, 0));
        assert(cuts_enc(text@, tbl, seq![0int]) =~= Seq::<bool>::empty());
        assert forall|q: Seq<int>| #[trigger] valid_cuts(text@, tbl, m as int, q, 0, 0)
            implies Seq::<bool>::empty().len() <= cuts_enc(text@, tbl, q).len() by {}
    }
    let mut done: usize = 0;
    while done < n
        invariant
            done <= n,
            dp@.len() == done + 1,
            wits.len() == done + 1,
            forall|jj: int|
                0 <= jj <= done && (#[trigger] dp@[jj]) is Some ==> {
                    &&& valid_cuts(text@, tbl, m as int, wits[jj], 0, jj)
                    &&& cuts_enc(text@, tbl, wits[jj]) == dp@[jj]->Some_0@
                    &&& forall|q: Seq<int>|
                        #[trigger] valid_cuts(text@, tbl, m as int, q, 0, jj)
                            ==> dp@[jj]->Some_0@.len() <= cuts_enc(text@, tbl, q).len()
                },
            forall|jj: int, q: Seq<int>|
                0 <= jj <= done && (#[trigger] dp@[jj]) is None ==> !#[trigger] valid_cuts(
                    text@,
                    tbl,
                    m as int,
                    q,
                    0,
                    jj,
                ),
        decreases n - done,
    {
        let j: usize = done + 1;
        let lo: usize = if j > m {
            j - m
        } else {
            0
        };
        let mut best: Option<Vec<bool>> = Option::None;
        let ghost mut bwit: Seq<int> = Seq::empty();
        proof {
            assert forall|q: Seq<int>|
                #[trigger] valid_cuts(text@, tbl, m as int, q, 0, j as int) && q.len() >= 2
                implies q[q.len() - 2] >= lo by {
                let t = q.len() - 2;
                assert((#[trigger] q[t]) < q[t + 1] && q[t + 1] - q[t] <= m && 0 <= q[t]);
            }
        }
        let mut i: usize = lo;
        while i < j
            invariant
                lo <= i <= j,
                1 <= j <= n,
                dp@.len() == j,
                wits.len() == j,
                lo == if j > m {
                    (j - m) as int
                } else {
                    0int
                },
                forall|jj: int|
                    0 <= jj < j && (#[trigger] dp@[jj]) is Some ==> {
                        &&& valid_cuts(text@, tbl, m as int, wits[jj], 0, jj)
                        &&& cuts_enc(text@, tbl, wits[jj]) == dp@[jj]->Some_0@
                        &&& forall|q: Seq<int>|
                            #[trigger] valid_cuts(text@, tbl, m as int, q, 0, jj)
                                ==> dp@[jj]->Some_0@.len() <= cuts_enc(text@, tbl, q).len()
                    },
                forall|jj: int, q: Seq<int>|
                    0 <= jj < j && (#[trigger] dp@[jj]) is None ==> !#[trigger] valid_cuts(
                        text@,
                        tbl,
                        m as int,
                        q,
                        0,
                        jj,
                    ),
                match best {
                    Option::Some(b) => {
                        &&& valid_cuts(text@, tbl, m as int, bwit, 0, j as int)
                        &&& cuts_enc(text@, tbl, bwit) == b@
                        &&& forall|q: Seq<int>|
                            #[trigger] valid_cuts(text@, tbl, m as int, q, 0, j as int)
                                && q.len() >= 2 && q[q.len() - 2] < i ==> b@.len() <= cuts_enc(
                                text@,
                                tbl,
                                q,
                            ).len()
                    },
                    Option::None => forall|q: Seq<int>|
                        #[trigger] valid_cuts(text@, tbl, m as int, q, 0, j as int) && q.len()
                            >= 2 ==> q[q.len() - 2] >= i,
                },
            decreases j - i,
        {
            let seg = subvec(text, i, j);
            let code_opt = table.get(&seg);
            proof {
                table.lemma_tbl_entries(seg@);
            }
            let mut cand: Option<Vec<bool>> = Option::None;
            if code_opt.is_some() {
                match &dp[i] {
                    Option::Some(pb) => {
                        let mut c = copy_bits(pb);
                        match code_opt {
                            Option::Some(code) => {
                                extend_bits(&mut c, code);
                            },
                            Option::None => {},
                        }
                        cand = Option::Some(c);
                    },
                    Option::None => {},
                }
            }
            proof {
                // Any segmentation of the whole prefix whose last segment
                // starts at `i` decomposes into a segmentation of the
                // prefix up to `i` plus that segment.
                assert forall|q: Seq<int>|
                    #[trigger] valid_cuts(text@, tbl, m as int, q, 0, j as int) && q.len() >= 2
                        && q[q.len() - 2] == i implies {
                    &&& dp@[i as int] is Some
                    &&& tbl_contains(tbl, text@.subrange(i as int, j as int))
                    &&& cuts_enc(text@, tbl, q).len() >= dp@[i as int]->Some_0@.len()
                        + tbl_code(tbl, text@.subrange(i as int, j as int)).len()
                } by {
                    lemma_valid_cuts_prefix(text@, tbl, m as int, q, 0, j as int);
                    assert(valid_cuts(text@, tbl, m as int, q.drop_last(), 0, i as int));
                    assert(dp@[i as int] is Some);
                    lemma_cuts_enc_last(text@, tbl, q);
                }
            }
            match cand {
                Option::Some(c) => {
                    proof {
                        // the candidate is the encoding of wits[i] + [j]
                        assert(tbl_contains(tbl, text@.subrange(i as int, j as int)));
                        assert(c@ == dp@[i as int]->Some_0@ + tbl_code(
                            tbl,
                            text@.subrange(i as int, j as int),
                        ));
                        lemma_valid_cuts_extend(
                            text@,
                            tbl,
                            m as int,
                            wits[i as int],
                            0,
                            i as int,
                            j as int,
                        );
                    }
                    let replace = match &best {
                        Option::Some(b) => c.len() < b.len(),
                        Option::None => true,
                    };
                    if replace {
                        proof {
                            bwit = wits[i as int].push(j as int);
                        }
                        best = Option::Some(c);
                    }
                },
                Option::None => {},
            }
            i = i + 1;
        }
        proof {
            // every segmentation of the prefix ending at `j` has a last
            // segment, whose start lies in [lo, j)
            assert forall|q: Seq<int>|
                #[trigger] valid_cuts(text@, tbl, m as int, q, 0, j as int) implies q.len() >= 2
                && q[q.len() - 2] < j by {
                if q.len() == 1 {
                    assert(q[0] == 0 && q[0] == j as int);
                }
                let t = q.len() - 2;
                assert((#[trigger] q[t]) < q[t + 1]);
            }
        }
        dp.push(best);
        proof {
            wits = wits.push(bwit);
            assert forall|jj: int| 0 <= jj < j + 1 && (#[trigger] dp@[jj]) is Some implies {
                &&& valid_cuts(text@, tbl, m as int, wits[jj], 0, jj)
                &&& cuts_enc(text@, tbl, wits[jj]) == dp@[jj]->Some_0@
                &&& forall|q: Seq<int>|
                    #[trigger] valid_cuts(text@, tbl, m as int, q, 0, jj) ==> dp@[jj]->Some_0@.len()
                        <= cuts_enc(text@, tbl, q).len()
            } by {
                if jj < j {
                    assert(dp@[jj] == dp@.subrange(0, j as int)[jj]);
                }
            }
        }
        done = j;
    }
    let last = dp.pop().unwrap();
    match last {
        Option::Some(bits) => {
            proof {
                assert(valid_cuts(text@, tbl, m as int, wits[n as int], 0, n as int)
                    && cuts_enc(text@, tbl, wits[n as int]) == bits@);
            }
            Ok(bits)
        },
        Option::None => Err(CodeError::SegmentationFailure),
    }
}

/// Best window found at position `i` after trying lengths `1..=k`: the
/// end of the best window so far (`i` when none matched), with the
/// window length and codeword length whose quotient is the compression
/// ratio.  A window only replaces the best when its ratio is strictly
/// greater (compared exactly, by cross-multiplication), so ties keep
/// the earlier, shorter candidate.
pub open spec fn greedy_best(
    text: Seq<char>,
    tbl: Seq<(Seq<char>, Seq<bool>)>,
    i: int,
    k: int,
) -> (int, nat, nat)
    decreases k,
{
    if k <= 0 {
        (i, 0nat, 1nat)
    } else {
        let prev = greedy_best(text, tbl, i, k - 1);
        let j = if i + k <= text.len() {
            i + k
        } else {
            text.len() as int
        };
        let s = text.subrange(i, j);
        if j > i && tbl_contains(tbl, s) && (j - i) * prev.2 > prev.1 * tbl_code(tbl, s).len() {
            (j, (j - i) as nat, tbl_code(tbl, s).len())
        } else {
            prev
        }
    }
}

proof fn lemma_greedy_best_props(text: Seq<char>, tbl: Seq<(Seq<char>, Seq<bool>)>, i: int, k: int)
    requires
        0 <= i <= text.len(),
        k >= 0,
    ensures
        ({
            let b = greedy_best(text, tbl, i, k);
            &&& i <= b.0 <= text.len()
            &&& b.0 <= i + k
            &&& b.0 > i ==> {
                &&& tbl_contains(tbl, text.subrange(i, b.0))
                &&& b.1 == b.0 - i
                &&& b.2 == tbl_code(tbl, text.subrange(i, b.0)).len()
            }
            &&& b.0 == i ==> b.1 == 0 && b.2 == 1
        }),
    decreases k,
{
    if k > 0 {
        lemma_greedy_best_props(text, tbl, i, k - 1);
    }
}

/// With every unit of the text in the table, the greedy scan always
/// finds a window.
proof fn lemma_greedy_best_covered(
    text: Seq<char>,
    tbl: Seq<(Seq<char>, Seq<bool>)>,
    i: int,
    k: int,
)
    requires
        0 <= i < text.len(),
        k >= 1,
        tbl_contains(tbl, seq![text[i]]),
    ensures
        greedy_best(text, tbl, i, k).0 > i,
    decreases k,
{
    if k == 1 {
        assert(text.subrange(i, i + 1) =~= seq![text[i]]);
        assert(greedy_best(text, tbl, i, 0) == (i, 0nat, 1nat));
    } else {
        lemma_greedy_best_covered(text, tbl, i, k - 1);
        lemma_greedy_best_props(text, tbl, i, k - 1);
    }
}

/// The bits the greedy strategy emits from position `i` on: the best
/// window's codeword when one matched, else the unit is dropped and the
/// scan moves on by one.
pub open spec fn spec_greedy(
    text: Seq<char>,
    tbl: Seq<(Seq<char>, Seq<bool>)>,
    m: int,
    i: int,
) -> Seq<bool>
    decreases text.len() - i,
    via spec_greedy_dec
{
    if i < 0 || i >= text.len() {
        Seq::empty()
    } else {
        let b = greedy_best(text, tbl, i, m);
        if b.0 > i {
            tbl_code(tbl, text.subrange(i, b.0)) + spec_greedy(text, tbl, m, b.0)
        } else {
            spec_greedy(text, tbl, m, i + 1)
        }
    }
}

#[via_fn]
proof fn spec_greedy_dec(text: Seq<char>, tbl: Seq<(Seq<char>, Seq<bool>)>, m: int, i: int) {
    if 0 <= i < text.len() {
        lemma_greedy_best_props(text, tbl, i, if m >= 0 {
            m
        } else {
            0
        });
    }
}

/// Greedy local-ratio segmentation.
///
/// At each position every window length up to `m` is tried; the window
/// with the strictly best compression ratio (window length divided by
/// codeword length, compared exactly by cross-multiplication) is
/// encoded and skipped.  A position with no matching window is dropped
/// from the output and the scan moves on by one unit — the result is
/// pinned to `spec_greedy`, which makes that drop visible to callers.
#[verifier::loop_isolation(false)]
pub fn segment_approximate(text: &Vec<char>, table: &CodeTable, m: usize) -> (r: Vec<bool>)
    requires
        table.wf(),
    ensures
        r@ == spec_greedy(text@, table.entries(), m as int, 0),
{
    let ghost tbl = table.entries();
    let n = text.len();
    let mut out: Vec<bool> = Vec::new();
    proof {
        match spec_greedy(text@, tbl, m as int, 0) {
            g => {
                assert(Seq::<bool>::empty() + g =~= g);
            },
        }
    }
    let mut i: usize = 0;
    while i < n
        invariant
            i <= n,
            n == text@.len(),
            out@ + spec_greedy(text@, tbl, m as int, i as int) == spec_greedy(
                text@,
                tbl,
                m as int,
                0,
            ),
        decreases n - i,
    {
        let mut l: usize = i;
        let mut bs: usize = 0;
        let mut bc: usize = 1;
        let mut kk: usize = 0;
        while kk < m
            invariant
                i < n,
                n == text@.len(),
                kk <= m,
                i <= l <= n,
                (l as int, bs as nat, bc as nat) == greedy_best(text@, tbl, i as int, kk as int),
                bc >= 1,
            decreases m - kk,
        {
            let k = kk + 1;
            let j: usize = if k < n - i {
                i + k
            } else {
                n
            };
            proof {
                assert(j as int == (if i + k <= text@.len() {
                    i + k
                } else {
                    text@.len() as int
                }));
                lemma_greedy_best_props(text@, tbl, i as int, kk as int);
            }
            let seg = subvec(text, i, j);
            let code_opt = table.get(&seg);
            proof {
                table.lemma_tbl_entries(seg@);
            }
            match code_opt {
                Option::Some(code) => {
                    let sl = j - i;
                    let cl = code.len();
                    proof {
                        assert(cl == tbl_code(tbl, text@.subrange(i as int, j as int)).len());
                        assert((sl as u128) * (bc as u128) <= u128::MAX && (bs as u128) * (
                        cl as u128) <= u128::MAX) by (nonlinear_arith)
                            requires
                                sl as u128 <= u64::MAX as u128,
                                bc as u128 <= u64::MAX as u128,
                                bs as u128 <= u64::MAX as u128,
                                cl as u128 <= u64::MAX as u128,
                        {}
                    }
                    let better = (sl as u128) * (bc as u128) > (bs as u128) * (cl as u128);
                    if better {
                        l = j;
                        bs = sl;
                        bc = cl;
                        proof {
                            assert(cl >= 1) by {
                                assert(tbl_code(tbl, seg@).len() >= 1) by {
                                    let c = choose|ci: int|
                                        0 <= ci < tbl.len() && (#[trigger] tbl[ci]).0 == seg@;
                                    assert(table.codes@[c]@.len() >= 1);
                                }
                            }
                        }
                    }
                    proof {
                        assert((l as int, bs as nat, bc as nat) == greedy_best(
                            text@,
                            tbl,
                            i as int,
                            k as int,
                        ));
                    }
                },
                Option::None => {
                    proof {
                        assert((l as int, bs as nat, bc as nat) == greedy_best(
                            text@,
                            tbl,
                            i as int,
                            k as int,
                        ));
                    }
                },
            }
            kk = k;
        }
        proof {
            lemma_greedy_best_props(text@, tbl, i as int, m as int);
        }
        if l > i {
            let seg = subvec(text, i, l);
            let code_opt = table.get(&seg);
            proof {
                table.lemma_tbl_entries(seg@);
            }
            match code_opt {
                Option::Some(code) => {
                    let ghost out_before = out@;
                    extend_bits(&mut out, code);
                    proof {
                        assert(code@ == tbl_code(tbl, text@.subrange(i as int, l as int)));
                        assert(spec_greedy(text@, tbl, m as int, i as int) == tbl_code(
                            tbl,
                            text@.subrange(i as int, l as int),
                        ) + spec_greedy(text@, tbl, m as int, l as int));
                        assert(out_before + (code@ + spec_greedy(text@, tbl, m as int, l as int))
                            =~= out@ + spec_greedy(text@, tbl, m as int, l as int));
                    }
                },
                Option::None => {
                    proof {
                        assert(false);
                    }
                },
            }
            i = l;
        } else {
            proof {
                assert(spec_greedy(text@, tbl, m as int, i as int) == spec_greedy(
                    text@,
                    tbl,
                    m as int,
                    i + 1,
                ));
            }
            i = i + 1;
        }
    }
    proof {
        assert(spec_greedy(text@, tbl, m as int, n as int) =~= Seq::<bool>::empty());
        assert(out@ + Seq::<bool>::empty() =~= out@);
    }
    out
}

/// Every unit of the text is present in the table as a single-unit
/// symbol.
pub open spec fn unit_coverage(text: Seq<char>, tbl: Seq<(Seq<char>, Seq<bool>)>) -> bool {
    forall|i: int| 0 <= i < text.len() ==> tbl_contains(tbl, seq![#[trigger] text[i]])
}

/// Under unit coverage the greedy output is itself the encoding of a
/// complete segmentation (no unit is ever dropped).
#[verifier::rlimit(50)]
proof fn lemma_greedy_cuts(text: Seq<char>, tbl: Seq<(Seq<char>, Seq<bool>)>, m: int, i: int)
    requires
        m >= 1,
        unit_coverage(text, tbl),
        0 <= i <= text.len(),
    ensures
        exists|p: Seq<int>|
            #[trigger] valid_cuts(text, tbl, m, p, i, text.len() as int) && cuts_enc(text, tbl, p)
                == spec_greedy(text, tbl, m, i),
    decreases text.len() - i,
{
    if i == text.len() {
        let p = seq![i];
        assert(valid_cuts(text, tbl, m, p, i, text.len() as int));
        assert(cuts_enc(text, tbl, p) =~= Seq::<bool>::empty());
        assert(spec_greedy(text, tbl, m, i) == Seq::<bool>::empty());
    } else {
        lemma_greedy_best_covered(text, tbl, i, m);
        lemma_greedy_best_props(text, tbl, i, m);
        let b = greedy_best(text, tbl, i, m);
        lemma_greedy_cuts(text, tbl, m, b.0);
        let p2 = choose|p2: Seq<int>|
            #[trigger] valid_cuts(text, tbl, m, p2, b.0, text.len() as int) && cuts_enc(
                text,
                tbl,
                p2,
            ) == spec_greedy(text, tbl, m, b.0);
        let p = seq![i] + p2;
        assert(p[0] == i);
        assert(p.len() == 1 + p2.len());
        assert(p[p.len() - 1] == p2[p2.len() - 1]);
        assert forall|t: int| 0 <= t < p.len() - 1 implies {
            &&& (#[trigger] p[t]) < p[t + 1]
            &&& p[t + 1] - p[t] <= m
            &&& 0 <= p[t]
            &&& p[t + 1] <= text.len()
            &&& tbl_contains(tbl, text.subrange(p[t], p[t + 1]))
        } by {
            if t == 0 {
                assert(p[1] == p2[0]);
                assert(p2[0] == b.0);
            } else {
                assert(p[t] == p2[t - 1] && p[t + 1] == p2[t]);
                assert((#[trigger] p2[t - 1]) < p2[t]);
            }
        }
        assert(valid_cuts(text, tbl, m, p, i, text.len() as int));
        assert(p.skip(1) =~= p2);
        assert(p[1] == b.0);
        assert(cuts_enc(text, tbl, p) == tbl_code(tbl, text.subrange(i, b.0)) + cuts_enc(
            text,
            tbl,
            p2,
        ));
        assert(cuts_enc(text, tbl, p) == spec_greedy(text, tbl, m, i));
    }
}

/// The optimal segmentation never produces more bits than the greedy
/// one, on any text whose units all have codewords (without that cover
/// the greedy scan may drop units and the two outputs are not
/// comparable).  Under the same cover a minimal encoding always exists,
/// so the optimal segmentation cannot fail.
pub proof fn lemma_optimal_le_approximate(
    text: Seq<char>,
    tbl: Seq<(Seq<char>, Seq<bool>)>,
    m: int,
)
    requires
        m >= 1,
        unit_coverage(text, tbl),
    ensures
        exists|p: Seq<int>|
            #[trigger] valid_cuts(text, tbl, m, p, 0, text.len() as int) && cuts_enc(text, tbl, p)
                == spec_greedy(text, tbl, m, 0),
        forall|bits: Seq<bool>|
            #[trigger] is_minimal_encoding(text, tbl, m, bits) ==> bits.len() <= spec_greedy(
                text,
                tbl,
                m,
                0,
            ).len(),
{
    lemma_greedy_cuts(text, tbl, m, 0);
    assert forall|bits: Seq<bool>| #[trigger] is_minimal_encoding(text, tbl, m, bits)
        implies bits.len() <= spec_greedy(text, tbl, m, 0).len() by {
        let p = choose|p: Seq<int>|
            #[trigger] valid_cuts(text, tbl, m, p, 0, text.len() as int) && cuts_enc(text, tbl, p)
                == spec_greedy(text, tbl, m, 0);
        assert(valid_cuts(text, tbl, m, p, 0, text.len() as int));
    }
}

} // verus!
