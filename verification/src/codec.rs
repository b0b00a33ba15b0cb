//! Encoding single units against the code table, and decoding a
//! bitstream by walking the code tree.

use vstd::prelude::*;
use crate::CodeError;
use crate::table::{CodeTable, tbl_contains, tbl_code};
use crate::tree::{CodeTree, TreeNode, CodeShape, shape_of, shape_codes, shape_syms_distinct,
    bits_prefix, lemma_shape_codes_wf};
use crate::huffman::{spec_build, spec_huffman, lemma_spec_build_wf};

verus! {

/// Walk one codeword from `cur`: consume bits until a leaf is reached,
/// yielding its symbol and the remaining bits.  Running out of bits
/// mid-path, stepping onto the reserved placeholder, or starting
/// anywhere but an internal node is a failure.
pub open spec fn dec_sym(cur: CodeShape, bits: Seq<bool>) -> Option<(Seq<char>, Seq<bool>)>
    decreases bits.len(),
{
    if bits.len() == 0 {
        Option::None
    } else {
        match cur {
            CodeShape::Node(l, r) => {
                let child = if bits[0] {
                    *r
                } else {
                    *l
                };
                match child {
                    CodeShape::Leaf(s) => Option::Some((s, bits.skip(1))),
                    CodeShape::Node(_, _) => dec_sym(child, bits.skip(1)),
                    CodeShape::Absent => Option::None,
                }
            },
            _ => Option::None,
        }
    }
}

/// Each decoded symbol consumes at least one bit.
proof fn lemma_dec_sym_consumes(cur: CodeShape, bits: Seq<bool>)
    ensures
        match dec_sym(cur, bits) {
            Option::Some(p) => p.1.len() < bits.len(),
            Option::None => true,
        },
    decreases bits.len(),
{
    if bits.len() > 0 {
        match cur {
            CodeShape::Node(l, r) => {
                let child = if bits[0] {
                    *r
                } else {
                    *l
                };
                lemma_dec_sym_consumes(child, bits.skip(1));
            },
            _ => {},
        }
    }
}

/// Decode a whole bitstream from the root: empty input yields empty
/// text; otherwise one codeword is consumed and decoding restarts at
/// the root.
pub open spec fn spec_decode(root: CodeShape, bits: Seq<bool>) -> Option<Seq<char>>
    decreases bits.len(),
    via spec_decode_dec
{
    if bits.len() == 0 {
        Option::Some(Seq::empty())
    } else {
        match dec_sym(root, bits) {
            Option::None => Option::None,
            Option::Some(p) => match spec_decode(root, p.1) {
                Option::None => Option::None,
                Option::Some(t) => Option::Some(p.0 + t),
            },
        }
    }
}

#[via_fn]
proof fn spec_decode_dec(root: CodeShape, bits: Seq<bool>) {
    if bits.len() > 0 {
        lemma_dec_sym_consumes(root, bits);
    }
}

/// Encode a text unit by unit: each scalar unit must appear in the
/// table as a single-unit symbol; its codeword is appended.
pub open spec fn spec_encode(tbl: Seq<(Seq<char>, Seq<bool>)>, text: Seq<char>) -> Option<
    Seq<bool>,
>
    decreases text.len(),
{
    if text.len() == 0 {
        Option::Some(Seq::empty())
    } else {
        let u = seq![text[0]];
        if tbl_contains(tbl, u) {
            match spec_encode(tbl, text.skip(1)) {
                Option::None => Option::None,
                Option::Some(rest) => Option::Some(tbl_code(tbl, u) + rest),
            }
        } else {
            Option::None
        }
    }
}

/// Walking the path that `shape_codes` assigned to a symbol reaches
/// exactly that symbol's leaf and leaves the rest of the bits intact.
proof fn lemma_dec_sym_code(sub: CodeShape, prefix: Seq<bool>, j: int, rest: Seq<bool>)
    requires
        sub is Node,
        shape_syms_distinct(sub),
        0 <= j < shape_codes(sub, prefix).len(),
    ensures
        ({
            let s = shape_codes(sub, prefix)[j].0;
            let code = shape_codes(sub, prefix)[j].1;
            &&& code.len() > prefix.len()
            &&& bits_prefix(prefix, code)
            &&& dec_sym(sub, code.skip(prefix.len() as int) + rest) == Option::Some((s, rest))
        }),
    decreases sub,
{
    lemma_shape_codes_wf(sub, prefix);
    let s = shape_codes(sub, prefix)[j].0;
    let code = shape_codes(sub, prefix)[j].1;
    let suffix = code.skip(prefix.len() as int);
    let bits = suffix + rest;
    match sub {
        CodeShape::Node(l, r) => {
            let p0 = prefix.push(false);
            let p1 = prefix.push(true);
            let cl = shape_codes(*l, p0);
            let cr = shape_codes(*r, p1);
            if j < cl.len() {
                assert(shape_codes(sub, prefix)[j] == cl[j]);
                lemma_shape_codes_wf(*l, p0);
                assert(bits_prefix(p0, code));
                assert(code[prefix.len() as int] == false) by {
                    assert(code.subrange(0, p0.len() as int)[prefix.len() as int]
                        == code[prefix.len() as int]);
                }
                assert(suffix[0] == false);
                assert(bits[0] == false);
                match *l {
                    CodeShape::Leaf(s2) => {
                        assert(cl =~= seq![(s2, p0)]);
                        assert(j == 0 && s == s2 && code == p0);
                        assert(suffix.len() == 1);
                        assert(bits.skip(1) =~= rest);
                    },
                    CodeShape::Node(_, _) => {
                        lemma_dec_sym_code(*l, p0, j, rest);
                        assert(code.skip(p0.len() as int) + rest =~= bits.skip(1));
                        assert(dec_sym(*l, bits.skip(1)) == Option::Some((s, rest)));
                    },
                    CodeShape::Absent => {
                        assert(cl.len() == 0);
                    },
                }
            } else {
                let jj = j - cl.len();
                assert(shape_codes(sub, prefix)[j] == cr[jj]);
                lemma_shape_codes_wf(*r, p1);
                assert(bits_prefix(p1, code));
                assert(code[prefix.len() as int] == true) by {
                    assert(code.subrange(0, p1.len() as int)[prefix.len() as int]
                        == code[prefix.len() as int]);
                }
                assert(suffix[0] == true);
                assert(bits[0] == true);
                match *r {
                    CodeShape::Leaf(s2) => {
                        assert(cr =~= seq![(s2, p1)]);
                        assert(jj == 0 && s == s2 && code == p1);
                        assert(suffix.len() == 1);
                        assert(bits.skip(1) =~= rest);
                    },
                    CodeShape::Node(_, _) => {
                        lemma_dec_sym_code(*r, p1, jj, rest);
                        assert(code.skip(p1.len() as int) + rest =~= bits.skip(1));
                        assert(dec_sym(*r, bits.skip(1)) == Option::Some((s, rest)));
                    },
                    CodeShape::Absent => {
                        assert(cr.len() == 0);
                    },
                }
            }
        },
        _ => {},
    }
}

/// Round trip: a text whose units all have codewords encodes to a
/// bitstream that decodes back to the same text, when table and tree
/// come from the same build (`tbl == shape_codes(sh, empty)`).
pub proof fn lemma_round_trip(sh: CodeShape, tbl: Seq<(Seq<char>, Seq<bool>)>, text: Seq<char>)
    requires
        sh is Node,
        shape_syms_distinct(sh),
        tbl == shape_codes(sh, Seq::empty()),
        forall|i: int| 0 <= i < text.len() ==> tbl_contains(tbl, seq![#[trigger] text[i]]),
    ensures
        spec_encode(tbl, text) is Some,
        spec_decode(sh, spec_encode(tbl, text)->Some_0) == Option::Some(text),
    decreases text.len(),
{
    if text.len() == 0 {
        assert(spec_decode(sh, Seq::empty()) == Option::Some(Seq::<char>::empty()));
        assert(spec_encode(tbl, text)->Some_0 =~= Seq::<bool>::empty());
    } else {
        let u = seq![text[0]];
        assert(tbl_contains(tbl, u)) by {
            assert(tbl_contains(tbl, seq![text[0]]));
        }
        assert forall|i: int| 0 <= i < text.skip(1).len() implies tbl_contains(
            tbl,
            seq![#[trigger] text.skip(1)[i]],
        ) by {
            assert(text.skip(1)[i] == text[i + 1]);
        }
        lemma_round_trip(sh, tbl, text.skip(1));
        lemma_shape_codes_wf(sh, Seq::empty());
        let rest = spec_encode(tbl, text.skip(1))->Some_0;
        let j = choose|i: int| 0 <= i < tbl.len() && (#[trigger] tbl[i]).0 == u;
        let code = tbl_code(tbl, u);
        assert(code == tbl[j].1);
        lemma_dec_sym_code(sh, Seq::empty(), j, rest);
        assert(code.skip(0) =~= code);
        assert(dec_sym(sh, code + rest) == Option::Some((u, rest)));
        let bits = code + rest;
        assert(spec_encode(tbl, text) == Option::Some(bits));
        assert(bits.len() > 0);
        assert(spec_decode(sh, bits) == Option::Some(u + text.skip(1)));
        assert(u + text.skip(1) =~= text);
    }
}


/// Round trip for a built code: over the table and tree that
/// `spec_build` / `spec_huffman` assign to a non-empty frequency table
/// with distinct keys, any text made of symbols with codewords encodes
/// and decodes back to itself.
pub proof fn lemma_build_round_trip(entries: Seq<(Seq<char>, nat)>, text: Seq<char>)
    requires
        forall|i: int, j: int|
            0 <= i < j < entries.len() ==> (#[trigger] entries[i]).0 != (#[trigger] entries[j]).0,
        entries.len() >= 1,
        forall|i: int|
            0 <= i < text.len() ==> tbl_contains(spec_huffman(entries), seq![#[trigger] text[i]]),
    ensures
        spec_encode(spec_huffman(entries), text) is Some,
        spec_decode(
            spec_build(entries)->Some_0,
            spec_encode(spec_huffman(entries), text)->Some_0,
        ) == Option::Some(text),
{
    lemma_spec_build_wf(entries);
    let sh = spec_build(entries)->Some_0;
    lemma_round_trip(sh, spec_huffman(entries), text);
}

/// Append the units of `src` to `dst`.
fn extend_syms(dst: &mut Vec<char>, src: &Vec<char>)
    ensures
        final(dst)@ == old(dst)@ + src@,
{
    let mut i: usize = 0;
    while i < src.len()
        invariant
            i <= src@.len(),
            dst@ == old(dst)@ + src@.take(i as int),
        decreases src@.len() - i,
    {
        dst.push(src[i]);
        proof {
            assert(old(dst)@ + src@.take(i as int) + seq![src@[i as int]] =~= old(dst)@
                + src@.take(i + 1));
        }
        i = i + 1;
    }
    proof {
        assert(old(dst)@ + src@.take(src@.len() as int) =~= old(dst)@ + src@);
    }
}

/// Copy of a bit string.
pub fn copy_bits(v: &Vec<bool>) -> (r: Vec<bool>)
    ensures
        r@ == v@,
{
    let mut r: Vec<bool> = Vec::new();
    let mut i: usize = 0;
    while i < v.len()
        invariant
            i <= v@.len(),
            r@ == v@.take(i as int),
        decreases v@.len() - i,
    {
        r.push(v[i]);
        proof {
            assert(r@ =~= v@.take(i + 1));
        }
        i = i + 1;
    }
    proof {
        assert(v@.take(v@.len() as int) =~= v@);
    }
    r
}

/// Append the bits of `src` to `dst`.
pub fn extend_bits(dst: &mut Vec<bool>, src: &Vec<bool>)
    ensures
        final(dst)@ == old(dst)@ + src@,
{
    let mut i: usize = 0;
    while i < src.len()
        invariant
            i <= src@.len(),
            dst@ == old(dst)@ + src@.take(i as int),
        decreases src@.len() - i,
    {
        dst.push(src[i]);
        proof {
            assert(old(dst)@ + src@.take(i as int) + seq![src@[i as int]] =~= old(dst)@
                + src@.take(i + 1));
        }
        i = i + 1;
    }
    proof {
        assert(old(dst)@ + src@.take(src@.len() as int) =~= old(dst)@ + src@);
    }
}

/// Encode a text unit by unit against the code table.
///
/// Every scalar unit must have a single-unit codeword; the first unit
/// without one is reported as `MissingSymbol` instead of being skipped.
#[verifier::loop_isolation(false)]
pub fn encode(text: &Vec<char>, table: &CodeTable) -> (r: Result<Vec<bool>, CodeError>)
    requires
        table.wf(),
    ensures
        match r {
            Ok(bits) => spec_encode(table.entries(), text@) == Option::Some(bits@),
            Err(e) => e == CodeError::MissingSymbol && spec_encode(table.entries(), text@)
                is None,
        },
{
    let ghost tbl = table.entries();
    let mut out: Vec<bool> = Vec::new();
    proof {
        assert(text@.skip(0) =~= text@);
        match spec_encode(tbl, text@) {
            Option::Some(rest) => {
                assert(Seq::<bool>::empty() + rest =~= rest);
            },
            Option::None => {},
        }
    }
    let mut i: usize = 0;
    while i < text.len()
        invariant
            i <= text@.len(),
            match spec_encode(tbl, text@.skip(i as int)) {
                Option::Some(rest) => spec_encode(tbl, text@) == Option::Some(out@ + rest),
                Option::None => spec_encode(tbl, text@) is None,
            },
        decreases text@.len() - i,
    {
        let mut u: Vec<char> = Vec::new();
        u.push(text[i]);
        proof {
            assert(u@ =~= seq![text@[i as int]]);
        }
        let found = table.get(&u);
        match found {
            Option::Some(code) => {
                proof {
                    table.lemma_tbl_entries(u@);
                    let prev = text@.skip(i as int);
                    assert(prev[0] == text@[i as int]);
                    assert(seq![prev[0]] =~= u@);
                    assert(prev.skip(1) =~= text@.skip(i + 1));
                    assert(spec_encode(tbl, prev) == (match spec_encode(
                        tbl,
                        text@.skip(i + 1),
                    ) {
                        Option::None => Option::None::<Seq<bool>>,
                        Option::Some(rest) => Option::Some(tbl_code(tbl, u@) + rest),
                    }));
                }
                let ghost out_before = out@;
                extend_bits(&mut out, code);
                proof {
                    match spec_encode(tbl, text@.skip(i + 1)) {
                        Option::Some(rest) => {
                            assert(out_before + (tbl_code(tbl, u@) + rest) =~= out@ + rest);
                        },
                        Option::None => {},
                    }
                }
            },
            Option::None => {
                proof {
                    table.lemma_tbl_entries(u@);
                    let prev = text@.skip(i as int);
                    assert(prev[0] == text@[i as int]);
                    assert(seq![prev[0]] =~= u@);
                    assert(spec_encode(tbl, prev) is None);
                }
                return Err(CodeError::MissingSymbol);
            },
        }
        i = i + 1;
    }
    proof {
        assert(text@.skip(text@.len() as int) =~= Seq::<char>::empty());
        assert(out@ + Seq::<bool>::empty() =~= out@);
    }
    Ok(out)
}

/// The decoder's pending state: at the root with `rem` bits left, or
/// mid-codeword at an internal node.
pub open spec fn dec_state(sh: CodeShape, cur: CodeShape, at_root: bool, rem: Seq<bool>) -> Option<
    Seq<char>,
> {
    if at_root {
        spec_decode(sh, rem)
    } else if rem.len() == 0 {
        Option::None
    } else {
        match dec_sym(cur, rem) {
            Option::None => Option::None,
            Option::Some(p) => match spec_decode(sh, p.1) {
                Option::None => Option::None,
                Option::Some(t) => Option::Some(p.0 + t),
            },
        }
    }
}

/// Decode a bitstream by walking the tree: step to the first child on
/// "0" (`false`) and the second on "1" (`true`); emit a leaf's symbol
/// and restart at the root.  A bit sequence with no corresponding path
/// — a step onto a missing branch or onto the reserved placeholder, or
/// input that ends in the middle of a codeword — is a `DecodeFailure`.
#[verifier::loop_isolation(false)]
pub fn decode(encoded: &Vec<bool>, tree: &CodeTree) -> (r: Result<Vec<char>, CodeError>)
    requires
        tree.wf(),
    ensures
        match r {
            Ok(out) => match tree.shape() {
                Option::Some(sh) => spec_decode(sh, encoded@) == Option::Some(out@),
                Option::None => encoded@.len() == 0 && out@.len() == 0,
            },
            Err(e) => e == CodeError::DecodeFailure && match tree.shape() {
                Option::Some(sh) => spec_decode(sh, encoded@) is None,
                Option::None => encoded@.len() > 0,
            },
        },
{
    if encoded.len() == 0 {
        let out: Vec<char> = Vec::new();
        return Ok(out);
    }
    let rt = match tree.root {
        Option::Some(r) => r,
        Option::None => {
            return Err(CodeError::DecodeFailure);
        },
    };
    let ghost sh = shape_of(tree.nodes@, rt as int);
    let mut out: Vec<char> = Vec::new();
    proof {
        assert(encoded@.skip(0) =~= encoded@);
        match spec_decode(sh, encoded@) {
            Option::Some(t) => {
                assert(Seq::<char>::empty() + t =~= t);
            },
            Option::None => {},
        }
    }
    let mut cur: usize = rt;
    let mut at_root: bool = true;
    let mut pos: usize = 0;
    while pos < encoded.len()
        invariant
            pos <= encoded@.len(),
            cur < tree.nodes@.len(),
            at_root ==> cur == rt,
            !at_root ==> shape_of(tree.nodes@, cur as int) is Node,
            match dec_state(sh, shape_of(tree.nodes@, cur as int), at_root, encoded@.skip(
                pos as int,
            )) {
                Option::Some(t) => spec_decode(sh, encoded@) == Option::Some(out@ + t),
                Option::None => spec_decode(sh, encoded@) is None,
            },
        decreases encoded@.len() - pos,
    {
        let ghost rem = encoded@.skip(pos as int);
        let ghost cur_shape = shape_of(tree.nodes@, cur as int);
        proof {
            assert(rem.len() > 0);
            assert(rem[0] == encoded@[pos as int]);
            assert(rem.skip(1) =~= encoded@.skip(pos + 1));
        }
        let bit = encoded[pos];
        let step = match &tree.nodes[cur] {
            TreeNode::Internal { left, right } => {
                if bit {
                    Option::Some(*right)
                } else {
                    Option::Some(*left)
                }
            },
            _ => Option::None,
        };
        let child = match step {
            Option::Some(c) => c,
            Option::None => {
                // Only possible at the root of a degenerate tree: no
                // step can be taken, so the bits have no path.
                proof {
                    assert(at_root);
                    assert(!(cur_shape is Node));
                    assert(dec_sym(cur_shape, rem) is None);
                    assert(dec_state(sh, cur_shape, at_root, rem) is None);
                }
                return Err(CodeError::DecodeFailure);
            },
        };
        proof {
            assert(cur_shape is Node);
            assert(child < cur);
            assert(shape_of(tree.nodes@, cur as int) == (match tree.nodes@[cur as int] {
                TreeNode::Internal { left, right } => CodeShape::Node(
                    Box::new(shape_of(tree.nodes@, left as int)),
                    Box::new(shape_of(tree.nodes@, right as int)),
                ),
                _ => cur_shape,
            }));
            assert(dec_sym(cur_shape, rem) == (match shape_of(tree.nodes@, child as int) {
                CodeShape::Leaf(s) => Option::Some((s, rem.skip(1))),
                CodeShape::Node(_, _) => dec_sym(shape_of(tree.nodes@, child as int), rem.skip(1)),
                CodeShape::Absent => Option::None,
            }));
            if at_root {
                assert(dec_state(sh, cur_shape, true, rem) == spec_decode(sh, rem));
            }
        }
        match &tree.nodes[child] {
            TreeNode::Leaf { symbol } => {
                proof {
                    assert(shape_of(tree.nodes@, child as int) == CodeShape::Leaf(symbol@));
                    assert(dec_sym(cur_shape, rem) == Option::Some((symbol@, rem.skip(1))));
                }
                let ghost out_before = out@;
                extend_syms(&mut out, symbol);
                proof {
                    match spec_decode(sh, rem.skip(1)) {
                        Option::Some(t) => {
                            assert(out_before + (symbol@ + t) =~= out@ + t);
                        },
                        Option::None => {},
                    }
                }
                cur = rt;
                at_root = true;
            },
            TreeNode::Internal { left: _, right: _ } => {
                proof {
                    assert(shape_of(tree.nodes@, child as int) is Node);
                    assert(dec_sym(cur_shape, rem) == dec_sym(
                        shape_of(tree.nodes@, child as int),
                        rem.skip(1),
                    ));
                    if rem.skip(1).len() == 0 {
                        assert(dec_sym(shape_of(tree.nodes@, child as int), rem.skip(1))
                            is None);
                    }
                }
                cur = child;
                at_root = false;
            },
            TreeNode::Absent => {
                proof {
                    assert(shape_of(tree.nodes@, child as int) == CodeShape::Absent);
                    assert(dec_sym(cur_shape, rem) is None);
                }
                return Err(CodeError::DecodeFailure);
            },
        }
        pos = pos + 1;
    }
    proof {
        assert(encoded@.skip(encoded@.len() as int) =~= Seq::<bool>::empty());
        if at_root {
            assert(out@ + Seq::<char>::empty() =~= out@);
        }
    }
    if at_root {
        Ok(out)
    } else {
        Err(CodeError::DecodeFailure)
    }
}

} // verus!
