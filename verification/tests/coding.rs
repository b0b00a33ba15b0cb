use pia::codec::{decode, encode};
use pia::freq::{frequency_estimation, FrequencyTable};
use pia::huffman::{build_code, huffman};
use pia::segment::{segment_approximate, segment_optimal};
use pia::table::CodeTable;
use pia::tree::CodeTree;
use pia::CodeError;

fn chars(s: &str) -> Vec<char> {
    s.chars().collect()
}

fn bits(s: &str) -> Vec<bool> {
    s.chars().map(|c| c == '1').collect()
}

fn code_of(table: &CodeTable, key: &str) -> Option<Vec<bool>> {
    table.get(&chars(key)).cloned()
}

fn build(text: &str, m: usize, alpha: u32) -> (CodeTree, CodeTable) {
    let t = chars(text);
    let n = t.len();
    let freq = frequency_estimation(&t, n, m, alpha);
    build_code(&freq)
}

#[test]
fn codeword_lengths_follow_frequencies() {
    // frequencies {a:4, b:3, c:2, d:1}: one bit for a, two for b,
    // three each for c and d.
    let (_, table) = build("aaaabbbccd", 1, 0);
    assert_eq!(code_of(&table, "a").unwrap().len(), 1);
    assert_eq!(code_of(&table, "b").unwrap().len(), 2);
    assert_eq!(code_of(&table, "c").unwrap().len(), 3);
    assert_eq!(code_of(&table, "d").unwrap().len(), 3);
}

#[test]
fn deterministic_tie_break_codes() {
    // With the fixed working order the codes themselves are pinned.
    let (_, table) = build("aaaabbbccd", 1, 0);
    assert_eq!(code_of(&table, "a").unwrap(), bits("1"));
    assert_eq!(code_of(&table, "b").unwrap(), bits("00"));
    assert_eq!(code_of(&table, "c").unwrap(), bits("010"));
    assert_eq!(code_of(&table, "d").unwrap(), bits("011"));
}

#[test]
fn two_symbol_codes_are_single_bits() {
    // frequencies {a:7, b:1}: one merge, a->"0", b->"1".
    let (_, table) = build("aaaaaaab", 1, 0);
    assert_eq!(code_of(&table, "a").unwrap(), bits("0"));
    assert_eq!(code_of(&table, "b").unwrap(), bits("1"));
}

#[test]
fn average_code_length_at_least_entropy() {
    // frequencies {a:7, b:1}: entropy ~ 0.544 bits/symbol, average code
    // length 1 bit/symbol.
    let (_, table) = build("aaaaaaab", 1, 0);
    let pa = 7.0f64 / 8.0;
    let pb = 1.0f64 / 8.0;
    let entropy = -(pa * pa.log2() + pb * pb.log2());
    let avg = pa * code_of(&table, "a").unwrap().len() as f64
        + pb * code_of(&table, "b").unwrap().len() as f64;
    assert!((entropy - 0.5436).abs() < 0.001);
    assert!(avg >= entropy);
    assert!((avg - 1.0).abs() < 1e-12);
}

#[test]
fn singleton_symbol_gets_one_bit() {
    let (_, table) = build("aaaa", 1, 0);
    assert_eq!(table.len(), 1);
    assert_eq!(code_of(&table, "a").unwrap(), bits("0"));
}

#[test]
fn empty_table_builds_empty_code() {
    let (tree, table) = build("", 3, 0);
    assert_eq!(table.len(), 0);
    assert!(tree.root.is_none());
}

#[test]
fn building_twice_is_identical() {
    // Forced ties: a and b have equal weight.
    let t = chars("aabb");
    let freq = frequency_estimation(&t, 4, 1, 0);
    let table1 = huffman(&freq);
    let table2 = huffman(&freq);
    assert_eq!(table1.keys, table2.keys);
    assert_eq!(table1.codes, table2.codes);
    let (tree1, _) = build_code(&freq);
    let (tree2, _) = build_code(&freq);
    assert_eq!(tree1.root, tree2.root);
    assert_eq!(tree1.nodes.len(), tree2.nodes.len());
}

#[test]
fn prefix_free_codewords() {
    let (_, table) = build("the quick brown fox jumps over the lazy dog", 1, 0);
    let k = table.len();
    for i in 0..k {
        for j in 0..k {
            if i != j {
                let a = &table.codes[i];
                let b = &table.codes[j];
                let is_prefix = a.len() <= b.len() && &b[..a.len()] == &a[..];
                assert!(!is_prefix);
            }
        }
    }
}

#[test]
fn encode_then_decode_round_trips() {
    let text = chars("aaaabbbccd");
    let (tree, table) = build("aaaabbbccd", 1, 0);
    let encoded = encode(&text, &table).unwrap();
    let decoded = decode(&encoded, &tree).unwrap();
    assert_eq!(decoded, text);
}

#[test]
fn encode_missing_symbol_is_reported() {
    let (_, table) = build("aaaabbbccd", 1, 0);
    let r = encode(&chars("axa"), &table);
    assert_eq!(r.unwrap_err(), CodeError::MissingSymbol);
}

#[test]
fn encode_empty_text() {
    let (_, table) = build("aaaabbbccd", 1, 0);
    let r = encode(&Vec::new(), &table).unwrap();
    assert_eq!(r.len(), 0);
}

#[test]
fn decode_empty_bits() {
    let (tree, _) = build("aaaabbbccd", 1, 0);
    let r = decode(&Vec::new(), &tree).unwrap();
    assert_eq!(r.len(), 0);
}

#[test]
fn decode_dangling_bits_fail() {
    // "01" stops in the middle of the codewords for c ("010") and
    // d ("011").
    let (tree, _) = build("aaaabbbccd", 1, 0);
    let r = decode(&bits("01"), &tree);
    assert_eq!(r.unwrap_err(), CodeError::DecodeFailure);
}

#[test]
fn decode_into_placeholder_fails() {
    // The singleton tree has the reserved unreachable child on the "1"
    // side.
    let (tree, _) = build("aaaa", 1, 0);
    assert_eq!(decode(&bits("0"), &tree).unwrap(), chars("a"));
    assert_eq!(decode(&bits("1"), &tree).unwrap_err(), CodeError::DecodeFailure);
}

#[test]
fn decode_with_empty_tree_fails() {
    let (tree, _) = build("", 1, 0);
    assert_eq!(decode(&bits("0"), &tree).unwrap_err(), CodeError::DecodeFailure);
}

#[test]
fn optimal_total_length() {
    // 4*1 + 3*2 + 2*3 + 1*3 = 19 bits.
    let text = chars("aaaabbbccd");
    let (_, table) = build("aaaabbbccd", 1, 0);
    let encoded = segment_optimal(&text, &table, 1).unwrap();
    assert_eq!(encoded.len(), 19);
}

#[test]
fn optimal_empty_text() {
    let (_, table) = build("aaaabbbccd", 1, 0);
    let r = segment_optimal(&Vec::new(), &table, 1).unwrap();
    assert_eq!(r.len(), 0);
}

#[test]
fn optimal_reports_uncoverable_text() {
    let text = chars("abc");
    let (_, table) = build("ab", 1, 0);
    let r = segment_optimal(&text, &table, 1);
    assert_eq!(r.unwrap_err(), CodeError::SegmentationFailure);
}

#[test]
fn optimal_with_zero_window_bound_fails() {
    let text = chars("a");
    let (_, table) = build("a", 1, 0);
    let r = segment_optimal(&text, &table, 0);
    assert_eq!(r.unwrap_err(), CodeError::SegmentationFailure);
}

#[test]
fn optimal_not_longer_than_approximate() {
    let text = chars("abababab");
    let n = text.len();
    for m in 1..4 {
        let freq = frequency_estimation(&text, n, m, 1);
        let table = huffman(&freq);
        let optimal = segment_optimal(&text, &table, m).unwrap();
        let approx = segment_approximate(&text, &table, m);
        assert!(optimal.len() <= approx.len());
    }
}

#[test]
fn optimal_prefers_longer_symbols() {
    // With "ab" in the table, pairing beats unit-by-unit coding.
    let text = chars("abababab");
    let freq = frequency_estimation(&text, 8, 2, 1);
    let table = huffman(&freq);
    let optimal = segment_optimal(&text, &table, 2).unwrap();
    let unit_only = segment_optimal(&text, &table, 1).unwrap();
    assert!(optimal.len() <= unit_only.len());
}

#[test]
fn approximate_silently_drops_unknown_units() {
    // The greedy scan drops a unit with no codeword and moves on.
    let text = chars("axa");
    let (_, table) = build("aa", 1, 0);
    let out = segment_approximate(&text, &table, 1);
    assert_eq!(out, bits("00"));
}

#[test]
fn approximate_matches_unit_coding_when_m_is_one() {
    let text = chars("aaaabbbccd");
    let (_, table) = build("aaaabbbccd", 1, 0);
    let approx = segment_approximate(&text, &table, 1);
    let encoded = encode(&text, &table).unwrap();
    assert_eq!(approx, encoded);
}

#[test]
fn equal_weights_give_fixed_codes() {
    // Four symbols of equal weight: the working order is decided by the
    // key tie-break alone, so the codes are pinned.
    let mut freq = FrequencyTable::new();
    for key in ["a", "b", "ab", "ba"] {
        freq.add_weight(&chars(key), 1);
    }
    let table = huffman(&freq);
    assert_eq!(code_of(&table, "a").unwrap(), bits("00"));
    assert_eq!(code_of(&table, "ab").unwrap(), bits("01"));
    assert_eq!(code_of(&table, "b").unwrap(), bits("10"));
    assert_eq!(code_of(&table, "ba").unwrap(), bits("11"));
}

#[test]
fn optimal_tie_breaks_on_smallest_start() {
    // "aba" can be cut as "a"+"ba" or "ab"+"a", both 4 bits; the
    // documented rule keeps the candidate with the smaller start of the
    // last segment, so "a"+"ba" wins.
    let mut freq = FrequencyTable::new();
    for key in ["a", "b", "ab", "ba"] {
        freq.add_weight(&chars(key), 1);
    }
    let table = huffman(&freq);
    let out = segment_optimal(&chars("aba"), &table, 2).unwrap();
    assert_eq!(out, bits("0011"));
}
