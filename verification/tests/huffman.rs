use std::collections::HashMap;

use compressing::huffman::{code_map_from_reader, dec, enc, freq_map_from_reader, ins, Stat, Tree};

#[test]
fn test_ord_impl() {
    let a = Stat { freq: 5, sym: b'A' };
    let b = Stat { freq: 5, sym: b'A' };
    let c = Stat { freq: 6, sym: b'A' };
    assert_eq!(a, b);
    assert!(a < c);
}

#[test]
fn test_freq_map() {
    let src = Vec::from(b"AAABBBAABACD".as_ref());
    let map = freq_map_from_reader(&src);
    assert_eq!(
        map,
        HashMap::from([(b'A', 6), (b'B', 4), (b'C', 1), (b'D', 1),])
    );
}

#[test]
fn test_freq_map_empty() {
    let map = freq_map_from_reader(&Vec::new());
    assert_eq!(map, HashMap::new());
}

#[test]
fn test_code_map() {
    let src = Vec::from(b"AAABBBAABACD".as_ref());
    let map = code_map_from_reader(&src);

    assert_eq!(map[&b'A'], vec![false]);
    assert_eq!(map[&b'B'], vec![true, true]);

    // The order is not specified, just the bit length.
    assert_ne!(map[&b'C'], map[&b'D']);
    assert!(map[&b'C'] == vec![true, false, false] || map[&b'C'] == vec![true, false, true]);
    assert!(map[&b'D'] == vec![true, false, false] || map[&b'D'] == vec![true, false, true]);
}

#[test]
fn test_code_map_single_symbol() {
    let src = Vec::from(b"AAAA".as_ref());
    let map = code_map_from_reader(&src);
    assert_eq!(map.len(), 1);
    assert_eq!(map[&b'A'], Vec::<bool>::new());
}

#[test]
fn test_tree_freq_and_ins() {
    let mut arena: Vec<Tree> = Vec::new();
    let i = ins(&mut arena, Tree::Leaf(Stat { freq: 3, sym: b'x' }));
    let j = ins(&mut arena, Tree::Node { freq: 7, left: 0, right: 0 });
    assert_eq!(i, 0);
    assert_eq!(j, 1);
    assert_eq!(arena[0].freq(), 3);
    assert_eq!(arena[1].freq(), 7);
}

#[test]
fn test_stubs_emit_nothing() {
    let src = Vec::from(b"AAABBBAABACD".as_ref());
    assert_eq!(enc(&src).unwrap(), Vec::<u8>::new());
    assert_eq!(dec(&src).unwrap(), Vec::<u8>::new());
}
