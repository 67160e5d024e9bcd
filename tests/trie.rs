use bin_prefix_set::filtering::{narrow_keys, split_by_bit};
use bin_prefix_set::{Node, SemiCollapsedBinPrefixSet};
use std::error::Error;

#[test]
fn t1() -> Result<(), Box<dyn Error>> {
    let mut x = SemiCollapsedBinPrefixSet::Empty;
    assert!(x.sole_leaf().is_none());

    x.insert(0b0101, 4);
    assert_eq!(x.sole_leaf().ok_or("none")?, 0b101);

    x.insert(0b0100, 4);
    assert!(x.sole_leaf().is_none());

    x.insert(0b0001, 4);
    assert!(x.sole_leaf().is_none());

    let (counts, children) = x.deconstruct();
    let [child_00, child_01, child_10, child_11] = children;
    assert_eq!(counts, [3, -1, 0]);
    assert!(child_10.is_none());
    assert!(child_11.is_none());

    let node_00 = child_00.ok_or("none")?;
    assert_eq!(node_00.child_count, 1);
    assert_eq!(node_00.child.sole_leaf().ok_or("none")?, 0b0001);
    let (counts_00, children_00) = node_00.child.deconstruct();
    assert_eq!(counts_00, [1, -1, 0]);
    let [child_0000, child_0001, child_0010, child_0011] = children_00;
    assert!(child_0000.is_none());
    assert!(child_0010.is_none());
    assert!(child_0011.is_none());
    let node_0001 = child_0001.ok_or("none")?;
    assert_eq!(node_0001.child_count, 1);
    assert_eq!(node_0001.child.sole_leaf().ok_or("none")?, 0b0001);

    let node_01 = child_01.ok_or("none")?;
    assert_eq!(node_01.child_count, 2);
    assert!(node_01.child.sole_leaf().is_none());

    let (counts_01, children_01) = node_01.child.deconstruct();
    assert_eq!(counts_01, [2, 0, 0]);
    let [child_0100, child_0101, child_0110, child_0111] = children_01;
    assert!(child_0110.is_none());
    assert!(child_0111.is_none());

    let node_0100 = child_0100.ok_or("none")?;
    assert_eq!(node_0100.child_count, 1);
    assert_eq!(node_0100.child.sole_leaf().ok_or("none")?, 0b0100);

    let node_0101 = child_0101.ok_or("none")?;
    assert_eq!(node_0101.child_count, 1);
    assert_eq!(node_0101.child.sole_leaf().ok_or("none")?, 0b0101);

    Ok(())
}

/// Filters a list of keys bit by bit from the top, the way the narrowing is
/// defined; `None` when some step keeps no key.
fn brute_force_narrow(keys: &[u32], width: usize, most_common: bool) -> Option<u32> {
    let mut left: Vec<u32> = keys.to_vec();
    let mut b = width;
    while left.len() > 1 && b > 0 {
        b -= 1;
        let ones: Vec<u32> = left.iter().copied().filter(|v| (v >> b) & 1 == 1).collect();
        let zeroes: Vec<u32> = left.iter().copied().filter(|v| (v >> b) & 1 == 0).collect();
        let keep_ones = if most_common {
            ones.len() >= zeroes.len()
        } else {
            ones.len() < zeroes.len()
        };
        left = if keep_ones { ones } else { zeroes };
    }
    if left.len() == 1 {
        Some(left[0])
    } else {
        None
    }
}

fn build(keys: &[u32], width: usize) -> SemiCollapsedBinPrefixSet {
    let mut t = SemiCollapsedBinPrefixSet::Empty;
    for &k in keys {
        t.insert(k, width);
    }
    t
}

fn slot_total(children: &[Option<Node>; 4]) -> u32 {
    children.iter().map(|c| c.as_ref().map_or(0, |n| n.child_count)).sum()
}

/// Distinct keys of the given width from a fixed linear congruential walk.
fn sample_keys(n: usize, width: usize, seed: u32) -> Vec<u32> {
    let mut keys = Vec::new();
    let mut s = seed;
    let mask = if width == 32 { u32::MAX } else { (1u32 << width) - 1 };
    while keys.len() < n {
        s = s.wrapping_mul(1_103_515_245).wrapping_add(12_345);
        let k = (s >> 7) & mask;
        if !keys.contains(&k) {
            keys.push(k);
        }
    }
    keys
}

#[test]
fn insert_twice_reports_true_then_false() {
    let mut t = SemiCollapsedBinPrefixSet::Empty;
    assert!(t.insert(0b1010_0110_0001, 12));
    assert!(t.insert(0b0000_0000_0011, 12));
    assert!(!t.insert(0b1010_0110_0001, 12));
    assert!(!t.insert(0b0000_0000_0011, 12));
    let (_, children) = t.deconstruct();
    assert_eq!(slot_total(&children), 2);
}

#[test]
fn root_counts_add_up_to_distinct_keys() {
    let keys = sample_keys(200, 12, 7);
    let mut t = build(&keys, 12);
    // inserting everything again changes nothing
    for &k in &keys {
        assert!(!t.insert(k, 12));
    }
    let (_, children) = t.deconstruct();
    assert_eq!(slot_total(&children), 200);
}

#[test]
fn root_tallies_match_a_scan_of_the_keys() {
    let keys = sample_keys(150, 12, 99);
    let t = build(&keys, 12);
    let (tallies, _) = t.deconstruct();
    let count = |f: &dyn Fn(u32) -> bool| keys.iter().filter(|&&k| f(k)).count() as i32;
    let hi = |k: u32| (k >> 11) & 1;
    let lo = |k: u32| (k >> 10) & 1;
    assert_eq!(tallies[0], count(&|k| hi(k) == 0) - count(&|k| hi(k) == 1));
    assert_eq!(
        tallies[1],
        count(&|k| hi(k) == 0 && lo(k) == 0) - count(&|k| hi(k) == 0 && lo(k) == 1)
    );
    assert_eq!(
        tallies[2],
        count(&|k| hi(k) == 1 && lo(k) == 0) - count(&|k| hi(k) == 1 && lo(k) == 1)
    );
}

#[test]
fn sole_leaf_on_empty_one_and_two_keys() {
    let mut t = SemiCollapsedBinPrefixSet::Empty;
    assert_eq!(t.sole_leaf(), None);
    t.insert(0xfff, 12);
    assert_eq!(t.sole_leaf(), Some(0xfff));
    t.insert(0xfff, 12);
    assert_eq!(t.sole_leaf(), Some(0xfff));
    t.insert(0, 12);
    assert_eq!(t.sole_leaf(), None);
}

#[test]
fn sole_leaf_on_a_subtree() {
    // 0b1100 is alone under group 11, the other two share group 00
    let t = build(&[0b0001, 0b0010, 0b1100], 4);
    assert_eq!(t.sole_leaf(), None);
    let (_, [c00, c01, c10, c11]) = t.deconstruct();
    assert!(c01.is_none() && c10.is_none());
    assert_eq!(c00.map(|n| n.child.sole_leaf()), Some(None));
    assert_eq!(c11.map(|n| n.child.sole_leaf()), Some(Some(0b1100)));
}

#[test]
fn three_values_of_four_bits() {
    let keys = [0b0101, 0b0100, 0b0001];
    let t = build(&keys, 4);
    assert_eq!(t.sole_leaf(), None);
    let expected = brute_force_narrow(&keys, 4, true);
    assert_eq!(expected, Some(0b0101));
    assert_eq!(t.narrow(4, true), Some(0b0101));
    let (tallies, _) = t.deconstruct();
    assert_eq!(tallies, [3, -1, 0]);
}

#[test]
fn narrowing_matches_the_bit_filter() {
    let keys = [
        0b000111, 0b011110, 0b010110, 0b110111, 0b100101, 0b101111, 0b000011, 0b111100,
        0b010000, 0b111001, 0b100010, 0b001010,
    ];
    let t = build(&keys, 6);
    assert_eq!(t.narrow(6, true), Some(0b111100));
    assert_eq!(t.narrow(6, false), Some(0b001010));
    assert_eq!(brute_force_narrow(&keys, 6, true), Some(0b111100));
    assert_eq!(brute_force_narrow(&keys, 6, false), Some(0b001010));
    let keys = keys.to_vec();
    assert_eq!(narrow_keys(&keys, 6, true), Some(0b111100));
    assert_eq!(narrow_keys(&keys, 6, false), Some(0b001010));
}

#[test]
fn narrowing_matches_the_bit_filter_on_many_keys() {
    for seed in 1..40u32 {
        let keys = sample_keys(60, 12, seed);
        let t = build(&keys, 12);
        for most_common in [true, false] {
            let expected = brute_force_narrow(&keys, 12, most_common);
            assert_eq!(t.narrow(12, most_common), expected);
            assert_eq!(narrow_keys(&keys, 12, most_common), expected);
        }
    }
}

#[test]
fn narrowing_a_single_key() {
    let t = build(&[0b1001], 4);
    assert_eq!(t.narrow(4, true), Some(0b1001));
    assert_eq!(t.narrow(4, false), Some(0b1001));
}

#[test]
fn twelve_bit_keys_sit_six_levels_down() {
    let key = 0b1101_0010_0111u32;
    let mut t = build(&[key, 0b0000_1111_0000], 12);
    let mut levels = 0;
    let mut width = 12;
    loop {
        match t {
            SemiCollapsedBinPrefixSet::Leaf(v) => {
                assert_eq!(v, key);
                break;
            }
            node => {
                width -= 2;
                let (_, children) = node.deconstruct();
                let slot = ((key >> width) & 3) as usize;
                let next = children.into_iter().nth(slot).unwrap().unwrap();
                t = *next.child;
                levels += 1;
            }
        }
    }
    assert_eq!(levels, 6);
}

#[test]
fn widest_keys() {
    let mut t = SemiCollapsedBinPrefixSet::Empty;
    assert!(t.insert(u32::MAX, 32));
    assert!(t.insert(0, 32));
    assert!(t.insert(1 << 31, 32));
    assert!(!t.insert(u32::MAX, 32));
    assert_eq!(t.narrow(32, true), Some(u32::MAX));
    assert_eq!(t.narrow(32, false), Some(0));
    let (tallies, children) = t.deconstruct();
    assert_eq!(tallies, [-1, 1, 0]);
    assert_eq!(slot_total(&children), 3);
}

#[test]
fn narrowing_that_runs_out_of_keys() {
    let empty = SemiCollapsedBinPrefixSet::Empty;
    assert_eq!(empty.narrow(4, true), None);
    assert_eq!(empty.narrow(4, false), None);
    // every key has a 0 on top, so the least common top bit is a 1 held by none
    let keys = [0b0101, 0b0100, 0b0001];
    let t = build(&keys, 4);
    assert_eq!(brute_force_narrow(&keys, 4, false), None);
    assert_eq!(t.narrow(4, false), None);
}

#[test]
fn split_by_bit_partitions_the_keys() {
    let keys = vec![0b0110, 0b0011, 0b1000, 0b0100];
    let (ones_half, ones, zeroes) = split_by_bit(2, &keys);
    assert!(ones_half);
    assert_eq!(ones, vec![0b0110, 0b0100]);
    assert_eq!(zeroes, vec![0b0011, 0b1000]);
    let (ones_half, ones, zeroes) = split_by_bit(3, &keys);
    assert!(!ones_half);
    assert_eq!(ones, vec![0b1000]);
    assert_eq!(zeroes, vec![0b0110, 0b0011, 0b0100]);
}

#[test]
fn narrow_keys_on_edge_cases() {
    assert_eq!(narrow_keys(&vec![], 4, true), None);
    assert_eq!(narrow_keys(&vec![0b0111], 4, false), Some(0b0111));
    // every key has a 0 on top: the least common top bit keeps nothing
    assert_eq!(narrow_keys(&vec![0b0101, 0b0100, 0b0001], 4, false), None);
    assert_eq!(narrow_keys(&vec![0b0101, 0b0100, 0b0001], 4, true), Some(0b0101));
}

#[test]
fn split_by_bit_keeps_repeated_keys() {
    let keys = vec![0b101, 0b101, 0b001, 0b100, 0b001];
    let (ones_half, ones, zeroes) = split_by_bit(2, &keys);
    assert!(ones_half);
    assert_eq!(ones, vec![0b101, 0b101, 0b100]);
    assert_eq!(zeroes, vec![0b001, 0b001]);
    let (ones_half, ones, zeroes) = split_by_bit(1, &keys);
    assert!(!ones_half);
    assert!(ones.is_empty());
    assert_eq!(zeroes, keys);
}

#[test]
fn trees_print_for_debugging() {
    let t = build(&[0b01], 2);
    let text = format!("{:?}", t);
    assert!(text.contains("Leaf(1)"));
}
