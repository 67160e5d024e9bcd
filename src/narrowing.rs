//! Majority and minority narrowing: from the most significant bit down, keep
//! the keys whose bit is the most (or least) common among those left, until
//! one key is left.
use crate::bits::{bit, digit, lemma_digit_bits};
use crate::prefix_set::{
    lemma_node_len, lemma_values_finite, slot_count, slot_values, slot_wf, Node,
    SemiCollapsedBinPrefixSet,
};
use vstd::prelude::*;
use vstd::set_lib::lemma_set_disjoint_lens;

verus! {

/// The keys of `s` whose bit `b` is 0.
pub open spec fn zeroes_at(s: Set<u32>, b: nat) -> Set<u32> {
    s.filter(|v: u32| !bit(v, b))
}

/// The keys of `s` whose bit `b` is 1.
pub open spec fn ones_at(s: Set<u32>, b: nat) -> Set<u32> {
    s.filter(|v: u32| bit(v, b))
}

/// Whether the ones are kept, given how many keys have a 0 and a 1: for the
/// most common bit a tie keeps the ones, for the least common it keeps the
/// zeroes.
pub open spec fn keeps_ones(zeroes: nat, ones: nat, most_common: bool) -> bool {
    if most_common {
        ones >= zeroes
    } else {
        ones < zeroes
    }
}

/// What is left of `s` after filtering on bits `b - 1` down to 0, stopping as
/// soon as at most one key is left.
pub open spec fn narrowed(s: Set<u32>, b: nat, most_common: bool) -> Set<u32>
    decreases b,
{
    if s.len() <= 1 || b == 0 {
        s
    } else {
        let z = zeroes_at(s, (b - 1) as nat);
        let o = ones_at(s, (b - 1) as nat);
        narrowed(
            if keeps_ones(z.len(), o.len(), most_common) {
                o
            } else {
                z
            },
            (b - 1) as nat,
            most_common,
        )
    }
}

/// The tallies of a well-formed node are what a scan of its keys gives: at
/// each of its three decision points, the keys that reach it with a 0 there
/// minus those with a 1.
pub proof fn lemma_tallies_count_keys(t: SemiCollapsedBinPrefixSet, i: nat)
    requires
        t.wf(i),
        t is Node,
    ensures
        ({
            let s = t.values();
            let b = t->child_zeroes_minus_ones;
            let hi = (i - 1) as nat;
            let lo = (i - 2) as nat;
            &&& b[0] == zeroes_at(s, hi).len() - ones_at(s, hi).len()
            &&& b[1] == zeroes_at(zeroes_at(s, hi), lo).len() - ones_at(zeroes_at(s, hi), lo).len()
            &&& b[2] == zeroes_at(ones_at(s, hi), lo).len() - ones_at(ones_at(s, hi), lo).len()
        }),
{
    lemma_node_splits(t, i);
}

/// How the bit filters at a node's two levels line up with its slots.
proof fn lemma_node_splits(t: SemiCollapsedBinPrefixSet, i: nat)
    requires
        t.wf(i),
        t is Node,
    ensures
        ({
            let s = t.values();
            let c = t->children@;
            let hi = (i - 1) as nat;
            let lo = (i - 2) as nat;
            &&& 2 <= i
            &&& zeroes_at(s, hi) == slot_values(c[0]) + slot_values(c[1])
            &&& ones_at(s, hi) == slot_values(c[2]) + slot_values(c[3])
            &&& zeroes_at(zeroes_at(s, hi), lo) == slot_values(c[0])
            &&& ones_at(zeroes_at(s, hi), lo) == slot_values(c[1])
            &&& zeroes_at(ones_at(s, hi), lo) == slot_values(c[2])
            &&& ones_at(ones_at(s, hi), lo) == slot_values(c[3])
            &&& zeroes_at(s, hi).len() == slot_count(c[0]) + slot_count(c[1])
            &&& ones_at(s, hi).len() == slot_count(c[2]) + slot_count(c[3])
            &&& forall|k: int| 0 <= k < 4 ==> slot_values(#[trigger] c[k]).len() == slot_count(c[k])
        }),
{
    let s = t.values();
    let c = t->children@;
    let hi = (i - 1) as nat;
    let lo = (i - 2) as nat;
    lemma_node_len(t, i);
    let s0 = slot_values(c[0]);
    let s1 = slot_values(c[1]);
    let s2 = slot_values(c[2]);
    let s3 = slot_values(c[3]);
    assert(slot_wf(c[0], i, 0));
    assert(slot_wf(c[1], i, 1));
    assert(slot_wf(c[2], i, 2));
    assert(slot_wf(c[3], i, 3));
    assert(s == s0 + s1 + s2 + s3);
    assert forall|v: u32| #[trigger] s.contains(v) implies (s0.contains(v) <==> digit(v, i) == 0) && (
    s1.contains(v) <==> digit(v, i) == 1) && (s2.contains(v) <==> digit(v, i) == 2) && (s3.contains(
        v,
    ) <==> digit(v, i) == 3) by {
        lemma_digit_bits(v, i);
        if s0.contains(v) {
            assert(digit(v, i) == 0);
        }
        if s1.contains(v) {
            assert(digit(v, i) == 1);
        }
        if s2.contains(v) {
            assert(digit(v, i) == 2);
        }
        if s3.contains(v) {
            assert(digit(v, i) == 3);
        }
    }
    assert forall|v: u32| #[trigger] s.contains(v) implies (bit(v, hi) <==> digit(v, i) >= 2) && (
    bit(v, lo) <==> digit(v, i) % 2 == 1) by {
        lemma_digit_bits(v, i);
    }
    assert forall|v: u32| #[trigger] zeroes_at(s, hi).contains(v) <==> (s0 + s1).contains(v) by {
        if s.contains(v) {
        }
    }
    assert(zeroes_at(s, hi) =~= s0 + s1);
    assert forall|v: u32| #[trigger] ones_at(s, hi).contains(v) <==> (s2 + s3).contains(v) by {
        if s.contains(v) {
        }
    }
    assert(ones_at(s, hi) =~= s2 + s3);
    assert forall|v: u32| #[trigger] zeroes_at(s0 + s1, lo).contains(v) <==> s0.contains(v) by {
        if s.contains(v) {
        }
    }
    assert(zeroes_at(s0 + s1, lo) =~= s0);
    assert forall|v: u32| #[trigger] ones_at(s0 + s1, lo).contains(v) <==> s1.contains(v) by {
        if s.contains(v) {
        }
    }
    assert(ones_at(s0 + s1, lo) =~= s1);
    assert forall|v: u32| #[trigger] zeroes_at(s2 + s3, lo).contains(v) <==> s2.contains(v) by {
        if s.contains(v) {
        }
    }
    assert(zeroes_at(s2 + s3, lo) =~= s2);
    assert forall|v: u32| #[trigger] ones_at(s2 + s3, lo).contains(v) <==> s3.contains(v) by {
        if s.contains(v) {
        }
    }
    assert(ones_at(s2 + s3, lo) =~= s3);
    assert(s0.disjoint(s1));
    assert(s2.disjoint(s3));
    lemma_set_disjoint_lens(s0, s1);
    lemma_set_disjoint_lens(s2, s3);
}

/// Whether the ones are kept at a decision point whose tally of zeroes minus
/// ones is `balance`.
fn keep_ones(balance: i32, most_common: bool) -> (r: bool)
    ensures
        r == if most_common {
            balance <= 0
        } else {
            balance > 0
        },
{
    let keep_zeroes = if balance == 0 {
        !most_common
    } else {
        (balance > 0) == most_common
    };
    !keep_zeroes
}

/// The one key below a slot that holds exactly one.
fn only_key(n: &Node) -> (r: u32)
    requires
        n.child.well_formed(),
        n.child.values().len() == 1,
    ensures
        n.child.values() == set![r],
{
    match n.child.sole_leaf() {
        Some(v) => v,
        // not reached: the slot holds exactly one key
        None => 0,
    }
}

impl SemiCollapsedBinPrefixSet {
    /// Narrows the keys of a `width`-bit set from the most significant bit
    /// down, keeping at each bit the keys with the most common value (ties keep
    /// 1) or, when `most_common` is false, the least common (ties keep 0),
    /// until one key is left; returns that key, or `None` when some step keeps
    /// no key at all (the tree is empty, or every key left agrees on a bit
    /// while the least common value is asked for). That last case means the
    /// input breaks the assumption that a candidate survives every step; it
    /// is a fatal fault for the caller, reported here instead of panicking.
    pub fn narrow(&self, width: usize, most_common: bool) -> (r: Option<u32>)
        requires
            self.wf(width as nat),
        ensures
            match r {
                Some(v) => narrowed(self.values(), width as nat, most_common) == set![v],
                None => narrowed(self.values(), width as nat, most_common) == Set::<u32>::empty(),
            },
    {
        let ghost target = narrowed(self.values(), width as nat, most_common);
        proof {
            lemma_values_finite(*self, width as nat);
        }
        if let Some(v) = self.sole_leaf() {
            return Some(v);
        }
        if self.is_empty() {
            return None;
        }
        proof {
            if self.values().len() == 0 {
                self.values().lemma_len0_is_empty();
            }
        }
        let mut cur: &SemiCollapsedBinPrefixSet = self;
        let mut i: usize = width;
        loop
            invariant
                2 <= i,
                cur.wf(i as nat),
                cur.values().finite(),
                cur.values().len() >= 2,
                narrowed(cur.values(), i as nat, most_common) == target,
                target == narrowed(self.values(), width as nat, most_common),
            decreases i,
        {
            proof {
                lemma_node_splits(*cur, i as nat);
            }
            match cur {
                SemiCollapsedBinPrefixSet::Node { child_zeroes_minus_ones: b, children } => {
                    let ghost c = children@;
                    let ghost hi = (i - 1) as nat;
                    let ghost lo = (i - 2) as nat;
                    let ones = keep_ones(b[0], most_common);
                    let lower: usize = if ones { 2 } else { 0 };
                    let ghost half = if ones {
                        ones_at(cur.values(), hi)
                    } else {
                        zeroes_at(cur.values(), hi)
                    };
                    assert(narrowed(half, hi, most_common) == target);
                    let half_count = slot_key_count(&children[lower]) + slot_key_count(
                        &children[lower + 1],
                    );
                    if half_count <= 1 {
                        // a single key decides the rest
                        let pick = if slot_key_count(&children[lower]) == 1 {
                            lower
                        } else {
                            lower + 1
                        };
                        match &children[pick] {
                            Some(n) => {
                                proof {
                                    assert(half =~= slot_values(c[pick as int]));
                                    assert(slot_wf(c[pick as int], i as nat, pick as u32));
                                    assert(n.child.wf(lo));
                                }
                                let r = only_key(n);
                                proof {
                                    assert(c[pick as int] == Some(*n));
                                    assert(half == set![r]);
                                    assert(set![r].len() == 1);
                                    assert(narrowed(half, hi, most_common) == half);
                                }
                                return Some(r);
                            },
                            None => {
                                proof {
                                    assert(half =~= Set::<u32>::empty());
                                    assert(narrowed(half, hi, most_common) == half);
                                }
                                return None;
                            },
                        }
                    }
                    let second = if ones {
                        b[2]
                    } else {
                        b[1]
                    };
                    let pick = if keep_ones(second, most_common) {
                        lower + 1
                    } else {
                        lower
                    };
                    assert(narrowed(slot_values(c[pick as int]), lo, most_common) == target);
                    match &children[pick] {
                        Some(n) => {
                            proof {
                                assert(slot_wf(c[pick as int], i as nat, pick as u32));
                                assert(n.child.wf(lo));
                            }
                            if n.child_count == 1 {
                                let r = only_key(n);
                                proof {
                                    assert(c[pick as int] == Some(*n));
                                    assert(slot_values(c[pick as int]) == set![r]);
                                    assert(set![r].len() == 1);
                                    assert(narrowed(set![r], lo, most_common) == set![r]);
                                }
                                return Some(r);
                            }
                            proof {
                                lemma_values_finite(*n.child, lo);
                            }
                            cur = &n.child;
                            i = i - 2;
                        },
                        None => {
                            proof {
                                assert(slot_values(c[pick as int]) == Set::<u32>::empty());
                                assert(narrowed(Set::<u32>::empty(), lo, most_common) == Set::<
                                    u32,
                                >::empty());
                            }
                            return None;
                        },
                    }
                },
                _ => {
                    return None;
                },
            }
        }
    }
}

impl SemiCollapsedBinPrefixSet {
    /// Whether the tree holds no key.
    pub fn is_empty(&self) -> (r: bool)
        requires
            self.well_formed(),
        ensures
            r == (self.values() == Set::<u32>::empty()),
    {
        match self {
            SemiCollapsedBinPrefixSet::Empty => {
                assert(self.values() =~= Set::<u32>::empty());
                true
            },
            SemiCollapsedBinPrefixSet::Leaf(v) => {
                assert(self.values().contains(*v));
                false
            },
            SemiCollapsedBinPrefixSet::Node { children, .. } => {
                let ghost w = choose|i: nat| self.wf(i);
                proof {
                    lemma_node_len(*self, w);
                    if self.values() == Set::<u32>::empty() {
                        assert(self.values().len() == 0);
                    }
                    if self.values().len() == 0 {
                        self.values().lemma_len0_is_empty();
                    }
                }
                slot_key_count(&children[0]) + slot_key_count(&children[1]) + slot_key_count(
                    &children[2],
                ) + slot_key_count(&children[3]) == 0
            },
        }
    }
}

/// The cached key count of a slot, 0 when it is absent.
fn slot_key_count(c: &Option<Node>) -> (r: u64)
    ensures
        r == slot_count(*c),
{
    match c {
        Some(n) => n.child_count as u64,
        None => 0,
    }
}

} // verus!
