//! The prefix tree itself: node layout, its invariant and insertion.
use crate::bits::{digit, fits, lemma_descend, lemma_digit_bits, lemma_same_above_zero, same_above};
use vstd::prelude::*;
use vstd::set_lib::lemma_set_disjoint_lens;

verus! {

/// A present slot of a node: the subtree below it and how many keys it holds.
#[derive(Debug)]
pub struct Node {
    pub child_count: u32,
    pub child: Box<SemiCollapsedBinPrefixSet>,
}

/// A binary prefix tree in which every node covers two bit levels: one
/// decision on the higher bit and one on the lower bit below each of its two
/// branches, so four slots, one per two-bit group.
#[derive(Debug)]
pub enum SemiCollapsedBinPrefixSet {
    Empty,
    /// `child_zeroes_minus_ones[0]` tallies the higher bit over all keys of the
    /// node, `[1]` the lower bit of keys whose higher bit is 0, `[2]` the lower
    /// bit of keys whose higher bit is 1; each is zeroes minus ones.
    /// `children[k]` holds the keys whose two-bit group is `k`.
    Node { child_zeroes_minus_ones: [i32; 3], children: Vec<Option<Node>> },
    /// A stored key.
    Leaf(u32),
}

/// The keys below a slot.
pub open spec fn slot_values(c: Option<Node>) -> Set<u32>
    decreases c,
{
    match c {
        None => Set::empty(),
        Some(n) => n.child.values(),
    }
}

/// The cached key count of a slot, 0 when it is absent.
pub open spec fn slot_count(c: Option<Node>) -> int {
    match c {
        None => 0,
        Some(n) => n.child_count as int,
    }
}

/// A slot `k` of a node with `i` bits left is consistent: its count is the
/// number of its keys, all of which have two-bit group `k`, and the subtree
/// below it is well formed with `i - 2` bits left.
pub open spec fn slot_wf(c: Option<Node>, i: nat, k: u32) -> bool
    decreases c,
{
    match c {
        None => true,
        Some(n) => {
            &&& n.child_count >= 1
            &&& n.child.values().finite()
            &&& n.child_count as int == n.child.values().len()
            &&& forall|v: u32| #[trigger] n.child.values().contains(v) ==> digit(v, i) == k
            &&& i >= 2 && n.child.wf((i - 2) as nat)
        },
    }
}

/// The largest number of keys that the signed tallies can account for.
pub open spec fn max_keys() -> nat {
    0x7fff_ffff
}

impl SemiCollapsedBinPrefixSet {
    /// The set of keys stored in the tree.
    pub open spec fn values(self) -> Set<u32>
        decreases self,
    {
        match self {
            SemiCollapsedBinPrefixSet::Empty => Set::empty(),
            SemiCollapsedBinPrefixSet::Leaf(v) => set![v],
            SemiCollapsedBinPrefixSet::Node { children, .. } => if children@.len() == 4 {
                slot_values(children@[0]) + slot_values(children@[1]) + slot_values(children@[2])
                    + slot_values(children@[3])
            } else {
                Set::empty()
            },
        }
    }

    /// The tree is well formed with `i` bits left to consume: with none left
    /// it is a single key; otherwise `i` is even and at most 32, and it is
    /// empty or a node whose slots are consistent and whose tallies are the
    /// zeroes minus ones of the keys below each decision point.
    pub open spec fn wf(self, i: nat) -> bool
        decreases self,
    {
        if i == 0 {
            self is Leaf
        } else {
            &&& i % 2 == 0
            &&& i <= 32
            &&& match self {
                SemiCollapsedBinPrefixSet::Empty => true,
                SemiCollapsedBinPrefixSet::Leaf(_) => false,
                SemiCollapsedBinPrefixSet::Node { child_zeroes_minus_ones: b, children } => {
                    &&& children@.len() == 4
                    &&& slot_wf(children@[0], i, 0)
                    &&& slot_wf(children@[1], i, 1)
                    &&& slot_wf(children@[2], i, 2)
                    &&& slot_wf(children@[3], i, 3)
                    &&& b[0] == slot_count(children@[0]) + slot_count(children@[1]) - slot_count(
                        children@[2],
                    ) - slot_count(children@[3])
                    &&& b[1] == slot_count(children@[0]) - slot_count(children@[1])
                    &&& b[2] == slot_count(children@[2]) - slot_count(children@[3])
                },
            }
        }
    }

    /// Well formed for some number of bits left.
    pub open spec fn well_formed(self) -> bool {
        exists|i: nat| self.wf(i)
    }

    /// A tree of keys of width `w`: well formed with `w` bits left, every key
    /// below `2^w`.
    pub open spec fn is_set_of_width(self, w: nat) -> bool {
        &&& 2 <= w
        &&& self.wf(w)
        &&& forall|v: u32| #[trigger] self.values().contains(v) ==> fits(v, w)
    }
}

/// The keys of a well-formed tree form a finite set.
pub proof fn lemma_values_finite(t: SemiCollapsedBinPrefixSet, i: nat)
    requires
        t.wf(i),
    ensures
        t.values().finite(),
{
    if let SemiCollapsedBinPrefixSet::Node { children, .. } = t {
        if i > 0 {
            assert(slot_values(children@[0]).finite());
            assert(slot_values(children@[1]).finite());
            assert(slot_values(children@[2]).finite());
            assert(slot_values(children@[3]).finite());
        }
    }
    if let SemiCollapsedBinPrefixSet::Leaf(v) = t {
        assert(t.values() == set![v]);
    }
}

/// In a well-formed node the keys split over the four slots, so their number
/// is the sum of the slots' cached counts.
pub proof fn lemma_node_len(t: SemiCollapsedBinPrefixSet, i: nat)
    requires
        t.wf(i),
        t is Node,
    ensures
        ({
            let c = t->children@;
            &&& t.values().finite()
            &&& t.values().len() == slot_count(c[0]) + slot_count(c[1]) + slot_count(c[2])
                + slot_count(c[3])
            &&& forall|k: int| 0 <= k < 4 ==> slot_values(#[trigger] c[k]).finite()
                && slot_values(c[k]).len() == slot_count(c[k])
        }),
{
    let c = t->children@;
    let s0 = slot_values(c[0]);
    let s1 = slot_values(c[1]);
    let s2 = slot_values(c[2]);
    let s3 = slot_values(c[3]);
    lemma_values_finite(t, i);
    assert(s0.disjoint(s1));
    assert((s0 + s1).disjoint(s2));
    assert((s0 + s1 + s2).disjoint(s3));
    lemma_set_disjoint_lens(s0, s1);
    lemma_set_disjoint_lens(s0 + s1, s2);
    lemma_set_disjoint_lens(s0 + s1 + s2, s3);
    assert forall|k: int| 0 <= k < 4 implies slot_values(#[trigger] c[k]).finite()
        && slot_values(c[k]).len() == slot_count(c[k]) by {
        if c[k] is None {
            assert(slot_values(c[k]) == Set::<u32>::empty());
        }
    }
}

/// The slots of a well-formed node split its keys by two-bit group: a key is
/// stored below the node exactly when it is stored below its own group's slot.
proof fn lemma_slot_split(c: Seq<Option<Node>>, i: nat, x: u32)
    requires
        2 <= i <= 32,
        c.len() == 4,
        forall|j: int| 0 <= j < 4 ==> slot_wf(#[trigger] c[j], i, j as u32),
    ensures
        ({
            let all = slot_values(c[0]) + slot_values(c[1]) + slot_values(c[2]) + slot_values(c[3]);
            &&& all.contains(x) <==> slot_values(c[digit(x, i) as int]).contains(x)
            &&& slot_values(c[digit(x, i) as int]).subset_of(all)
        }),
{
    lemma_digit_bits(x, i);
    assert(slot_wf(c[0], i, 0));
    assert(slot_wf(c[1], i, 1));
    assert(slot_wf(c[2], i, 2));
    assert(slot_wf(c[3], i, 3));
}

/// Counts one more key routed through slot `k` into the tallies of a node.
fn tally(b: &mut [i32; 3], k: usize)
    requires
        k < 4,
        -max_keys() < old(b)[0] < max_keys(),
        -max_keys() < old(b)[1] < max_keys(),
        -max_keys() < old(b)[2] < max_keys(),
    ensures
        final(b)[0] == old(b)[0] + (if k < 2 { 1int } else { -1int }),
        final(b)[1] == old(b)[1] + (if k == 0 { 1int } else if k == 1 { -1int } else { 0int }),
        final(b)[2] == old(b)[2] + (if k == 2 { 1int } else if k == 3 { -1int } else { 0int }),
{
    // walk the two decisions from the higher bit down: a 0 moves to the
    // next counter, a 1 skips the zero branch's counter
    if k < 2 {
        b[0] = b[0] + 1;
        if k == 0 {
            b[1] = b[1] + 1;
        } else {
            b[1] = b[1] - 1;
        }
    } else {
        b[0] = b[0] - 1;
        if k == 2 {
            b[2] = b[2] + 1;
        } else {
            b[2] = b[2] - 1;
        }
    }
}

/// Adds `x`, whose two-bit group at level `i` is `k`, below slot `k` of a node
/// with `i` bits left; returns the new slot and whether `x` was new.
fn add_to_slot(slot: Option<Node>, x: u32, i: usize, k: usize) -> (r: (Option<Node>, bool))
    requires
        2 <= i <= 32,
        i % 2 == 0,
        k < 4,
        digit(x, i as nat) == k as u32,
        slot_wf(slot, i as nat, k as u32),
        slot_values(slot).len() < max_keys(),
        forall|v: u32| #[trigger] slot_values(slot).contains(v) ==> same_above(v, x, i as nat),
    ensures
        slot_wf(r.0, i as nat, k as u32),
        r.1 == !slot_values(slot).contains(x),
        slot_values(r.0) == slot_values(slot).insert(x),
        slot_count(r.0) == slot_count(slot) + if r.1 { 1int } else { 0int },
    decreases i, 0nat,
{
    match slot {
        None => {
            let child = if i == 2 {
                SemiCollapsedBinPrefixSet::Leaf(x)
            } else {
                SemiCollapsedBinPrefixSet::Empty.add(x, i - 2).0
            };
            let r = Some(Node { child_count: 1, child: Box::new(child) });
            proof {
                assert(child.values() =~= set![x]);
            }
            (r, true)
        },
        Some(n) => {
            if i == 2 {
                proof {
                    let u = n.child->Leaf_0;
                    assert(n.child.values() == set![u]);
                    assert(n.child.values().contains(u));
                    lemma_descend(u, x, 2);
                    lemma_same_above_zero(u, x);
                    assert(n.child.values().insert(x) =~= n.child.values());
                }
                (Some(n), false)
            } else {
                let Node { child_count, child } = n;
                let ghost below = child.values();
                proof {
                    assert forall|v: u32| #[trigger] below.contains(v) implies same_above(
                        v,
                        x,
                        (i - 2) as nat,
                    ) by {
                        lemma_descend(v, x, i as nat);
                    }
                }
                let (c, added) = (*child).add(x, i - 2);
                let count = if added {
                    child_count + 1
                } else {
                    child_count
                };
                proof {
                    lemma_values_finite(c, (i - 2) as nat);
                    assert forall|v: u32| #[trigger] c.values().contains(v) implies digit(v, i as nat)
                        == k as u32 by {
                        if v != x {
                            assert(below.contains(v));
                        }
                    }
                }
                (Some(Node { child_count: count, child: Box::new(c) }), added)
            }
        },
    }
}

impl SemiCollapsedBinPrefixSet {
    /// Adds `x` below a tree with `i` bits left, where every stored key agrees
    /// with `x` above bit `i`; returns the new tree and whether `x` was new.
    #[verifier::rlimit(40)]
    fn add(self, x: u32, i: usize) -> (r: (SemiCollapsedBinPrefixSet, bool))
        requires
            2 <= i,
            self.wf(i as nat),
            self.values().len() < max_keys(),
            forall|v: u32| #[trigger] self.values().contains(v) ==> same_above(v, x, i as nat),
        ensures
            r.0.wf(i as nat),
            r.0 is Node,
            r.1 == !self.values().contains(x),
            r.0.values() == self.values().insert(x),
        decreases i, 1nat,
    {
        let ghost old_values = self.values();
        proof {
            lemma_values_finite(self, i as nat);
        }
        let (mut b, mut children) = match self {
            SemiCollapsedBinPrefixSet::Node { child_zeroes_minus_ones, children } => {
                proof {
                    lemma_node_len(self, i as nat);
                }
                (child_zeroes_minus_ones, children)
            },
            // an empty tree gets its first node (a leaf is ruled out by `wf`)
            _ => ([0i32, 0i32, 0i32], vec![None, None, None, None]),
        };
        let ghost old_children = children@;
        let k = ((x >> ((i - 2) as u32)) & 3u32) as usize;
        proof {
            lemma_digit_bits(x, i as nat);
            lemma_slot_split(old_children, i as nat, x);
            vstd::set_lib::lemma_len_subset(slot_values(old_children[k as int]), old_values);
        }
        let slot = children[k].take();
        assert(slot == old_children[k as int]);
        let (new_slot, added) = add_to_slot(slot, x, i, k);
        children.set(k, new_slot);
        if added {
            tally(&mut b, k);
        }
        let r = SemiCollapsedBinPrefixSet::Node { child_zeroes_minus_ones: b, children };
        proof {
            assert(children@ == old_children.update(k as int, new_slot));
            assert forall|j: int| 0 <= j < 4 && j != k implies #[trigger] children@[j]
                == old_children[j] by {}
            assert(r.values() =~= old_values.insert(x));
        }
        (r, added)
    }
}

impl SemiCollapsedBinPrefixSet {
    /// Adds the `i`-bit key `x`; returns `true` when it was not stored yet,
    /// `false` (leaving the set as it was) when it was.
    pub fn insert(&mut self, x: u32, i: usize) -> (inserted: bool)
        requires
            old(self).is_set_of_width(i as nat),
            fits(x, i as nat),
            old(self).values().len() < max_keys(),
        ensures
            final(self).is_set_of_width(i as nat),
            inserted == !old(self).values().contains(x),
            final(self).values() == old(self).values().insert(x),
    {
        let mut t = SemiCollapsedBinPrefixSet::Empty;
        std::mem::swap(self, &mut t);
        proof {
            assert forall|v: u32| #[trigger] t.values().contains(v) implies same_above(
                v,
                x,
                i as nat,
            ) by {
                crate::bits::lemma_fits_same_above(v, x, i as nat);
            }
        }
        let (t, inserted) = t.add(x, i);
        *self = t;
        inserted
    }

    /// The one key of the tree, if it holds exactly one.
    pub fn sole_leaf(&self) -> (r: Option<u32>)
        requires
            self.well_formed(),
        ensures
            r is Some <==> self.values().len() == 1,
            r matches Some(v) ==> self.values() == set![v],
        decreases self,
    {
        let ghost w = choose|i: nat| self.wf(i);
        proof {
            lemma_values_finite(*self, w);
        }
        match self {
            SemiCollapsedBinPrefixSet::Leaf(x) => {
                assert(self.values() == set![*x]);
                Some(*x)
            },
            SemiCollapsedBinPrefixSet::Empty => None,
            SemiCollapsedBinPrefixSet::Node { children, .. } => {
                proof {
                    lemma_node_len(*self, w);
                }
                let ghost c = children@;
                let mut sole: Option<usize> = None;
                let mut k: usize = 0;
                while k < 4
                    invariant
                        k <= 4,
                        c == children@,
                        c.len() == 4,
                        forall|j: int| 0 <= j < k && sole != Some(j as usize) ==> slot_count(
                            #[trigger] c[j],
                        ) == 0,
                        sole matches Some(s) ==> s < k && slot_count(c[s as int]) == 1,
                        forall|j: int| 0 <= j < 4 ==> slot_count(#[trigger] c[j]) >= 0,
                        self.values().len() == slot_count(c[0]) + slot_count(c[1]) + slot_count(
                            c[2],
                        ) + slot_count(c[3]),
                    decreases 4 - k,
                {
                    match &children[k] {
                        None => {},
                        Some(n) => {
                            if n.child_count == 1 {
                                if sole.is_none() {
                                    sole = Some(k);
                                } else {
                                    proof {
                                        let s = sole->Some_0;
                                        assert(c[k as int] == Some(*n));
                                        assert(slot_count(c[s as int]) == 1);
                                        assert(slot_count(c[0]) + slot_count(c[1]) + slot_count(c[2])
                                            + slot_count(c[3]) >= 2);
                                    }
                                    return None;
                                }
                            } else if n.child_count > 1 {
                                proof {
                                    assert(c[k as int] == Some(*n));
                                    assert(slot_count(c[0]) + slot_count(c[1]) + slot_count(c[2])
                                        + slot_count(c[3]) >= 2);
                                }
                                return None;
                            }
                        },
                    }
                    k = k + 1;
                }
                match sole {
                    None => None,
                    Some(s) => {
                        match &children[s] {
                            Some(n) => {
                                proof {
                                    assert(slot_wf(c[s as int], w, s as u32));
                                    assert(n.child.wf((w - 2) as nat));
                                    assert forall|j: int| 0 <= j < 4 && j != s implies slot_values(
                                        #[trigger] c[j],
                                    ).is_empty() by {}
                                    assert(self.values() =~= n.child.values());
                                }
                                n.child.sole_leaf()
                            },
                            None => None,
                        }
                    },
                }
            },
        }
    }
}

impl SemiCollapsedBinPrefixSet {
    /// Takes a node apart into its tallies and its four slots.
    pub fn deconstruct(self) -> (r: ([i32; 3], [Option<Node>; 4]))
        requires
            self.well_formed(),
            self is Node,
        ensures
            r.0 == self->child_zeroes_minus_ones,
            r.1@ == self->children@,
    {
        match self {
            SemiCollapsedBinPrefixSet::Node { child_zeroes_minus_ones, mut children } => {
                let ghost c = children@;
                assert(c.len() == 4);
                let c3 = children.pop().unwrap();
                let c2 = children.pop().unwrap();
                let c1 = children.pop().unwrap();
                let c0 = children.pop().unwrap();
                let slots = [c0, c1, c2, c3];
                assert(slots@ =~= c);
                (child_zeroes_minus_ones, slots)
            },
            _ => ([0i32, 0i32, 0i32], [None, None, None, None]),
        }
    }
}

/// Well-formed nodes at the same level with the same keys agree: the same
/// tallies, and in each slot the same presence, count and keys. Applied slot
/// by slot, two such trees agree node by node.
pub proof fn lemma_node_determined(t1: SemiCollapsedBinPrefixSet, t2: SemiCollapsedBinPrefixSet, i: nat)
    requires
        t1.wf(i),
        t2.wf(i),
        t1 is Node,
        t2 is Node,
        t1.values() == t2.values(),
    ensures
        t1->child_zeroes_minus_ones == t2->child_zeroes_minus_ones,
        forall|k: int|
            0 <= k < 4 ==> {
                &&& slot_values(#[trigger] t1->children@[k]) == slot_values(t2->children@[k])
                &&& slot_count(t1->children@[k]) == slot_count(t2->children@[k])
                &&& (t1->children@[k] is Some <==> t2->children@[k] is Some)
            },
{
    let c1 = t1->children@;
    let c2 = t2->children@;
    lemma_node_len(t1, i);
    lemma_node_len(t2, i);
    assert forall|k: int| 0 <= k < 4 implies slot_values(#[trigger] c1[k]) == slot_values(c2[k]) by {
        assert(slot_wf(c1[k], i, k as u32));
        assert(slot_wf(c2[k], i, k as u32));
        assert forall|v: u32| slot_values(c1[k]).contains(v) <==> slot_values(c2[k]).contains(v) by {
            lemma_slot_split(c1, i, v);
            lemma_slot_split(c2, i, v);
            lemma_digit_bits(v, i);
            assert(slot_wf(c1[digit(v, i) as int], i, digit(v, i)));
            assert(slot_wf(c2[digit(v, i) as int], i, digit(v, i)));
        }
        assert(slot_values(c1[k]) =~= slot_values(c2[k]));
    }
    assert forall|k: int| 0 <= k < 4 implies (#[trigger] c1[k] is Some <==> c2[k] is Some) by {
        assert(slot_wf(c1[k], i, k as u32));
        assert(slot_wf(c2[k], i, k as u32));
        assert(slot_values(c1[k]) == slot_values(c2[k]));
    }
    assert(t1->child_zeroes_minus_ones =~= t2->child_zeroes_minus_ones);
}

/// Inserting the same key twice: the second insertion reports that the key
/// was already there, and the tree after it agrees with the tree before it,
/// with the same keys, the same number of keys, the same root tallies and in
/// every root slot the same count and keys.
pub proof fn lemma_insert_idempotent(
    s0: SemiCollapsedBinPrefixSet,
    s1: SemiCollapsedBinPrefixSet,
    s2: SemiCollapsedBinPrefixSet,
    x: u32,
    w: nat,
)
    requires
        s0.is_set_of_width(w),
        s1.is_set_of_width(w),
        s2.is_set_of_width(w),
        s1.values() == s0.values().insert(x),
        s2.values() == s1.values().insert(x),
    ensures
        s1.values().contains(x),
        s2.values() == s1.values(),
        s2.values().len() == s1.values().len(),
        s1 is Node && s2 is Node,
        s2->child_zeroes_minus_ones == s1->child_zeroes_minus_ones,
        forall|k: int|
            0 <= k < 4 ==> slot_count(#[trigger] s2->children@[k]) == slot_count(s1->children@[k])
                && slot_values(s2->children@[k]) == slot_values(s1->children@[k]),
{
    assert(s2.values() =~= s1.values());
    assert(s1.values().contains(x));
    assert(s1 is Node);
    assert(s2 is Node);
    lemma_node_determined(s2, s1, w);
}

/// The cached counts of a node's slots add up to the number of keys in the
/// tree.
pub proof fn lemma_count_conservation(t: SemiCollapsedBinPrefixSet, i: nat)
    requires
        t.wf(i),
        t is Node,
    ensures
        ({
            let c = t->children@;
            slot_count(c[0]) + slot_count(c[1]) + slot_count(c[2]) + slot_count(c[3])
                == t.values().len()
        }),
{
    lemma_node_len(t, i);
}

/// The number of node levels below a slot.
pub open spec fn slot_depth(c: Option<Node>) -> nat
    decreases c,
{
    match c {
        None => 0,
        Some(n) => n.child.depth(),
    }
}

/// The larger of two depths.
pub open spec fn deeper(a: nat, b: nat) -> nat {
    if a >= b {
        a
    } else {
        b
    }
}

impl SemiCollapsedBinPrefixSet {
    /// The number of node levels on the longest path from the root.
    pub open spec fn depth(self) -> nat
        decreases self,
    {
        match self {
            SemiCollapsedBinPrefixSet::Node { children, .. } => if children@.len() == 4 {
                1 + deeper(
                    deeper(slot_depth(children@[0]), slot_depth(children@[1])),
                    deeper(slot_depth(children@[2]), slot_depth(children@[3])),
                )
            } else {
                1
            },
            _ => 0,
        }
    }
}

/// A well-formed tree with `i` bits left has at most `i / 2` node levels, so
/// insertion and lookup on keys of width `i` recurse at most `i / 2` times.
pub proof fn lemma_bounded_depth(t: SemiCollapsedBinPrefixSet, i: nat)
    requires
        t.wf(i),
    ensures
        t.depth() <= i / 2,
    decreases t,
{
    if let SemiCollapsedBinPrefixSet::Node { children, .. } = t {
        let c = children@;
        assert forall|k: int| 0 <= k < 4 implies slot_depth(#[trigger] c[k]) <= (i - 2) as nat / 2 by {
            assert(slot_wf(c[k], i, k as u32));
            if let Some(n) = c[k] {
                lemma_bounded_depth(*n.child, (i - 2) as nat);
            }
        }
    }
}

} // verus!
