//! Narrowing straight on a list of distinct keys, one bit at a time, with no
//! tree: the plain filter that the tree's narrowing must agree with.
use crate::bits::{bit, fits, lemma_fits_same_above, lemma_same_above_step, lemma_same_above_zero, same_above};
use crate::narrowing::{narrowed, ones_at, zeroes_at};
use vstd::prelude::*;

verus! {

proof fn lemma_push_contains(s: Seq<u32>, x: u32, v: u32)
    ensures
        s.push(x).contains(v) <==> s.contains(v) || v == x,
{
    if s.contains(v) {
        let k = choose|k: int| 0 <= k < s.len() && s[k] == v;
        assert(s.push(x)[k] == v);
    }
    if v == x {
        assert(s.push(x)[s.len() as int] == v);
    }
    if s.push(x).contains(v) && v != x {
        let k = choose|k: int| 0 <= k < s.len() + 1 && s.push(x)[k] == v;
        assert(s[k] == v);
    }
}

/// Splits keys by bit `b`; returns whether the keys with a 1 there are at
/// least half of them, then those keys, then the keys with a 0, each part in
/// the order of `xs`. Together the two parts are `xs` reordered.
pub fn split_by_bit(b: usize, xs: &Vec<u32>) -> (r: (bool, Vec<u32>, Vec<u32>))
    requires
        b < 32,
    ensures
        (r.1@ + r.2@).to_multiset() == xs@.to_multiset(),
        forall|v: u32| #[trigger] r.1@.contains(v) ==> bit(v, b as nat),
        forall|v: u32| #[trigger] r.2@.contains(v) ==> !bit(v, b as nat),
        r.0 == (2 * r.1.len() >= xs.len()),
        r.1.len() + r.2.len() == xs.len(),
        r.1@.to_set() == ones_at(xs@.to_set(), b as nat),
        r.2@.to_set() == zeroes_at(xs@.to_set(), b as nat),
        xs@.no_duplicates() ==> r.1@.no_duplicates() && r.2@.no_duplicates(),
{
    let mut ones: Vec<u32> = Vec::new();
    let mut zeroes: Vec<u32> = Vec::new();
    let mut j: usize = 0;
    proof {
        let none = Seq::<u32>::empty();
        assert(xs@.take(0) =~= none);
        none.to_multiset_ensures();
        vstd::multiset::lemma_multiset_empty_len(none.to_multiset());
        assert(ones@ == none && zeroes@ == none);
        assert(none.to_multiset().add(none.to_multiset()) =~= none.to_multiset());
    }
    while j < xs.len()
        invariant
            b < 32,
            j <= xs.len(),
            xs@.no_duplicates() ==> ones@.no_duplicates() && zeroes@.no_duplicates(),
            ones@.to_multiset().add(zeroes@.to_multiset()) == xs@.take(j as int).to_multiset(),
            ones.len() + zeroes.len() == j,
            forall|v: u32| #[trigger] ones@.contains(v) <==> xs@.take(j as int).contains(v) && bit(v, b as nat),
            forall|v: u32| #[trigger] zeroes@.contains(v) <==> xs@.take(j as int).contains(v) && !bit(v, b as nat),
        decreases xs.len() - j,
    {
        let x = xs[j];
        proof {
            assert(xs@.take(j as int + 1) == xs@.take(j as int).push(x));
            if xs@.no_duplicates() {
                assert(!xs@.take(j as int).contains(x)) by {
                    if xs@.take(j as int).contains(x) {
                        let k = choose|k: int| 0 <= k < j && xs@.take(j as int)[k] == x;
                        assert(xs@[k] == xs@[j as int]);
                    }
                }
                assert(!ones@.contains(x) && !zeroes@.contains(x));
            }
        }
        let ghost seen = xs@.take(j as int + 1);
        let ghost old_ones = ones@;
        let ghost old_zeroes = zeroes@;
        assert(bit(x, b as nat) == ((x >> (b as u32)) & 1 == 1));
        if (x >> (b as u32)) & 1 == 1 {
            ones.push(x);
        } else {
            zeroes.push(x);
        }
        assert forall|v: u32| #[trigger] ones@.contains(v) <==> seen.contains(v) && bit(v, b as nat) by {
            lemma_push_contains(old_ones, x, v);
            lemma_push_contains(xs@.take(j as int), x, v);
        }
        assert forall|v: u32| #[trigger] zeroes@.contains(v) <==> seen.contains(v) && !bit(v, b as nat) by {
            lemma_push_contains(old_zeroes, x, v);
            lemma_push_contains(xs@.take(j as int), x, v);
        }
        proof {
            vstd::seq_lib::to_multiset_build(old_ones, x);
            vstd::seq_lib::to_multiset_build(old_zeroes, x);
            vstd::seq_lib::to_multiset_build(xs@.take(j as int), x);
            assert(ones@.to_multiset().add(zeroes@.to_multiset()) =~= seen.to_multiset());
        }
        j = j + 1;
    }
    proof {
        assert(xs@.take(xs.len() as int) == xs@);
        assert(ones@.to_set() =~= ones_at(xs@.to_set(), b as nat));
        assert(zeroes@.to_set() =~= zeroes_at(xs@.to_set(), b as nat));
        vstd::seq_lib::lemma_multiset_commutative(ones@, zeroes@);
    }
    let half = ones.len() >= zeroes.len();
    (half, ones, zeroes)
}

/// Narrows distinct keys of width `width` by filtering on each bit from the
/// most significant down, as the tree's narrowing does, until at most one key
/// is left; returns that key, or `None` when no key is left.
pub fn narrow_keys(keys: &Vec<u32>, width: usize, most_common: bool) -> (r: Option<u32>)
    requires
        width <= 32,
        keys@.no_duplicates(),
        forall|v: u32| #[trigger] keys@.contains(v) ==> fits(v, width as nat),
    ensures
        match r {
            Some(v) => narrowed(keys@.to_set(), width as nat, most_common) == set![v],
            None => narrowed(keys@.to_set(), width as nat, most_common) == Set::<u32>::empty(),
        },
{
    let ghost target = narrowed(keys@.to_set(), width as nat, most_common);
    let mut left: Vec<u32> = keys.clone();
    let mut b: usize = width;
    proof {
        keys@.unique_seq_to_set();
        assert forall|v: u32, w: u32| #[trigger] left@.contains(v) && #[trigger] left@.contains(w)
            implies same_above(v, w, b as nat) by {
            lemma_fits_same_above(v, w, b as nat);
        }
    }
    while left.len() > 1 && b > 0
        invariant
            b <= width <= 32,
            left@.no_duplicates(),
            left@.to_set().len() == left.len(),
            narrowed(left@.to_set(), b as nat, most_common) == target,
            target == narrowed(keys@.to_set(), width as nat, most_common),
            forall|v: u32, w: u32| #[trigger] left@.contains(v) && #[trigger] left@.contains(w)
                ==> same_above(v, w, b as nat),
        decreases b,
    {
        let (ones_half, ones, zeroes) = split_by_bit(b - 1, &left);
        proof {
            ones@.unique_seq_to_set();
            zeroes@.unique_seq_to_set();
        }
        let keep_ones = if most_common {
            ones_half
        } else {
            !ones_half
        };
        let ghost above = left@;
        left = if keep_ones {
            ones
        } else {
            zeroes
        };
        proof {
            assert forall|v: u32, w: u32| #[trigger] left@.contains(v) && #[trigger] left@.contains(w)
                implies same_above(v, w, (b - 1) as nat) by {
                assert(left@.to_set().contains(v) && left@.to_set().contains(w));
                if keep_ones {
                    assert(ones_at(above.to_set(), (b - 1) as nat).contains(v));
                    assert(ones_at(above.to_set(), (b - 1) as nat).contains(w));
                } else {
                    assert(zeroes_at(above.to_set(), (b - 1) as nat).contains(v));
                    assert(zeroes_at(above.to_set(), (b - 1) as nat).contains(w));
                }
                assert(above.contains(v) && above.contains(w));
                lemma_same_above_step(v, w, b as nat);
            }
        }
        b = b - 1;
    }
    if left.len() == 1 {
        proof {
            assert(left@.to_set() =~= set![left@[0]]);
            assert(narrowed(left@.to_set(), b as nat, most_common) == left@.to_set());
            assert(target == set![left@[0]]);
        }
        let v = left[0];
        assert(target == set![v]);
        Some(v)
    } else {
        proof {
            if left.len() > 1 {
                assert(b == 0);
                assert(left@.contains(left@[0]) && left@.contains(left@[1]));
                lemma_same_above_zero(left@[0], left@[1]);
            }
            assert(left@.to_set() =~= Set::<u32>::empty());
        }
        None
    }
}

} // verus!
