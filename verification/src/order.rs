use vstd::prelude::*;

use crate::text::{
    less_text, lemma_text_lt_irreflexive, lemma_text_lt_total,
    lemma_text_lt_transitive, same_text, text_lt,
};

verus! {

/// A sort key: two numbers, then two texts, compared in that order.
#[derive(Debug)]
pub struct SortKey {
    pub first: i64,
    pub second: i64,
    pub text_a: Vec<char>,
    pub text_b: Vec<char>,
}

pub open spec fn key_eq(a: SortKey, b: SortKey) -> bool {
    a.first == b.first && a.second == b.second && a.text_a@ == b.text_a@ && a.text_b@ == b.text_b@
}

/// Lexicographic order of keys.
pub open spec fn key_lt(a: SortKey, b: SortKey) -> bool {
    ||| a.first < b.first
    ||| a.first == b.first && a.second < b.second
    ||| a.first == b.first && a.second == b.second && text_lt(a.text_a@, b.text_a@)
    ||| a.first == b.first && a.second == b.second && a.text_a@ == b.text_a@ && text_lt(
        a.text_b@,
        b.text_b@,
    )
}

pub proof fn lemma_key_lt_transitive(a: SortKey, b: SortKey, c: SortKey)
    requires
        key_lt(a, b),
        key_lt(b, c),
    ensures
        key_lt(a, c),
{
    if a.first == b.first && b.first == c.first && a.second == b.second && b.second == c.second {
        if text_lt(a.text_a@, b.text_a@) && text_lt(b.text_a@, c.text_a@) {
            lemma_text_lt_transitive(a.text_a@, b.text_a@, c.text_a@);
        }
        if a.text_a@ == b.text_a@ && b.text_a@ == c.text_a@ && text_lt(a.text_b@, b.text_b@)
            && text_lt(b.text_b@, c.text_b@) {
            lemma_text_lt_transitive(a.text_b@, b.text_b@, c.text_b@);
        }
    }
}

pub proof fn lemma_key_lt_total(a: SortKey, b: SortKey)
    ensures
        key_lt(a, b) || key_lt(b, a) || key_eq(a, b),
{
    lemma_text_lt_total(a.text_a@, b.text_a@);
    lemma_text_lt_total(a.text_b@, b.text_b@);
}

pub fn less_key(a: &SortKey, b: &SortKey) -> (r: bool)
    ensures
        r == key_lt(*a, *b),
{
    if a.first != b.first {
        return a.first < b.first;
    }
    if a.second != b.second {
        return a.second < b.second;
    }
    if !same_text(&a.text_a, &b.text_a) {
        return less_text(&a.text_a, &b.text_a);
    }
    proof {
        lemma_text_lt_irreflexive(a.text_a@);
    }
    less_text(&a.text_b, &b.text_b)
}

/// `x` comes before `y` when sorting stably by key: a smaller key, or an
/// equal key and an earlier position.
pub open spec fn sorts_before(keys: Seq<SortKey>, x: int, y: int) -> bool {
    key_lt(keys[x], keys[y]) || (key_eq(keys[x], keys[y]) && x < y)
}

/// `order` lists each position of `keys` once, in stable key order: the
/// result of a stable sort.
pub open spec fn stable_order(keys: Seq<SortKey>, order: Seq<usize>) -> bool {
    &&& order.len() == keys.len()
    &&& forall|i: int| 0 <= i < order.len() ==> #[trigger] order[i] < keys.len()
    &&& forall|i: int, j: int| 0 <= i < order.len() && 0 <= j < order.len() && i != j ==> order[i] != order[j]
    &&& forall|i: int, j: int|
        0 <= i < j < order.len() ==> sorts_before(keys, #[trigger] order[i] as int, #[trigger] order[j] as int)
}

/// The positions of `keys` in the order of a stable sort by key.
pub fn sorted_order(keys: &Vec<SortKey>) -> (r: Vec<usize>)
    ensures
        stable_order(keys@, r@),
{
    let n = keys.len();
    let mut order: Vec<usize> = Vec::new();
    let mut i: usize = 0;
    while i < n
        invariant
            n == keys.len(),
            i <= n,
            order.len() == i,
            forall|a: int| 0 <= a < order.len() ==> #[trigger] order@[a] < i,
            forall|a: int, b: int| 0 <= a < order.len() && 0 <= b < order.len() && a != b ==> order@[a] != order@[b],
            forall|a: int, b: int|
                0 <= a < b < order.len() ==> sorts_before(keys@, #[trigger] order@[a] as int, #[trigger] order@[b] as int),
        decreases n - i,
    {
        let mut p: usize = 0;
        while p < order.len() && !less_key(&keys[i], &keys[order[p]])
            invariant
                n == keys.len(),
                i < n,
                order.len() == i,
                p <= order.len(),
                forall|a: int| 0 <= a < order.len() ==> #[trigger] order@[a] < i,
                forall|a: int| 0 <= a < p ==> !key_lt(keys@[i as int], keys@[#[trigger] order@[a] as int]),
            decreases order.len() - p,
        {
            p += 1;
        }
        let ghost old_order = order@;
        proof {
            assert forall|a: int| p < a < old_order.len() implies key_lt(keys@[i as int], keys@[#[trigger] old_order[a] as int]) by {
                let x = old_order[p as int] as int;
                let y = old_order[a] as int;
                assert(sorts_before(keys@, x, y));
                if key_lt(keys@[x], keys@[y]) {
                    lemma_key_lt_transitive(keys@[i as int], keys@[x], keys@[y]);
                }
            }
            assert forall|a: int| 0 <= a < p implies sorts_before(keys@, #[trigger] old_order[a] as int, i as int) by {
                lemma_key_lt_total(keys@[i as int], keys@[old_order[a] as int]);
            }
        }
        order.insert(p, i);
        proof {
            let o = order@;
            assert forall|a: int, b: int|
                0 <= a < b < o.len() implies sorts_before(keys@, #[trigger] o[a] as int, #[trigger] o[b] as int) by {
                if a < p && b < p {
                    assert(o[a] == old_order[a] && o[b] == old_order[b]);
                } else if a < p && b == p {
                } else if a < p && b > p {
                    assert(o[a] == old_order[a] && o[b] == old_order[b - 1]);
                    assert(sorts_before(keys@, old_order[a] as int, old_order[b - 1] as int));
                } else if a == p {
                    assert(o[b] == old_order[b - 1]);
                } else {
                    assert(o[a] == old_order[a - 1] && o[b] == old_order[b - 1]);
                    assert(sorts_before(keys@, old_order[a - 1] as int, old_order[b - 1] as int));
                }
            }
            assert forall|a: int, b: int| 0 <= a < o.len() && 0 <= b < o.len() && a != b implies o[a] != o[b] by {
                if a != p && b != p {
                    let a2 = if a < p { a } else { a - 1 };
                    let b2 = if b < p { b } else { b - 1 };
                    assert(o[a] == old_order[a2] && o[b] == old_order[b2]);
                }
            }
            assert forall|a: int| 0 <= a < o.len() implies #[trigger] o[a] < i + 1 by {
                if a < p {
                    assert(o[a] == old_order[a]);
                } else if a > p {
                    assert(o[a] == old_order[a - 1]);
                }
            }
        }
        i += 1;
    }
    order
}


/// `order` lists each of the positions `0..n` once.
pub open spec fn lists_positions(order: Seq<usize>, n: int) -> bool {
    &&& order.len() == n
    &&& forall|i: int| 0 <= i < order.len() ==> #[trigger] order[i] < n
    &&& forall|i: int, j: int| 0 <= i < order.len() && 0 <= j < order.len() && i != j ==> order[i] != order[j]
}

/// Every earlier entry of `order` comes before every later one.
pub open spec fn ordered_by(order: Seq<usize>, before: spec_fn(int, int) -> bool) -> bool {
    forall|i: int, j: int| 0 <= i < j < order.len() ==> before(#[trigger] order[i] as int, #[trigger] order[j] as int)
}

/// A list of `n` distinct positions below `n` holds each of them.
pub proof fn lemma_positions_onto(order: Seq<usize>, n: int, v: usize)
    requires
        lists_positions(order, n),
        0 <= v < n,
    ensures
        exists|i: int| 0 <= i < order.len() && order[i] == v,
{
    broadcast use vstd::set::group_set_axioms, vstd::seq_lib::seq_to_set_is_finite;

    if !(exists|i: int| 0 <= i < order.len() && order[i] == v) {
        order.unique_seq_to_set();
        let all = Seq::new(n as nat, |i: int| i as usize);
        all.lemma_cardinality_of_set();
        let taken = order.to_set().insert(v);
        assert(!order.to_set().contains(v));
        assert(taken.len() == n + 1);
        assert forall|x: usize| taken.contains(x) implies all.to_set().contains(x) by {
            assert(x < n);
            assert(all[x as int] == x);
        }
        vstd::set_lib::lemma_len_subset(taken, all.to_set());
    }
}

/// Two listings of the same positions, both in an order where no two
/// positions each come before the other, are the same listing.
pub proof fn lemma_ordered_positions_unique(
    a: Seq<usize>,
    b: Seq<usize>,
    n: int,
    before: spec_fn(int, int) -> bool,
)
    requires
        lists_positions(a, n),
        lists_positions(b, n),
        ordered_by(a, before),
        ordered_by(b, before),
        forall|x: int, y: int| #[trigger] before(x, y) ==> !before(y, x),
    ensures
        a == b,
{
    lemma_ordered_prefix(a, b, n, before, n);
    assert(a =~= b);
}

proof fn lemma_ordered_prefix(a: Seq<usize>, b: Seq<usize>, n: int, before: spec_fn(int, int) -> bool, k: int)
    requires
        lists_positions(a, n),
        lists_positions(b, n),
        ordered_by(a, before),
        ordered_by(b, before),
        forall|x: int, y: int| #[trigger] before(x, y) ==> !before(y, x),
        0 <= k <= n,
    ensures
        forall|i: int| 0 <= i < k ==> a[i] == b[i],
    decreases k,
{
    if k > 0 {
        lemma_ordered_prefix(a, b, n, before, k - 1);
        let i = k - 1;
        if a[i] != b[i] {
            lemma_positions_onto(a, n, b[i]);
            let j = choose|j: int| 0 <= j < a.len() && a[j] == b[i];
            lemma_positions_onto(b, n, a[i]);
            let m = choose|m: int| 0 <= m < b.len() && b[m] == a[i];
            if j < i {
                assert(b[j] == b[i]);
            }
            if m < i {
                assert(a[m] == a[i]);
            }
            assert(before(a[i] as int, a[j] as int));
            assert(before(b[i] as int, b[m] as int));
        }
    }
}

} // verus!
