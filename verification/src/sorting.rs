use vstd::prelude::*;
use vstd::relations::{sorted_by, total_ordering};

verus! {

/// The order "not smaller than", by which sides are ranked from the largest down.
pub open spec fn descending() -> spec_fn(u32, u32) -> bool {
    |a: u32, b: u32| a >= b
}

pub proof fn lemma_descending_total()
    ensures
        total_ordering(descending()),
{
}

/// Inserting `x` in front of the first element smaller than it keeps a
/// descending sequence descending and adds `x` to its elements.
pub(crate) proof fn lemma_insert_descending(s: Seq<u32>, k: int, x: u32)
    requires
        sorted_by(s, descending()),
        0 <= k <= s.len(),
        forall|j: int| 0 <= j < k ==> s[j] >= x,
        k < s.len() ==> s[k] < x,
    ensures
        sorted_by(s.insert(k, x), descending()),
        s.insert(k, x).to_multiset() =~= s.to_multiset().insert(x),
{
    broadcast use vstd::seq_lib::group_seq_properties;
    broadcast use vstd::multiset::group_multiset_axioms;

    let t = s.insert(k, x);
    assert forall|i: int, j: int| 0 <= i < j < t.len() implies #[trigger] (descending())(
        t[i],
        t[j],
    ) by {
        if j < k {
            assert(t[i] == s[i] && t[j] == s[j]);
            assert((descending())(s[i], s[j]));
        } else if j == k {
            assert(t[i] == s[i]);
        } else if i == k {
            assert(t[j] == s[j - 1]);
            assert(s[j - 1] <= s[k]) by {
                if j - 1 > k {
                    assert((descending())(s[k], s[j - 1]));
                }
            }
        } else if i < k {
            assert(t[j] == s[j - 1]);
            assert(t[i] == s[i]);
            assert((descending())(s[i], s[j - 1]));
        } else {
            assert(t[j] == s[j - 1]);
            assert(t[i] == s[i - 1]);
            assert((descending())(s[i - 1], s[j - 1]));
        }
    }
    assert(t.remove(k) =~= s);
    assert(t[k] == x);
    assert(t.remove(k).to_multiset() =~= t.to_multiset().remove(x));
    assert(t.to_multiset().count(x) > 0) by {
        assert(t.contains(x));
    }
}

/// The values, ranked from the largest down.
pub fn sort_descending(values: &Vec<u32>) -> (sorted: Vec<u32>)
    ensures
        sorted@ == values@.sort_by(descending()),
{
    broadcast use vstd::seq_lib::group_seq_properties;

    let mut sorted: Vec<u32> = Vec::new();
    let mut i: usize = 0;
    while i < values.len()
        invariant
            i <= values.len(),
            sorted_by(sorted@, descending()),
            sorted@.to_multiset() =~= values@.take(i as int).to_multiset(),
        decreases values.len() - i,
    {
        let x = values[i];
        let mut k: usize = 0;
        while k < sorted.len() && sorted[k] >= x
            invariant
                k <= sorted.len(),
                forall|j: int| 0 <= j < k ==> sorted@[j] >= x,
            decreases sorted.len() - k,
        {
            k = k + 1;
        }
        proof {
            lemma_insert_descending(sorted@, k as int, x);
            assert(values@.take(i + 1) =~= values@.take(i as int).push(x));
            vstd::seq_lib::to_multiset_build(values@.take(i as int), x);
        }
        sorted.insert(k, x);
        i = i + 1;
    }
    proof {
        assert(values@.take(values.len() as int) =~= values@);
        lemma_descending_total();
        values@.lemma_sort_by_ensures(descending());
        vstd::seq_lib::lemma_sorted_unique(sorted@, values@.sort_by(descending()), descending());
    }
    sorted
}

/// Where a value goes in a descending list: before the first smaller element.
pub open spec fn insert_position(a: Seq<u32>, x: u32) -> int
    decreases a.len(),
{
    if a.len() == 0 {
        0
    } else if a[0] < x {
        0
    } else {
        1 + insert_position(a.drop_first(), x)
    }
}

proof fn lemma_insert_position(a: Seq<u32>, x: u32)
    ensures
        0 <= insert_position(a, x) <= a.len(),
        forall|j: int| 0 <= j < insert_position(a, x) ==> a[j] >= x,
        insert_position(a, x) < a.len() ==> a[insert_position(a, x)] < x,
    decreases a.len(),
{
    if a.len() > 0 && a[0] >= x {
        lemma_insert_position(a.drop_first(), x);
        assert forall|j: int| 0 <= j < insert_position(a, x) implies a[j] >= x by {
            if j > 0 {
                assert(a[j] == a.drop_first()[j - 1]);
            }
        }
    }
}

/// Ranking a list with one more value inserts that value into the ranking.
proof fn lemma_sort_push(s: Seq<u32>, x: u32)
    ensures
        s.push(x).sort_by(descending()) == s.sort_by(descending()).insert(
            insert_position(s.sort_by(descending()), x),
            x,
        ),
{
    let a = s.sort_by(descending());
    let p = insert_position(a, x);
    lemma_descending_total();
    s.lemma_sort_by_ensures(descending());
    s.push(x).lemma_sort_by_ensures(descending());
    lemma_insert_position(a, x);
    lemma_insert_descending(a, p, x);
    vstd::seq_lib::to_multiset_build(s, x);
    vstd::seq_lib::lemma_sorted_unique(s.push(x).sort_by(descending()), a.insert(p, x), descending());
}

/// Inserting a smaller value into a ranking that is nowhere larger keeps it
/// nowhere larger.
proof fn lemma_insert_pointwise(a: Seq<u32>, b: Seq<u32>, x: u32, y: u32)
    requires
        sorted_by(a, descending()),
        sorted_by(b, descending()),
        a.len() == b.len(),
        forall|i: int| 0 <= i < a.len() ==> b[i] <= a[i],
        y <= x,
    ensures
        forall|k: int|
            0 <= k <= a.len() ==> b.insert(insert_position(b, y), y)[k] <= a.insert(
                insert_position(a, x),
                x,
            )[k],
{
    let px = insert_position(a, x);
    let py = insert_position(b, y);
    lemma_insert_position(a, x);
    lemma_insert_position(b, y);
    let a2 = a.insert(px, x);
    let b2 = b.insert(py, y);
    assert forall|k: int| 0 <= k <= a.len() implies b2[k] <= a2[k] by {
        if k < px {
            assert(a2[k] == a[k]);
            if k < py {
                assert(b2[k] == b[k]);
            } else if k == py {
                assert(b2[k] == y);
            } else {
                assert(b2[k] == b[k - 1]);
                assert((descending())(b[py], b[k - 1]) || py == k - 1);
            }
        } else if k == px {
            assert(a2[k] == x);
            if k < py {
                assert(b2[k] == b[k]);
            } else if k == py {
                assert(b2[k] == y);
            } else {
                assert(b2[k] == b[k - 1]);
                assert((descending())(b[py], b[k - 1]) || py == k - 1);
            }
        } else {
            assert(a2[k] == a[k - 1]);
            if k < py {
                assert(b2[k] == b[k]);
                assert((descending())(a[k - 1], a[k]));
            } else if k == py {
                assert(b2[k] == y);
                assert(b[k - 1] >= y);
            } else {
                assert(b2[k] == b[k - 1]);
            }
        }
    }
}

/// When no value of `t` is larger than the value at the same place in `s`,
/// no rank of `t` is larger than the same rank of `s`.
pub proof fn lemma_sort_pointwise(s: Seq<u32>, t: Seq<u32>)
    requires
        s.len() == t.len(),
        forall|i: int| 0 <= i < s.len() ==> t[i] <= s[i],
    ensures
        forall|k: int|
            0 <= k < s.len() ==> t.sort_by(descending())[k] <= s.sort_by(descending())[k],
    decreases s.len(),
{
    if s.len() > 0 {
        let s0 = s.drop_last();
        let t0 = t.drop_last();
        lemma_sort_pointwise(s0, t0);
        lemma_descending_total();
        s0.lemma_sort_by_ensures(descending());
        t0.lemma_sort_by_ensures(descending());
        s0.to_multiset_ensures();
        t0.to_multiset_ensures();
        s0.sort_by(descending()).to_multiset_ensures();
        t0.sort_by(descending()).to_multiset_ensures();
        lemma_insert_pointwise(
            s0.sort_by(descending()),
            t0.sort_by(descending()),
            s.last(),
            t.last(),
        );
        assert(s0.push(s.last()) =~= s);
        assert(t0.push(t.last()) =~= t);
        lemma_sort_push(s0, s.last());
        lemma_sort_push(t0, t.last());
    }
}

} // verus!
