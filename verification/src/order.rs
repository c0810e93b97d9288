use vstd::prelude::*;

verus! {

/// Row `a` comes before row `b` in `ORDER BY created_at DESC`: it is newer,
/// or as new and stored earlier.
pub open spec fn precedes(keys: Seq<i64>, a: usize, b: usize) -> bool {
    keys[a as int] > keys[b as int] || (keys[a as int] == keys[b as int] && a < b)
}

/// `order` lists row positions newest first.
pub open spec fn newest_first(keys: Seq<i64>, order: Seq<usize>) -> bool {
    forall|i: int, j: int|
        0 <= i < j < order.len() ==> precedes(keys, #[trigger] order[i], #[trigger] order[j])
}

/// `order` lists, newest first, exactly the row positions that `mask` selects.
pub open spec fn is_newest_first_selection(keys: Seq<i64>, mask: Seq<bool>, order: Seq<usize>) -> bool {
    &&& newest_first(keys, order)
    &&& forall|i: int| 0 <= i < order.len() ==> (#[trigger] order[i]) < mask.len() && mask[order[i] as int]
    &&& forall|k: int| 0 <= k < mask.len() && #[trigger] mask[k] ==> order.contains(k as usize)
}

/// The selected row positions, newest first.
pub open spec fn newest_first_order(keys: Seq<i64>, mask: Seq<bool>) -> Seq<usize> {
    choose|o: Seq<usize>| is_newest_first_selection(keys, mask, o)
}

/// Two lists that order the same positions newest first are the same list.
pub proof fn lemma_newest_first_unique(keys: Seq<i64>, o1: Seq<usize>, o2: Seq<usize>)
    requires
        newest_first(keys, o1),
        newest_first(keys, o2),
        forall|x: usize| o1.contains(x) <==> o2.contains(x),
        forall|i: int| 0 <= i < o1.len() ==> (#[trigger] o1[i]) < keys.len(),
    ensures
        o1 == o2,
    decreases o1.len(),
{
    if o1.len() == 0 {
        if o2.len() > 0 {
            assert(o2.contains(o2[0]));
        }
        assert(o1 =~= o2);
    } else {
        assert(o1.contains(o1[0]));
        assert(o2.len() > 0);
        let a = o1[0];
        let b = o2[0];
        if a != b {
            assert(o2.contains(b));
            let ia = choose|i: int| 0 <= i < o2.len() && o2[i] == a;
            let ib = choose|i: int| 0 <= i < o1.len() && o1[i] == b;
            assert(ia != 0);
            assert(ib != 0);
            assert(precedes(keys, o1[0], o1[ib]));
            assert(precedes(keys, o2[0], o2[ia]));
        }
        let r1 = o1.drop_first();
        let r2 = o2.drop_first();
        assert forall|x: usize| r1.contains(x) <==> r2.contains(x) by {
            if r1.contains(x) {
                let i = choose|i: int| 0 <= i < r1.len() && r1[i] == x;
                assert(o1[i + 1] == x);
                assert(precedes(keys, o1[0], o1[i + 1]));
                assert(o2.contains(x));
                let j = choose|j: int| 0 <= j < o2.len() && o2[j] == x;
                assert(j != 0);
                assert(r2[j - 1] == x);
            }
            if r2.contains(x) {
                let i = choose|i: int| 0 <= i < r2.len() && r2[i] == x;
                assert(o2[i + 1] == x);
                assert(precedes(keys, o2[0], o2[i + 1]));
                assert(o1.contains(x));
                let j = choose|j: int| 0 <= j < o1.len() && o1[j] == x;
                assert(j != 0);
                assert(r1[j - 1] == x);
            }
        }
        assert forall|i: int, j: int| 0 <= i < j < r1.len() implies precedes(keys, #[trigger] r1[i], #[trigger] r1[j]) by {
            assert(precedes(keys, o1[i + 1], o1[j + 1]));
        }
        assert forall|i: int, j: int| 0 <= i < j < r2.len() implies precedes(keys, #[trigger] r2[i], #[trigger] r2[j]) by {
            assert(precedes(keys, o2[i + 1], o2[j + 1]));
        }
        assert forall|i: int| 0 <= i < r1.len() implies (#[trigger] r1[i]) < keys.len() by {
            assert(o1[i + 1] < keys.len());
        }
        lemma_newest_first_unique(keys, r1, r2);
        assert(o1 =~= seq![a] + r1);
        assert(o2 =~= seq![b] + r2);
    }
}

/// The positions that `mask` selects, ordered as `ORDER BY created_at DESC`
/// orders rows whose `created_at` values are `keys`, ties in table order.
pub fn order_newest_first(keys: &Vec<i64>, mask: &Vec<bool>) -> (order: Vec<usize>)
    requires
        keys.len() == mask.len(),
    ensures
        is_newest_first_selection(keys@, mask@, order@),
        order@ == newest_first_order(keys@, mask@),
{
    let n = keys.len();
    let mut order: Vec<usize> = Vec::new();
    let mut i: usize = 0;
    while i < n
        invariant
            n == keys.len(),
            n == mask.len(),
            i <= n,
            newest_first(keys@, order@),
            forall|q: int| 0 <= q < order.len() ==> (#[trigger] order@[q]) < i && mask@[order@[q] as int],
            forall|k: int| 0 <= k < i && #[trigger] mask@[k] ==> order@.contains(k as usize),
        decreases n - i,
    {
        if mask[i] {
            let key = keys[i];
            let mut p: usize = 0;
            while p < order.len() && keys[order[p]] >= key
                invariant
                    n == keys.len(),
                    i < n,
                    key == keys@[i as int],
                    p <= order.len(),
                    forall|q: int| 0 <= q < order.len() ==> (#[trigger] order@[q]) < i,
                    forall|q: int| 0 <= q < p ==> keys@[(#[trigger] order@[q]) as int] >= key,
                decreases order.len() - p,
            {
                p = p + 1;
            }
            let ghost old_order = order@;
            order.insert(p, i);
            proof {
                let o = order@;
                assert(forall|q: int| 0 <= q < p ==> o[q] == old_order[q]);
                assert(o[p as int] == i);
                assert(forall|q: int| p < q < o.len() ==> o[q] == old_order[q - 1]);
                assert forall|a: int, b: int| 0 <= a < b < o.len() implies precedes(keys@, #[trigger] o[a], #[trigger] o[b]) by {
                    if b < p {
                    } else if b == p {
                        assert(keys@[old_order[a] as int] >= key);
                        assert(old_order[a] < i);
                    } else if a < p {
                        assert(precedes(keys@, old_order[a], old_order[b - 1]));
                    } else if a == p {
                        assert(keys@[old_order[p as int] as int] < key);
                        if b - 1 > p {
                            assert(precedes(keys@, old_order[p as int], old_order[b - 1]));
                        }
                    } else {
                        assert(precedes(keys@, old_order[a - 1], old_order[b - 1]));
                    }
                }
                assert forall|k: int| 0 <= k < i + 1 && #[trigger] mask@[k] implies o.contains(k as usize) by {
                    if k < i {
                        assert(old_order.contains(k as usize));
                        let q = choose|q: int| 0 <= q < old_order.len() && old_order[q] == k as usize;
                        if q < p {
                            assert(o[q] == k as usize);
                        } else {
                            assert(o[q + 1] == k as usize);
                        }
                    } else {
                        assert(o[p as int] == k as usize);
                    }
                }
            }
        }
        i = i + 1;
    }
    proof {
        let o = order@;
        assert(is_newest_first_selection(keys@, mask@, o));
        let c = newest_first_order(keys@, mask@);
        assert(is_newest_first_selection(keys@, mask@, c));
        assert forall|x: usize| o.contains(x) <==> c.contains(x) by {
            if o.contains(x) {
                let q = choose|q: int| 0 <= q < o.len() && o[q] == x;
                assert(mask@[x as int]);
            }
            if c.contains(x) {
                let q = choose|q: int| 0 <= q < c.len() && c[q] == x;
                assert(c[q] < mask.len() && mask@[c[q] as int]);
            }
        }
        lemma_newest_first_unique(keys@, o, c);
    }
    order
}

/// The first position in `o` whose row is older than `key`.
spec fn insertion_point(keys: Seq<i64>, o: Seq<usize>, key: i64) -> int
    decreases o.len(),
{
    if o.len() == 0 {
        0
    } else if keys[o[0] as int] < key {
        0
    } else {
        1 + insertion_point(keys, o.drop_first(), key)
    }
}

proof fn lemma_insertion_point(keys: Seq<i64>, o: Seq<usize>, key: i64)
    requires
        forall|i: int| 0 <= i < o.len() ==> (#[trigger] o[i]) < keys.len(),
    ensures
        0 <= insertion_point(keys, o, key) <= o.len(),
        forall|q: int| 0 <= q < insertion_point(keys, o, key) ==> keys[(#[trigger] o[q]) as int] >= key,
        insertion_point(keys, o, key) < o.len() ==> keys[o[insertion_point(keys, o, key)] as int] < key,
    decreases o.len(),
{
    if o.len() > 0 && keys[o[0] as int] >= key {
        let r = o.drop_first();
        assert forall|i: int| 0 <= i < r.len() implies (#[trigger] r[i]) < keys.len() by {
            assert(r[i] == o[i + 1]);
        }
        lemma_insertion_point(keys, r, key);
        assert forall|q: int| 0 <= q < insertion_point(keys, o, key) implies keys[(#[trigger] o[q]) as int] >= key by {
            if q > 0 {
                assert(o[q] == r[q - 1]);
            }
        }
    }
}

/// Every selection of rows can be ordered newest first.
pub proof fn lemma_selection_exists(keys: Seq<i64>, mask: Seq<bool>)
    requires
        keys.len() == mask.len(),
        mask.len() <= usize::MAX,
    ensures
        is_newest_first_selection(keys, mask, newest_first_order(keys, mask)),
    decreases mask.len(),
{
    if mask.len() == 0 {
        assert(is_newest_first_selection(keys, mask, Seq::<usize>::empty()));
    } else {
        let n: int = mask.len() - 1;
        let k2 = keys.drop_last();
        let m2 = mask.drop_last();
        lemma_selection_exists(k2, m2);
        let o = newest_first_order(k2, m2);
        assert forall|i: int| 0 <= i < o.len() implies (#[trigger] o[i]) < n && mask[o[i] as int] by {
            assert(o[i] < m2.len() && m2[o[i] as int]);
        }
        assert forall|i: int, j: int| 0 <= i < j < o.len() implies precedes(keys, #[trigger] o[i], #[trigger] o[j]) by {
            assert(precedes(k2, o[i], o[j]));
        }
        if mask[n] {
            let key = keys[n];
            lemma_insertion_point(keys, o, key);
            let p = insertion_point(keys, o, key);
            let o2 = o.insert(p, n as usize);
            assert(o2.len() == o.len() + 1);
            assert forall|q: int| 0 <= q < p implies o2[q] == o[q] by {}
            assert(o2[p] == n as usize);
            assert forall|q: int| p < q < o2.len() implies o2[q] == o[q - 1] by {}
            assert forall|a: int, b: int| 0 <= a < b < o2.len() implies precedes(keys, #[trigger] o2[a], #[trigger] o2[b]) by {
                if b < p {
                    assert(o2[a] == o[a] && o2[b] == o[b]);
                } else if b == p {
                    assert(o2[a] == o[a]);
                    assert(keys[o[a] as int] >= key);
                } else if a < p {
                    assert(o2[a] == o[a] && o2[b] == o[b - 1]);
                } else if a == p {
                    assert(o2[b] == o[b - 1]);
                    assert(keys[o[p] as int] < key);
                    if b - 1 > p {
                        assert(precedes(keys, o[p], o[b - 1]));
                    }
                } else {
                    assert(o2[a] == o[a - 1] && o2[b] == o[b - 1]);
                }
            }
            assert forall|k: int| 0 <= k < mask.len() && #[trigger] mask[k] implies o2.contains(k as usize) by {
                if k < n {
                    assert(m2[k]);
                    assert(o.contains(k as usize));
                    let q = choose|q: int| 0 <= q < o.len() && o[q] == k as usize;
                    if q < p {
                        assert(o2[q] == k as usize);
                    } else {
                        assert(o2[q + 1] == k as usize);
                    }
                } else {
                    assert(o2[p] == k as usize);
                }
            }
            assert forall|i: int| 0 <= i < o2.len() implies (#[trigger] o2[i]) < mask.len() && mask[o2[i] as int] by {
                if i < p {
                    assert(o2[i] == o[i]);
                } else if i > p {
                    assert(o2[i] == o[i - 1]);
                }
            }
            assert(is_newest_first_selection(keys, mask, o2));
        } else {
            assert forall|k: int| 0 <= k < mask.len() && #[trigger] mask[k] implies o.contains(k as usize) by {
                assert(m2[k]);
            }
            assert(is_newest_first_selection(keys, mask, o));
        }
    }
}

} // verus!
