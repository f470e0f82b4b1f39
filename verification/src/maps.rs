//! The keys of ordered maps.
use std::collections::BTreeMap;
use vstd::prelude::*;
use vstd::std_specs::cmp::OrdSpec;
use vstd::std_specs::iter::IteratorSpec;

verus! {

/// Strictly increasing.
pub open spec fn ascending(s: Seq<u32>) -> bool {
    forall|i: int, j: int| 0 <= i < j < s.len() ==> #[trigger] s[i] < #[trigger] s[j]
}

/// `s` lists the elements of the set in ascending order.
pub open spec fn lists(s: Seq<u32>, keys: Set<u32>) -> bool {
    &&& ascending(s)
    &&& forall|k: u32| #[trigger] keys.contains(k) <==> s.contains(k)
}

/// The elements of a finite set in ascending order.
pub open spec fn ordered(keys: Set<u32>) -> Seq<u32> {
    choose|s: Seq<u32>| lists(s, keys)
}

/// There is one way to list a set in ascending order.
pub proof fn lemma_lists_unique(a: Seq<u32>, b: Seq<u32>, keys: Set<u32>)
    requires
        lists(a, keys),
        lists(b, keys),
    ensures
        a == b,
    decreases a.len(),
{
    if a.len() == 0 {
        if b.len() > 0 {
            assert(b.contains(b[0]));
            assert(keys.contains(b[0]));
        }
    } else {
        assert(a.contains(a.last()));
        assert(keys.contains(a.last()));
        assert(b.contains(a.last()));
        assert(b.contains(b.last()));
        assert(keys.contains(b.last()));
        assert(a.contains(b.last()));
        let i = choose|i: int| 0 <= i < b.len() && b[i] == a.last();
        let j = choose|j: int| 0 <= j < a.len() && a[j] == b.last();
        assert(a.last() == b.last()) by {
            if i < b.len() - 1 {
                assert(b[i] < b[b.len() - 1]);
            }
            if j < a.len() - 1 {
                assert(a[j] < a[a.len() - 1]);
            }
        }
        let rest = keys.remove(a.last());
        lemma_lists_init(a, keys);
        lemma_lists_init(b, keys);
        lemma_lists_unique(a.drop_last(), b.drop_last(), rest);
        assert(a =~= a.drop_last().push(a.last()));
        assert(b =~= b.drop_last().push(b.last()));
    }
}

proof fn lemma_lists_init(s: Seq<u32>, keys: Set<u32>)
    requires
        lists(s, keys),
        s.len() > 0,
    ensures
        lists(s.drop_last(), keys.remove(s.last())),
{
    let (t, rest) = (s.drop_last(), keys.remove(s.last()));
    assert forall|k: u32| #[trigger] rest.contains(k) <==> t.contains(k) by {
        if rest.contains(k) {
            assert(s.contains(k));
            let i = choose|i: int| 0 <= i < s.len() && s[i] == k;
            assert(t[i] == k);
        }
        if t.contains(k) {
            let i = choose|i: int| 0 <= i < t.len() && t[i] == k;
            assert(s[i] == k);
            assert(s.contains(k));
            assert(s[i] < s[s.len() - 1]);
        }
    }
}

/// A finite set can be listed in ascending order.
pub proof fn lemma_ordered_lists(keys: Set<u32>)
    requires
        keys.finite(),
    ensures
        lists(ordered(keys), keys),
    decreases keys.len(),
{
    if keys.len() == 0 {
        assert(keys =~= Set::empty());
        assert(lists(Seq::empty(), keys));
    } else {
        let a = keys.choose();
        let rest = keys.remove(a);
        lemma_ordered_lists(rest);
        let s = ordered(rest);
        let i = insertion_index(s, a, 0);
        lemma_insertion_index(s, a, 0);
        let t = s.insert(i, a);
        assert forall|k: u32| #[trigger] keys.contains(k) <==> t.contains(k) by {
            if keys.contains(k) {
                if k == a {
                    assert(t[i] == a);
                } else {
                    assert(rest.contains(k));
                    let q = choose|q: int| 0 <= q < s.len() && s[q] == k;
                    assert(t[if q < i {
                        q
                    } else {
                        q + 1
                    }] == k);
                }
            }
            if t.contains(k) {
                let q = choose|q: int| 0 <= q < t.len() && t[q] == k;
                if q != i {
                    assert(s[if q < i {
                        q
                    } else {
                        q - 1
                    }] == k);
                    assert(s.contains(k));
                    assert(rest.contains(k));
                }
            }
        }
        assert(!s.contains(a)) by {
            assert(!rest.contains(a));
        }
        assert forall|x: int, y: int| 0 <= x < y < t.len() implies #[trigger] t[x]
            < #[trigger] t[y] by {
            let u = if x < i {
                x
            } else {
                x - 1
            };
            let v = if y < i {
                y
            } else {
                y - 1
            };
            if x != i && y != i {
                assert(s[u] < s[v]);
            } else if x == i {
                assert(s.contains(s[v]));
                assert(s[v] >= a);
            } else {
                assert(s[u] < a);
            }
        }
        assert(lists(t, keys));
    }
}

/// The first place from `i` on that does not hold something smaller than `a`.
spec fn insertion_index(s: Seq<u32>, a: u32, i: int) -> int
    decreases s.len() - i,
{
    if i >= s.len() || s[i] >= a {
        i
    } else {
        insertion_index(s, a, i + 1)
    }
}

proof fn lemma_insertion_index(s: Seq<u32>, a: u32, i: int)
    requires
        ascending(s),
        0 <= i <= s.len(),
        forall|k: int| 0 <= k < i ==> #[trigger] s[k] < a,
    ensures
        i <= insertion_index(s, a, i) <= s.len(),
        forall|k: int| 0 <= k < insertion_index(s, a, i) ==> #[trigger] s[k] < a,
        forall|k: int| insertion_index(s, a, i) <= k < s.len() ==> #[trigger] s[k] >= a,
    decreases s.len() - i,
{
    if i >= s.len() {
    } else if s[i] >= a {
        assert forall|k: int| i <= k < s.len() implies #[trigger] s[k] >= a by {
            if k > i {
                assert(s[i] < s[k]);
            }
        }
    } else {
        lemma_insertion_index(s, a, i + 1);
    }
}

/// The keys of a map in ascending order.
pub fn map_keys<V>(m: &BTreeMap<u32, V>) -> (r: Vec<u32>)
    ensures
        r@ == ordered(m@.dom()),
        lists(r@, m@.dom()),
{
    broadcast use vstd::laws_cmp::group_laws_cmp;
    let keys = m.keys();
    let ghost s = IteratorSpec::remaining(&keys);
    let mut out: Vec<u32> = Vec::new();
    for k in it: keys
        invariant
            it.seq() == s,
            out@.len() == it.index(),
            forall|i: int| 0 <= i < out@.len() ==> out@[i] == *s[i],
    {
        out.push(*k);
    }
    proof {
        assert(vstd::laws_cmp::obeys_cmp::<u32>());
        assert(vstd::laws_cmp::obeys_cmp::<&u32>());
        assert(vstd::std_specs::btree::increasing_seq(s));
        assert(out@ =~= s.unref());
        assert forall|i: int, j: int| 0 <= i < j < out@.len() implies #[trigger] out@[i]
            < #[trigger] out@[j] by {
            assert(OrdSpec::cmp_spec(&s[i], &s[j]) is Less);
        }
        assert forall|k: u32| #[trigger] m@.dom().contains(k) <==> out@.contains(k) by {
            assert(out@.to_set().contains(k) <==> out@.contains(k));
        }
        assert(lists(out@, m@.dom()));
        lemma_lists_unique(out@, ordered(m@.dom()), m@.dom());
    }
    out
}

/// Maps with such keys behave as maps: their keys are totally ordered.
pub proof fn lemma_u32_keys()
    ensures
        vstd::laws_cmp::obeys_cmp::<u32>(),
{
    broadcast use vstd::laws_cmp::group_laws_cmp;

}

/// The sequence without `j`.
pub open spec fn others(s: Seq<u32>, j: u32) -> Seq<u32>
    decreases s.len(),
{
    if s.len() == 0 {
        s
    } else if s.last() == j {
        others(s.drop_last(), j)
    } else {
        others(s.drop_last(), j).push(s.last())
    }
}

/// What is left without `j` are the elements other than `j`.
pub proof fn lemma_others(s: Seq<u32>, j: u32)
    ensures
        others(s, j).len() <= s.len(),
        forall|k: u32| #[trigger] others(s, j).contains(k) <==> k != j && s.contains(k),
    decreases s.len(),
{
    if s.len() > 0 {
        let (t, o) = (s.drop_last(), others(s.drop_last(), j));
        lemma_others(t, j);
        assert forall|k: u32| #[trigger] others(s, j).contains(k) <==> k != j && s.contains(k) by {
            if others(s, j).contains(k) {
                let i = choose|i: int| 0 <= i < others(s, j).len() && others(s, j)[i] == k;
                if s.last() != j && i == o.len() {
                    assert(s[s.len() - 1] == k);
                } else {
                    assert(o[i] == k);
                    assert(o.contains(k));
                    let l = choose|l: int| 0 <= l < t.len() && t[l] == k;
                    assert(s[l] == k);
                }
            }
            if k != j && s.contains(k) {
                let i = choose|i: int| 0 <= i < s.len() && s[i] == k;
                if i < t.len() {
                    assert(t[i] == k);
                    assert(o.contains(k));
                    let l = choose|l: int| 0 <= l < o.len() && o[l] == k;
                    assert(others(s, j)[l] == k);
                } else {
                    assert(others(s, j)[o.len() as int] == k);
                }
            }
        }
    }
}

/// `1, …, n`.
pub open spec fn first_indices(n: nat) -> Seq<u32> {
    Seq::new(n, |i: int| (i + 1) as u32)
}

/// The set of `1, …, n` is listed by `1, …, n`.
pub proof fn lemma_first_indices(n: u32, keys: Set<u32>)
    requires
        forall|k: u32| #[trigger] keys.contains(k) <==> 1 <= k <= n,
    ensures
        ordered(keys) == first_indices(n as nat),
{
    let s = first_indices(n as nat);
    assert forall|k: u32| #[trigger] keys.contains(k) <==> s.contains(k) by {
        if keys.contains(k) {
            assert(s[k - 1] == k);
        }
    }
    assert(lists(s, keys));
    lemma_lists_unique(s, ordered(keys), keys);
}

} // verus!
