use crate::position_time::Field;
use vstd::multiset::Multiset;
use vstd::prelude::*;

verus! {

/// A value with integer keys, one for each field, to sort by.
pub trait Keyed: Copy {
    spec fn key(&self, f: Field) -> int;

    fn key_of(&self, f: Field) -> (r: i128)
        ensures
            r == self.key(f),
    ;
}

/// `s` with `x` placed after the last entry whose key `f` is not greater
/// than that of `x`.
pub open spec fn insert_by<T: Keyed>(s: Seq<T>, x: T, f: Field) -> Seq<T>
    decreases s.len(),
{
    if s.len() == 0 {
        seq![x]
    } else if s.last().key(f) <= x.key(f) {
        s.push(x)
    } else {
        insert_by(s.drop_last(), x, f).push(s.last())
    }
}

/// `s` sorted by key `f` by insertion, which keeps equal keys in order.
pub open spec fn sorted_by<T: Keyed>(s: Seq<T>, f: Field) -> Seq<T>
    decreases s.len(),
{
    if s.len() == 0 {
        s
    } else {
        insert_by(sorted_by(s.drop_last(), f), s.last(), f)
    }
}

/// Whether key `f` never decreases along `s`.
pub open spec fn is_ordered_by<T: Keyed>(s: Seq<T>, f: Field) -> bool {
    forall|i: int, j: int| 0 <= i <= j < s.len() ==> s[i].key(f) <= s[j].key(f)
}

/// Sorts by key `f`, ascending; entries with equal keys keep their order.
pub fn sort_by_field<T: Keyed>(v: &mut Vec<T>, f: Field)
    ensures
        final(v)@ == sorted_by(old(v)@, f),
{
    let ghost s = v@;
    let n = v.len();
    let mut out: Vec<T> = Vec::new();
    let mut i: usize = 0;
    while i < n
        invariant
            s == v@,
            n == s.len(),
            0 <= i <= n,
            out@ == sorted_by(s.take(i as int), f),
        decreases n - i,
    {
        let x = v[i];
        let kx = x.key_of(f);
        let mut j: usize = out.len();
        while j > 0 && out[j - 1].key_of(f) > kx
            invariant
                j <= out@.len(),
                kx == x.key(f),
                forall|k: int| j <= k < out@.len() ==> #[trigger] out@[k].key(f) > x.key(f),
            decreases j,
        {
            j = j - 1;
        }
        proof {
            lemma_insert_by_at(out@, x, f, j as int);
            let t = s.take(i + 1);
            assert(t.drop_last() == s.take(i as int));
            assert(t.last() == x);
            assert(out@.insert(j as int, x) == out@.take(j as int) + seq![x] + out@.skip(j as int));
        }
        out.insert(j, x);
        i = i + 1;
    }
    assert(s.take(n as int) == s);
    *v = out;
}

proof fn lemma_insert_by_len<T: Keyed>(s: Seq<T>, x: T, f: Field)
    ensures
        insert_by(s, x, f).len() == s.len() + 1,
    decreases s.len(),
{
    if s.len() > 0 && s.last().key(f) > x.key(f) {
        lemma_insert_by_len(s.drop_last(), x, f);
    }
}

pub proof fn lemma_sorted_by_len<T: Keyed>(s: Seq<T>, f: Field)
    ensures
        sorted_by(s, f).len() == s.len(),
    decreases s.len(),
{
    if s.len() > 0 {
        lemma_sorted_by_len(s.drop_last(), f);
        lemma_insert_by_len(sorted_by(s.drop_last(), f), s.last(), f);
    }
}

/// Sorting leaves a list that is already in order as it is.
pub proof fn lemma_sorted_by_keeps_ordered<T: Keyed>(s: Seq<T>, f: Field)
    requires
        is_ordered_by(s, f),
    ensures
        sorted_by(s, f) == s,
    decreases s.len(),
{
    if s.len() > 0 {
        let t = s.drop_last();
        assert(is_ordered_by(t, f)) by {
            assert forall|i: int, j: int| 0 <= i <= j < t.len() implies t[i].key(f) <= t[j].key(f) by {
                assert(t[i] == s[i] && t[j] == s[j]);
            }
        }
        lemma_sorted_by_keeps_ordered(t, f);
        if t.len() > 0 {
            assert(t.last() == s[s.len() - 2]);
            assert(s.last() == s[s.len() - 1]);
        }
        assert(t.push(s.last()) == s);
    }
}

/// Where `insert_by` places `x`: at position `j`, when every entry from `j`
/// on has a greater key than `x` and the one before `j` does not.
proof fn lemma_insert_by_at<T: Keyed>(s: Seq<T>, x: T, f: Field, j: int)
    requires
        0 <= j <= s.len(),
        forall|k: int| j <= k < s.len() ==> #[trigger] s[k].key(f) > x.key(f),
        j == 0 || s[j - 1].key(f) <= x.key(f),
    ensures
        insert_by(s, x, f) == s.take(j) + seq![x] + s.skip(j),
    decreases s.len(),
{
    if s.len() == 0 {
        assert(s.take(j) + seq![x] + s.skip(j) == seq![x]);
    } else if j == s.len() {
        assert(s.last() == s[j - 1]);
        assert(s.take(j) + seq![x] + s.skip(j) == s.push(x));
    } else {
        let t = s.drop_last();
        assert(s.last() == s[s.len() - 1]);
        assert forall|k: int| j <= k < t.len() implies #[trigger] t[k].key(f) > x.key(f) by {
            assert(t[k] == s[k]);
        }
        if j > 0 {
            assert(t[j - 1] == s[j - 1]);
        }
        lemma_insert_by_at(t, x, f, j);
        assert(t.take(j) == s.take(j));
        assert((t.take(j) + seq![x] + t.skip(j)).push(s.last()) == s.take(j) + seq![x] + s.skip(j));
    }
}

proof fn lemma_insert_by_elements<T: Keyed>(s: Seq<T>, x: T, f: Field)
    ensures
        forall|k: int| 0 <= k < insert_by(s, x, f).len() ==> #[trigger] insert_by(s, x, f)[k] == x
            || s.contains(insert_by(s, x, f)[k]),
    decreases s.len(),
{
    lemma_insert_by_len(s, x, f);
    if s.len() > 0 && s.last().key(f) > x.key(f) {
        let t = s.drop_last();
        lemma_insert_by_elements(t, x, f);
        lemma_insert_by_len(t, x, f);
        let r = insert_by(s, x, f);
        assert forall|k: int| 0 <= k < r.len() implies #[trigger] r[k] == x || s.contains(r[k]) by {
            if k < r.len() - 1 {
                assert(r[k] == insert_by(t, x, f)[k]);
                if r[k] != x {
                    let w = choose|w: int| 0 <= w < t.len() && t[w] == r[k];
                    assert(s[w] == r[k]);
                }
            } else {
                assert(s[s.len() - 1] == r[k]);
            }
        }
    } else if s.len() > 0 {
        let r = insert_by(s, x, f);
        assert forall|k: int| 0 <= k < r.len() implies #[trigger] r[k] == x || s.contains(r[k]) by {
            if k < s.len() {
                assert(r[k] == s[k]);
            }
        }
    }
}

/// Sorting keeps only entries of the list.
pub proof fn lemma_sorted_by_elements<T: Keyed>(s: Seq<T>, f: Field)
    ensures
        forall|k: int| 0 <= k < sorted_by(s, f).len() ==> s.contains(#[trigger] sorted_by(s, f)[k]),
    decreases s.len(),
{
    if s.len() > 0 {
        let t = s.drop_last();
        lemma_sorted_by_elements(t, f);
        let st = sorted_by(t, f);
        lemma_insert_by_elements(st, s.last(), f);
        let r = sorted_by(s, f);
        assert forall|k: int| 0 <= k < r.len() implies s.contains(#[trigger] r[k]) by {
            if r[k] == s.last() {
                assert(s[s.len() - 1] == r[k]);
            } else {
                assert(st.contains(r[k]));
                let w = choose|w: int| 0 <= w < st.len() && st[w] == r[k];
                assert(t.contains(st[w]));
                let v = choose|v: int| 0 <= v < t.len() && t[v] == st[w];
                assert(s[v] == r[k]);
            }
        }
    }
}

proof fn lemma_insert_by_ordered<T: Keyed>(s: Seq<T>, x: T, f: Field)
    requires
        is_ordered_by(s, f),
    ensures
        is_ordered_by(insert_by(s, x, f), f),
    decreases s.len(),
{
    lemma_insert_by_len(s, x, f);
    let r = insert_by(s, x, f);
    if s.len() == 0 {
    } else if s.last().key(f) <= x.key(f) {
        assert forall|i: int, j: int| 0 <= i <= j < r.len() implies r[i].key(f) <= r[j].key(f) by {
            if j == r.len() - 1 && i < j {
                assert(s[i].key(f) <= s[s.len() - 1].key(f));
            }
        }
    } else {
        let t = s.drop_last();
        assert(is_ordered_by(t, f)) by {
            assert forall|i: int, j: int| 0 <= i <= j < t.len() implies t[i].key(f) <= t[j].key(f) by {
                assert(t[i] == s[i] && t[j] == s[j]);
            }
        }
        lemma_insert_by_ordered(t, x, f);
        lemma_insert_by_elements(t, x, f);
        lemma_insert_by_len(t, x, f);
        let it = insert_by(t, x, f);
        assert forall|k: int| 0 <= k < it.len() implies #[trigger] it[k].key(f) <= s.last().key(f) by {
            if it[k] != x {
                let w = choose|w: int| 0 <= w < t.len() && t[w] == it[k];
                assert(s[w] == t[w]);
                assert(s[w].key(f) <= s[s.len() - 1].key(f));
            }
        }
        assert forall|i: int, j: int| 0 <= i <= j < r.len() implies r[i].key(f) <= r[j].key(f) by {
            if j == r.len() - 1 {
                if i < j {
                    assert(r[i] == it[i]);
                }
            } else {
                assert(r[i] == it[i] && r[j] == it[j]);
            }
        }
    }
}

/// Sorting puts the keys in order.
pub proof fn lemma_sorted_by_ordered<T: Keyed>(s: Seq<T>, f: Field)
    ensures
        is_ordered_by(sorted_by(s, f), f),
    decreases s.len(),
{
    if s.len() > 0 {
        lemma_sorted_by_ordered(s.drop_last(), f);
        lemma_insert_by_ordered(sorted_by(s.drop_last(), f), s.last(), f);
    }
}

proof fn lemma_insert_by_multiset<T: Keyed>(s: Seq<T>, x: T, f: Field)
    ensures
        insert_by(s, x, f).to_multiset() == s.to_multiset().insert(x),
    decreases s.len(),
{
    broadcast use vstd::seq_lib::to_multiset_build, vstd::multiset::group_multiset_axioms;

    if s.len() == 0 {
        assert(seq![x] == Seq::<T>::empty().push(x));
        assert(s == Seq::<T>::empty());
    } else if s.last().key(f) <= x.key(f) {
    } else {
        let t = s.drop_last();
        lemma_insert_by_multiset(t, x, f);
        assert(t.push(s.last()) == s);
        assert(insert_by(s, x, f).to_multiset() =~= s.to_multiset().insert(x));
    }
}

/// Sorting keeps every entry, each as often as it occurs.
pub proof fn lemma_sorted_by_multiset<T: Keyed>(s: Seq<T>, f: Field)
    ensures
        sorted_by(s, f).to_multiset() == s.to_multiset(),
    decreases s.len(),
{
    broadcast use vstd::seq_lib::to_multiset_build;

    if s.len() > 0 {
        let t = s.drop_last();
        lemma_sorted_by_multiset(t, f);
        lemma_insert_by_multiset(sorted_by(t, f), s.last(), f);
        assert(t.push(s.last()) == s);
    }
}

/// The entries of `s` whose key `f` is `k`, in order.
pub open spec fn with_key<T: Keyed>(s: Seq<T>, f: Field, k: int) -> Seq<T>
    decreases s.len(),
{
    if s.len() == 0 {
        s
    } else {
        let r = with_key(s.drop_last(), f, k);
        if s.last().key(f) == k {
            r.push(s.last())
        } else {
            r
        }
    }
}

proof fn lemma_insert_by_with_key<T: Keyed>(s: Seq<T>, x: T, f: Field, k: int)
    ensures
        with_key(insert_by(s, x, f), f, k) == if x.key(f) == k {
            with_key(s, f, k).push(x)
        } else {
            with_key(s, f, k)
        },
    decreases s.len(),
{
    if s.len() == 0 {
        assert(seq![x].drop_last() == s);
        assert(seq![x].last() == x);
    } else if s.last().key(f) <= x.key(f) {
        assert(s.push(x).drop_last() == s);
    } else {
        let t = s.drop_last();
        lemma_insert_by_with_key(t, x, f, k);
        let it = insert_by(t, x, f);
        assert(it.push(s.last()).drop_last() == it);
    }
}

/// Sorting keeps entries with equal keys in the order they had.
pub proof fn lemma_sorted_by_stable<T: Keyed>(s: Seq<T>, f: Field, k: int)
    ensures
        with_key(sorted_by(s, f), f, k) == with_key(s, f, k),
    decreases s.len(),
{
    if s.len() > 0 {
        lemma_sorted_by_stable(s.drop_last(), f, k);
        lemma_insert_by_with_key(sorted_by(s.drop_last(), f), s.last(), f, k);
    }
}

/// Whether entries of `m` with equal keys `f` are equal.
pub open spec fn keys_distinct<T: Keyed>(m: Multiset<T>, f: Field) -> bool {
    forall|x: T, y: T| m.count(x) > 0 && m.count(y) > 0 && x.key(f) == y.key(f) ==> x == y
}

/// Two lists in key order that hold the same entries, where entries with
/// equal keys are equal, are the same list.
pub proof fn lemma_ordered_unique<T: Keyed>(a: Seq<T>, b: Seq<T>, f: Field)
    requires
        is_ordered_by(a, f),
        is_ordered_by(b, f),
        a.to_multiset() == b.to_multiset(),
        keys_distinct(a.to_multiset(), f),
    ensures
        a == b,
    decreases a.len(),
{
    broadcast use vstd::seq_lib::to_multiset_build, vstd::seq_lib::to_multiset_contains,
        vstd::seq_lib::to_multiset_len, vstd::multiset::group_multiset_axioms;

    assert(a.len() == a.to_multiset().len());
    assert(b.len() == b.to_multiset().len());
    if a.len() == 0 {
        assert(a == b);
    } else {
        let x = a.last();
        let y = b.last();
        let m = a.to_multiset();
        assert(a.contains(x)) by {
            assert(a[a.len() - 1] == x);
        }
        assert(b.contains(y)) by {
            assert(b[b.len() - 1] == y);
        }
        assert(m.count(x) > 0);
        assert(m.count(y) > 0);
        assert(b.contains(x));
        assert(a.contains(y));
        let i = choose|i: int| 0 <= i < a.len() && a[i] == y;
        let j = choose|j: int| 0 <= j < b.len() && b[j] == x;
        assert(a[i].key(f) <= a[a.len() - 1].key(f));
        assert(b[j].key(f) <= b[b.len() - 1].key(f));
        assert(x == y);
        let a1 = a.drop_last();
        let b1 = b.drop_last();
        assert(a1.push(x) == a);
        assert(b1.push(x) == b);
        assert(a1.to_multiset() == m.remove(x));
        assert(b1.to_multiset() == m.remove(x));
        assert(is_ordered_by(a1, f)) by {
            assert forall|p: int, q: int| 0 <= p <= q < a1.len() implies a1[p].key(f) <= a1[q].key(f) by {
                assert(a1[p] == a[p] && a1[q] == a[q]);
            }
        }
        assert(is_ordered_by(b1, f)) by {
            assert forall|p: int, q: int| 0 <= p <= q < b1.len() implies b1[p].key(f) <= b1[q].key(f) by {
                assert(b1[p] == b[p] && b1[q] == b[q]);
            }
        }
        assert(keys_distinct(a1.to_multiset(), f)) by {
            assert forall|u: T, v: T|
                a1.to_multiset().count(u) > 0 && a1.to_multiset().count(v) > 0 && u.key(f) == v.key(f)
                implies u == v by {
                assert(m.count(u) > 0 && m.count(v) > 0);
            }
        }
        lemma_ordered_unique(a1, b1, f);
    }
}

} // verus!
