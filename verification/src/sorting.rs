//! A stable sort by a pair of numbers.

use vstd::prelude::*;

verus! {

/// An item with a two-part sort key.
pub trait Keyed: Copy {
    /// The sort key: by the first part, then by the second.
    spec fn key(&self) -> (int, int);

    /// The sort key.
    fn sort_key(&self) -> (k: (u64, u64))
        ensures
            (k.0 as int, k.1 as int) == self.key(),
    ;
}

/// Whether key `a` comes before key `b` or is equal to it.
pub open spec fn key_le(a: (int, int), b: (int, int)) -> bool {
    a.0 < b.0 || (a.0 == b.0 && a.1 <= b.1)
}

/// Whether no item comes before one with a smaller key.
pub open spec fn ordered<K: Keyed>(s: Seq<K>) -> bool {
    forall|i: int, j: int| 0 <= i <= j < s.len() ==> key_le((#[trigger] s[i]).key(), (#[trigger] s[j]).key())
}

/// The items of one key, in the order in which they stand.
pub open spec fn with_key<K: Keyed>(s: Seq<K>, k: (int, int)) -> Seq<K>
    decreases s.len(),
{
    if s.len() == 0 {
        Seq::empty()
    } else if s.last().key() == k {
        with_key(s.drop_last(), k).push(s.last())
    } else {
        with_key(s.drop_last(), k)
    }
}

/// Whether `r` is `s` sorted by key with items of equal key in their old order.
pub open spec fn stably_sorted<K: Keyed>(s: Seq<K>, r: Seq<K>) -> bool {
    &&& r.len() == s.len()
    &&& ordered(r)
    &&& forall|k: (int, int)| #[trigger] with_key(r, k) == with_key(s, k)
}

/// Items of one key in a concatenation.
pub proof fn lemma_with_key_add<K: Keyed>(a: Seq<K>, b: Seq<K>, k: (int, int))
    ensures
        with_key(a + b, k) == with_key(a, k) + with_key(b, k),
    decreases b.len(),
{
    if b.len() == 0 {
        assert(a + b =~= a);
        assert(with_key(a, k) + with_key(b, k) =~= with_key(a, k));
    } else {
        assert((a + b).drop_last() =~= a + b.drop_last());
        lemma_with_key_add(a, b.drop_last(), k);
        if b.last().key() == k {
            assert(with_key(a, k) + with_key(b.drop_last(), k).push(b.last()) =~= (with_key(a, k)
                + with_key(b.drop_last(), k)).push(b.last()));
        }
    }
}

proof fn lemma_with_key_push<K: Keyed>(s: Seq<K>, x: K, k: (int, int))
    ensures
        with_key(s.push(x), k) == (if x.key() == k {
            with_key(s, k).push(x)
        } else {
            with_key(s, k)
        }),
{
    assert(s.push(x).drop_last() =~= s);
}

proof fn lemma_with_key_none<K: Keyed>(s: Seq<K>, k: (int, int))
    requires
        forall|i: int| 0 <= i < s.len() ==> (#[trigger] s[i]).key() != k,
    ensures
        with_key(s, k) == Seq::<K>::empty(),
    decreases s.len(),
{
    if s.len() > 0 {
        assert(s[s.len() - 1].key() != k);
        assert forall|i: int| 0 <= i < s.drop_last().len() implies (#[trigger] s.drop_last()[i]).key()
            != k by {
            assert(s[i].key() != k);
        }
        lemma_with_key_none(s.drop_last(), k);
    }
}

/// Everything of one key in a sequence comes from the sequence: a member of
/// one is a member of the other.
pub proof fn lemma_with_key_member<K: Keyed>(s: Seq<K>, x: K)
    ensures
        s.contains(x) <==> with_key(s, x.key()).contains(x),
    decreases s.len(),
{
    if s.len() > 0 {
        let t = s.drop_last();
        lemma_with_key_member(t, x);
        let w = with_key(t, x.key());
        if s.contains(x) {
            let i = choose|i: int| 0 <= i < s.len() && s[i] == x;
            if i < t.len() {
                assert(t[i] == x);
                let j = choose|j: int| 0 <= j < w.len() && w[j] == x;
                assert(with_key(s, x.key())[j] == x);
            } else {
                assert(with_key(s, x.key())[w.len() as int] == x);
            }
        }
        if with_key(s, x.key()).contains(x) {
            let v = with_key(s, x.key());
            let j = choose|j: int| 0 <= j < v.len() && v[j] == x;
            if j < w.len() {
                assert(w[j] == x);
                let i = choose|i: int| 0 <= i < t.len() && t[i] == x;
                assert(s[i] == x);
            } else {
                assert(s[s.len() - 1] == x);
            }
        }
    }
}

proof fn lemma_key_count<K: Keyed>(s: Seq<K>, x: K)
    ensures
        s.to_multiset().count(x) == with_key(s, x.key()).to_multiset().count(x),
    decreases s.len(),
{
    broadcast use vstd::seq_lib::group_to_multiset_ensures;

    if s.len() > 0 {
        let t = s.drop_last();
        lemma_key_count(t, x);
        assert(t.push(s.last()) =~= s);
        assert(s.to_multiset() =~= t.to_multiset().insert(s.last()));
        let w = with_key(t, x.key());
        if s.last().key() == x.key() {
            assert(w.push(s.last()).to_multiset() =~= w.to_multiset().insert(s.last()));
        }
    } else {
        assert(s =~= with_key(s, x.key()));
    }
}

/// A stable sort only rearranges.
pub proof fn sorting_rearranges<K: Keyed>(s: Seq<K>, r: Seq<K>)
    requires
        stably_sorted(s, r),
    ensures
        s.to_multiset() == r.to_multiset(),
{
    assert forall|x: K| s.to_multiset().count(x) == r.to_multiset().count(x) by {
        lemma_key_count(s, x);
        lemma_key_count(r, x);
        assert(with_key(r, x.key()) == with_key(s, x.key()));
    }
    assert(s.to_multiset() =~= r.to_multiset());
}

/// Whether `starts` gives, for a sorted list whose first key parts are below
/// `n`, the place where the run of each first key part begins, and the end.
pub open spec fn starts_runs<K: Keyed>(s: Seq<K>, n: int, starts: Seq<usize>) -> bool {
    &&& starts.len() == n + 1
    &&& starts[0] == 0
    &&& starts[n] == s.len()
    &&& forall|i: int| 0 <= i <= n ==> #[trigger] starts[i] <= s.len()
    &&& forall|i: int, e: int|
        0 <= i <= n && 0 <= e < s.len() ==> ((#[trigger] s[e]).key().0 < i <==> e
            < #[trigger] starts[i])
}

/// Runs follow one another.
pub proof fn lemma_runs_follow<K: Keyed>(s: Seq<K>, n: int, starts: Seq<usize>, i: int, j: int)
    requires
        starts_runs(s, n, starts),
        0 <= i <= j <= n,
    ensures
        starts[i] <= starts[j] <= s.len(),
{
    let e = starts[j] as int;
    if starts[i] > e {
        assert(s[e].key().0 < i);
        assert(e < starts[j]);
    }
}

/// An item stands in the run of its first key part and in no other.
pub proof fn lemma_run_holds<K: Keyed>(s: Seq<K>, n: int, starts: Seq<usize>, i: int, e: int)
    requires
        starts_runs(s, n, starts),
        0 <= i < n,
        0 <= e < s.len(),
    ensures
        s[e].key().0 == i <==> starts[i] <= e < starts[i + 1],
{
    assert(s[e].key().0 < i <==> e < starts[i]);
    assert(s[e].key().0 < i + 1 <==> e < starts[i + 1]);
}

/// Where the run of each first key part begins in a sorted list.
pub fn run_starts<K: Keyed>(out: &Vec<K>, n: usize) -> (r: Vec<usize>)
    requires
        ordered(out@),
        n < usize::MAX,
        forall|e: int| 0 <= e < out@.len() ==> 0 <= (#[trigger] out@[e]).key().0 < n,
    ensures
        starts_runs(out@, n as int, r@),
{
    let mut r: Vec<usize> = Vec::new();
    let mut at: usize = 0;
    let mut i: usize = 0;
    while i <= n
        invariant
            i <= n + 1,
            n < usize::MAX,
            ordered(out@),
            forall|e: int| 0 <= e < out@.len() ==> 0 <= (#[trigger] out@[e]).key().0 < n,
            r@.len() == i,
            at <= out@.len(),
            i > 0 ==> r@[0] == 0,
            i == 0 ==> at == 0,
            forall|e: int| 0 <= e < at ==> (#[trigger] out@[e]).key().0 < i,
            forall|m: int| 0 <= m < i ==> #[trigger] r@[m] <= out@.len(),
            forall|m: int, e: int|
                0 <= m < i && 0 <= e < out@.len() ==> ((#[trigger] out@[e]).key().0 < m <==> e
                    < #[trigger] r@[m]),
        decreases n + 1 - i,
    {
        while at < out.len() && out[at].sort_key().0 < i as u64
            invariant
                at <= out@.len(),
                i <= n,
                i == 0 ==> at == 0,
                ordered(out@),
                forall|e: int| 0 <= e < at ==> (#[trigger] out@[e]).key().0 < i,
            ensures
                at <= out@.len(),
                i == 0 ==> at == 0,
                forall|e: int| 0 <= e < at ==> (#[trigger] out@[e]).key().0 < i,
                at < out@.len() ==> out@[at as int].key().0 >= i,
            decreases out@.len() - at,
        {
            at += 1;
        }
        assert forall|e: int| at <= e < out@.len() implies (#[trigger] out@[e]).key().0 >= i by {
            assert(key_le(out@[at as int].key(), out@[e].key()));
        }
        r.push(at);
        i += 1;
    }
    if out.len() > 0 {
        let ghost last = out@.len() - 1;
        assert(out@[last].key().0 < n);
        assert(last < r@[n as int]);
    }
    r
}

/// Whether the key of `a` comes before the key of `b` or is equal to it.
fn comes_first<K: Keyed>(a: &K, b: &K) -> (r: bool)
    ensures
        r == key_le(a.key(), b.key()),
{
    let x = a.sort_key();
    let y = b.sort_key();
    x.0 < y.0 || (x.0 == y.0 && x.1 <= y.1)
}

/// Merges two sorted runs; on equal keys the first run goes first.
fn merge<K: Keyed>(a: &Vec<K>, b: &Vec<K>) -> (r: Vec<K>)
    requires
        ordered(a@),
        ordered(b@),
    ensures
        stably_sorted(a@ + b@, r@),
{
    let mut out: Vec<K> = Vec::new();
    let mut i: usize = 0;
    let mut j: usize = 0;
    assert forall|k: (int, int)| #[trigger] with_key(out@, k) == with_key(a@.take(0), k) + with_key(
        b@.take(0),
        k,
    ) by {
        assert(with_key(a@.take(0), k) + with_key(b@.take(0), k) =~= Seq::empty());
    }
    while i < a.len() || j < b.len()
        invariant
            i <= a@.len(),
            j <= b@.len(),
            ordered(a@),
            ordered(b@),
            out@.len() == i + j,
            ordered(out@),
            forall|x: int, y: int|
                0 <= x < out@.len() && i <= y < a@.len() ==> key_le(
                    (#[trigger] out@[x]).key(),
                    (#[trigger] a@[y]).key(),
                ),
            forall|x: int, y: int|
                0 <= x < out@.len() && j <= y < b@.len() ==> key_le(
                    (#[trigger] out@[x]).key(),
                    (#[trigger] b@[y]).key(),
                ),
            forall|x: int, y: int|
                0 <= x < j && i <= y < a@.len() ==> !key_le(
                    (#[trigger] a@[y]).key(),
                    (#[trigger] b@[x]).key(),
                ),
            forall|k: (int, int)|
                #[trigger] with_key(out@, k) == with_key(a@.take(i as int), k) + with_key(
                    b@.take(j as int),
                    k,
                ),
        decreases a@.len() - i + b@.len() - j,
    {
        let from_a = if i >= a.len() {
            false
        } else if j >= b.len() {
            true
        } else {
            comes_first(&a[i], &b[j])
        };
        let ghost before = out@;
        if from_a {
            let x = a[i];
            proof {
                assert forall|k: (int, int)| #[trigger] with_key(before.push(x), k) == with_key(
                    a@.take(i + 1),
                    k,
                ) + with_key(b@.take(j as int), k) by {
                    assert(with_key(before, k) == with_key(a@.take(i as int), k) + with_key(
                        b@.take(j as int),
                        k,
                    ));
                    assert(a@.take(i + 1) =~= a@.take(i as int).push(x));
                    lemma_with_key_push(before, x, k);
                    lemma_with_key_push(a@.take(i as int), x, k);
                    if x.key() == k {
                        assert forall|y: int| 0 <= y < b@.take(j as int).len() implies (
                        #[trigger] b@.take(j as int)[y]).key() != k by {
                            assert(!key_le(a@[i as int].key(), b@[y].key()));
                        }
                        lemma_with_key_none(b@.take(j as int), k);
                        assert((with_key(a@.take(i as int), k) + Seq::<K>::empty()).push(x)
                            =~= with_key(a@.take(i as int), k).push(x) + Seq::<K>::empty());
                    }
                }
            }
            out.push(x);
            i += 1;
        } else {
            let x = b[j];
            proof {
                assert forall|k: (int, int)| #[trigger] with_key(before.push(x), k) == with_key(
                    a@.take(i as int),
                    k,
                ) + with_key(b@.take(j + 1), k) by {
                    assert(with_key(before, k) == with_key(a@.take(i as int), k) + with_key(
                        b@.take(j as int),
                        k,
                    ));
                    assert(b@.take(j + 1) =~= b@.take(j as int).push(x));
                    lemma_with_key_push(before, x, k);
                    lemma_with_key_push(b@.take(j as int), x, k);
                    if x.key() == k {
                        assert((with_key(a@.take(i as int), k) + with_key(b@.take(j as int), k)).push(
                            x,
                        ) =~= with_key(a@.take(i as int), k) + with_key(b@.take(j as int), k).push(
                            x,
                        ));
                    }
                }
                assert forall|y: int| i <= y < a@.len() implies !key_le(
                    (#[trigger] a@[y]).key(),
                    x.key(),
                ) by {
                    assert(key_le(a@[i as int].key(), a@[y].key()));
                }
            }
            out.push(x);
            j += 1;
        }
    }
    proof {
        assert(a@.take(a@.len() as int) =~= a@);
        assert(b@.take(b@.len() as int) =~= b@);
        assert forall|k: (int, int)| #[trigger] with_key(out@, k) == with_key(a@ + b@, k) by {
            lemma_with_key_add(a@, b@, k);
        }
    }
    out
}

/// Sorts by key; items of equal key keep their order.
pub fn stable_sort<K: Keyed>(v: &Vec<K>) -> (r: Vec<K>)
    ensures
        stably_sorted(v@, r@),
{
    assert(v@.subrange(0, v@.len() as int) =~= v@);
    sort_range(v, 0, v.len())
}

fn sort_range<K: Keyed>(v: &Vec<K>, from: usize, to: usize) -> (r: Vec<K>)
    requires
        from <= to <= v@.len(),
    ensures
        stably_sorted(v@.subrange(from as int, to as int), r@),
    decreases to - from,
{
    if to - from <= 1 {
        let mut out: Vec<K> = Vec::new();
        if from < to {
            out.push(v[from]);
        }
        assert(out@ =~= v@.subrange(from as int, to as int));
        out
    } else {
        let mid: usize = from + (to - from) / 2;
        let a = sort_range(v, from, mid);
        let b = sort_range(v, mid, to);
        let r = merge(&a, &b);
        proof {
            let x = v@.subrange(from as int, mid as int);
            let y = v@.subrange(mid as int, to as int);
            let whole = v@.subrange(from as int, to as int);
            assert(x + y =~= whole);
            assert forall|k: (int, int)| #[trigger] with_key(r@, k) == with_key(whole, k) by {
                lemma_with_key_add(x, y, k);
                lemma_with_key_add(a@, b@, k);
                assert(with_key(a@, k) == with_key(x, k));
                assert(with_key(b@, k) == with_key(y, k));
            }
        }
        r
    }
}

} // verus!
