//! Counting.

use vstd::prelude::*;

verus! {

/// How often `k` occurs.
pub open spec fn count_of(keys: Seq<u32>, k: u32) -> nat
    decreases keys.len(),
{
    if keys.len() == 0 {
        0
    } else {
        count_of(keys.drop_last(), k) + (if keys.last() == k {
            1nat
        } else {
            0
        })
    }
}

/// Every key with its count, keys ascending.
pub open spec fn counts_ok(counts: Seq<(u32, usize)>, keys: Seq<u32>) -> bool {
    &&& forall|i: int, j: int| 0 <= i < j < counts.len() ==> (#[trigger] counts[i]).0 < (
    #[trigger] counts[j]).0
    &&& forall|i: int|
        0 <= i < counts.len() ==> (#[trigger] counts[i]).1 > 0 && counts[i].1 == count_of(
            keys,
            counts[i].0,
        )
    &&& forall|k: u32|
        #[trigger] count_of(keys, k) > 0 ==> exists|i: int|
            0 <= i < counts.len() && (#[trigger] counts[i]).0 == k
}

proof fn lemma_count_le(keys: Seq<u32>, k: u32)
    ensures
        count_of(keys, k) <= keys.len(),
    decreases keys.len(),
{
    if keys.len() > 0 {
        lemma_count_le(keys.drop_last(), k);
    }
}

/// Counts each key, keys ascending.
pub fn tally(keys: &Vec<u32>) -> (counts: Vec<(u32, usize)>)
    ensures
        counts_ok(counts@, keys@),
{
    let mut counts: Vec<(u32, usize)> = Vec::new();
    let mut n: usize = 0;
    assert(keys@.take(0) =~= Seq::empty());
    while n < keys.len()
        invariant
            n <= keys@.len(),
            counts_ok(counts@, keys@.take(n as int)),
        decreases keys@.len() - n,
    {
        let ghost before = counts@;
        let ghost seen = keys@.take(n as int);
        let key = keys[n];
        let mut k: usize = 0;
        while k < counts.len() && counts[k].0 < key
            invariant
                k <= counts@.len(),
                forall|i: int| 0 <= i < k ==> (#[trigger] counts@[i]).0 < key,
            decreases counts@.len() - k,
        {
            k = k + 1;
        }
        proof {
            lemma_count_le(seen, key);
            assert(keys@.take(n + 1) =~= seen.push(key));
            assert(seen.push(key).drop_last() =~= seen);
        }
        if k < counts.len() && counts[k].0 == key {
            let c = counts[k].1;
            counts.set(k, (key, c + 1));
            proof {
                lemma_bump(before, counts@, seen, key, k as int);
            }
        } else {
            counts.insert(k, (key, 1));
            proof {
                lemma_insert(before, counts@, seen, key, k as int);
            }
        }
        n = n + 1;
    }
    assert(keys@.take(n as int) =~= keys@);
    counts
}

proof fn lemma_bump(a: Seq<(u32, usize)>, b: Seq<(u32, usize)>, keys: Seq<u32>, key: u32, k: int)
    requires
        counts_ok(a, keys),
        0 <= k < a.len(),
        a[k].0 == key,
        a[k].1 < usize::MAX,
        b == a.update(k, (key, (a[k].1 + 1) as usize)),
    ensures
        counts_ok(b, keys.push(key)),
{
    let more = keys.push(key);
    assert(more.drop_last() =~= keys);
    assert forall|i: int, j: int| 0 <= i < j < b.len() implies (#[trigger] b[i]).0 < (
    #[trigger] b[j]).0 by {
        assert(a[i].0 < a[j].0);
    }
    assert forall|i: int| 0 <= i < b.len() implies (#[trigger] b[i]).1 > 0 && b[i].1 == count_of(
        more,
        b[i].0,
    ) by {
        assert(a[i].1 == count_of(keys, a[i].0));
        if i < k {
            assert(a[i].0 < a[k].0);
        } else if i > k {
            assert(a[k].0 < a[i].0);
        }
    }
    assert forall|x: u32| #[trigger] count_of(more, x) > 0 implies exists|i: int|
        0 <= i < b.len() && (#[trigger] b[i]).0 == x by {
        if x == key {
            assert(b[k].0 == x);
        } else {
            assert(count_of(keys, x) > 0);
            let i = choose|i: int| 0 <= i < a.len() && (#[trigger] a[i]).0 == x;
            assert(b[i].0 == x);
        }
    }
}

proof fn lemma_insert(a: Seq<(u32, usize)>, b: Seq<(u32, usize)>, keys: Seq<u32>, key: u32, k: int)
    requires
        counts_ok(a, keys),
        0 <= k <= a.len(),
        forall|i: int| 0 <= i < k ==> (#[trigger] a[i]).0 < key,
        k < a.len() ==> a[k].0 > key,
        b == a.insert(k, (key, 1usize)),
    ensures
        counts_ok(b, keys.push(key)),
{
    let more = keys.push(key);
    assert(more.drop_last() =~= keys);
    assert forall|i: int| 0 <= i < a.len() implies (#[trigger] a[i]).0 != key by {
        if i > k {
            assert(a[k].0 < a[i].0);
        }
    }
    assert(count_of(keys, key) == 0) by {
        if count_of(keys, key) > 0 {
            let i = choose|i: int| 0 <= i < a.len() && (#[trigger] a[i]).0 == key;
        }
    }
    assert forall|i: int, j: int| 0 <= i < j < b.len() implies (#[trigger] b[i]).0 < (
    #[trigger] b[j]).0 by {
        let ai = if i < k {
            i
        } else {
            i - 1
        };
        let aj = if j < k {
            j
        } else {
            j - 1
        };
        if i != k && j != k {
            assert(b[i] == a[ai] && b[j] == a[aj]);
        } else if i == k {
            assert(b[j] == a[aj]);
            if aj > k {
                assert(a[k].0 < a[aj].0);
            }
        } else {
            assert(b[i] == a[ai]);
        }
    }
    assert forall|i: int| 0 <= i < b.len() implies (#[trigger] b[i]).1 > 0 && b[i].1 == count_of(
        more,
        b[i].0,
    ) by {
        if i != k {
            let ai = if i < k {
                i
            } else {
                i - 1
            };
            assert(b[i] == a[ai]);
            assert(a[ai].1 == count_of(keys, a[ai].0));
        }
    }
    assert forall|x: u32| #[trigger] count_of(more, x) > 0 implies exists|i: int|
        0 <= i < b.len() && (#[trigger] b[i]).0 == x by {
        if x == key {
            assert(b[k].0 == x);
        } else {
            assert(count_of(keys, x) > 0);
            let i = choose|i: int| 0 <= i < a.len() && (#[trigger] a[i]).0 == x;
            let bi = if i < k {
                i
            } else {
                i + 1
            };
            assert(b[bi].0 == x);
        }
    }
}

} // verus!
