//! A hash table that grows one bucket at a time (linear hashing).
//!
//! A key's bucket is given by its lowest `num_bits` bits, or by one bit
//! fewer where that bucket does not exist yet. When the table is too full,
//! one bucket is added and the entries of one old bucket are shared out
//! between the two.

use vstd::prelude::*;
use vstd::arithmetic::div_mod::{lemma_fundamental_div_mod, lemma_fundamental_div_mod_converse};
use vstd::arithmetic::power2::{lemma2_to64, lemma_pow2_pos, lemma_pow2_unfold, pow2};
use vstd::bits::{lemma_usize_pow2_no_overflow, lemma_usize_shl_is_mul};

verus! {

/// Fill-degree constraint, in percent: the table grows when more than this
/// share of its room is filled.
pub const FDC_PERCENT: usize = 80;

/// Number of entries that a bucket is meant to hold.
pub const ITEMS_PER_BUCKET: usize = 10;

/// A table from `usize` keys to values. A key may be put more than once: its
/// values are then kept in the order in which they came.
pub struct HashTable<V> {
    buckets: Vec<Vec<(usize, V)>>,
    num_bits: usize,
    num_items: usize,
}

/// The table is too full: `items` entries in `buckets` buckets fill more
/// than the fill-degree constraint allows.
pub open spec fn over_full(items: nat, buckets: nat) -> bool {
    items * 100 > FDC_PERCENT * (buckets * ITEMS_PER_BUCKET)
}

/// The bucket of `key` in a table of `len` buckets that looks at `num_bits`
/// bits of the key.
pub open spec fn bucket_of(key: usize, num_bits: nat, len: nat) -> int {
    let h = key as int % pow2(num_bits) as int;
    if h >= len {
        h - pow2((num_bits - 1) as nat)
    } else {
        h
    }
}

/// The values that `bucket` holds under `key`, oldest first.
pub open spec fn values_of<V>(bucket: Seq<(usize, V)>, key: usize) -> Seq<V>
    decreases bucket.len(),
{
    if bucket.len() == 0 {
        Seq::empty()
    } else if bucket.last().0 == key {
        values_of(bucket.drop_last(), key).push(bucket.last().1)
    } else {
        values_of(bucket.drop_last(), key)
    }
}

/// Sum of the numbers in `s`.
pub open spec fn sum(s: Seq<nat>) -> nat
    decreases s.len(),
{
    if s.len() == 0 {
        0
    } else {
        sum(s.drop_last()) + s.last()
    }
}

proof fn lemma_sum_update(s: Seq<nat>, i: int, x: nat)
    requires
        0 <= i < s.len(),
    ensures
        sum(s.update(i, x)) == sum(s) - s[i] + x,
    decreases s.len(),
{
    let t = s.update(i, x);
    if i == s.len() - 1 {
        assert(t.drop_last() =~= s.drop_last());
    } else {
        lemma_sum_update(s.drop_last(), i, x);
        assert(t.drop_last() =~= s.drop_last().update(i, x));
    }
}

proof fn lemma_sum_push(s: Seq<nat>, x: nat)
    ensures
        sum(s.push(x)) == sum(s) + x,
{
    assert(s.push(x).drop_last() =~= s);
}

/// Putting an entry at the back of a bucket adds its value to those of its
/// key, and leaves those of every other key alone.
proof fn lemma_values_push<V>(bucket: Seq<(usize, V)>, k: usize, v: V, key: usize)
    ensures
        values_of(bucket.push((k, v)), key) == if k == key {
            values_of(bucket, key).push(v)
        } else {
            values_of(bucket, key)
        },
{
    assert(bucket.push((k, v)).drop_last() =~= bucket);
}

/// A bucket holds no value under a key exactly when none of its entries has
/// that key.
proof fn lemma_values_empty<V>(bucket: Seq<(usize, V)>, key: usize)
    ensures
        values_of(bucket, key).len() == 0 <==> forall|j: int|
            0 <= j < bucket.len() ==> (#[trigger] bucket[j]).0 != key,
    decreases bucket.len(),
{
    if bucket.len() > 0 {
        let rest = bucket.drop_last();
        lemma_values_empty(rest, key);
        if values_of(bucket, key).len() == 0 {
            assert forall|j: int| 0 <= j < bucket.len() implies (#[trigger] bucket[j]).0 != key by {
                if j < rest.len() {
                    assert(rest[j] == bucket[j]);
                }
            }
        } else {
            if bucket.last().0 != key {
                let j = choose|j: int| 0 <= j < rest.len() && (#[trigger] rest[j]).0 == key;
                assert(bucket[j] == rest[j]);
            }
        }
    }
}

/// The first entry of a bucket that has the key holds the key's oldest
/// value; taking that entry out takes that value away and nothing else.
proof fn lemma_values_first<V>(bucket: Seq<(usize, V)>, key: usize, i: int)
    requires
        0 <= i < bucket.len(),
        bucket[i].0 == key,
        forall|j: int| 0 <= j < i ==> (#[trigger] bucket[j]).0 != key,
    ensures
        values_of(bucket, key).len() > 0,
        values_of(bucket, key)[0] == bucket[i].1,
        values_of(bucket.remove(i), key) == values_of(bucket, key).drop_first(),
        forall|other: usize|
            other != key ==> #[trigger] values_of(bucket.remove(i), other) == values_of(
                bucket,
                other,
            ),
    decreases bucket.len(),
{
    let rest = bucket.drop_last();
    let last = bucket.last();
    if i == bucket.len() - 1 {
        assert(bucket.remove(i) =~= rest);
        lemma_values_empty(rest, key);
        assert forall|j: int| 0 <= j < rest.len() implies (#[trigger] rest[j]).0 != key by {
            assert(rest[j] == bucket[j]);
        }
        assert(values_of(rest, key) =~= Seq::<V>::empty());
        assert(values_of(bucket, key) =~= seq![last.1]);
        assert(values_of(bucket, key).drop_first() =~= Seq::<V>::empty());
    } else {
        assert(rest[i] == bucket[i]);
        assert forall|j: int| 0 <= j < i implies (#[trigger] rest[j]).0 != key by {
            assert(rest[j] == bucket[j]);
        }
        lemma_values_first(rest, key, i);
        assert(bucket.remove(i) =~= rest.remove(i).push(last));
        lemma_values_push(rest.remove(i), last.0, last.1, key);
        assert(bucket =~= rest.push(last));
        lemma_values_push(rest, last.0, last.1, key);
        if last.0 == key {
            assert(values_of(rest, key).push(last.1).drop_first() =~= values_of(
                rest,
                key,
            ).drop_first().push(last.1));
        }
        assert forall|other: usize| other != key implies #[trigger] values_of(
            bucket.remove(i),
            other,
        ) == values_of(bucket, other) by {
            lemma_values_push(rest.remove(i), last.0, last.1, other);
            lemma_values_push(rest, last.0, last.1, other);
        }
    }
}

/// Looking at one bit more of a key either leaves its hash as it is or adds
/// the new bit's weight to it.
proof fn lemma_one_more_bit(key: int, m: int)
    requires
        key >= 0,
        m > 0,
    ensures
        key % (2 * m) == key % m || key % (2 * m) == key % m + m,
{
    let q = key / (2 * m);
    let r = key % (2 * m);
    lemma_fundamental_div_mod(key, 2 * m);
    assert(key == (2 * m) * q + r);
    assert(0 <= r < 2 * m) by (nonlinear_arith)
        requires
            r == key % (2 * m),
            m > 0,
    ;
    if r < m {
        assert(key == (2 * q) * m + r) by (nonlinear_arith)
            requires
                key == (2 * m) * q + r,
        ;
        lemma_fundamental_div_mod_converse(key, m, 2 * q, r);
    } else {
        assert(key == (2 * q + 1) * m + (r - m)) by (nonlinear_arith)
            requires
                key == (2 * m) * q + r,
        ;
        lemma_fundamental_div_mod_converse(key, m, 2 * q + 1, r - m);
    }
}

/// In a table with as many buckets as its bits can name, one more bit moves
/// no key.
proof fn lemma_widen(key: usize, num_bits: nat, len: nat)
    requires
        num_bits >= 1,
        len == pow2(num_bits),
    ensures
        bucket_of(key, num_bits + 1, len) == bucket_of(key, num_bits, len),
        0 <= bucket_of(key, num_bits, len) < len,
{
    lemma_pow2_pos(num_bits);
    lemma_pow2_unfold(num_bits + 1);
    let m = pow2(num_bits) as int;
    lemma_one_more_bit(key as int, m);
    assert(0 <= key as int % m < m) by (nonlinear_arith)
        requires
            m > 0,
            key >= 0,
    ;
}

/// A key's bucket exists.
proof fn lemma_bucket_in_range(key: usize, num_bits: nat, len: nat)
    requires
        num_bits >= 1,
        pow2((num_bits - 1) as nat) <= len <= pow2(num_bits),
    ensures
        0 <= bucket_of(key, num_bits, len) < len,
{
    lemma_pow2_pos(num_bits);
    lemma_pow2_pos((num_bits - 1) as nat);
    lemma_pow2_unfold(num_bits);
    let m = pow2(num_bits) as int;
    assert(0 <= key as int % m < m) by (nonlinear_arith)
        requires
            m > 0,
            key >= 0,
    ;
}

/// Adding a bucket moves only keys of the bucket that is shared out, and
/// those only to the new bucket.
proof fn lemma_grow(key: usize, num_bits: nat, len: nat)
    requires
        num_bits >= 1,
        pow2((num_bits - 1) as nat) <= len < pow2(num_bits),
    ensures
        0 <= bucket_of(key, num_bits, len + 1) < len + 1,
        bucket_of(key, num_bits, len + 1) == bucket_of(key, num_bits, len) || (bucket_of(
            key,
            num_bits,
            len,
        ) == len - pow2((num_bits - 1) as nat) && bucket_of(key, num_bits, len + 1) == len),
{
    lemma_bucket_in_range(key, num_bits, len + 1);
}

/// No number of a list is larger than the list's sum.
proof fn lemma_sum_bounds(s: Seq<nat>, i: int)
    requires
        0 <= i < s.len(),
    ensures
        s[i] <= sum(s),
    decreases s.len(),
{
    if i < s.len() - 1 {
        lemma_sum_bounds(s.drop_last(), i);
    }
}

/// Of the entries of a bucket chosen by their keys, those under a chosen
/// key are all there, and none under any other key.
proof fn lemma_values_filter<V>(bucket: Seq<(usize, V)>, chosen: spec_fn(usize) -> bool, key: usize)
    ensures
        values_of(bucket.filter(|e: (usize, V)| chosen(e.0)), key) == if chosen(key) {
            values_of(bucket, key)
        } else {
            Seq::<V>::empty()
        },
    decreases bucket.len(),
{
    let pred = |e: (usize, V)| chosen(e.0);
    reveal(Seq::filter);
    if bucket.len() > 0 {
        let rest = bucket.drop_last();
        let last = bucket.last();
        lemma_values_filter(rest, chosen, key);
        if pred(last) {
            assert(bucket.filter(pred) == rest.filter(pred).push(last));
            lemma_values_push(rest.filter(pred), last.0, last.1, key);
        } else {
            assert(bucket.filter(pred) == rest.filter(pred));
        }
    }
}

/// Every entry that a filter lets through was chosen.
proof fn lemma_filter_chosen<V>(bucket: Seq<(usize, V)>, pred: spec_fn((usize, V)) -> bool)
    ensures
        forall|i: int| 0 <= i < bucket.filter(pred).len() ==> pred(#[trigger] bucket.filter(pred)[i]),
        bucket.filter(pred).len() <= bucket.len(),
    decreases bucket.len(),
{
    reveal(Seq::filter);
    if bucket.len() > 0 {
        lemma_filter_chosen(bucket.drop_last(), pred);
    }
}

/// The table has between half as many and as many buckets as its bits can
/// name, and the bits fit a `usize`.
pub open spec fn shaped(num_bits: nat, len: nat) -> bool {
    &&& 1 <= num_bits < usize::BITS
    &&& pow2((num_bits - 1) as nat) <= len <= pow2(num_bits)
}

impl<V> HashTable<V> {
    /// The entries of each bucket, in the order in which they were put.
    pub closed spec fn buckets(&self) -> Seq<Seq<(usize, V)>> {
        Seq::new(self.buckets@.len(), |b: int| self.buckets@[b]@)
    }

    /// Number of bits of a key that name its bucket.
    pub closed spec fn num_bits(&self) -> nat {
        self.num_bits as nat
    }

    /// Number of entries in the table.
    pub closed spec fn len(&self) -> nat {
        self.num_items as nat
    }

    /// Number of buckets.
    pub open spec fn num_buckets(&self) -> nat {
        self.buckets().len()
    }

    /// The bucket that `key` belongs to.
    pub open spec fn bucket_index(&self, key: usize) -> int {
        bucket_of(key, self.num_bits(), self.num_buckets())
    }

    /// The values held under `key`, oldest first.
    pub open spec fn values(&self, key: usize) -> Seq<V> {
        values_of(self.buckets()[self.bucket_index(key)], key)
    }

    /// Number of entries of each bucket.
    pub open spec fn sizes(&self) -> Seq<nat> {
        Seq::new(self.num_buckets(), |b: int| self.buckets()[b].len())
    }

    /// Whether the table can still grow: its buckets can all be named with
    /// one bit more than now, if need be.
    pub open spec fn can_grow(&self) -> bool {
        self.num_buckets() < pow2(self.num_bits()) || self.num_bits() + 1 < usize::BITS
    }

    /// The bucket whose entries are shared out when the table grows next.
    pub open spec fn split_source(&self) -> int {
        if self.num_buckets() == pow2(self.num_bits()) {
            0
        } else {
            self.num_buckets() - pow2((self.num_bits() - 1) as nat)
        }
    }

    /// The table's invariant: there are between half as many and as many
    /// buckets as the bits can name, every entry lies in its key's bucket,
    /// and the entries are counted.
    pub open spec fn wf(&self) -> bool {
        &&& shaped(self.num_bits(), self.num_buckets())
        &&& forall|b: int, i: int|
            0 <= b < self.num_buckets() && 0 <= i < self.buckets()[b].len() ==> bucket_of(
                (#[trigger] self.buckets()[b][i]).0,
                self.num_bits(),
                self.num_buckets(),
            ) == b
        &&& self.len() == sum(self.sizes())
    }

    /// An empty table, with one bucket.
    pub fn new() -> (ht: HashTable<V>)
        ensures
            ht.wf(),
            ht.len() == 0,
            ht.num_buckets() == 1,
            ht.num_bits() == 1,
            forall|key: usize| ht.values(key) == Seq::<V>::empty(),
    {
        let mut buckets: Vec<Vec<(usize, V)>> = Vec::new();
        buckets.push(Vec::new());
        let ht = HashTable { buckets, num_bits: 1, num_items: 0 };
        proof {
            lemma2_to64();
            assert(ht.buckets()[0] =~= Seq::<(usize, V)>::empty());
            assert(ht.sizes() =~= seq![0nat]);
            assert(ht.sizes().drop_last() =~= Seq::<nat>::empty());
            lemma_sum_push(Seq::<nat>::empty(), 0);
            assert(ht.sizes() =~= Seq::<nat>::empty().push(0));
            assert forall|key: usize| ht.values(key) == Seq::<V>::empty() by {
                lemma_bucket_in_range(key, 1, 1);
            }
        }
        return ht;
    }

    /// Number of buckets.
    pub fn bucket_count(&self) -> (n: usize)
        ensures
            n == self.num_buckets(),
    {
        self.buckets.len()
    }

    /// Number of entries in bucket `b`, or `None` where there is no such
    /// bucket.
    pub fn bucket_len(&self, b: usize) -> (n: Option<usize>)
        ensures
            n == if b < self.num_buckets() {
                Some(self.buckets()[b as int].len() as usize)
            } else {
                None
            },
    {
        if b < self.buckets.len() {
            Some(self.buckets[b].len())
        } else {
            None
        }
    }

    /// Whether the table is too full.
    fn should_split(&self) -> (r: bool)
        ensures
            r == over_full(self.len(), self.num_buckets()),
    {
        let filled: u128 = self.num_items as u128 * 100;
        let room: u128 = self.buckets.len() as u128 * ITEMS_PER_BUCKET as u128;
        assert(FDC_PERCENT as u128 * room == FDC_PERCENT * (self.buckets.len() * ITEMS_PER_BUCKET))
            by (nonlinear_arith)
            requires
                room == self.buckets.len() * ITEMS_PER_BUCKET,
                FDC_PERCENT == 80,
        ;
        return filled > FDC_PERCENT as u128 * room;
    }

    /// The bucket of the key `k`.
    fn bucket(&self, k: usize) -> (b: usize)
        requires
            shaped(self.num_bits(), self.num_buckets()),
        ensures
            b == self.bucket_index(k),
            b < self.num_buckets(),
    {
        proof {
            lemma_usize_pow2_no_overflow(self.num_bits as nat);
            lemma_usize_pow2_no_overflow((self.num_bits - 1) as nat);
            lemma_usize_shl_is_mul(1, self.num_bits);
            lemma_usize_shl_is_mul(1, (self.num_bits - 1) as usize);
            lemma_bucket_in_range(k, self.num_bits as nat, self.buckets@.len() as nat);
        }
        let h = k % (1usize << self.num_bits);
        if h >= self.buckets.len() {
            h - (1usize << (self.num_bits - 1))
        } else {
            h
        }
    }

    /// The oldest value held under `key`, if there is any.
    pub fn get(&self, key: usize) -> (r: Option<&V>)
        requires
            self.wf(),
        ensures
            r == if self.values(key).len() > 0 {
                Some(&self.values(key)[0])
            } else {
                None
            },
    {
        let b = self.bucket(key);
        let mut i: usize = 0;
        while i < self.buckets[b].len()
            invariant
                b < self.buckets.len(),
                b == self.bucket_index(key),
                i <= self.buckets[b as int].len(),
                forall|j: int| 0 <= j < i ==> (#[trigger] self.buckets[b as int]@[j]).0 != key,
            decreases self.buckets[b as int].len() - i,
        {
            if self.buckets[b][i].0 == key {
                proof {
                    assert(self.buckets()[b as int] == self.buckets[b as int]@);
                    lemma_values_first(self.buckets[b as int]@, key, i as int);
                }
                return Some(&self.buckets[b][i].1);
            }
            i += 1;
        }
        proof {
            assert(self.buckets()[b as int] == self.buckets[b as int]@);
            lemma_values_empty(self.buckets[b as int]@, key);
        }
        return None;
    }

    /// Changing one bucket's entries of a sound table, such that the bucket
    /// still holds only keys of its own, leaves a sound table, in which the
    /// values of every key of another bucket are what they were.
    proof fn lemma_one_bucket_changed(&self, post: &Self, b: int)
        requires
            self.wf(),
            0 <= b < self.num_buckets(),
            post.num_bits() == self.num_bits(),
            post.num_buckets() == self.num_buckets(),
            forall|c: int| 0 <= c < self.num_buckets() && c != b ==> post.buckets()[c] == self.buckets()[c],
            forall|i: int|
                0 <= i < post.buckets()[b].len() ==> bucket_of(
                    (#[trigger] post.buckets()[b][i]).0,
                    self.num_bits(),
                    self.num_buckets(),
                ) == b,
            post.len() + self.buckets()[b].len() == self.len() + post.buckets()[b].len(),
        ensures
            post.wf(),
            forall|key: usize| self.bucket_index(key) != b ==> post.values(key) == self.values(key),
    {
        assert(post.sizes() =~= self.sizes().update(b, post.buckets()[b].len()));
        lemma_sum_update(self.sizes(), b, post.buckets()[b].len());
        assert forall|key: usize| self.bucket_index(key) != b implies post.values(key)
            == self.values(key) by {
            lemma_bucket_in_range(key, self.num_bits(), self.num_buckets());
        }
        assert forall|c: int, i: int|
            0 <= c < post.num_buckets() && 0 <= i < post.buckets()[c].len() implies bucket_of(
            (#[trigger] post.buckets()[c][i]).0,
            post.num_bits(),
            post.num_buckets(),
        ) == c by {
            if c != b {
                assert(post.buckets()[c][i] == self.buckets()[c][i]);
            }
        }
    }

    /// Puts the value `v` under the key `k`, behind the values that the key
    /// has already. Where this leaves the table too full, the table grows by
    /// one bucket.
    pub fn put(&mut self, k: usize, v: V)
        requires
            old(self).wf(),
            old(self).len() < usize::MAX,
        ensures
            final(self).wf(),
            final(self).values(k) == old(self).values(k).push(v),
            forall|key: usize| key != k ==> final(self).values(key) == old(self).values(key),
            final(self).len() == old(self).len() + 1,
            final(self).num_buckets() == if over_full(old(self).len() + 1, old(self).num_buckets())
                && old(self).can_grow() {
                old(self).num_buckets() + 1
            } else {
                old(self).num_buckets()
            },
    {
        let b = self.bucket(k);
        self.buckets[b].push((k, v));
        self.num_items += 1;
        proof {
            let pre = old(self);
            assert(pre.buckets()[b as int] == pre.buckets[b as int]@);
            assert(self.buckets()[b as int] == self.buckets[b as int]@);
            assert(self.buckets()[b as int] == pre.buckets()[b as int].push((k, v)));
            assert forall|c: int| 0 <= c < pre.num_buckets() && c != b implies self.buckets()[c]
                == pre.buckets()[c] by {}
            assert forall|i: int| 0 <= i < self.buckets()[b as int].len() implies bucket_of(
                (#[trigger] self.buckets()[b as int][i]).0,
                pre.num_bits(),
                pre.num_buckets(),
            ) == b by {
                if i < pre.buckets()[b as int].len() {
                    assert(self.buckets()[b as int][i] == pre.buckets()[b as int][i]);
                }
            }
            pre.lemma_one_bucket_changed(self, b as int);
            assert forall|key: usize| self.values(key) == if key == k {
                pre.values(key).push(v)
            } else {
                pre.values(key)
            } by {
                if pre.bucket_index(key) == b {
                    lemma_values_push(pre.buckets()[b as int], k, v, key);
                }
            }
        }
        if self.should_split() {
            self.split();
        }
    }

    /// Takes the oldest value of the key `key` out of the table, if the key
    /// has one.
    pub fn remove(&mut self, key: usize)
        requires
            old(self).wf(),
        ensures
            final(self).wf(),
            final(self).values(key) == if old(self).values(key).len() > 0 {
                old(self).values(key).drop_first()
            } else {
                old(self).values(key)
            },
            forall|other: usize| other != key ==> final(self).values(other) == old(self).values(other),
            final(self).len() == if old(self).values(key).len() > 0 {
                old(self).len() - 1
            } else {
                old(self).len() as int
            },
            final(self).num_buckets() == old(self).num_buckets(),
            final(self).num_bits() == old(self).num_bits(),
    {
        let b = self.bucket(key);
        let mut i: usize = 0;
        while i < self.buckets[b].len()
            invariant
                *self == *old(self),
                self.wf(),
                b < self.buckets.len(),
                b == self.bucket_index(key),
                i <= self.buckets[b as int].len(),
                forall|j: int| 0 <= j < i ==> (#[trigger] self.buckets[b as int]@[j]).0 != key,
            decreases self.buckets[b as int].len() - i,
        {
            if self.buckets[b][i].0 == key {
                proof {
                    assert(self.buckets()[b as int] == self.buckets[b as int]@);
                    assert(self.sizes()[b as int] == self.buckets()[b as int].len());
                    lemma_sum_bounds(self.sizes(), b as int);
                }
                self.buckets[b].remove(i);
                self.num_items -= 1;
                proof {
                    let pre = old(self);
                    let before = pre.buckets()[b as int];
                    assert(self.buckets()[b as int] == self.buckets[b as int]@);
                    assert(self.buckets()[b as int] == before.remove(i as int));
                    lemma_values_first(before, key, i as int);
                    assert forall|c: int|
                        0 <= c < pre.num_buckets() && c != b implies self.buckets()[c]
                        == pre.buckets()[c] by {}
                    assert forall|j: int| 0 <= j < self.buckets()[b as int].len() implies bucket_of(
                        (#[trigger] self.buckets()[b as int][j]).0,
                        pre.num_bits(),
                        pre.num_buckets(),
                    ) == b by {
                        let j0 = if j < i { j } else { j + 1 };
                        assert(self.buckets()[b as int][j] == before[j0]);
                    }
                    pre.lemma_one_bucket_changed(self, b as int);
                }
                return;
            }
            i += 1;
        }
        proof {
            assert(self.buckets()[b as int] == self.buckets[b as int]@);
            lemma_values_empty(self.buckets[b as int]@, key);
        }
    }

    /// Adds one bucket to the table and shares the entries of the bucket
    /// `split_source` out between that bucket and the new one, each entry
    /// going where its key belongs now and keeping its place among the
    /// others. No key's values change. A table that cannot grow is left as
    /// it is.
    pub fn split(&mut self)
        requires
            old(self).wf(),
        ensures
            final(self).wf(),
            forall|key: usize| final(self).values(key) == old(self).values(key),
            final(self).len() == old(self).len(),
            !old(self).can_grow() ==> final(self).buckets() == old(self).buckets()
                && final(self).num_bits() == old(self).num_bits(),
            old(self).can_grow() ==> {
                let src = old(self).split_source();
                let orig = old(self).buckets()[src];
                let stays = |e: (usize, V)| final(self).bucket_index(e.0) == src;
                let moves = |e: (usize, V)| final(self).bucket_index(e.0) != src;
                &&& final(self).num_buckets() == old(self).num_buckets() + 1
                &&& final(self).num_bits() == if old(self).num_buckets() == pow2(
                    old(self).num_bits(),
                ) {
                    old(self).num_bits() + 1
                } else {
                    old(self).num_bits()
                }
                &&& forall|b: int|
                    0 <= b < old(self).num_buckets() && b != src ==> (#[trigger] final(self).buckets()[b])
                        == old(self).buckets()[b]
                &&& final(self).buckets()[src] == orig.filter(stays)
                &&& final(self).buckets()[old(self).num_buckets() as int] == orig.filter(moves)
            },
    {
        proof {
            lemma_usize_pow2_no_overflow(self.num_bits as nat);
            lemma_usize_shl_is_mul(1, self.num_bits);
            lemma_pow2_unfold(self.num_bits as nat);
            lemma_pow2_unfold((self.num_bits + 1) as nat);
            lemma_pow2_pos((self.num_bits - 1) as nat);
        }
        if self.buckets.len() == (1usize << self.num_bits) {
            if self.num_bits + 1 >= usize::BITS as usize {
                return;
            }
            self.num_bits += 1;
        }
        proof {
            lemma_usize_pow2_no_overflow((self.num_bits - 1) as nat);
            lemma_usize_shl_is_mul(1, (self.num_bits - 1) as usize);
        }
        let b_split = self.buckets.len() - (1usize << (self.num_bits - 1));
        self.buckets.push(Vec::new());
        let ghost pre = *old(self);
        let ghost len0 = pre.num_buckets();
        let ghost nb = self.num_bits as nat;
        let ghost orig = pre.buckets()[b_split as int];
        let ghost stays = |e: (usize, V)| bucket_of(e.0, nb, len0 + 1) == b_split;
        let ghost moves = |e: (usize, V)| bucket_of(e.0, nb, len0 + 1) != b_split;
        let ghost mut done: int = 0;
        proof {
            assert(b_split == pre.split_source());
            assert(orig == pre.buckets[b_split as int]@);
            assert forall|j: int| 0 <= j < orig.len() implies bucket_of(
                (#[trigger] orig[j]).0,
                nb,
                len0,
            ) == b_split by {
                assert(bucket_of(pre.buckets()[b_split as int][j].0, pre.num_bits(), len0)
                    == b_split);
                if len0 == pow2(pre.num_bits()) {
                    lemma_widen(orig[j].0, pre.num_bits(), len0);
                }
            }
            assert(orig.take(0) =~= Seq::<(usize, V)>::empty());
            assert(orig.skip(0) =~= orig);
            reveal(Seq::filter);
            assert(self.buckets[b_split as int]@ =~= orig.take(0).filter(stays) + orig.skip(0));
        }
        let mut i: usize = 0;
        while i < self.buckets[b_split].len()
            invariant
                self.num_bits == nb,
                self.num_items == pre.num_items,
                self.buckets.len() == len0 + 1,
                pre.buckets@.len() == len0,
                shaped(nb, len0 + 1),
                pow2((nb - 1) as nat) <= len0 < pow2(nb),
                b_split == len0 - pow2((nb - 1) as nat),
                orig == pre.buckets[b_split as int]@,
                forall|e: (usize, V)| #[trigger] stays(e) == (bucket_of(e.0, nb, len0 + 1) == b_split),
                forall|e: (usize, V)| #[trigger] moves(e) == (bucket_of(e.0, nb, len0 + 1) != b_split),
                forall|j: int|
                    0 <= j < orig.len() ==> bucket_of((#[trigger] orig[j]).0, nb, len0) == b_split,
                0 <= done <= orig.len(),
                i == orig.take(done).filter(stays).len(),
                self.buckets[b_split as int]@ == orig.take(done).filter(stays) + orig.skip(done),
                self.buckets[len0 as int]@ == orig.take(done).filter(moves),
                forall|b: int|
                    0 <= b < len0 && b != b_split ==> (#[trigger] self.buckets@[b]) == pre.buckets@[b],
            decreases orig.len() - done,
        {
            proof {
                reveal(Seq::filter);
                assert(self.buckets[b_split as int]@[i as int] == orig[done]);
                assert(orig.take(done + 1).drop_last() =~= orig.take(done));
                assert(orig.take(done + 1).last() == orig[done]);
                lemma_grow(orig[done].0, nb, len0);
            }
            let t = self.bucket(self.buckets[b_split][i].0);
            if t != b_split {
                let (k, v) = self.buckets[b_split].remove(i);
                self.buckets[t].push((k, v));
                proof {
                    assert(self.buckets[b_split as int]@ =~= orig.take(done + 1).filter(stays)
                        + orig.skip(done + 1));
                }
            } else {
                i += 1;
                proof {
                    assert(self.buckets[b_split as int]@ =~= orig.take(done + 1).filter(stays)
                        + orig.skip(done + 1));
                }
            }
            proof {
                done = done + 1;
            }
        }
        proof {
            assert(orig.take(done) =~= orig);
            assert(orig.skip(done) =~= Seq::<(usize, V)>::empty());
            assert(self.buckets[b_split as int]@ =~= orig.filter(stays));
            assert(self.buckets()[b_split as int] == self.buckets[b_split as int]@);
            assert(self.buckets()[len0 as int] == self.buckets[len0 as int]@);
            assert(stays =~= (|e: (usize, V)| self.bucket_index(e.0) == b_split));
            assert(moves =~= (|e: (usize, V)| self.bucket_index(e.0) != b_split));
            assert(stays =~= (|e: (usize, V)|
                bucket_of(e.0, self.num_bits(), self.num_buckets()) == b_split));
            assert(moves =~= (|e: (usize, V)|
                bucket_of(e.0, self.num_bits(), self.num_buckets()) != b_split));
            assert forall|b: int| 0 <= b < len0 && b != b_split implies #[trigger] self.buckets()[b]
                == pre.buckets()[b] by {
                assert(self.buckets@[b] == pre.buckets@[b]);
            }
            self.lemma_split_done(pre, b_split as int);
        }
    }

    /// Once a bucket's entries have been shared out, the table is sound and
    /// no key's values have changed.
    proof fn lemma_split_done(&self, pre: Self, src: int)
        requires
            pre.wf(),
            pre.can_grow(),
            src == pre.split_source(),
            self.len() == pre.len(),
            self.num_buckets() == pre.num_buckets() + 1,
            self.num_bits() == if pre.num_buckets() == pow2(pre.num_bits()) {
                pre.num_bits() + 1
            } else {
                pre.num_bits()
            },
            forall|b: int|
                0 <= b < pre.num_buckets() && b != src ==> #[trigger] self.buckets()[b]
                    == pre.buckets()[b],
            self.buckets()[src] == pre.buckets()[src].filter(
                |e: (usize, V)| bucket_of(e.0, self.num_bits(), self.num_buckets()) == src,
            ),
            self.buckets()[pre.num_buckets() as int] == pre.buckets()[src].filter(
                |e: (usize, V)| bucket_of(e.0, self.num_bits(), self.num_buckets()) != src,
            ),
        ensures
            self.wf(),
            forall|key: usize| self.values(key) == pre.values(key),
    {
        let nb = self.num_bits();
        let len0 = pre.num_buckets();
        let orig = pre.buckets()[src];
        let stay_key = |key: usize| bucket_of(key, nb, len0 + 1) == src;
        let move_key = |key: usize| bucket_of(key, nb, len0 + 1) != src;
        let stays = |e: (usize, V)| bucket_of(e.0, nb, len0 + 1) == src;
        let moves = |e: (usize, V)| bucket_of(e.0, nb, len0 + 1) != src;
        lemma_pow2_unfold(pre.num_bits());
        lemma_pow2_unfold(nb);
        lemma_pow2_pos((pre.num_bits() - 1) as nat);
        assert(stays =~= (|e: (usize, V)| stay_key(e.0)));
        assert(moves =~= (|e: (usize, V)| move_key(e.0)));
        lemma_filter_chosen(orig, stays);
        lemma_filter_chosen(orig, moves);
        assert forall|key: usize|
            bucket_of(key, nb, len0) == #[trigger] bucket_of(key, pre.num_bits(), len0) by {
            if len0 == pow2(pre.num_bits()) {
                lemma_widen(key, pre.num_bits(), len0);
            }
        }
        assert forall|b: int, i: int|
            0 <= b < self.num_buckets() && 0 <= i < self.buckets()[b].len() implies bucket_of(
            (#[trigger] self.buckets()[b][i]).0,
            nb,
            len0 + 1,
        ) == b by {
            let key = self.buckets()[b][i].0;
            if b == src {
                assert(stays(self.buckets()[b][i]));
            } else if b == len0 {
                let e = self.buckets()[b][i];
                assert(moves(e));
                assert(orig.filter(moves).contains(e));
                orig.lemma_filter_contains_rev(moves, e);
                let j = choose|j: int| 0 <= j < orig.len() && orig[j] == e;
                assert(bucket_of(pre.buckets()[src][j].0, pre.num_bits(), len0) == src);
                lemma_grow(key, nb, len0);
            } else {
                assert(self.buckets()[b][i] == pre.buckets()[b][i]);
                assert(bucket_of(pre.buckets()[b][i].0, pre.num_bits(), len0) == b);
                lemma_grow(key, nb, len0);
            }
        }
        assert(self.len() == sum(self.sizes())) by {
            Self::lemma_partition_len(orig, stays, moves);
            let mid = pre.sizes().update(src, orig.filter(stays).len());
            lemma_sum_update(pre.sizes(), src, orig.filter(stays).len());
            lemma_sum_push(mid, orig.filter(moves).len());
            assert(self.sizes() =~= mid.push(orig.filter(moves).len()));
        }
        assert forall|key: usize| self.values(key) == pre.values(key) by {
            lemma_grow(key, nb, len0);
            lemma_bucket_in_range(key, pre.num_bits(), len0);
            let t = bucket_of(key, pre.num_bits(), len0);
            assert(t == bucket_of(key, nb, len0));
            if t == src {
                lemma_values_filter(orig, stay_key, key);
                lemma_values_filter(orig, move_key, key);
            } else {
                assert(self.buckets()[t] == pre.buckets()[t]);
            }
        }
    }

    /// Each entry goes one way or the other.
    proof fn lemma_partition_len(
        bucket: Seq<(usize, V)>,
        stays: spec_fn((usize, V)) -> bool,
        moves: spec_fn((usize, V)) -> bool,
    )
        requires
            forall|e: (usize, V)| #[trigger] moves(e) == !stays(e),
        ensures
            bucket.filter(stays).len() + bucket.filter(moves).len() == bucket.len(),
        decreases bucket.len(),
    {
        reveal(Seq::filter);
        if bucket.len() > 0 {
            Self::lemma_partition_len(bucket.drop_last(), stays, moves);
        }
    }
}

} // verus!
