use vstd::prelude::*;
use crate::key::MapKey;

verus! {

/// Number of buckets allocated by the first insertion.
pub const INITIAL_SIZE: usize = 1024;

/// Index of the bucket that holds key `k` in a table of `n` buckets.
pub open spec fn slot_of<K: MapKey>(k: K::V, n: nat) -> int {
    (K::spec_hash(k) as nat % n) as int
}

/// `bs` (with `n` as the modulus) stores exactly the entries of `m`:
/// every entry sits in the bucket its key hashes to and agrees with `m`,
/// no chain holds a key twice, and every key of `m` is found in its bucket.
pub open spec fn represents<K: MapKey, V>(bs: Seq<Vec<(K, V)>>, n: nat, m: Map<K::V, V>) -> bool {
    &&& forall|i: int, j: int|
        0 <= i < bs.len() && 0 <= j < bs[i]@.len() ==> {
            let e = #[trigger] bs[i]@[j];
            &&& slot_of::<K>(e.0@, n) == i
            &&& m.contains_key(e.0@)
            &&& m[e.0@] == e.1
        }
    &&& forall|i: int, j1: int, j2: int|
        0 <= i < bs.len() && 0 <= j1 < bs[i]@.len() && 0 <= j2 < bs[i]@.len() && j1 != j2
            ==> #[trigger] bs[i]@[j1].0@ != #[trigger] bs[i]@[j2].0@
    &&& forall|k: K::V| #[trigger]
        m.contains_key(k) ==> {
            &&& 0 <= slot_of::<K>(k, n) < bs.len()
            &&& exists|j: int|
                0 <= j < bs[slot_of::<K>(k, n)]@.len() && #[trigger] bs[slot_of::<K>(k, n)]@[j].0@
                    == k
        }
}

/// The entries of the chains of `bs`, bucket after bucket, each chain in
/// storage order.
pub open spec fn flatten_chains<K, V>(bs: Seq<Vec<(K, V)>>) -> Seq<(K, V)>
    decreases bs.len(),
{
    if bs.len() == 0 {
        Seq::empty()
    } else {
        flatten_chains(bs.drop_last()) + bs.last()@
    }
}

/// No key occurs twice among the entries `s`.
pub open spec fn keys_distinct<K: View, V>(s: Seq<(K, V)>) -> bool {
    forall|i: int, j: int|
        0 <= i < s.len() && 0 <= j < s.len() && i != j ==> #[trigger] s[i].0@ != #[trigger] s[j].0@
}

/// Appending the next chain to a prefix of the buckets.
proof fn lemma_flatten_take_step<K, V>(bs: Seq<Vec<(K, V)>>, i: int)
    requires
        0 <= i < bs.len(),
    ensures
        flatten_chains(bs.take(i + 1)) == flatten_chains(bs.take(i)) + bs[i]@,
{
    assert(bs.take(i + 1).drop_last() =~= bs.take(i));
}

/// Entry `j` of chain `i` stands in the flattening right after the chains
/// before `i`.
proof fn lemma_flatten_index<K, V>(bs: Seq<Vec<(K, V)>>, i: int, j: int)
    requires
        0 <= i < bs.len(),
        0 <= j < bs[i]@.len(),
    ensures
        flatten_chains(bs.take(i)).len() + j < flatten_chains(bs).len(),
        flatten_chains(bs)[flatten_chains(bs.take(i)).len() + j] == bs[i]@[j],
    decreases bs.len(),
{
    if i == bs.len() - 1 {
        assert(bs.drop_last() =~= bs.take(i));
    } else {
        lemma_flatten_index(bs.drop_last(), i, j);
        assert(bs.drop_last().take(i) =~= bs.take(i));
    }
}

/// Every entry of a well-placed bucket array, once flattened, lies in a
/// bucket of the array and agrees with `m`, and no key occurs twice.
proof fn lemma_flatten_placed<K: MapKey, V>(bs: Seq<Vec<(K, V)>>, n: nat, m: Map<K::V, V>)
    requires
        forall|i: int, j: int|
            0 <= i < bs.len() && 0 <= j < bs[i]@.len() ==> {
                let e = #[trigger] bs[i]@[j];
                &&& slot_of::<K>(e.0@, n) == i
                &&& m.contains_key(e.0@)
                &&& m[e.0@] == e.1
            },
        forall|i: int, j1: int, j2: int|
            0 <= i < bs.len() && 0 <= j1 < bs[i]@.len() && 0 <= j2 < bs[i]@.len() && j1 != j2
                ==> #[trigger] bs[i]@[j1].0@ != #[trigger] bs[i]@[j2].0@,
    ensures
        keys_distinct(flatten_chains(bs)),
        forall|p: int|
            0 <= p < flatten_chains(bs).len() ==> {
                let e = #[trigger] flatten_chains(bs)[p];
                &&& 0 <= slot_of::<K>(e.0@, n) < bs.len()
                &&& m.contains_key(e.0@)
                &&& m[e.0@] == e.1
            },
    decreases bs.len(),
{
    if bs.len() > 0 {
        let init = bs.drop_last();
        let t = bs.len() - 1;
        assert forall|i: int, j: int| 0 <= i < init.len() && 0 <= j < init[i]@.len() implies
            #[trigger] init[i]@[j] == bs[i]@[j] by {}
        lemma_flatten_placed(init, n, m);
        let fi = flatten_chains(init);
        let f = flatten_chains(bs);
        assert(f == fi + bs[t]@);
        assert forall|p: int| 0 <= p < f.len() implies #[trigger] f[p] == (if p < fi.len() {
            fi[p]
        } else {
            bs[t]@[p - fi.len()]
        }) by {}
        assert forall|p1: int, p2: int|
            0 <= p1 < f.len() && 0 <= p2 < f.len() && p1 != p2 implies #[trigger] f[p1].0@
                != #[trigger] f[p2].0@ by {
            if p1 >= fi.len() && p2 >= fi.len() {
                assert(bs[t]@[p1 - fi.len()] == f[p1]);
                assert(bs[t]@[p2 - fi.len()] == f[p2]);
            } else if p1 >= fi.len() {
                assert(bs[t]@[p1 - fi.len()] == f[p1]);
                assert(fi[p2] == f[p2]);
            } else if p2 >= fi.len() {
                assert(bs[t]@[p2 - fi.len()] == f[p2]);
                assert(fi[p1] == f[p1]);
            } else {
                assert(fi[p1] == f[p1]);
                assert(fi[p2] == f[p2]);
            }
        }
        assert forall|p: int| 0 <= p < f.len() implies {
            let e = #[trigger] f[p];
            &&& 0 <= slot_of::<K>(e.0@, n) < bs.len()
            &&& m.contains_key(e.0@)
            &&& m[e.0@] == e.1
        } by {
            if p >= fi.len() {
                assert(bs[t]@[p - fi.len()] == f[p]);
            } else {
                assert(fi[p] == f[p]);
            }
        }
    }
}

/// Number of buckets after growing a table of `n` buckets: the initial
/// size for an unallocated table, twice as many otherwise (as long as that
/// count is representable).
pub open spec fn grown_capacity(n: nat) -> nat {
    if n == 0 {
        INITIAL_SIZE as nat
    } else if n * 2 <= usize::MAX {
        n * 2
    } else {
        n
    }
}

/// A map from keys to values, stored as an array of buckets with separate
/// chaining. The bucket array is allocated on the first insertion and
/// doubles whenever the number of entries reaches half the number of
/// buckets; it never shrinks.
pub struct HashMap<K: MapKey, V> {
    buckets: Vec<Vec<(K, V)>>,
    len: usize,
    model: Ghost<Map<K::V, V>>,
}

impl<K: MapKey, V> View for HashMap<K, V> {
    type V = Map<K::V, V>;

    closed spec fn view(&self) -> Map<K::V, V> {
        self.model@
    }
}

impl<K: MapKey, V> HashMap<K, V> {
    /// The table's invariant.
    pub closed spec fn wf(&self) -> bool {
        &&& self.model@.dom().finite()
        &&& self.len == self.model@.len()
        &&& represents(self.buckets@, self.buckets@.len(), self.model@)
        &&& self.buckets@.len() == 0 ==> self.len == 0
    }

    /// The entries in iteration order: bucket after bucket, each chain in
    /// storage order.
    pub closed spec fn entries(&self) -> Seq<(K, V)> {
        flatten_chains(self.buckets@)
    }

    /// The number of buckets.
    pub closed spec fn spec_capacity(&self) -> nat {
        self.buckets@.len()
    }

    /// Constructs an empty table; no bucket is allocated yet.
    pub fn new() -> (r: Self)
        ensures
            r.wf(),
            r@ == Map::<K::V, V>::empty(),
            r.spec_capacity() == 0,
    {
        HashMap { buckets: Vec::new(), len: 0, model: Ghost(Map::empty()) }
    }

    /// The number of buckets currently allocated.
    pub fn capacity(&self) -> (r: usize)
        ensures
            r == self.spec_capacity(),
    {
        self.buckets.len()
    }

    /// True when the table holds no mapping.
    pub fn is_empty(&self) -> (r: bool)
        requires
            self.wf(),
        ensures
            r == (self@.len() == 0),
    {
        self.len == 0
    }

    /// The number of key-value mappings.
    pub fn size(&self) -> (r: usize)
        requires
            self.wf(),
        ensures
            r == self@.len(),
    {
        self.len
    }

    /// The bucket index of `key` in a table of `length` buckets.
    fn calculate_hash(key: &K, length: usize) -> (r: usize)
        requires
            length > 0,
        ensures
            r < length,
            r == slot_of::<K>(key@, length as nat),
    {
        let h: u64 = key.key_hash();
        (h % (length as u64)) as usize
    }

    /// Position of `key` in `chain`, if it is there.
    fn find_in_chain(chain: &Vec<(K, V)>, key: &K) -> (r: Option<usize>)
        ensures
            match r {
                Some(j) => j < chain@.len() && chain@[j as int].0@ == key@,
                None => forall|j: int| 0 <= j < chain@.len() ==> chain@[j].0@ != key@,
            },
    {
        let mut j: usize = 0;
        while j < chain.len()
            invariant
                j <= chain@.len(),
                forall|jj: int| 0 <= jj < j ==> chain@[jj].0@ != key@,
            decreases chain@.len() - j,
        {
            if chain[j].0.key_eq(key) {
                return Some(j);
            }
            j = j + 1;
        }
        None
    }

    /// The value mapped to `key`, if any.
    pub fn get(&self, key: &K) -> (r: Option<&V>)
        requires
            self.wf(),
        ensures
            match r {
                Some(v) => self@.contains_key(key@) && *v == self@[key@],
                None => !self@.contains_key(key@),
            },
    {
        let n = self.buckets.len();
        if n == 0 {
            return None;
        }
        let idx = Self::calculate_hash(key, n);
        let chain = &self.buckets[idx];
        match Self::find_in_chain(chain, key) {
            Some(j) => {
                assert(self.buckets@[idx as int]@[j as int] == chain@[j as int]);
                Some(&chain[j].1)
            },
            None => None,
        }
    }

    /// True when `key` has a mapping.
    pub fn contains_key(&self, key: &K) -> (r: bool)
        requires
            self.wf(),
        ensures
            r == self@.contains_key(key@),
    {
        match self.get(key) {
            Some(_) => true,
            None => false,
        }
    }

    /// Adds `(key, val)` to its bucket, `key` being absent from the table.
    fn push_new(bs: &mut Vec<Vec<(K, V)>>, key: K, val: V, Ghost(m): Ghost<Map<K::V, V>>)
        requires
            old(bs)@.len() > 0,
            represents(old(bs)@, old(bs)@.len(), m),
            !m.contains_key(key@),
        ensures
            final(bs)@.len() == old(bs)@.len(),
            represents(final(bs)@, final(bs)@.len(), m.insert(key@, val)),
    {
        let n = bs.len();
        let idx = Self::calculate_hash(&key, n);
        let ghost k = key@;
        let ghost v = val;
        let ghost ob = bs@;
        bs[idx].push((key, val));
        proof {
            let m2 = m.insert(k, v);
            let nb = bs@;
            assert forall|i: int, j: int|
                0 <= i < nb.len() && 0 <= j < nb[i]@.len() && (i != idx || j < ob[i]@.len()) implies
                #[trigger] nb[i]@[j] == ob[i]@[j] by {
                if i == idx {
                    assert(nb[i]@ == ob[i]@.push((key, val)));
                }
            }
            assert(nb[idx as int]@[ob[idx as int]@.len() as int].0@ == k);
            assert forall|kk: K::V| #[trigger] m2.contains_key(kk) implies {
                &&& 0 <= slot_of::<K>(kk, n as nat) < nb.len()
                &&& exists|j: int|
                    0 <= j < nb[slot_of::<K>(kk, n as nat)]@.len() && #[trigger] nb[slot_of::<K>(
                        kk,
                        n as nat,
                    )]@[j].0@ == kk
            } by {
                if kk == k {
                    assert(nb[idx as int]@[ob[idx as int]@.len() as int].0@ == kk);
                } else {
                    assert(m.contains_key(kk));
                    let s = slot_of::<K>(kk, n as nat);
                    let j = choose|j: int| 0 <= j < ob[s]@.len() && #[trigger] ob[s]@[j].0@ == kk;
                    assert(nb[s]@[j] == ob[s]@[j]);
                }
            }
        }
    }

    /// Grows the bucket array (see `grown_capacity`) and moves every entry
    /// to the bucket its key hashes to under the new size.
    fn resize(&mut self)
        requires
            old(self).wf(),
        ensures
            final(self).wf(),
            final(self)@ == old(self)@,
            final(self).spec_capacity() == grown_capacity(old(self).spec_capacity()),
    {
        let n = self.buckets.len();
        let target: usize = if n == 0 {
            INITIAL_SIZE
        } else if n <= usize::MAX / 2 {
            2 * n
        } else {
            return ;
        };
        let mut nb: Vec<Vec<(K, V)>> = Vec::with_capacity(target);
        let mut i: usize = 0;
        while i < target
            invariant
                nb@.len() == i,
                i <= target,
                forall|ii: int| 0 <= ii < i ==> (#[trigger] nb@[ii])@.len() == 0,
            decreases target - i,
        {
            nb.push(Vec::new());
            i = i + 1;
        }
        let ghost m = self.model@;
        let mut old_b: Vec<Vec<(K, V)>> = Vec::new();
        std::mem::swap(&mut self.buckets, &mut old_b);
        // Drain every bucket into one list.
        let mut flat: Vec<(K, V)> = Vec::new();
        while old_b.len() > 0
            invariant
                old_b@.len() <= n,
                forall|i: int, j: int|
                    0 <= i < old_b@.len() && 0 <= j < old_b@[i]@.len() ==> {
                        let e = #[trigger] old_b@[i]@[j];
                        &&& slot_of::<K>(e.0@, n as nat) == i
                        &&& m.contains_key(e.0@)
                        &&& m[e.0@] == e.1
                    },
                forall|i: int, j1: int, j2: int|
                    0 <= i < old_b@.len() && 0 <= j1 < old_b@[i]@.len() && 0 <= j2
                        < old_b@[i]@.len() && j1 != j2 ==> #[trigger] old_b@[i]@[j1].0@
                        != #[trigger] old_b@[i]@[j2].0@,
                forall|j: int|
                    0 <= j < flat@.len() ==> {
                        let e = #[trigger] flat@[j];
                        &&& slot_of::<K>(e.0@, n as nat) >= old_b@.len()
                        &&& m.contains_key(e.0@)
                        &&& m[e.0@] == e.1
                    },
                forall|j1: int, j2: int|
                    0 <= j1 < flat@.len() && 0 <= j2 < flat@.len() && j1 != j2
                        ==> #[trigger] flat@[j1].0@ != #[trigger] flat@[j2].0@,
                forall|k: K::V| #[trigger]
                    m.contains_key(k) ==> {
                        ||| (0 <= slot_of::<K>(k, n as nat) < old_b@.len() && exists|j: int|
                            0 <= j < old_b@[slot_of::<K>(k, n as nat)]@.len()
                                && #[trigger] old_b@[slot_of::<K>(k, n as nat)]@[j].0@ == k)
                        ||| exists|j: int| 0 <= j < flat@.len() && #[trigger] flat@[j].0@ == k
                    },
            decreases old_b@.len(),
        {
            let ghost ob = old_b@;
            let ghost of = flat@;
            let mut b = old_b.pop().unwrap();
            let ghost t = old_b@.len() as int;
            assert(b@ == ob[t]@);
            flat.append(&mut b);
            proof {
                assert(flat@ == of + ob[t]@);
                assert forall|i: int| 0 <= i < old_b@.len() implies #[trigger] old_b@[i] == ob[i] by {}
                assert forall|j: int| 0 <= j < flat@.len() implies #[trigger] flat@[j] == (if j
                    < of.len() {
                    of[j]
                } else {
                    ob[t]@[j - of.len()]
                }) by {}
                assert forall|j1: int, j2: int|
                    0 <= j1 < flat@.len() && 0 <= j2 < flat@.len() && j1 != j2 implies #[trigger] flat@[j1].0@
                        != #[trigger] flat@[j2].0@ by {
                    if j1 >= of.len() && j2 >= of.len() {
                        assert(ob[t]@[j1 - of.len()] == flat@[j1]);
                        assert(ob[t]@[j2 - of.len()] == flat@[j2]);
                    } else if j1 >= of.len() {
                        assert(ob[t]@[j1 - of.len()] == flat@[j1]);
                    } else if j2 >= of.len() {
                        assert(ob[t]@[j2 - of.len()] == flat@[j2]);
                    }
                }
                assert forall|k: K::V| #[trigger] m.contains_key(k) implies {
                    ||| (0 <= slot_of::<K>(k, n as nat) < old_b@.len() && exists|j: int|
                        0 <= j < old_b@[slot_of::<K>(k, n as nat)]@.len()
                            && #[trigger] old_b@[slot_of::<K>(k, n as nat)]@[j].0@ == k)
                    ||| exists|j: int| 0 <= j < flat@.len() && #[trigger] flat@[j].0@ == k
                } by {
                    let s = slot_of::<K>(k, n as nat);
                    if 0 <= s < ob.len() && exists|j: int|
                        0 <= j < ob[s]@.len() && #[trigger] ob[s]@[j].0@ == k {
                        let j = choose|j: int| 0 <= j < ob[s]@.len() && #[trigger] ob[s]@[j].0@ == k;
                        if s == t {
                            assert(flat@[of.len() + j] == ob[t]@[j]);
                        } else {
                            assert(old_b@[s]@[j] == ob[s]@[j]);
                        }
                    } else {
                        let j = choose|j: int| 0 <= j < of.len() && #[trigger] of[j].0@ == k;
                        assert(flat@[j] == of[j]);
                    }
                }
            }
        }
        // Place each drained entry in the new bucket array.
        let ghost mut done: Map<K::V, V> = Map::empty();
        while flat.len() > 0
            invariant
                target > 0,
                nb@.len() == target,
                represents(nb@, target as nat, done),
                forall|k: K::V| #[trigger]
                    m.contains_key(k) ==> done.contains_key(k) || exists|j: int|
                        0 <= j < flat@.len() && #[trigger] flat@[j].0@ == k,
                forall|k: K::V| #[trigger]
                    done.contains_key(k) ==> m.contains_key(k) && done[k] == m[k],
                forall|j: int|
                    0 <= j < flat@.len() ==> {
                        let e = #[trigger] flat@[j];
                        &&& !done.contains_key(e.0@)
                        &&& m.contains_key(e.0@)
                        &&& m[e.0@] == e.1
                    },
                forall|j1: int, j2: int|
                    0 <= j1 < flat@.len() && 0 <= j2 < flat@.len() && j1 != j2
                        ==> #[trigger] flat@[j1].0@ != #[trigger] flat@[j2].0@,
            decreases flat@.len(),
        {
            let ghost of = flat@;
            let (k, v) = flat.pop().unwrap();
            let ghost gk = k@;
            let ghost gv = v;
            proof {
                assert((k, v) == of[of.len() - 1]);
                assert forall|j: int| 0 <= j < flat@.len() implies #[trigger] flat@[j] == of[j] by {}
            }
            Self::push_new(&mut nb, k, v, Ghost(done));
            proof {
                let d2 = done.insert(gk, gv);
                assert forall|kk: K::V| #[trigger] m.contains_key(kk) implies d2.contains_key(kk)
                    || exists|j: int| 0 <= j < flat@.len() && #[trigger] flat@[j].0@ == kk by {
                    if !done.contains_key(kk) && kk != gk {
                        let j = choose|j: int| 0 <= j < of.len() && #[trigger] of[j].0@ == kk;
                        assert(j != of.len() - 1);
                        assert(flat@[j] == of[j]);
                    }
                }
                assert forall|j: int| 0 <= j < flat@.len() implies !d2.contains_key(
                    (#[trigger] flat@[j]).0@,
                ) by {
                    assert(flat@[j] == of[j]);
                    assert(of[j].0@ != of[of.len() - 1].0@);
                }
                done = d2;
            }
        }
        proof {
            assert(done =~= m);
        }
        self.buckets = nb;
    }

    /// Maps `key` to `val`, replacing the value of an existing mapping.
    /// The bucket array grows first when it is unallocated or when the
    /// number of entries has reached half the number of buckets.
    pub fn put(&mut self, key: K, val: V)
        requires
            old(self).wf(),
            old(self)@.contains_key(key@) || old(self)@.len() < usize::MAX,
        ensures
            final(self).wf(),
            final(self)@ == old(self)@.insert(key@, val),
            final(self).spec_capacity() == if old(self).spec_capacity() == 0 || old(self)@.len()
                >= old(self).spec_capacity() / 2 {
                grown_capacity(old(self).spec_capacity())
            } else {
                old(self).spec_capacity()
            },
    {
        if self.buckets.len() == 0 || self.len >= self.buckets.len() / 2 {
            self.resize();
        }
        let n = self.buckets.len();
        let idx = Self::calculate_hash(&key, n);
        let ghost k = key@;
        let ghost v = val;
        let ghost m = self.model@;
        let ghost ob = self.buckets@;
        match Self::find_in_chain(&self.buckets[idx], &key) {
            Some(j) => {
                self.buckets[idx][j].1 = val;
                proof {
                    let m2 = m.insert(k, v);
                    let nb = self.buckets@;
                    assert forall|i: int, jj: int| 0 <= i < nb.len() && 0 <= jj < nb[i]@.len() implies
                        #[trigger] nb[i]@[jj] == (if i == idx && jj == j {
                        (ob[i]@[jj].0, v)
                    } else {
                        ob[i]@[jj]
                    }) by {}
                    assert forall|i: int, jj: int| 0 <= i < nb.len() && 0 <= jj < nb[i]@.len() && !(i == idx && jj == j) implies
                        (#[trigger] nb[i]@[jj]).0@ != k by {
                        assert(ob[i]@[jj] == nb[i]@[jj]);
                        if i == idx {
                            assert(ob[i]@[j as int].0@ == k);
                        }
                    }
                    assert forall|kk: K::V| #[trigger] m2.contains_key(kk) implies {
                        &&& 0 <= slot_of::<K>(kk, n as nat) < nb.len()
                        &&& exists|jj: int|
                            0 <= jj < nb[slot_of::<K>(kk, n as nat)]@.len() && #[trigger] nb[slot_of::<K>(
                                kk,
                                n as nat,
                            )]@[jj].0@ == kk
                    } by {
                        let s = slot_of::<K>(kk, n as nat);
                        let jj = choose|jj: int| 0 <= jj < ob[s]@.len() && #[trigger] ob[s]@[jj].0@ == kk;
                        if s == idx && jj == j {
                            assert(nb[s]@[jj].0@ == kk);
                        } else {
                            assert(nb[s]@[jj] == ob[s]@[jj]);
                        }
                    }
                }
                self.model = Ghost(self.model@.insert(k, v));
            },
            None => {
                proof {
                    if m.contains_key(k) {
                        let jj = choose|jj: int| 0 <= jj < ob[idx as int]@.len() && #[trigger] ob[idx as int]@[jj].0@ == k;
                    }
                }
                Self::push_new(&mut self.buckets, key, val, self.model);
                self.len = self.len + 1;
                self.model = Ghost(self.model@.insert(k, v));
            },
        }
    }

    /// Removes the mapping of `key` and returns its value, if there was one.
    /// The last entry of the bucket takes the removed entry's place.
    pub fn remove(&mut self, key: &K) -> (r: Option<V>)
        requires
            old(self).wf(),
        ensures
            final(self).wf(),
            final(self)@ == old(self)@.remove(key@),
            final(self).spec_capacity() == old(self).spec_capacity(),
            match r {
                Some(v) => old(self)@.contains_key(key@) && v == old(self)@[key@],
                None => !old(self)@.contains_key(key@),
            },
    {
        let ghost m = self.model@;
        let ghost k = key@;
        if self.len == 0 {
            proof {
                assert(m.remove(k) =~= m);
            }
            return None;
        }
        let n = self.buckets.len();
        let idx = Self::calculate_hash(key, n);
        let ghost ob = self.buckets@;
        match Self::find_in_chain(&self.buckets[idx], key) {
            Some(j) => {
                let e = self.buckets[idx].swap_remove(j);
                self.len = self.len - 1;
                proof {
                    let m2 = m.remove(k);
                    let nb = self.buckets@;
                    let oc = ob[idx as int]@;
                    let last = oc.len() - 1;
                    assert(e == oc[j as int]);
                    assert forall|i: int, jj: int| 0 <= i < nb.len() && 0 <= jj < nb[i]@.len() implies
                        #[trigger] nb[i]@[jj] == (if i == idx && jj == j {
                        oc[last]
                    } else {
                        ob[i]@[jj]
                    }) && (i == idx ==> jj < last) by {}
                    assert forall|i: int, jj: int| 0 <= i < nb.len() && 0 <= jj < nb[i]@.len() implies
                        (#[trigger] nb[i]@[jj]).0@ != k by {
                        if i == idx {
                            assert(oc[j as int].0@ == k);
                        } else {
                            assert(ob[i]@[jj] == nb[i]@[jj]);
                        }
                    }
                    assert forall|i: int, j1: int, j2: int|
                        0 <= i < nb.len() && 0 <= j1 < nb[i]@.len() && 0 <= j2 < nb[i]@.len() && j1 != j2
                        implies #[trigger] nb[i]@[j1].0@ != #[trigger] nb[i]@[j2].0@ by {
                        let o1 = if i == idx && j1 == j { last } else { j1 };
                        let o2 = if i == idx && j2 == j { last } else { j2 };
                        assert(nb[i]@[j1] == ob[i]@[o1]);
                        assert(nb[i]@[j2] == ob[i]@[o2]);
                    }
                    assert forall|kk: K::V| #[trigger] m2.contains_key(kk) implies {
                        &&& 0 <= slot_of::<K>(kk, n as nat) < nb.len()
                        &&& exists|jj: int|
                            0 <= jj < nb[slot_of::<K>(kk, n as nat)]@.len() && #[trigger] nb[slot_of::<K>(
                                kk,
                                n as nat,
                            )]@[jj].0@ == kk
                    } by {
                        let s = slot_of::<K>(kk, n as nat);
                        let jj = choose|jj: int| 0 <= jj < ob[s]@.len() && #[trigger] ob[s]@[jj].0@ == kk;
                        if s == idx {
                            assert(jj != j);
                            if jj == last {
                                assert(nb[s]@[j as int] == oc[last]);
                            } else {
                                assert(nb[s]@[jj] == ob[s]@[jj]);
                            }
                        } else {
                            assert(nb[s]@[jj] == ob[s]@[jj]);
                        }
                    }
                }
                self.model = Ghost(self.model@.remove(k));
                Some(e.1)
            },
            None => {
                proof {
                    if m.contains_key(k) {
                        let jj = choose|jj: int| 0 <= jj < ob[idx as int]@.len() && #[trigger] ob[idx as int]@[jj].0@ == k;
                    }
                    assert(m.remove(k) =~= m);
                }
                None
            },
        }
    }

    /// The entries of the table hold each of its mappings exactly once:
    /// as many entries as mappings, no key twice, every entry agreeing with
    /// the map, and every key of the map among them.
    pub proof fn lemma_entries_exact(&self)
        requires
            self.wf(),
        ensures
            self.entries().len() == self@.len(),
            keys_distinct(self.entries()),
            forall|p: int|
                0 <= p < self.entries().len() ==> {
                    let e = #[trigger] self.entries()[p];
                    self@.contains_key(e.0@) && self@[e.0@] == e.1
                },
            forall|k: K::V| #[trigger]
                self@.contains_key(k) ==> exists|p: int|
                    0 <= p < self.entries().len() && #[trigger] self.entries()[p].0@ == k,
    {
        let bs = self.buckets@;
        let n = bs.len();
        let m = self.model@;
        let f = flatten_chains(bs);
        lemma_flatten_placed(bs, n, m);
        assert forall|k: K::V| #[trigger] m.contains_key(k) implies exists|p: int|
            0 <= p < f.len() && #[trigger] f[p].0@ == k by {
            let s = slot_of::<K>(k, n);
            let j = choose|j: int| 0 <= j < bs[s]@.len() && #[trigger] bs[s]@[j].0@ == k;
            lemma_flatten_index(bs, s, j);
        }
        let ks = f.map_values(|e: (K, V)| e.0@);
        assert forall|i: int, j: int| 0 <= i < ks.len() && 0 <= j < ks.len() && i != j implies
            ks[i] != ks[j] by {
            assert(ks[i] == f[i].0@);
            assert(ks[j] == f[j].0@);
        }
        ks.unique_seq_to_set();
        assert forall|k: K::V| #[trigger] ks.to_set().contains(k) == m.dom().contains(k) by {
            if m.dom().contains(k) {
                let p = choose|p: int| 0 <= p < f.len() && #[trigger] f[p].0@ == k;
                assert(ks[p] == k);
            }
            if ks.to_set().contains(k) {
                let p = choose|p: int| 0 <= p < ks.len() && ks[p] == k;
                assert(f[p].0@ == k);
            }
        }
        assert(ks.to_set() =~= m.dom());
    }

    /// An iterator over the mappings, yielding references to each key and
    /// its value.
    pub fn iter(&self) -> (r: Iter<'_, K, V>)
        requires
            self.wf(),
        ensures
            r.wf(),
            r.items() == self.entries(),
            r.position() == 0,
    {
        let r = Iter { map: self, outer: 0, inner: 0 };
        proof {
            assert(self.buckets@.take(0) =~= Seq::<Vec<(K, V)>>::empty());
        }
        r
    }
}

/// A single pass over the entries of a table, bucket after bucket.
/// The table cannot change while the iterator lives.
pub struct Iter<'a, K: MapKey, V> {
    map: &'a HashMap<K, V>,
    outer: usize,
    inner: usize,
}

impl<'a, K: MapKey, V> Iter<'a, K, V> {
    /// The iterator's bounds: the current bucket exists, or the walk is over.
    pub closed spec fn wf(&self) -> bool {
        &&& self.outer <= self.map.buckets@.len()
        &&& self.outer < self.map.buckets@.len() ==> self.inner <= self.map.buckets@[self.outer as int]@.len()
        &&& self.outer == self.map.buckets@.len() ==> self.inner == 0
    }

    /// The entries this iterator walks, in order.
    pub closed spec fn items(&self) -> Seq<(K, V)> {
        self.map.entries()
    }

    /// The number of entries already yielded.
    pub closed spec fn position(&self) -> int {
        flatten_chains(self.map.buckets@.take(self.outer as int)).len() + self.inner
    }

    /// Yields the next entry, or `None` once all have been visited.
    pub fn next(&mut self) -> (r: Option<(&'a K, &'a V)>)
        requires
            old(self).wf(),
        ensures
            final(self).wf(),
            final(self).items() == old(self).items(),
            old(self).position() <= old(self).items().len(),
            old(self).position() < old(self).items().len() ==> {
                &&& r == Some(
                    (
                        &old(self).items()[old(self).position()].0,
                        &old(self).items()[old(self).position()].1,
                    ),
                )
                &&& final(self).position() == old(self).position() + 1
            },
            old(self).position() == old(self).items().len() ==> {
                &&& r is None
                &&& final(self).position() == old(self).position()
            },
    {
        let map: &'a HashMap<K, V> = self.map;
        let ghost bs = map.buckets@;
        loop
            invariant
                self.wf(),
                self.map == map,
                old(self).map == map,
                bs == map.buckets@,
                self.position() == old(self).position(),
            decreases bs.len() - self.outer,
        {
            if self.outer >= map.buckets.len() {
                proof {
                    assert(bs.take(self.outer as int) =~= bs);
                }
                return None;
            }
            let chain = &map.buckets[self.outer];
            if self.inner < chain.len() {
                let e = &chain[self.inner];
                proof {
                    lemma_flatten_index(bs, self.outer as int, self.inner as int);
                }
                self.inner = self.inner + 1;
                return Some((&e.0, &e.1));
            }
            proof {
                lemma_flatten_take_step(bs, self.outer as int);
            }
            self.outer = self.outer + 1;
            self.inner = 0;
        }
    }
}

/// Some pair of `s` has key `k`.
pub open spec fn has_key<KV, V>(s: Seq<(KV, V)>, k: KV) -> bool {
    exists|i: int| 0 <= i < s.len() && s[i].0 == k
}

/// The map obtained from `m` by inserting the pairs of `s` one after the
/// other, as a run of `put` calls does.
pub open spec fn insert_all<KV, V>(m: Map<KV, V>, s: Seq<(KV, V)>) -> Map<KV, V>
    decreases s.len(),
{
    if s.len() == 0 {
        m
    } else {
        insert_all(m, s.drop_last()).insert(s.last().0, s.last().1)
    }
}

/// A new table is empty: it holds no mapping, so it has size zero, and both
/// `get` and `remove` find nothing, whatever the key.
pub proof fn lemma_new_is_empty<K: MapKey, V>(t: &HashMap<K, V>, k: K::V)
    requires
        t.wf(),
        t@ == Map::<K::V, V>::empty(),
    ensures
        t@.len() == 0,
        !t@.contains_key(k),
        t@.remove(k) == t@,
{
    assert(t@.remove(k) =~= t@);
}

/// After `put(k, v)`, `get(k)` returns `v`.
pub proof fn lemma_put_then_get<K: MapKey, V>(before: &HashMap<K, V>, after: &HashMap<K, V>, k: K::V, v: V)
    requires
        before.wf(),
        after@ == before@.insert(k, v),
    ensures
        after@.contains_key(k),
        after@[k] == v,
{
}

/// A second `put` on the same key replaces the value without adding an
/// entry: the size stays what it was after the first.
pub proof fn lemma_put_twice<K: MapKey, V>(
    before: &HashMap<K, V>,
    mid: &HashMap<K, V>,
    after: &HashMap<K, V>,
    k: K::V,
    v1: V,
    v2: V,
)
    requires
        before.wf(),
        mid@ == before@.insert(k, v1),
        after@ == mid@.insert(k, v2),
    ensures
        after@.contains_key(k),
        after@[k] == v2,
        after@.len() == mid@.len(),
        after@ == before@.insert(k, v2),
{
    assert(after@.dom() =~= mid@.dom());
    assert(after@ =~= before@.insert(k, v2));
}

/// After `put(k, v)`, `remove(k)` returns `v`, and then neither `get` nor
/// `contains_key` finds `k`.
pub proof fn lemma_put_then_remove<K: MapKey, V>(
    before: &HashMap<K, V>,
    mid: &HashMap<K, V>,
    after: &HashMap<K, V>,
    k: K::V,
    v: V,
)
    requires
        before.wf(),
        mid@ == before@.insert(k, v),
        after@ == mid@.remove(k),
    ensures
        mid@.contains_key(k),
        mid@[k] == v,
        !after@.contains_key(k),
{
}

/// Removing a key that has no mapping leaves the table as it was, size
/// included.
pub proof fn lemma_remove_absent<K: MapKey, V>(before: &HashMap<K, V>, after: &HashMap<K, V>, k: K::V)
    requires
        before.wf(),
        !before@.contains_key(k),
        after@ == before@.remove(k),
    ensures
        after@ == before@,
        after@.len() == before@.len(),
{
    assert(after@ =~= before@);
}

/// A run of `put` calls with distinct keys leaves every one of those keys
/// mapped to its value, and every other key as it was, however many times
/// the bucket array grew meanwhile.
pub proof fn lemma_puts_keep_all<K: MapKey, V>(before: &HashMap<K, V>, after: &HashMap<K, V>, s: Seq<(K::V, V)>)
    requires
        before.wf(),
        after@ == insert_all(before@, s),
        forall|i: int, j: int| 0 <= i < s.len() && 0 <= j < s.len() && i != j ==> #[trigger] s[i].0 != #[trigger] s[j].0,
    ensures
        forall|i: int| 0 <= i < s.len() ==> after@.contains_key(#[trigger] s[i].0) && after@[s[i].0] == s[i].1,
        forall|k: K::V|
            !has_key(s, k) ==> (#[trigger] after@.contains_key(k) == before@.contains_key(k) && (
            before@.contains_key(k) ==> after@[k] == before@[k])),
{
    lemma_insert_all(before@, s);
}

proof fn lemma_insert_all<KV, V>(m: Map<KV, V>, s: Seq<(KV, V)>)
    requires
        forall|i: int, j: int| 0 <= i < s.len() && 0 <= j < s.len() && i != j ==> #[trigger] s[i].0 != #[trigger] s[j].0,
    ensures
        forall|i: int| 0 <= i < s.len() ==> insert_all(m, s).contains_key(#[trigger] s[i].0) && insert_all(m, s)[s[i].0] == s[i].1,
        forall|k: KV|
            !has_key(s, k) ==> (#[trigger] insert_all(m, s).contains_key(k) == m.contains_key(k) && (
            m.contains_key(k) ==> insert_all(m, s)[k] == m[k])),
    decreases s.len(),
{
    if s.len() > 0 {
        let init = s.drop_last();
        assert forall|i: int, j: int| 0 <= i < init.len() && 0 <= j < init.len() && i != j implies
            #[trigger] init[i].0 != #[trigger] init[j].0 by {
            assert(init[i] == s[i]);
            assert(init[j] == s[j]);
        }
        lemma_insert_all(m, init);
        assert forall|i: int| 0 <= i < s.len() implies insert_all(m, s).contains_key(#[trigger] s[i].0)
            && insert_all(m, s)[s[i].0] == s[i].1 by {
            if i < s.len() - 1 {
                assert(init[i] == s[i]);
                assert(s[i].0 != s[s.len() - 1].0);
            }
        }
        assert forall|k: KV| !has_key(s, k) implies (#[trigger] insert_all(m, s).contains_key(k)
            == m.contains_key(k) && (m.contains_key(k) ==> insert_all(m, s)[k] == m[k])) by {
            assert(s[s.len() - 1].0 != k);
            if has_key(init, k) {
                let i = choose|i: int| 0 <= i < init.len() && init[i].0 == k;
                assert(s[i] == init[i]);
            }
            assert(insert_all(m, s) == insert_all(m, init).insert(s.last().0, s.last().1));
            assert(insert_all(m, init).contains_key(k) == m.contains_key(k));
        }
    }
}

} // verus!
