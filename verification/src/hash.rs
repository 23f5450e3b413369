//! Minimal multiply-xor hasher for `u64` order ids, and the id index built on it.
//!
//! Order ids are engine-internal, so a fast non-cryptographic mix (a
//! SplitMix64 finalizer) is the right trade-off on the hot path.
use std::hash::Hasher;
use vstd::arithmetic::div_mod::{
    lemma_mul_mod_noop_left, lemma_mul_mod_noop_right, lemma_small_mod,
};
use vstd::prelude::*;

verus! {

/// SplitMix64 finalizer: full avalanche in three multiply-xor rounds.
pub open spec fn splitmix(n: u64) -> u64 {
    let z0 = n.wrapping_add(0x9E37_79B9_7F4A_7C15);
    let z1 = (z0 ^ (z0 >> 30u64)).wrapping_mul(0xBF58_476D_1CE4_E5B9);
    let z2 = (z1 ^ (z1 >> 27u64)).wrapping_mul(0x94D0_49BB_1331_11EB);
    z2 ^ (z2 >> 31u64)
}

/// Folds bytes into a state, rotating it left by one byte before each.
pub open spec fn fold_bytes(state: u64, bytes: Seq<u8>) -> u64
    decreases bytes.len(),
{
    if bytes.len() == 0 {
        state
    } else {
        let s = fold_bytes(state, bytes.drop_last());
        ((s << 8u64) | (s >> 56u64)) ^ (bytes.last() as u64)
    }
}

/// Hasher for order ids.
pub struct IdHasher {
    state: u64,
}

impl Default for IdHasher {
    fn default() -> (hasher: Self)
        ensures
            hasher.state() == 0,
    {
        IdHasher { state: 0 }
    }
}

impl IdHasher {
    pub closed spec fn state(&self) -> u64 {
        self.state
    }
}

impl Hasher for IdHasher {
    fn write_u64(&mut self, n: u64)
        ensures
            final(self).state() == splitmix(n),
    {
        let mut z: u64 = n.wrapping_add(0x9E37_79B9_7F4A_7C15);
        z = (z ^ (z >> 30u64)).wrapping_mul(0xBF58_476D_1CE4_E5B9);
        z = (z ^ (z >> 27u64)).wrapping_mul(0x94D0_49BB_1331_11EB);
        self.state = z ^ (z >> 31u64);
    }

    /// Only u64 keys are expected; anything else is folded first.
    fn write(&mut self, bytes: &[u8])
        ensures
            final(self).state() == splitmix(fold_bytes(old(self).state(), bytes@)),
    {
        let mut i: usize = 0;
        while i < bytes.len()
            invariant
                i <= bytes@.len(),
                self.state == fold_bytes(old(self).state, bytes@.take(i as int)),
            decreases bytes@.len() - i,
        {
            let s: u64 = self.state;
            proof {
                assert(bytes@.take(i + 1).drop_last() =~= bytes@.take(i as int));
            }
            self.state = ((s << 8u64) | (s >> 56u64)) ^ (bytes[i] as u64);
            i = i + 1;
        }
        proof {
            assert(bytes@.take(i as int) =~= bytes@);
        }
        let s: u64 = self.state;
        self.write_u64(s);
    }

    fn finish(&self) -> (hash: u64)
        ensures
            hash == self.state(),
    {
        self.state
    }
}

/// Bucket of an id in a table of `n` buckets.
pub open spec fn slot(id: u64, n: nat) -> int {
    splitmix(id) as int % n as int
}

/// Map from order ids to small values: a table of buckets picked by
/// [`IdHasher`], doubled whenever it holds more entries than buckets.
pub struct IdMap<V> {
    buckets: Vec<Vec<(u64, V)>>,
    len: usize,
    map: Ghost<Map<u64, V>>,
}

impl<V> View for IdMap<V> {
    type V = Map<u64, V>;

    closed spec fn view(&self) -> Map<u64, V> {
        self.map@
    }
}

/// No id occurs twice in a bucket.
spec fn distinct<V>(bucket: Seq<(u64, V)>) -> bool {
    forall|i: int, j: int|
        0 <= i < j < bucket.len() ==> (#[trigger] bucket[i]).0 != (#[trigger] bucket[j]).0
}

/// Every entry of bucket `b` belongs there and agrees with the map.
spec fn sound<V>(bucket: Seq<(u64, V)>, b: int, n: nat, map: Map<u64, V>) -> bool {
    forall|i: int|
        0 <= i < bucket.len() ==> {
            &&& slot((#[trigger] bucket[i]).0, n) == b
            &&& map.contains_key(bucket[i].0)
            &&& map[bucket[i].0] == bucket[i].1
        }
}

/// The bucket has an entry for the id.
spec fn lists_id<V>(bucket: Seq<(u64, V)>, id: u64) -> bool {
    exists|i: int| 0 <= i < bucket.len() && (#[trigger] bucket[i]).0 == id
}

/// Position of an id in a bucket.
fn position<V: Copy>(bucket: &Vec<(u64, V)>, id: u64) -> (at: Option<usize>)
    ensures
        match at {
            Some(i) => i < bucket@.len() && bucket@[i as int].0 == id,
            None => !lists_id(bucket@, id),
        },
{
    let mut i: usize = 0;
    while i < bucket.len()
        invariant
            i <= bucket@.len(),
            forall|j: int| 0 <= j < i ==> (#[trigger] bucket@[j]).0 != id,
        decreases bucket@.len() - i,
    {
        if bucket[i].0 == id {
            return Some(i);
        }
        i = i + 1;
    }
    None
}

impl<V: Copy> IdMap<V> {
    /// Number of buckets of the table.
    pub closed spec fn width(&self) -> nat {
        self.buckets@.len()
    }

    pub closed spec fn wf(&self) -> bool {
        let n = self.buckets@.len();
        &&& n > 0
        &&& self.map@.dom().finite()
        &&& self.len == self.map@.dom().len()
        &&& forall|b: int|
            0 <= b < n ==> {
                &&& distinct((#[trigger] self.buckets@[b])@)
                &&& sound(self.buckets@[b]@, b, n, self.map@)
            }
        &&& forall|id: u64| #[trigger]
            self.map@.contains_key(id) ==> lists_id(self.buckets@[slot(id, n)]@, id)
    }

    /// An empty map with a bucket for each of `capacity` entries, and at
    /// least one.
    pub fn with_capacity(capacity: usize) -> (map: Self)
        ensures
            map.wf(),
            map@ == Map::<u64, V>::empty(),
            map.width() == (if capacity == 0 {
                1
            } else {
                capacity as nat
            }),
    {
        let n: usize = if capacity == 0 {
            1
        } else {
            capacity
        };
        let mut buckets: Vec<Vec<(u64, V)>> = Vec::with_capacity(n);
        let mut i: usize = 0;
        while i < n
            invariant
                i <= n,
                buckets@.len() == i,
                forall|b: int| 0 <= b < i ==> (#[trigger] buckets@[b])@.len() == 0,
            decreases n - i,
        {
            buckets.push(Vec::new());
            i = i + 1;
        }
        IdMap { buckets, len: 0, map: Ghost(Map::empty()) }
    }

    fn slot_of(&self, id: u64) -> (b: usize)
        requires
            self.wf(),
        ensures
            b == slot(id, self.buckets@.len()),
            b < self.buckets@.len(),
    {
        let mut hasher: IdHasher = IdHasher::default();
        hasher.write_u64(id);
        let hash: u64 = hasher.finish();
        let n: u64 = self.buckets.len() as u64;
        (hash % n) as usize
    }

    pub fn get(&self, id: u64) -> (value: Option<V>)
        requires
            self.wf(),
        ensures
            value == (if self@.contains_key(id) {
                Some(self@[id])
            } else {
                None
            }),
    {
        let b: usize = self.slot_of(id);
        match position(&self.buckets[b], id) {
            Some(i) => Some(self.buckets[b][i].1),
            None => None,
        }
    }

    pub fn contains_key(&self, id: u64) -> (found: bool)
        requires
            self.wf(),
        ensures
            found == self@.contains_key(id),
    {
        self.get(id).is_some()
    }

    /// Number of entries.
    pub fn len(&self) -> (n: usize)
        requires
            self.wf(),
        ensures
            n == self@.dom().len(),
            self@.dom().finite(),
    {
        self.len
    }

    /// Adds an entry for an id that has none.
    fn add_new(&mut self, id: u64, value: V)
        requires
            old(self).wf(),
            !old(self)@.contains_key(id),
            old(self).len < usize::MAX,
        ensures
            final(self).wf(),
            final(self)@ == old(self)@.insert(id, value),
            final(self).len == old(self).len + 1,
            final(self).buckets@.len() == old(self).buckets@.len(),
    {
        let b: usize = self.slot_of(id);
        self.buckets[b].push((id, value));
        self.len = self.len + 1;
        proof {
            self.map@ = self.map@.insert(id, value);
            let n = self.buckets@.len();
            let old_bucket = old(self).buckets@[b as int]@;
            assert(self.buckets@[b as int]@ == old_bucket.push((id, value)));
            assert forall|c: int| 0 <= c < n implies {
                &&& distinct((#[trigger] self.buckets@[c])@)
                &&& sound(self.buckets@[c]@, c, n, self.map@)
            } by {
                assert(distinct(old(self).buckets@[c]@));
                assert(sound(old(self).buckets@[c]@, c, n, old(self).map@));
                if c != b {
                    assert(self.buckets@[c] == old(self).buckets@[c]);
                }
            }
            assert forall|k: u64| #[trigger] self.map@.contains_key(k) implies lists_id(
                self.buckets@[slot(k, n)]@,
                k,
            ) by {
                if k == id {
                    assert(self.buckets@[b as int]@[old_bucket.len() as int].0 == id);
                } else {
                    assert(old(self).map@.contains_key(k));
                    let ob = old(self).buckets@[slot(k, n)]@;
                    let i = choose|i: int| 0 <= i < ob.len() && (#[trigger] ob[i]).0 == k;
                    assert(self.buckets@[slot(k, n)]@[i].0 == k);
                }
            }
        }
    }

    /// Moves all entries into a table of `n` buckets.
    fn rehash(&mut self, n: usize)
        requires
            old(self).wf(),
            n > 0,
        ensures
            final(self).wf(),
            final(self)@ == old(self)@,
            final(self).width() == n,
    {
        let mut bigger: IdMap<V> = IdMap::with_capacity(n);
        let ghost all = self.map@;
        let ghost m = self.buckets@.len();
        let mut b: usize = 0;
        while b < self.buckets.len()
            invariant
                bigger.wf(),
                bigger.width() == n,
                self.wf(),
                self.map@ == all,
                self.buckets@.len() == m,
                b <= m,
                all.dom().finite(),
                forall|k: u64| #[trigger]
                    bigger.map@.contains_key(k) ==> all.contains_key(k) && all[k] == bigger.map@[k]
                        && slot(k, m) < b,
                forall|k: u64| #[trigger]
                    all.contains_key(k) ==> bigger.map@.contains_key(k) || slot(k, m) >= b,
            decreases m - b,
        {
            let mut i: usize = 0;
            while i < self.buckets[b].len()
                invariant
                    bigger.wf(),
                    bigger.width() == n,
                    self.wf(),
                    self.map@ == all,
                    self.buckets@.len() == m,
                    b < m,
                    i <= self.buckets@[b as int]@.len(),
                    all.dom().finite(),
                    forall|k: u64| #[trigger]
                        bigger.map@.contains_key(k) ==> all.contains_key(k) && all[k]
                            == bigger.map@[k] && (slot(k, m) < b || exists|j: int|
                            0 <= j < i && (#[trigger] self.buckets@[b as int]@[j]).0 == k),
                    forall|k: u64| #[trigger]
                        all.contains_key(k) ==> bigger.map@.contains_key(k) || slot(k, m) >= b,
                    forall|j: int|
                        0 <= j < i ==> bigger.map@.contains_key(
                            (#[trigger] self.buckets@[b as int]@[j]).0,
                        ),
                decreases self.buckets@[b as int]@.len() - i,
            {
                let (id, value) = self.buckets[b][i];
                proof {
                    let bucket = self.buckets@[b as int]@;
                    assert(distinct(bucket));
                    assert(sound(bucket, b as int, m, all));
                    assert(bucket[i as int] == (id, value));
                    assert(!bigger.map@.contains_key(id));
                    vstd::set_lib::lemma_len_subset(bigger.map@.dom().insert(id), all.dom());
                }
                bigger.add_new(id, value);
                i = i + 1;
            }
            proof {
                let bucket = self.buckets@[b as int]@;
                assert(sound(bucket, b as int, m, all));
                assert forall|k: u64| #[trigger] all.contains_key(k) implies bigger.map@.contains_key(
                    k,
                ) || slot(k, m) >= b + 1 by {
                    if slot(k, m) == b {
                        assert(lists_id(bucket, k));
                        let j = choose|j: int| 0 <= j < bucket.len() && (#[trigger] bucket[j]).0
                            == k;
                        assert(bigger.map@.contains_key(bucket[j].0));
                    }
                }
            }
            b = b + 1;
        }
        proof {
            assert(bigger.map@ =~= all) by {
                assert forall|k: u64| all.contains_key(k) implies bigger.map@.contains_key(k) by {
                    assert(slot(k, m) < m);
                }
            }
        }
        *self = bigger;
    }

    /// Sets the value of an id. A new id doubles a table whose buckets are
    /// all spoken for, as long as the doubled table can be addressed.
    pub fn insert(&mut self, id: u64, value: V)
        requires
            old(self).wf(),
            old(self)@.dom().len() < usize::MAX,
        ensures
            final(self).wf(),
            final(self)@ == old(self)@.insert(id, value),
            final(self).width() == (if !old(self)@.contains_key(id) && old(self)@.dom().len()
                >= old(self).width() && old(self).width() <= usize::MAX / 2 {
                2 * old(self).width()
            } else {
                old(self).width()
            }),
    {
        let b: usize = self.slot_of(id);
        match position(&self.buckets[b], id) {
            Some(i) => {
                self.buckets[b][i] = (id, value);
                proof {
                    self.map@ = self.map@.insert(id, value);
                    assert(self.map@.dom() =~= old(self).map@.dom()) by {
                        assert(sound(
                            old(self).buckets@[b as int]@,
                            b as int,
                            self.buckets@.len(),
                            old(self).map@,
                        ));
                    }
                    let n = self.buckets@.len();
                    assert forall|c: int| 0 <= c < n implies {
                        &&& distinct((#[trigger] self.buckets@[c])@)
                        &&& sound(self.buckets@[c]@, c, n, self.map@)
                    } by {
                        assert(distinct(old(self).buckets@[c]@));
                        assert(sound(old(self).buckets@[c]@, c, n, old(self).map@));
                    }
                    assert forall|k: u64| #[trigger] self.map@.contains_key(k) implies lists_id(
                        self.buckets@[slot(k, n)]@,
                        k,
                    ) by {
                        assert(old(self).map@.contains_key(k));
                        let ob = old(self).buckets@[slot(k, n)]@;
                        let j = choose|j: int| 0 <= j < ob.len() && (#[trigger] ob[j]).0 == k;
                        assert(self.buckets@[slot(k, n)]@[j].0 == k);
                    }
                }
            },
            None => {
                proof {
                    if self.map@.contains_key(id) {
                        assert(lists_id(self.buckets@[slot(id, self.buckets@.len())]@, id));
                    }
                }
                if self.len >= self.buckets.len() && self.buckets.len() <= usize::MAX / 2 {
                    let n: usize = self.buckets.len() * 2;
                    self.rehash(n);
                }
                self.add_new(id, value);
            },
        }
    }

    /// Takes the entry of an id out.
    pub fn remove(&mut self, id: u64) -> (value: Option<V>)
        requires
            old(self).wf(),
        ensures
            final(self).wf(),
            final(self)@ == old(self)@.remove(id),
            final(self).width() == old(self).width(),
            value == (if old(self)@.contains_key(id) {
                Some(old(self)@[id])
            } else {
                None
            }),
    {
        let b: usize = self.slot_of(id);
        match position(&self.buckets[b], id) {
            Some(i) => {
                proof {
                    assert(sound(
                        self.buckets@[b as int]@,
                        b as int,
                        self.buckets@.len(),
                        self.map@,
                    ));
                    assert(self.map@.contains_key(id));
                    assert(self.map@.dom().len() > 0) by {
                        vstd::set_lib::lemma_len_subset(set![id], self.map@.dom());
                    }
                }
                let (_, value) = self.buckets[b].swap_remove(i);
                self.len = self.len - 1;
                proof {
                    self.map@ = self.map@.remove(id);
                    let n = self.buckets@.len();
                    let ob = old(self).buckets@[b as int]@;
                    let nb = self.buckets@[b as int]@;
                    assert(nb == ob.update(i as int, ob.last()).drop_last());
                    assert(distinct(ob));
                    assert forall|j: int| 0 <= j < nb.len() implies (#[trigger] nb[j]).0 != id by {
                        if j == i {
                            assert(nb[j] == ob[ob.len() - 1]);
                        } else {
                            assert(nb[j] == ob[j]);
                        }
                    }
                    assert forall|c: int| 0 <= c < n implies {
                        &&& distinct((#[trigger] self.buckets@[c])@)
                        &&& sound(self.buckets@[c]@, c, n, self.map@)
                    } by {
                        assert(distinct(old(self).buckets@[c]@));
                        assert(sound(old(self).buckets@[c]@, c, n, old(self).map@));
                        if c != b {
                            assert(self.buckets@[c] == old(self).buckets@[c]);
                        }
                    }
                    assert forall|k: u64| #[trigger] self.map@.contains_key(k) implies lists_id(
                        self.buckets@[slot(k, n)]@,
                        k,
                    ) by {
                        assert(old(self).map@.contains_key(k));
                        let kb = old(self).buckets@[slot(k, n)]@;
                        let j = choose|j: int| 0 <= j < kb.len() && (#[trigger] kb[j]).0 == k;
                        if slot(k, n) == b {
                            if j == ob.len() - 1 {
                                assert(nb[i as int].0 == k);
                            } else {
                                assert(nb[j].0 == k);
                            }
                        } else {
                            assert(self.buckets@[slot(k, n)]@[j].0 == k);
                        }
                    }
                }
                Some(value)
            },
            None => {
                proof {
                    if self.map@.contains_key(id) {
                        assert(lists_id(self.buckets@[slot(id, self.buckets@.len())]@, id));
                    }
                    assert(self.map@.remove(id) =~= self.map@);
                }
                None
            },
        }
    }
}

/// Multiplying by an odd factor modulo 2^64 is undone by multiplying by its
/// inverse.
pub proof fn lemma_factor_inverts(x: u64, factor: u64, inverse: u64)
    requires
        (factor * inverse) % 0x1_0000_0000_0000_0000 == 1,
    ensures
        x.wrapping_mul(factor).wrapping_mul(inverse) == x,
{
    let m: int = 0x1_0000_0000_0000_0000;
    let (a, f, g) = (x as int, factor as int, inverse as int);
    lemma_mul_mod_noop_left(a * f, g, m);
    lemma_mul_mod_noop_right(a, f * g, m);
    assert((a * f) * g == a * (f * g)) by (nonlinear_arith);
    assert(a * 1 == a);
    lemma_small_mod(x as nat, m as nat);
}

/// The number that [`splitmix`] mixes to `x`: the rounds of the mix undone
/// from the last to the first.
pub open spec fn unmixed(x: u64) -> u64 {
    let z2 = x ^ (x >> 31u64) ^ (x >> 62u64);
    let y1 = z2.wrapping_mul(0x3196_42B2_D24D_8EC3);
    let z1 = y1 ^ (y1 >> 27u64) ^ (y1 >> 54u64);
    let y0 = z1.wrapping_mul(0x96DE_1B17_3F11_9089);
    let z0 = y0 ^ (y0 >> 30u64) ^ (y0 >> 60u64);
    z0.wrapping_sub(0x9E37_79B9_7F4A_7C15)
}

/// Mixing loses nothing: every number can be told from its mix, so that no
/// two ids have the same hash and no two states of the generator give the
/// same number.
pub proof fn law_mixing_loses_nothing(a: u64, b: u64)
    ensures
        unmixed(splitmix(a)) == a,
        splitmix(a) == splitmix(b) ==> a == b,
{
    lemma_unmixed(a);
    lemma_unmixed(b);
}

proof fn lemma_unmixed(n: u64)
    ensures
        unmixed(splitmix(n)) == n,
{
    let z0 = n.wrapping_add(0x9E37_79B9_7F4A_7C15);
    let y0 = z0 ^ (z0 >> 30u64);
    let z1 = y0.wrapping_mul(0xBF58_476D_1CE4_E5B9);
    let y1 = z1 ^ (z1 >> 27u64);
    let z2 = y1.wrapping_mul(0x94D0_49BB_1331_11EB);
    let x = z2 ^ (z2 >> 31u64);
    assert(x ^ (x >> 31u64) ^ (x >> 62u64) == z2) by (bit_vector)
        requires
            x == z2 ^ (z2 >> 31u64),
    ;
    assert(0x94D0_49BB_1331_11EBu64 * 0x3196_42B2_D24D_8EC3u64 % 0x1_0000_0000_0000_0000 == 1)
        by (nonlinear_arith);
    lemma_factor_inverts(y1, 0x94D0_49BB_1331_11EB, 0x3196_42B2_D24D_8EC3);
    assert(y1 ^ (y1 >> 27u64) ^ (y1 >> 54u64) == z1) by (bit_vector)
        requires
            y1 == z1 ^ (z1 >> 27u64),
    ;
    assert(0xBF58_476D_1CE4_E5B9u64 * 0x96DE_1B17_3F11_9089u64 % 0x1_0000_0000_0000_0000 == 1)
        by (nonlinear_arith);
    lemma_factor_inverts(y0, 0xBF58_476D_1CE4_E5B9, 0x96DE_1B17_3F11_9089);
    assert(y0 ^ (y0 >> 30u64) ^ (y0 >> 60u64) == z0) by (bit_vector)
        requires
            y0 == z0 ^ (z0 >> 30u64),
    ;
}

/// Bytes are folded one after the other: folding some and then more is
/// folding them all, and one byte moves the state up by its width, the top
/// byte coming in below, and is then combined with it.
pub proof fn law_bytes_fold_in_order(state: u64, a: Seq<u8>, b: Seq<u8>, byte: u8)
    ensures
        fold_bytes(state, a + b) == fold_bytes(fold_bytes(state, a), b),
        fold_bytes(state, seq![byte]) == ((state * 0x100 % 0x1_0000_0000_0000_0000
            + state / 0x100_0000_0000_0000) as u64) ^ (byte as u64),
    decreases b.len(),
{
    if b.len() == 0 {
        assert(a + b =~= a);
    } else {
        law_bytes_fold_in_order(state, a, b.drop_last(), byte);
        assert((a + b).drop_last() =~= a + b.drop_last());
    }
    assert(seq![byte].drop_last() =~= Seq::empty());
    assert(fold_bytes(state, seq![byte].drop_last()) == state);
    assert(((state << 8u64) | (state >> 56u64)) == state * 0x100 % 0x1_0000_0000_0000_0000 + state
        / 0x100_0000_0000_0000) by (bit_vector);
}

} // verus!
