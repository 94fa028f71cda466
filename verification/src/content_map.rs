use vstd::prelude::*;

verus! {

broadcast use vstd::array::group_array_axioms;

// ---------------------------------------------------------------------------
// Byte-wise order on 20-byte content hashes.
// ---------------------------------------------------------------------------

/// Lexicographic strictly-less on two 20-byte hashes, compared from byte `i`.
pub open spec fn hash_lt_from(a: Seq<u8>, b: Seq<u8>, i: int) -> bool
    decreases 20 - i,
{
    if i < 0 || i >= 20 {
        false
    } else if a[i] < b[i] {
        true
    } else if a[i] == b[i] {
        hash_lt_from(a, b, i + 1)
    } else {
        false
    }
}

/// Byte-wise lexicographic strictly-less on two 20-byte hashes.
pub open spec fn hash_lt(a: Seq<u8>, b: Seq<u8>) -> bool {
    hash_lt_from(a, b, 0)
}

proof fn lemma_hash_lt_from_irrefl(a: Seq<u8>, i: int)
    ensures
        !hash_lt_from(a, a, i),
    decreases 20 - i,
{
    if 0 <= i < 20 {
        lemma_hash_lt_from_irrefl(a, i + 1);
    }
}

/// No hash is below itself.
pub proof fn lemma_hash_lt_irrefl(a: Seq<u8>)
    ensures
        !hash_lt(a, a),
{
    lemma_hash_lt_from_irrefl(a, 0);
}

proof fn lemma_hash_lt_from_connex(a: Seq<u8>, b: Seq<u8>, i: int)
    requires
        a.len() == 20,
        b.len() == 20,
        0 <= i <= 20,
        a.subrange(0, i) == b.subrange(0, i),
    ensures
        hash_lt_from(a, b, i) || hash_lt_from(b, a, i) || a == b,
    decreases 20 - i,
{
    if i == 20 {
        assert forall|k: int| 0 <= k < 20 implies a[k] == b[k] by {
            assert(a.subrange(0, 20)[k] == b.subrange(0, 20)[k]);
        }
        assert(a =~= b);
    } else {
        if a[i] < b[i] {
        } else if b[i] < a[i] {
        } else {
            assert(a.subrange(0, i + 1) =~= b.subrange(0, i + 1)) by {
                assert(forall|k: int|
                    0 <= k < i ==> a.subrange(0, i)[k] == #[trigger] a.subrange(0, i + 1)[k]);
                assert(forall|k: int|
                    0 <= k < i ==> b.subrange(0, i)[k] == #[trigger] b.subrange(0, i + 1)[k]);
            }
            lemma_hash_lt_from_connex(a, b, i + 1);
        }
    }
}

/// Two distinct hashes are ordered one way or the other.
pub proof fn lemma_hash_lt_connex(a: Seq<u8>, b: Seq<u8>)
    requires
        a.len() == 20,
        b.len() == 20,
    ensures
        hash_lt(a, b) || hash_lt(b, a) || a == b,
{
    assert(a.subrange(0, 0) =~= b.subrange(0, 0));
    lemma_hash_lt_from_connex(a, b, 0);
}

proof fn lemma_hash_lt_from_trans(a: Seq<u8>, b: Seq<u8>, c: Seq<u8>, i: int)
    requires
        hash_lt_from(a, b, i),
        hash_lt_from(b, c, i),
    ensures
        hash_lt_from(a, c, i),
    decreases 20 - i,
{
    if 0 <= i < 20 {
        if a[i] == b[i] && b[i] == c[i] {
            lemma_hash_lt_from_trans(a, b, c, i + 1);
        }
    }
}

/// The hash order is transitive.
pub proof fn lemma_hash_lt_trans(a: Seq<u8>, b: Seq<u8>, c: Seq<u8>)
    requires
        hash_lt(a, b),
        hash_lt(b, c),
    ensures
        hash_lt(a, c),
{
    lemma_hash_lt_from_trans(a, b, c, 0);
}

/// Byte-wise strictly-less comparison of two content hashes.
pub fn hash_is_lt(a: &[u8; 20], b: &[u8; 20]) -> (r: bool)
    ensures
        r == hash_lt(a@, b@),
{
    let mut i: usize = 0;
    while i < 20
        invariant
            0 <= i <= 20,
            hash_lt(a@, b@) == hash_lt_from(a@, b@, i as int),
        decreases 20 - i,
    {
        if a[i] < b[i] {
            return true;
        }
        if b[i] < a[i] {
            return false;
        }
        i = i + 1;
    }
    false
}

/// Byte-wise equality of two content hashes.
pub fn hash_is_eq(a: &[u8; 20], b: &[u8; 20]) -> (r: bool)
    ensures
        r == (a@ == b@),
{
    let mut i: usize = 0;
    while i < 20
        invariant
            0 <= i <= 20,
            forall|k: int| 0 <= k < i ==> a@[k] == b@[k],
        decreases 20 - i,
    {
        if a[i] != b[i] {
            return false;
        }
        i = i + 1;
    }
    proof {
        assert(a@ =~= b@);
    }
    true
}

// ---------------------------------------------------------------------------
// The resolved content map.
// ---------------------------------------------------------------------------

/// One entry: a content hash and its raw bytes; `None` marks a hash whose
/// fetch failed or is still pending.
pub struct ContentEntry {
    pub hash: [u8; 20],
    pub data: Option<Vec<u8>>,
}

/// The bytes an entry holds, as a mathematical value.
pub open spec fn val_view(d: Option<Vec<u8>>) -> Option<Seq<u8>> {
    match d {
        Some(v) => Some(v@),
        None => None,
    }
}

/// Mapping from 20-byte content hash to optional raw bytes, held sorted
/// strictly ascending by hash. Entries are inserted once and never removed;
/// the ascending order is what the archive format requires of its index.
pub struct ContentMap {
    entries: Vec<ContentEntry>,
}

/// The map a run of entries denotes.
pub open spec fn map_of(s: Seq<ContentEntry>) -> Map<Seq<u8>, Option<Seq<u8>>>
    decreases s.len(),
{
    if s.len() == 0 {
        Map::empty()
    } else {
        map_of(s.drop_last()).insert(s.last().hash@, val_view(s.last().data))
    }
}

/// The hashes a run of entries holds, in order.
pub open spec fn keys_of(s: Seq<ContentEntry>) -> Seq<Seq<u8>> {
    s.map_values(|e: ContentEntry| e.hash@)
}

/// How many entries hold bytes.
pub open spec fn count_some(s: Seq<ContentEntry>) -> int
    decreases s.len(),
{
    if s.len() == 0 {
        0
    } else {
        count_some(s.drop_last()) + if s.last().data is Some {
            1int
        } else {
            0int
        }
    }
}

/// A key is in the denoted map exactly when some entry carries it.
proof fn lemma_map_of_contains(s: Seq<ContentEntry>, k: Seq<u8>)
    ensures
        map_of(s).contains_key(k) == keys_of(s).contains(k),
    decreases s.len(),
{
    if s.len() == 0 {
        assert(!keys_of(s).contains(k));
    } else {
        lemma_map_of_contains(s.drop_last(), k);
        assert(keys_of(s.drop_last()) =~= keys_of(s).drop_last());
        if map_of(s).contains_key(k) {
            if k == s.last().hash@ {
                assert(keys_of(s)[s.len() - 1] == k);
            } else {
                let i = choose|i: int|
                    0 <= i < keys_of(s.drop_last()).len() && keys_of(s.drop_last())[i] == k;
                assert(keys_of(s)[i] == k);
            }
        }
        if keys_of(s).contains(k) {
            let i = choose|i: int| 0 <= i < keys_of(s).len() && keys_of(s)[i] == k;
            if i < s.len() - 1 {
                assert(keys_of(s.drop_last())[i] == k);
            }
        }
    }
}

/// With pairwise-distinct keys, entry `i` denotes the map's value at its key.
proof fn lemma_map_of_index(s: Seq<ContentEntry>, i: int)
    requires
        0 <= i < s.len(),
        keys_of(s).no_duplicates(),
    ensures
        map_of(s).contains_key(s[i].hash@),
        map_of(s)[s[i].hash@] == val_view(s[i].data),
    decreases s.len(),
{
    lemma_map_of_contains(s, s[i].hash@);
    assert(keys_of(s)[i] == s[i].hash@);
    if i == s.len() - 1 {
    } else {
        assert(keys_of(s.drop_last()) =~= keys_of(s).drop_last());
        lemma_map_of_index(s.drop_last(), i);
        assert(keys_of(s)[i] != keys_of(s)[s.len() - 1]);
    }
}

/// Inserting an entry under a fresh key inserts into the denoted map.
proof fn lemma_map_of_insert(s: Seq<ContentEntry>, p: int, e: ContentEntry)
    requires
        0 <= p <= s.len(),
        !keys_of(s).contains(e.hash@),
    ensures
        map_of(s.insert(p, e)) == map_of(s).insert(e.hash@, val_view(e.data)),
    decreases s.len(),
{
    let t = s.insert(p, e);
    if p == s.len() {
        assert(t.drop_last() =~= s);
        assert(t.last() == e);
    } else {
        assert(t.last() == s.last());
        assert(t.drop_last() =~= s.drop_last().insert(p, e));
        assert(keys_of(s.drop_last()) =~= keys_of(s).drop_last());
        assert(!keys_of(s.drop_last()).contains(e.hash@)) by {
            if keys_of(s.drop_last()).contains(e.hash@) {
                let i = choose|i: int|
                    0 <= i < keys_of(s.drop_last()).len() && keys_of(s.drop_last())[i] == e.hash@;
                assert(keys_of(s)[i] == e.hash@);
            }
        }
        lemma_map_of_insert(s.drop_last(), p, e);
        assert(keys_of(s)[s.len() - 1] == s.last().hash@);
        assert(s.last().hash@ != e.hash@);
        assert(map_of(s.drop_last()).insert(e.hash@, val_view(e.data)).insert(
            s.last().hash@,
            val_view(s.last().data),
        ) =~= map_of(s.drop_last()).insert(s.last().hash@, val_view(s.last().data)).insert(
            e.hash@,
            val_view(e.data),
        ));
    }
}

/// Replacing the bytes of entry `i` updates the denoted map at its key.
proof fn lemma_map_of_update(s: Seq<ContentEntry>, i: int, e: ContentEntry)
    requires
        0 <= i < s.len(),
        keys_of(s).no_duplicates(),
        e.hash@ == s[i].hash@,
    ensures
        map_of(s.update(i, e)) == map_of(s).insert(e.hash@, val_view(e.data)),
    decreases s.len(),
{
    let t = s.update(i, e);
    if i == s.len() - 1 {
        assert(t.drop_last() =~= s.drop_last());
        assert(t.last() == e);
    } else {
        assert(t.last() == s.last());
        assert(t.drop_last() =~= s.drop_last().update(i, e));
        assert(keys_of(s.drop_last()) =~= keys_of(s).drop_last());
        lemma_map_of_update(s.drop_last(), i, e);
        assert(keys_of(s)[i] == s[i].hash@);
        assert(keys_of(s)[s.len() - 1] == s.last().hash@);
        assert(s.last().hash@ != e.hash@);
        assert(map_of(s.drop_last()).insert(e.hash@, val_view(e.data)).insert(
            s.last().hash@,
            val_view(s.last().data),
        ) =~= map_of(s.drop_last()).insert(s.last().hash@, val_view(s.last().data)).insert(
            e.hash@,
            val_view(e.data),
        ));
    }
}

/// Count of filled entries under insertion.
proof fn lemma_count_some_insert(s: Seq<ContentEntry>, p: int, e: ContentEntry)
    requires
        0 <= p <= s.len(),
    ensures
        count_some(s.insert(p, e)) == count_some(s) + if e.data is Some {
            1int
        } else {
            0int
        },
    decreases s.len(),
{
    let t = s.insert(p, e);
    if p == s.len() {
        assert(t.drop_last() =~= s);
        assert(t.last() == e);
    } else {
        assert(t.last() == s.last());
        assert(t.drop_last() =~= s.drop_last().insert(p, e));
        lemma_count_some_insert(s.drop_last(), p, e);
    }
}

/// Count of filled entries under an update at one position.
proof fn lemma_count_some_update(s: Seq<ContentEntry>, i: int, e: ContentEntry)
    requires
        0 <= i < s.len(),
    ensures
        count_some(s.update(i, e)) == count_some(s) + (if e.data is Some {
            1int
        } else {
            0int
        }) - (if s[i].data is Some {
            1int
        } else {
            0int
        }),
    decreases s.len(),
{
    let t = s.update(i, e);
    if i == s.len() - 1 {
        assert(t.drop_last() =~= s.drop_last());
        assert(t.last() == e);
    } else {
        assert(t.last() == s.last());
        assert(t.drop_last() =~= s.drop_last().update(i, e));
        lemma_count_some_update(s.drop_last(), i, e);
    }
}

proof fn lemma_map_of_dom_finite(s: Seq<ContentEntry>)
    ensures
        map_of(s).dom().finite(),
    decreases s.len(),
{
    if s.len() > 0 {
        lemma_map_of_dom_finite(s.drop_last());
    }
}

proof fn lemma_count_some_range(s: Seq<ContentEntry>)
    ensures
        0 <= count_some(s) <= s.len(),
    decreases s.len(),
{
    if s.len() > 0 {
        lemma_count_some_range(s.drop_last());
    }
}

impl View for ContentMap {
    type V = Map<Seq<u8>, Option<Seq<u8>>>;

    closed spec fn view(&self) -> Map<Seq<u8>, Option<Seq<u8>>> {
        map_of(self.entries@)
    }
}

impl ContentMap {
    /// The hashes held, sorted strictly ascending.
    pub closed spec fn keys(self) -> Seq<Seq<u8>> {
        keys_of(self.entries@)
    }

    /// How many hashes resolved to bytes.
    pub closed spec fn num_some(self) -> int {
        count_some(self.entries@)
    }

    /// How many hashes are recorded without bytes (failed or pending).
    pub open spec fn num_none(self) -> int {
        self.keys().len() - self.num_some()
    }

    /// Entries are sorted strictly ascending by hash.
    pub closed spec fn wf(self) -> bool {
        forall|i: int, j: int|
            0 <= i < j < self.entries@.len() ==> hash_lt(
                #[trigger] self.entries@[i].hash@,
                #[trigger] self.entries@[j].hash@,
            )
    }

    /// The held hashes are 20 bytes each and sorted strictly ascending.
    pub proof fn lemma_keys_sorted(self)
        requires
            self.wf(),
        ensures
            forall|i: int| 0 <= i < self.keys().len() ==> (#[trigger] self.keys()[i]).len() == 20,
            forall|i: int, j: int|
                0 <= i < j < self.keys().len() ==> hash_lt(
                    #[trigger] self.keys()[i],
                    #[trigger] self.keys()[j],
                ),
    {
        assert(forall|i: int|
            0 <= i < self.keys().len() ==> (#[trigger] self.keys()[i]).len() == 20);
    }

    /// The map holds finitely many keys.
    pub proof fn lemma_dom_finite(self)
        ensures
            self@.dom().finite(),
    {
        lemma_map_of_dom_finite(self.entries@);
    }

    /// The count of filled entries lies between zero and the number of keys.
    pub proof fn lemma_counts(self)
        ensures
            0 <= self.num_some() <= self.keys().len(),
    {
        lemma_count_some_range(self.entries@);
    }

    /// The contents determine the key run: two well-formed maps holding
    /// the same contents hold them under the same ascending key run.
    pub proof fn lemma_keys_determined(self, other: ContentMap)
        requires
            self.wf(),
            other.wf(),
            self@ == other@,
        ensures
            self.keys() == other.keys(),
    {
        self.lemma_keys_sorted();
        other.lemma_keys_sorted();
        assert forall|k: Seq<u8>| self.keys().contains(k) == other.keys().contains(k) by {
            self.lemma_contains(k);
            other.lemma_contains(k);
        }
        lemma_sorted_keys_unique(self.keys(), other.keys());
    }

    /// Sorted keys are pairwise distinct: every hash appears exactly once.
    pub proof fn lemma_keys_distinct(self)
        requires
            self.wf(),
        ensures
            self.keys().no_duplicates(),
    {
        assert forall|i: int, j: int| 0 <= i < j < self.keys().len() implies self.keys()[i]
            != self.keys()[j] by {
            lemma_hash_lt_irrefl(self.entries@[i].hash@);
        }
    }

    /// A key is held exactly when it appears in the sorted key run.
    pub proof fn lemma_contains(self, k: Seq<u8>)
        ensures
            self@.contains_key(k) == self.keys().contains(k),
    {
        lemma_map_of_contains(self.entries@, k);
    }

    /// The map's value at the key of entry `i`.
    proof fn lemma_at(self, i: int)
        requires
            self.wf(),
            0 <= i < self.keys().len(),
        ensures
            self@.contains_key(self.keys()[i]),
            self@[self.keys()[i]] == val_view(self.entries@[i].data),
    {
        self.lemma_keys_distinct();
        lemma_map_of_index(self.entries@, i);
    }

    pub fn new() -> (r: ContentMap)
        ensures
            r.wf(),
            r@ == Map::<Seq<u8>, Option<Seq<u8>>>::empty(),
            r.keys() == Seq::<Seq<u8>>::empty(),
            r.num_some() == 0,
    {
        let r = ContentMap { entries: Vec::new() };
        proof {
            assert(r.keys() =~= Seq::<Seq<u8>>::empty());
        }
        r
    }

    pub fn len(&self) -> (n: usize)
        ensures
            n == self.keys().len(),
    {
        self.entries.len()
    }

    /// Position of the first entry whose hash is not below `h`.
    fn find_from(&self, h: &[u8; 20]) -> (r: usize)
        requires
            self.wf(),
        ensures
            r <= self.keys().len(),
            forall|k: int| 0 <= k < r ==> hash_lt(self.keys()[k], h@),
            r < self.keys().len() ==> !hash_lt(self.keys()[r as int], h@),
    {
        let n = self.entries.len();
        let mut i: usize = 0;
        while i < n
            invariant
                self.wf(),
                n == self.keys().len(),
                0 <= i <= n,
                forall|k: int| 0 <= k < i ==> hash_lt(self.keys()[k], h@),
            decreases n - i,
        {
            if !hash_is_lt(&self.entries[i].hash, h) {
                return i;
            }
            i = i + 1;
        }
        i
    }

    /// Whether a hash not below `h` at position `r` pins membership down.
    proof fn lemma_find_result(self, h: Seq<u8>, r: int)
        requires
            self.wf(),
            h.len() == 20,
            0 <= r <= self.keys().len(),
            forall|k: int| 0 <= k < r ==> hash_lt(self.keys()[k], h),
            r < self.keys().len() ==> !hash_lt(self.keys()[r], h),
        ensures
            (r < self.keys().len() && self.keys()[r] == h) || !self@.contains_key(h),
    {
        self.lemma_contains(h);
        if !(r < self.keys().len() && self.keys()[r] == h) {
            assert forall|k: int| 0 <= k < self.keys().len() implies self.keys()[k] != h by {
                if k < r {
                    lemma_hash_lt_irrefl(h);
                } else {
                    lemma_hash_lt_connex(self.keys()[r], h);
                    if k > r {
                        lemma_hash_lt_trans(h, self.keys()[r], self.keys()[k]);
                        lemma_hash_lt_irrefl(h);
                    }
                }
            }
            if self.keys().contains(h) {
                let k = choose|k: int| 0 <= k < self.keys().len() && self.keys()[k] == h;
            }
        }
    }

    pub fn contains_hash(&self, h: &[u8; 20]) -> (r: bool)
        requires
            self.wf(),
        ensures
            r == self@.contains_key(h@),
    {
        let i = self.find_from(h);
        proof {
            self.lemma_find_result(h@, i as int);
        }
        if i < self.entries.len() && hash_is_eq(&self.entries[i].hash, h) {
            proof {
                self.lemma_at(i as int);
            }
            true
        } else {
            false
        }
    }

    /// The bytes recorded for a hash: `None` if the hash is not held at all,
    /// `Some(&None)` if it is held without bytes.
    pub fn get(&self, h: &[u8; 20]) -> (r: Option<&Option<Vec<u8>>>)
        requires
            self.wf(),
        ensures
            (match r {
                Some(d) => self@.contains_key(h@) && val_view(*d) == self@[h@],
                None => !self@.contains_key(h@),
            }),
    {
        let i = self.find_from(h);
        proof {
            self.lemma_find_result(h@, i as int);
        }
        if i < self.entries.len() && hash_is_eq(&self.entries[i].hash, h) {
            proof {
                self.lemma_at(i as int);
            }
            Some(&self.entries[i].data)
        } else {
            None
        }
    }

    /// Records a hash that is about to be fetched, without bytes yet.
    pub fn insert_pending(&mut self, h: [u8; 20])
        requires
            old(self).wf(),
            !old(self)@.contains_key(h@),
        ensures
            final(self).wf(),
            final(self)@ == old(self)@.insert(h@, None),
            final(self).keys().len() == old(self).keys().len() + 1,
            final(self).keys().contains(h@),
            forall|k: Seq<u8>|
                final(self).keys().contains(k) == (old(self).keys().contains(k) || k == h@),
            final(self).num_some() == old(self).num_some(),
    {
        let ghost s0 = self.entries@;
        let i = self.find_from(&h);
        proof {
            self.lemma_find_result(h@, i as int);
            self.lemma_contains(h@);
            if i < self.keys().len() {
                lemma_hash_lt_connex(self.keys()[i as int], h@);
            }
            lemma_map_of_insert(s0, i as int, ContentEntry { hash: h, data: None });
            lemma_count_some_insert(s0, i as int, ContentEntry { hash: h, data: None });
        }
        let e = ContentEntry { hash: h, data: None };
        self.entries.insert(i, e);
        proof {
            let s1 = self.entries@;
            assert forall|a: int, b: int| 0 <= a < b < s1.len() implies hash_lt(
                #[trigger] s1[a].hash@,
                #[trigger] s1[b].hash@,
            ) by {
                let ii = i as int;
                if ii < s0.len() {
                    assert(keys_of(s0)[ii] == s0[ii].hash@);
                    lemma_hash_lt_connex(s0[ii].hash@, h@);
                    assert(s0[ii].hash@ != h@);
                    assert(hash_lt(h@, s0[ii].hash@));
                }
                assert forall|k: int| 0 <= k < ii implies hash_lt(#[trigger] s0[k].hash@, h@) by {
                    assert(keys_of(s0)[k] == s0[k].hash@);
                    assert(hash_lt(old(self).keys()[k], h@));
                }
                if b < ii {
                    assert(s1[a] == s0[a] && s1[b] == s0[b]);
                } else if b == ii {
                    assert(s1[a] == s0[a] && s1[b].hash@ == h@);
                } else {
                    assert(s1[b] == s0[b - 1]);
                    if a < ii {
                        assert(s1[a] == s0[a]);
                        if b - 1 == ii {
                            lemma_hash_lt_trans(s0[a].hash@, h@, s0[ii].hash@);
                        }
                    } else if a == ii {
                        assert(s1[a].hash@ == h@);
                        if b - 1 > ii {
                            lemma_hash_lt_trans(h@, s0[ii].hash@, s0[b - 1].hash@);
                        }
                    } else {
                        assert(s1[a] == s0[a - 1]);
                    }
                }
            }
            assert(keys_of(s1) =~= keys_of(s0).insert(i as int, h@));
            assert forall|k: Seq<u8>|
                final(self).keys().contains(k) == (old(self).keys().contains(k) || k
                    == h@) by {
                let ks0 = keys_of(s0);
                let ks1 = keys_of(s1);
                if ks1.contains(k) {
                    let j = choose|j: int| 0 <= j < ks1.len() && ks1[j] == k;
                    if j < i {
                        assert(ks0[j] == k);
                    } else if j > i {
                        assert(ks0[j - 1] == k);
                    }
                }
                if ks0.contains(k) {
                    let j = choose|j: int| 0 <= j < ks0.len() && ks0[j] == k;
                    if j < i {
                        assert(ks1[j] == k);
                    } else {
                        assert(ks1[j + 1] == k);
                    }
                }
                if k == h@ {
                    assert(ks1[i as int] == k);
                }
            }
        }
    }

    /// Fills in the bytes of a hash recorded as pending.
    pub fn set_fetched(&mut self, h: &[u8; 20], data: Vec<u8>)
        requires
            old(self).wf(),
            old(self)@.contains_key(h@),
            old(self)@[h@] is None,
        ensures
            final(self).wf(),
            final(self)@ == old(self)@.insert(h@, Some(data@)),
            final(self).keys() == old(self).keys(),
            final(self).num_some() == old(self).num_some() + 1,
    {
        let ghost s0 = self.entries@;
        let i = self.find_from(h);
        proof {
            self.lemma_find_result(h@, i as int);
            self.lemma_keys_distinct();
        }
        if i < self.entries.len() && hash_is_eq(&self.entries[i].hash, h) {
            proof {
                self.lemma_at(i as int);
                let e = ContentEntry { hash: self.entries@[i as int].hash, data: Some(data) };
                lemma_map_of_update(s0, i as int, e);
                lemma_count_some_update(s0, i as int, e);
            }
            let hh = self.entries[i].hash;
            let e = ContentEntry { hash: hh, data: Some(data) };
            self.entries.set(i, e);
            proof {
                let s1 = self.entries@;
                assert(keys_of(s1) =~= keys_of(s0));
                assert(forall|a: int|
                    0 <= a < s1.len() ==> #[trigger] s1[a].hash@ == s0[a].hash@);
                assert(final(self)@ =~= old(self)@.insert(h@, Some(data@)));
            }
        } else {
            proof {
                assert(false);
            }
            unreached()
        }
    }

    /// Records resolved bytes under a hash, adding the entry or overwriting
    /// the bytes of an already-held hash with the same content.
    pub fn insert_resolved(&mut self, h: [u8; 20], data: Vec<u8>)
        requires
            old(self).wf(),
        ensures
            final(self).wf(),
            final(self)@ == old(self)@.insert(h@, Some(data@)),
            old(self)@.contains_key(h@) ==> final(self).keys() == old(self).keys(),
            !old(self)@.contains_key(h@) ==> final(self).keys().len() == old(self).keys().len()
                + 1,
            forall|k: Seq<u8>|
                final(self).keys().contains(k) == (old(self).keys().contains(k) || k == h@),
    {
        let contained = self.contains_hash(&h);
        if contained {
            let ghost s0 = self.entries@;
            let i = self.find_from(&h);
            proof {
                self.lemma_find_result(h@, i as int);
                self.lemma_keys_distinct();
                self.lemma_contains(h@);
            }
            if i < self.entries.len() && hash_is_eq(&self.entries[i].hash, &h) {
                proof {
                    self.lemma_at(i as int);
                    let e = ContentEntry { hash: self.entries@[i as int].hash, data: Some(data) };
                    lemma_map_of_update(s0, i as int, e);
                }
                let hh = self.entries[i].hash;
                let e = ContentEntry { hash: hh, data: Some(data) };
                self.entries.set(i, e);
                proof {
                    let s1 = self.entries@;
                    assert(keys_of(s1) =~= keys_of(s0));
                    assert(forall|a: int|
                        0 <= a < s1.len() ==> #[trigger] s1[a].hash@ == s0[a].hash@);
                    assert(final(self)@ =~= old(self)@.insert(h@, Some(data@)));
                    assert forall|k: Seq<u8>|
                        final(self).keys().contains(k) == (old(self).keys().contains(k) || k
                            == h@) by {
                        old(self).lemma_contains(h@);
                    }
                }
            } else {
                proof {
                    assert(false);
                }
                unreached()
            }
        } else {
            let ghost s0 = self.entries@;
            let i = self.find_from(&h);
            proof {
                self.lemma_find_result(h@, i as int);
                self.lemma_contains(h@);
                if i < self.keys().len() {
                    lemma_hash_lt_connex(self.keys()[i as int], h@);
                }
                lemma_map_of_insert(s0, i as int, ContentEntry { hash: h, data: Some(data) });
            }
            let e = ContentEntry { hash: h, data: Some(data) };
            self.entries.insert(i, e);
            proof {
                let s1 = self.entries@;
                assert forall|a: int, b: int| 0 <= a < b < s1.len() implies hash_lt(
                    #[trigger] s1[a].hash@,
                    #[trigger] s1[b].hash@,
                ) by {
                    let ii = i as int;
                    if ii < s0.len() {
                        assert(keys_of(s0)[ii] == s0[ii].hash@);
                        lemma_hash_lt_connex(s0[ii].hash@, h@);
                        assert(s0[ii].hash@ != h@);
                        assert(hash_lt(h@, s0[ii].hash@));
                    }
                    assert forall|k: int| 0 <= k < ii implies hash_lt(#[trigger] s0[k].hash@, h@) by {
                    assert(keys_of(s0)[k] == s0[k].hash@);
                    assert(hash_lt(old(self).keys()[k], h@));
                }
                    if b < ii {
                        assert(s1[a] == s0[a] && s1[b] == s0[b]);
                    } else if b == ii {
                        assert(s1[a] == s0[a] && s1[b].hash@ == h@);
                    } else {
                        assert(s1[b] == s0[b - 1]);
                        if a < ii {
                            assert(s1[a] == s0[a]);
                            if b - 1 == ii {
                                lemma_hash_lt_trans(s0[a].hash@, h@, s0[ii].hash@);
                            }
                        } else if a == ii {
                            assert(s1[a].hash@ == h@);
                            if b - 1 > ii {
                                lemma_hash_lt_trans(h@, s0[ii].hash@, s0[b - 1].hash@);
                            }
                        } else {
                            assert(s1[a] == s0[a - 1]);
                        }
                    }
                }
                assert(keys_of(s1) =~= keys_of(s0).insert(i as int, h@));
                assert forall|k: Seq<u8>|
                    final(self).keys().contains(k) == (old(self).keys().contains(k) || k
                        == h@) by {
                    let ks0 = keys_of(s0);
                    let ks1 = keys_of(s1);
                    if ks1.contains(k) {
                        let j = choose|j: int| 0 <= j < ks1.len() && ks1[j] == k;
                        if j < i {
                            assert(ks0[j] == k);
                        } else if j > i {
                            assert(ks0[j - 1] == k);
                        }
                    }
                    if ks0.contains(k) {
                        let j = choose|j: int| 0 <= j < ks0.len() && ks0[j] == k;
                        if j < i {
                            assert(ks1[j] == k);
                        } else {
                            assert(ks1[j + 1] == k);
                        }
                    }
                    if k == h@ {
                        assert(ks1[i as int] == k);
                    }
                }
            }
        }
    }

    /// The hash of entry `i` in ascending order.
    pub fn hash_at(&self, i: usize) -> (h: &[u8; 20])
        requires
            i < self.keys().len(),
        ensures
            h@ == self.keys()[i as int],
    {
        &self.entries[i].hash
    }

    /// The bytes of entry `i` in ascending order.
    pub fn data_at(&self, i: usize) -> (d: &Option<Vec<u8>>)
        requires
            self.wf(),
            i < self.keys().len(),
        ensures
            val_view(*d) == self@[self.keys()[i as int]],
            self@.contains_key(self.keys()[i as int]),
    {
        proof {
            self.lemma_at(i as int);
        }
        &self.entries[i].data
    }
}

/// Two strictly ascending key runs with the same members are the same run.
proof fn lemma_sorted_keys_unique(ks1: Seq<Seq<u8>>, ks2: Seq<Seq<u8>>)
    requires
        forall|i: int, j: int| 0 <= i < j < ks1.len() ==> hash_lt(#[trigger] ks1[i], #[trigger] ks1[j]),
        forall|i: int, j: int| 0 <= i < j < ks2.len() ==> hash_lt(#[trigger] ks2[i], #[trigger] ks2[j]),
        forall|k: Seq<u8>| ks1.contains(k) == ks2.contains(k),
    ensures
        ks1 == ks2,
    decreases ks1.len(),
{
    if ks1.len() == 0 {
        if ks2.len() > 0 {
            assert(ks2.contains(ks2[0]));
            assert(ks1.contains(ks2[0]));
        }
        assert(ks1 =~= ks2);
    } else {
        assert(ks1.contains(ks1[0]));
        assert(ks2.contains(ks1[0]));
        let j = choose|j: int| 0 <= j < ks2.len() && ks2[j] == ks1[0];
        assert(ks2.contains(ks2[0]));
        assert(ks1.contains(ks2[0]));
        let i = choose|i: int| 0 <= i < ks1.len() && ks1[i] == ks2[0];
        if ks1[0] != ks2[0] {
            assert(j > 0 && i > 0);
            lemma_hash_lt_trans(ks1[0], ks1[i], ks2[j]);
            lemma_hash_lt_irrefl(ks1[0]);
        }
        let t1 = ks1.drop_first();
        let t2 = ks2.drop_first();
        assert forall|k: Seq<u8>| t1.contains(k) == t2.contains(k) by {
            lemma_tail_member(ks1, k);
            lemma_tail_member(ks2, k);
        }
        assert forall|a: int, b: int| 0 <= a < b < t1.len() implies hash_lt(
            #[trigger] t1[a],
            #[trigger] t1[b],
        ) by {
            assert(t1[a] == ks1[a + 1] && t1[b] == ks1[b + 1]);
        }
        assert forall|a: int, b: int| 0 <= a < b < t2.len() implies hash_lt(
            #[trigger] t2[a],
            #[trigger] t2[b],
        ) by {
            assert(t2[a] == ks2[a + 1] && t2[b] == ks2[b + 1]);
        }
        lemma_sorted_keys_unique(t1, t2);
        assert(ks1 =~= ks2) by {
            assert(forall|a: int| 1 <= a < ks1.len() ==> #[trigger] ks1[a] == t1[a - 1]);
            assert(forall|a: int| 1 <= a < ks2.len() ==> #[trigger] ks2[a] == t2[a - 1]);
        }
    }
}

/// Membership in the tail of a strictly ascending run: everything but the
/// first element.
proof fn lemma_tail_member(ks: Seq<Seq<u8>>, k: Seq<u8>)
    requires
        ks.len() > 0,
        forall|i: int, j: int| 0 <= i < j < ks.len() ==> hash_lt(#[trigger] ks[i], #[trigger] ks[j]),
    ensures
        ks.drop_first().contains(k) == (ks.contains(k) && k != ks[0]),
{
    let t = ks.drop_first();
    if t.contains(k) {
        let j = choose|j: int| 0 <= j < t.len() && t[j] == k;
        assert(ks[j + 1] == k);
        assert(hash_lt(ks[0], ks[j + 1]));
        lemma_hash_lt_irrefl(ks[0]);
    }
    if ks.contains(k) && k != ks[0] {
        let j = choose|j: int| 0 <= j < ks.len() && ks[j] == k;
        assert(t[j - 1] == k);
    }
}

} // verus!
