use vstd::prelude::*;

use crate::cipher::decrypt;
use crate::cipher::le_words;
use crate::cipher::spec_decrypt;
use crate::cipher::word_bytes;
use crate::content_map::ContentMap;
use crate::parser::ResrcDependencyView;
use crate::parser::ResrcDescriptor;
use crate::parser::ResrcDescriptorView;
use crate::parser::ResrcId;
use crate::parser::ResrcMethod;
use crate::parser::ResrcMethodView;
use crate::parser::SpecParse;
use crate::parser::spec_parse;

verus! {

broadcast use vstd::array::group_array_axioms;

/// The bytes a fetched payload effectively carries. A method byte `e`
/// marks the body behind the 4-byte magic encrypted: when that body has a
/// valid block-aligned length it is decrypted before anything further is
/// read from it; otherwise, and for every other method byte, the bytes
/// stand as fetched.
pub open spec fn effective_bytes(b: Seq<u8>) -> Seq<u8> {
    if b.len() >= 12 && b.len() % 4 == 0 && b[3] == 101 {
        b.take(4) + word_bytes(spec_decrypt(le_words(b.skip(4))))
    } else {
        b
    }
}

/// The dependency hashes a fetched payload names: the dependency table of
/// its resource header, read from the decrypted body where the header
/// marks it encrypted, or nothing when the header does not parse or is
/// not binary.
pub open spec fn spec_deps_of(b: Seq<u8>) -> Seq<ResrcDependencyView> {
    match spec_parse(effective_bytes(b)) {
        SpecParse::Parsed(id) => match id.method {
            ResrcMethodView::Binary { dependencies, .. } => dependencies,
            ResrcMethodView::Null => seq![],
        },
        _ => seq![],
    }
}

/// What recording one fetched payload does to the resolver's state: every
/// hash-based dependency not yet held is recorded as pending and queued,
/// in table order; held hashes and numeric references are skipped.
pub open spec fn spec_enqueue(
    m: Map<Seq<u8>, Option<Seq<u8>>>,
    p: Seq<Seq<u8>>,
    deps: Seq<ResrcDependencyView>,
) -> (Map<Seq<u8>, Option<Seq<u8>>>, Seq<Seq<u8>>)
    decreases deps.len(),
{
    if deps.len() == 0 {
        (m, p)
    } else {
        let next = match deps[0].desc {
            ResrcDescriptorView::Sha1(s) => if !m.contains_key(s) {
                (m.insert(s, None), p.push(s))
            } else {
                (m, p)
            },
            ResrcDescriptorView::Guid(_) => (m, p),
        };
        spec_enqueue(next.0, next.1, deps.drop_first())
    }
}

/// Walks the dependency graph reachable from the roots, fetching each
/// unique content hash at most once. The resolver owns the content map and
/// a work list of hashes whose fetch is still out; the caller asks for the
/// next hash, performs the fetch, and hands the outcome back.
pub struct Resolver {
    map: ContentMap,
    pending: Vec<[u8; 20]>,
    dl_count: u64,
    fail_count: u64,
}

impl Resolver {
    /// The content map gathered so far.
    pub closed spec fn content(self) -> ContentMap {
        self.map
    }

    /// The hashes whose fetch is still out, oldest first.
    pub closed spec fn pend(self) -> Seq<Seq<u8>> {
        self.pending@.map_values(|h: [u8; 20]| h@)
    }

    /// How many fetches succeeded.
    pub closed spec fn dl(self) -> int {
        self.dl_count as int
    }

    /// How many fetches failed.
    pub closed spec fn fails(self) -> int {
        self.fail_count as int
    }

    /// The resolver's invariant: the map is sorted; no hash is queued
    /// twice; every queued hash is recorded in the map without bytes; the
    /// success counter counts the filled entries, and the failure counter
    /// the unfilled entries that are no longer queued.
    pub closed spec fn wf(self) -> bool {
        &&& self.map.wf()
        &&& self.pend().no_duplicates()
        &&& forall|i: int|
            0 <= i < self.pend().len() ==> self.map@.contains_key(#[trigger] self.pend()[i])
                && self.map@[self.pend()[i]] is None
        &&& self.dl_count == self.map.num_some()
        &&& self.fail_count + self.pend().len() == self.map.num_none()
    }

    /// Once nothing is queued, every unfilled entry of the map is a failed
    /// fetch: the failure counter equals the number of distinct hashes that
    /// failed, and the success counter the number that resolved.
    pub proof fn lemma_counters_complete(self)
        requires
            self.wf(),
            self.pend().len() == 0,
        ensures
            self.fails() == self.content().num_none(),
            self.dl() == self.content().num_some(),
    {
    }

    pub fn new() -> (r: Resolver)
        ensures
            r.wf(),
            r.content()@ == Map::<Seq<u8>, Option<Seq<u8>>>::empty(),
            r.content().keys() == Seq::<Seq<u8>>::empty(),
            r.pend() == Seq::<Seq<u8>>::empty(),
            r.dl() == 0,
            r.fails() == 0,
    {
        let r = Resolver { map: ContentMap::new(), pending: Vec::new(), dl_count: 0, fail_count: 0 };
        proof {
            assert(r.pend() =~= Seq::<Seq<u8>>::empty());
        }
        r
    }

    /// Queues a root hash, unless it is already recorded.
    pub fn enqueue_root(&mut self, h: [u8; 20])
        requires
            old(self).wf(),
        ensures
            final(self).wf(),
            old(self).content()@.contains_key(h@) ==> *final(self) == *old(self),
            !old(self).content()@.contains_key(h@) ==> {
                &&& final(self).content()@ == old(self).content()@.insert(h@, None)
                &&& final(self).pend() == old(self).pend().push(h@)
                &&& final(self).dl() == old(self).dl()
                &&& final(self).fails() == old(self).fails()
            },
    {
        if !self.map.contains_hash(&h) {
            self.map.insert_pending(h);
            self.pending.push(h);
            proof {
                assert(self.pend() =~= old(self).pend().push(h@));
                lemma_pend_push_wf(*old(self), *self, h);
            }
        }
    }

    /// The hash to fetch next, if any fetch is still out.
    pub fn next_fetch(&self) -> (r: Option<[u8; 20]>)
        ensures
            (match r {
                None => self.pend().len() == 0,
                Some(h) => self.pend().len() > 0 && h@ == self.pend().last(),
            }),
    {
        if self.pending.len() == 0 {
            None
        } else {
            Some(self.pending[self.pending.len() - 1])
        }
    }

    /// Records that fetching `h` failed: the hash stays in the map without
    /// bytes, the failure counter grows, and resolution goes on with the
    /// remaining work.
    pub fn on_fetch_failure(&mut self, h: [u8; 20])
        requires
            old(self).wf(),
            old(self).pend().len() > 0,
            h@ == old(self).pend().last(),
        ensures
            final(self).wf(),
            final(self).content() == old(self).content(),
            final(self).pend() == old(self).pend().drop_last(),
            final(self).dl() == old(self).dl(),
            final(self).fails() == old(self).fails() + 1,
    {
        proof {
            self.map.lemma_counts();
        }
        let n = self.map.len();
        self.pending.pop();
        self.fail_count = self.fail_count + 1;
        proof {
            assert(self.pend() =~= old(self).pend().drop_last());
            assert forall|i: int|
                0 <= i < self.pend().len() implies self.map@.contains_key(
                #[trigger] self.pend()[i],
            ) && self.map@[self.pend()[i]] is None by {
                assert(self.pend()[i] == old(self).pend()[i]);
            }
        }
    }

    /// Records a fetched payload: the bytes are stored under their hash
    /// as fetched, the success counter grows, and every hash-based
    /// dependency that the payload's header names and the map does not
    /// yet hold is queued. A payload whose header marks the body
    /// encrypted is decrypted first, and the dependency table read from
    /// the decrypted bytes.
    pub fn on_fetch_success(&mut self, h: [u8; 20], data: Vec<u8>)
        requires
            old(self).wf(),
            old(self).pend().len() > 0,
            h@ == old(self).pend().last(),
        ensures
            final(self).wf(),
            final(self).dl() == old(self).dl() + 1,
            final(self).fails() == old(self).fails(),
            ({
                let after = spec_enqueue(
                    old(self).content()@.insert(h@, Some(data@)),
                    old(self).pend().drop_last(),
                    spec_deps_of(data@),
                );
                final(self).content()@ == after.0 && final(self).pend() == after.1
            }),
    {
        proof {
            self.map.lemma_counts();
            assert(self.map@.contains_key(h@) && self.map@[h@] is None);
        }
        let dlen = data.len();
        let effective: Vec<u8> = if dlen >= 12 && dlen % 4 == 0 && data[3] == 101 {
            let mut body: Vec<u8> = Vec::new();
            crate::bytes::push_slice(&mut body, &data.as_slice()[4..dlen]);
            proof {
                assert(body@ =~= data@.skip(4));
            }
            let dec = decrypt(&body);
            let mut e: Vec<u8> = Vec::new();
            e.push(data[0]);
            e.push(data[1]);
            e.push(data[2]);
            e.push(data[3]);
            crate::bytes::push_slice(&mut e, dec.as_slice());
            proof {
                assert(e@ =~= data@.take(4) + word_bytes(spec_decrypt(le_words(data@.skip(4)))));
                assert(e@ == effective_bytes(data@));
            }
            e
        } else {
            let e = copy_bytes(&data);
            proof {
                assert(e@ == effective_bytes(data@));
            }
            e
        };
        let parsed = ResrcId::new(effective.as_slice());
        let ghost deps_spec = spec_deps_of(data@);
        self.pending.pop();
        self.map.set_fetched(&h, data);
        proof {
            self.map.lemma_counts();
        }
        let n_now = self.map.len();
        self.dl_count = self.dl_count + 1;
        proof {
            assert(self.pend() =~= old(self).pend().drop_last());
            assert forall|i: int|
                0 <= i < self.pend().len() implies self.map@.contains_key(
                #[trigger] self.pend()[i],
            ) && self.map@[self.pend()[i]] is None by {
                assert(self.pend()[i] == old(self).pend()[i]);
                assert(old(self).pend()[i] != h@);
            }
            assert(self.wf());
        }
        match parsed {
            Ok(id) => {
                match id.method {
                    ResrcMethod::Binary { dependencies, .. } => {
                        let ghost m0 = self.map@;
                        let ghost p0 = self.pend();
                        proof {
                            assert(deps_spec == dependencies@.map_values(
                                |d: crate::parser::ResrcDependency| d@,
                            ));
                        }
                        proof {
                            assert(deps_spec.skip(0) =~= deps_spec);
                        }
                        let n = dependencies.len();
                        let mut i: usize = 0;
                        while i < n
                            invariant
                                self.wf(),
                                n == dependencies@.len(),
                                0 <= i <= n,
                                deps_spec == dependencies@.map_values(
                                    |d: crate::parser::ResrcDependency| d@,
                                ),
                                self.dl() == old(self).dl() + 1,
                                self.fails() == old(self).fails(),
                                spec_enqueue(m0, p0, deps_spec) == spec_enqueue(
                                    self.map@,
                                    self.pend(),
                                    deps_spec.skip(i as int),
                                ),
                            decreases n - i,
                        {
                            let ghost m_cur = self.map@;
                            let ghost p_cur = self.pend();
                            let ghost rem = deps_spec.skip(i as int);
                            proof {
                                assert(rem[0] == deps_spec[i as int]);
                                assert(deps_spec[i as int] == dependencies@[i as int]@);
                                assert(rem.drop_first() =~= deps_spec.skip(i + 1));
                            }
                            match &dependencies[i].desc {
                                ResrcDescriptor::Sha1(sha) => {
                                    if !self.map.contains_hash(sha) {
                                        let sha_owned = *sha;
                                        self.map.insert_pending(sha_owned);
                                        self.pending.push(sha_owned);
                                        proof {
                                            assert(self.pend() =~= p_cur.push(sha_owned@));
                                            lemma_pend_push_wf_mid(
                                                m_cur,
                                                p_cur,
                                                *self,
                                                sha_owned,
                                                old(self).dl() + 1,
                                                old(self).fails(),
                                            );
                                        }
                                    }
                                },
                                ResrcDescriptor::Guid(_) => {},
                            }
                            i = i + 1;
                        }
                        proof {
                            assert(deps_spec.skip(n as int) =~= Seq::<ResrcDependencyView>::empty());
                        }
                    },
                    ResrcMethod::Null => {
                        proof {
                            assert(deps_spec =~= Seq::<ResrcDependencyView>::empty());
                        }
                    },
                }
            },
            Err(_) => {
                proof {
                    assert(deps_spec =~= Seq::<ResrcDependencyView>::empty());
                }
            },
        }
    }

    /// How many fetches succeeded and how many failed, in that order.
    pub fn counters(&self) -> (r: (u64, u64))
        ensures
            r.0 == self.dl(),
            r.1 == self.fails(),
    {
        (self.dl_count, self.fail_count)
    }

    /// Hands the gathered content map over, once resolution is done; a
    /// well-formed resolver hands over a well-formed map.
    pub fn into_map(self) -> (r: ContentMap)
        ensures
            r == self.content(),
            self.wf() ==> r.wf(),
    {
        self.map
    }
}

/// Pushing a fresh pending hash preserves the resolver invariant.
proof fn lemma_pend_push_wf(pre: Resolver, post: Resolver, h: [u8; 20])
    requires
        pre.wf(),
        !pre.content()@.contains_key(h@),
        post.content().wf(),
        post.content()@ == pre.content()@.insert(h@, None),
        post.content().keys().len() == pre.content().keys().len() + 1,
        post.content().num_some() == pre.content().num_some(),
        post.pend() == pre.pend().push(h@),
        post.dl() == pre.dl(),
        post.fails() == pre.fails(),
    ensures
        post.wf(),
{
    assert forall|i: int|
        0 <= i < post.pend().len() implies post.content()@.contains_key(
        #[trigger] post.pend()[i],
    ) && post.content()@[post.pend()[i]] is None by {
        if i < pre.pend().len() {
            assert(post.pend()[i] == pre.pend()[i]);
            assert(pre.pend()[i] != h@);
        } else {
            assert(post.pend()[i] == h@);
        }
    }
    assert(post.pend().no_duplicates()) by {
        assert forall|i: int, j: int|
            0 <= i < j < post.pend().len() implies post.pend()[i] != post.pend()[j] by {
            if j < pre.pend().len() {
            } else {
                assert(post.pend()[j] == h@);
                if i < pre.pend().len() {
                    assert(post.pend()[i] == pre.pend()[i]);
                }
            }
        }
    }
}

/// The same, stated against the state the work loop carries.
proof fn lemma_pend_push_wf_mid(
    m_cur: Map<Seq<u8>, Option<Seq<u8>>>,
    p_cur: Seq<Seq<u8>>,
    post: Resolver,
    h: [u8; 20],
    dl: int,
    fails: int,
)
    requires
        post.content().wf(),
        !m_cur.contains_key(h@),
        post.content()@ == m_cur.insert(h@, None),
        post.pend() == p_cur.push(h@),
        p_cur.no_duplicates(),
        forall|i: int|
            0 <= i < p_cur.len() ==> m_cur.contains_key(#[trigger] p_cur[i]) && m_cur[p_cur[i]] is None,
        post.dl() == dl,
        post.fails() == fails,
        post.dl() == post.content().num_some(),
        fails + p_cur.len() + 1 == post.content().num_none(),
    ensures
        post.wf(),
{
    assert forall|i: int|
        0 <= i < post.pend().len() implies post.content()@.contains_key(
        #[trigger] post.pend()[i],
    ) && post.content()@[post.pend()[i]] is None by {
        if i < p_cur.len() {
            assert(post.pend()[i] == p_cur[i]);
            assert(p_cur[i] != h@);
        } else {
            assert(post.pend()[i] == h@);
        }
    }
    assert(post.pend().no_duplicates()) by {
        assert forall|i: int, j: int|
            0 <= i < j < post.pend().len() implies post.pend()[i] != post.pend()[j] by {
            if j < p_cur.len() {
            } else {
                assert(post.pend()[j] == h@);
                if i < p_cur.len() {
                    assert(post.pend()[i] == p_cur[i]);
                }
            }
        }
    }
}

// ---------------------------------------------------------------------------
// Resolution against a finite local store.
// ---------------------------------------------------------------------------

/// The hash-based dependencies named by a dependency table.
pub open spec fn sha1_set(deps: Seq<ResrcDependencyView>) -> Set<Seq<u8>>
    decreases deps.len(),
{
    if deps.len() == 0 {
        Set::<Seq<u8>>::empty()
    } else {
        (match deps[0].desc {
            ResrcDescriptorView::Sha1(s) => sha1_set(deps.drop_first()).insert(s),
            ResrcDescriptorView::Guid(_) => sha1_set(deps.drop_first()),
        })
    }
}

proof fn lemma_sha1_set_finite(deps: Seq<ResrcDependencyView>)
    ensures
        sha1_set(deps).finite(),
        forall|j: int|
            0 <= j < deps.len() ==> match #[trigger] deps[j].desc {
                ResrcDescriptorView::Sha1(s) => sha1_set(deps).contains(s),
                ResrcDescriptorView::Guid(_) => true,
            },
    decreases deps.len(),
{
    if deps.len() > 0 {
        lemma_sha1_set_finite(deps.drop_first());
        assert forall|j: int|
            0 <= j < deps.len() implies match #[trigger] deps[j].desc {
            ResrcDescriptorView::Sha1(s) => sha1_set(deps).contains(s),
            ResrcDescriptorView::Guid(_) => true,
        } by {
            if j > 0 {
                assert(deps.drop_first()[j - 1] == deps[j]);
            }
        }
    }
}

/// The dependencies named by the first `i` entries of a store.
pub open spec fn store_universe(store: ContentMap, i: int) -> Set<Seq<u8>>
    decreases i,
{
    if i <= 0 {
        Set::<Seq<u8>>::empty()
    } else {
        store_universe(store, i - 1).union(
            match store@[store.keys()[i - 1]] {
                Some(b) => sha1_set(spec_deps_of(b)),
                None => Set::<Seq<u8>>::empty(),
            },
        )
    }
}

proof fn lemma_store_universe(store: ContentMap, i: int)
    requires
        0 <= i,
    ensures
        store_universe(store, i).finite(),
        forall|k: int|
            0 <= k < i ==> match store@[#[trigger] store.keys()[k]] {
                Some(b) => sha1_set(spec_deps_of(b)).subset_of(store_universe(store, i)),
                None => true,
            },
    decreases i,
{
    if i > 0 {
        lemma_store_universe(store, i - 1);
        match store@[store.keys()[i - 1]] {
            Some(b) => {
                lemma_sha1_set_finite(spec_deps_of(b));
            },
            None => {},
        }
    }
}

/// The hashes the roots name.
pub open spec fn roots_set(roots: Seq<[u8; 20]>) -> Set<Seq<u8>>
    decreases roots.len(),
{
    if roots.len() == 0 {
        Set::<Seq<u8>>::empty()
    } else {
        roots_set(roots.drop_first()).insert(roots[0]@)
    }
}

proof fn lemma_roots_set(roots: Seq<[u8; 20]>)
    ensures
        roots_set(roots).finite(),
        forall|i: int| 0 <= i < roots.len() ==> roots_set(roots).contains(#[trigger] roots[i]@),
    decreases roots.len(),
{
    if roots.len() > 0 {
        lemma_roots_set(roots.drop_first());
        assert forall|i: int|
            0 <= i < roots.len() implies roots_set(roots).contains(#[trigger] roots[i]@) by {
            if i > 0 {
                assert(roots.drop_first()[i - 1] == roots[i]);
            }
        }
    }
}

/// What queuing a dependency table does to map and work list: the map only
/// grows, by hashes the table names, recorded without bytes and queued;
/// what was held keeps its value, and afterwards every hash the table
/// names is held.
proof fn lemma_spec_enqueue_props(
    m: Map<Seq<u8>, Option<Seq<u8>>>,
    p: Seq<Seq<u8>>,
    deps: Seq<ResrcDependencyView>,
)
    requires
        m.dom().finite(),
    ensures
        ({
            let r = spec_enqueue(m, p, deps);
            &&& m.dom().subset_of(r.0.dom())
            &&& r.0.dom().subset_of(m.dom().union(sha1_set(deps)))
            &&& forall|k: Seq<u8>| #[trigger] m.contains_key(k) ==> r.0[k] == m[k]
            &&& forall|k: Seq<u8>|
                #[trigger] r.0.contains_key(k) && !m.contains_key(k) ==> r.0[k] is None
                    && r.1.contains(k)
            &&& forall|j: int|
                0 <= j < deps.len() ==> match #[trigger] deps[j].desc {
                    ResrcDescriptorView::Sha1(s) => r.0.contains_key(s),
                    ResrcDescriptorView::Guid(_) => true,
                }
            &&& forall|k: Seq<u8>| #[trigger] p.contains(k) ==> r.1.contains(k)
            &&& r.0.dom().finite()
            &&& r.0.dom().len() - m.dom().len() == r.1.len() - p.len()
            &&& r.1.len() >= p.len()
        }),
    decreases deps.len(),
{
    if deps.len() > 0 {
        let next = match deps[0].desc {
            ResrcDescriptorView::Sha1(s) => if !m.contains_key(s) {
                (m.insert(s, None), p.push(s))
            } else {
                (m, p)
            },
            ResrcDescriptorView::Guid(_) => (m, p),
        };
        lemma_spec_enqueue_props(next.0, next.1, deps.drop_first());
        let r = spec_enqueue(m, p, deps);
        let rest = deps.drop_first();
        assert forall|k: Seq<u8>| r.0.dom().contains(k) implies m.dom().union(
            sha1_set(deps),
        ).contains(k) by {
            assert(next.0.dom().union(sha1_set(rest)).contains(k));
            match deps[0].desc {
                ResrcDescriptorView::Sha1(s) => {
                    assert(sha1_set(deps) == sha1_set(rest).insert(s));
                },
                ResrcDescriptorView::Guid(_) => {},
            }
        }
        assert forall|k: Seq<u8>| #[trigger] m.contains_key(k) implies r.0[k] == m[k] by {
            assert(next.0.contains_key(k));
            assert(r.0[k] == next.0[k]);
        }
        assert forall|k: Seq<u8>| p.contains(k) implies r.1.contains(k) by {
            let j = choose|j: int| 0 <= j < p.len() && p[j] == k;
            assert(next.1[j] == k);
            assert(next.1.contains(k));
        }
        assert forall|k: Seq<u8>|
            #[trigger] r.0.contains_key(k) && !m.contains_key(k) implies r.0[k] is None
            && r.1.contains(k) by {
            match deps[0].desc {
                ResrcDescriptorView::Sha1(s) => {
                    if !m.contains_key(s) && k == s {
                        assert(next.0.contains_key(s));
                        assert(r.0[s] == next.0[s]);
                        assert(next.1.last() == s);
                        assert(next.1.contains(s));
                    } else {
                        assert(!next.0.contains_key(k));
                    }
                },
                ResrcDescriptorView::Guid(_) => {
                    assert(!next.0.contains_key(k));
                },
            }
        }
        assert forall|j: int|
            0 <= j < deps.len() implies match #[trigger] deps[j].desc {
            ResrcDescriptorView::Sha1(s) => r.0.contains_key(s),
            ResrcDescriptorView::Guid(_) => true,
        } by {
            if j > 0 {
                assert(rest[j - 1] == deps[j]);
            } else {
                match deps[0].desc {
                    ResrcDescriptorView::Sha1(s) => {
                        assert(next.0.contains_key(s));
                        assert(next.0.dom().subset_of(r.0.dom()));
                    },
                    ResrcDescriptorView::Guid(_) => {},
                }
            }
        }
    }
}

/// Every hash-based dependency of every resolved payload is held in the
/// map.
pub open spec fn deps_closed(m: Map<Seq<u8>, Option<Seq<u8>>>) -> bool {
    forall|k: Seq<u8>|
        #[trigger] m.contains_key(k) ==> match m[k] {
            Some(b) => forall|j: int|
                0 <= j < spec_deps_of(b).len() ==> match #[trigger] spec_deps_of(b)[j].desc {
                    ResrcDescriptorView::Sha1(s) => m.contains_key(s),
                    ResrcDescriptorView::Guid(_) => true,
                },
            None => true,
        }
}

/// Every held key is accounted for: it is one of the roots, or a hash
/// dependency named by some held, resolved payload. Nothing unreachable
/// from the roots is ever recorded.
pub open spec fn keys_grounded(m: Map<Seq<u8>, Option<Seq<u8>>>, roots: Seq<[u8; 20]>) -> bool {
    forall|k: Seq<u8>|
        #[trigger] m.contains_key(k) ==> roots_set(roots).contains(k) || exists|k2: Seq<u8>|
            #[trigger] m.contains_key(k2) && m[k2] is Some && sha1_set(
                spec_deps_of(m[k2]->Some_0),
            ).contains(k)
}

/// Every resolved payload holds exactly the bytes the store has for its
/// hash.
pub open spec fn faithful(
    m: Map<Seq<u8>, Option<Seq<u8>>>,
    store: ContentMap,
) -> bool {
    forall|k: Seq<u8>|
        #[trigger] m.contains_key(k) ==> match m[k] {
            Some(b) => store@.contains_key(k) && store@[k] == Some(b),
            None => true,
        }
}

/// A private copy of a byte string.
fn copy_bytes(v: &Vec<u8>) -> (r: Vec<u8>)
    ensures
        r@ == v@,
{
    let mut r: Vec<u8> = Vec::new();
    crate::bytes::push_slice(&mut r, v.as_slice());
    proof {
        assert(Seq::<u8>::empty() + v@ =~= v@);
    }
    r
}

/// Resolves the whole dependency graph reachable from the roots against a
/// finite local store, fetching by lookup: each unique hash is fetched at
/// most once, a cycle cannot make the walk revisit a hash, and the walk
/// terminates on every store. A hash the store lacks is recorded as
/// failed; afterwards the map holds every root, every dependency of every
/// resolved payload, and nothing is left pending.
pub fn resolve_from_store(roots: &Vec<[u8; 20]>, store: &ContentMap) -> (r: Resolver)
    requires
        store.wf(),
    ensures
        r.wf(),
        r.pend().len() == 0,
        forall|i: int|
            0 <= i < roots@.len() ==> r.content()@.contains_key(#[trigger] roots@[i]@),
        faithful(r.content()@, *store),
        deps_closed(r.content()@),
        keys_grounded(r.content()@, roots@),
        forall|k: Seq<u8>|
            #[trigger] r.content()@.contains_key(k) && r.content()@[k] is None ==> !(
            store@.contains_key(k) && store@[k] is Some),
{
    let ghost u = roots_set(roots@).union(store_universe(*store, store.keys().len() as int));
    proof {
        lemma_roots_set(roots@);
        lemma_store_universe(*store, store.keys().len() as int);
    }
    let mut r = Resolver::new();
    let n_roots = roots.len();
    let mut i: usize = 0;
    while i < n_roots
        invariant
            n_roots == roots@.len(),
            0 <= i <= n_roots,
            r.wf(),
            u == roots_set(roots@).union(store_universe(*store, store.keys().len() as int)),
            u.finite(),
            forall|j: int|
                0 <= j < roots@.len() ==> u.contains(#[trigger] roots@[j]@),
            forall|j: int|
                0 <= j < roots@.len() ==> roots_set(roots@).contains(#[trigger] roots@[j]@),
            forall|j: int|
                0 <= j < i ==> r.content()@.contains_key(#[trigger] roots@[j]@),
            keys_grounded(r.content()@, roots@),
            r.content()@.dom().subset_of(u),
            forall|k: Seq<u8>| #[trigger] r.content()@.contains_key(k) ==> r.content()@[k] is None,
            forall|k: Seq<u8>|
                #[trigger] r.content()@.contains_key(k) ==> r.pend().contains(k),
            r.dl() == 0,
        decreases n_roots - i,
    {
        let ghost prev_pend = r.pend();
        let ghost prev_map = r.content()@;
        r.enqueue_root(roots[i]);
        proof {
            assert forall|k: Seq<u8>|
                #[trigger] r.content()@.contains_key(k) implies roots_set(roots@).contains(k)
                || exists|k2: Seq<u8>|
                #[trigger] r.content()@.contains_key(k2) && r.content()@[k2] is Some && sha1_set(
                spec_deps_of(r.content()@[k2]->Some_0),
            ).contains(k) by {
                if prev_map.contains_key(k) {
                } else {
                    assert(k == roots@[i as int]@);
                }
            }
            assert forall|k: Seq<u8>|
                #[trigger] r.content()@.contains_key(k) implies r.pend().contains(k) by {
                if prev_map.contains_key(k) {
                    assert(prev_pend.contains(k));
                    let j = choose|j: int| 0 <= j < prev_pend.len() && prev_pend[j] == k;
                    assert(r.pend()[j] == k);
                } else {
                    assert(k == roots@[i as int]@);
                    assert(r.pend().last() == k);
                }
            }
        }
        i = i + 1;
    }
    proof {
        r.content().lemma_dom_finite();
        vstd::set_lib::lemma_len_subset(r.content()@.dom(), u);
    }
    loop
        invariant
            r.wf(),
            store.wf(),
            u == roots_set(roots@).union(store_universe(*store, store.keys().len() as int)),
            u.finite(),
            r.content()@.dom().subset_of(u),
            r.content()@.dom().finite(),
            forall|j: int|
                0 <= j < roots@.len() ==> r.content()@.contains_key(#[trigger] roots@[j]@),
            faithful(r.content()@, *store),
            deps_closed(r.content()@),
            keys_grounded(r.content()@, roots@),
            forall|k: Seq<u8>|
                #[trigger] r.content()@.contains_key(k) && r.content()@[k] is None
                    && !r.pend().contains(k) ==> !(store@.contains_key(k) && store@[k] is Some),
        ensures
            r.wf(),
            r.pend().len() == 0,
            forall|j: int|
                0 <= j < roots@.len() ==> r.content()@.contains_key(#[trigger] roots@[j]@),
            faithful(r.content()@, *store),
            deps_closed(r.content()@),
            keys_grounded(r.content()@, roots@),
            forall|k: Seq<u8>|
                #[trigger] r.content()@.contains_key(k) && r.content()@[k] is None
                    && !r.pend().contains(k) ==> !(store@.contains_key(k) && store@[k] is Some),
        decreases u.len() - r.content()@.dom().len(), r.pend().len(),
    {
        proof {
            vstd::set_lib::lemma_len_subset(r.content()@.dom(), u);
        }
        let next = r.next_fetch();
        let h = match next {
            Some(h) => h,
            None => {
                break ;
            },
        };
        let ghost pend0 = r.pend();
        let ghost dom0 = r.content()@.dom();
        match store.get(&h) {
            Some(d) => match d {
                Some(bytes) => {
                    let owned = copy_bytes(bytes);
                    let ghost ob = owned@;
                    let ghost old_map = r.content()@;
                    let ghost m0 = old_map.insert(h@, Some(owned@));
                    let ghost p0 = pend0.drop_last();
                    let ghost deps = spec_deps_of(owned@);
                    proof {
                        assert(old_map.contains_key(h@));
                        assert(old_map[h@] is None) by {
                            assert(pend0[pend0.len() - 1] == h@);
                        }
                        assert(m0.dom() =~= dom0.insert(h@));
                        assert(dom0.insert(h@) =~= dom0);
                        lemma_spec_enqueue_props(m0, p0, deps);
                        lemma_store_universe(*store, store.keys().len() as int);
                        store.lemma_contains(h@);
                        let ki = choose|ki: int|
                            0 <= ki < store.keys().len() && store.keys()[ki] == h@;
                        assert(store@[store.keys()[ki]] == Some(owned@));
                        assert(sha1_set(deps).subset_of(
                            store_universe(*store, store.keys().len() as int),
                        ));
                    }
                    r.on_fetch_success(h, owned);
                    proof {
                        let e = spec_enqueue(m0, p0, deps);
                        let m2 = r.content()@;
                        assert(m2 == e.0 && r.pend() == e.1);
                        // the map only grew inside the universe
                        assert forall|k: Seq<u8>| m2.dom().contains(k) implies u.contains(k) by {
                            assert(m2.dom().subset_of(m0.dom().union(sha1_set(deps))));
                            if m0.dom().contains(k) {
                                assert(dom0.contains(k));
                            } else {
                                assert(sha1_set(deps).contains(k));
                                assert(store_universe(*store, store.keys().len() as int).contains(
                                    k,
                                ));
                            }
                        }
                        assert(m2.dom().subset_of(u));
                        // what was resolved is what the store holds
                        assert forall|k: Seq<u8>| #[trigger] m2.contains_key(k) implies match m2[k] {
                            Some(b) => store@.contains_key(k) && store@[k] == Some(b),
                            None => true,
                        } by {
                            if m0.contains_key(k) {
                                assert(m2[k] == m0[k]);
                                if k != h@ {
                                    assert(m0[k] == old_map[k]);
                                    assert(old_map.contains_key(k));
                                }
                            } else {
                                assert(m2[k] is None);
                            }
                        }
                        // every dependency of every resolved payload is held
                        assert forall|k: Seq<u8>| #[trigger] m2.contains_key(k) implies match m2[k] {
                            Some(b) => forall|j: int|
                                0 <= j < spec_deps_of(b).len() ==> match #[trigger] spec_deps_of(
                                    b,
                                )[j].desc {
                                    ResrcDescriptorView::Sha1(s) => m2.contains_key(s),
                                    ResrcDescriptorView::Guid(_) => true,
                                },
                            None => true,
                        } by {
                            if m0.contains_key(k) {
                                assert(m2[k] == m0[k]);
                                if k == h@ {
                                } else {
                                    assert(m0[k] == old_map[k]);
                                    assert(old_map.contains_key(k));
                                    if old_map[k] is Some {
                                        let b = old_map[k]->Some_0;
                                        assert forall|j: int|
                                            0 <= j < spec_deps_of(b).len() implies match #[trigger] spec_deps_of(
                                            b,
                                        )[j].desc {
                                            ResrcDescriptorView::Sha1(s) => m2.contains_key(s),
                                            ResrcDescriptorView::Guid(_) => true,
                                        } by {
                                            match spec_deps_of(b)[j].desc {
                                                ResrcDescriptorView::Sha1(s) => {
                                                    assert(old_map.contains_key(s));
                                                    assert(m0.contains_key(s));
                                                },
                                                ResrcDescriptorView::Guid(_) => {},
                                            }
                                        }
                                    }
                                }
                            } else {
                                assert(m2[k] is None);
                            }
                        }
                        // an unqueued hash without bytes is a failed lookup
                        assert forall|k: Seq<u8>|
                            #[trigger] m2.contains_key(k) && m2[k] is None && !r.pend().contains(
                            k,
                        ) implies !(store@.contains_key(k) && store@[k] is Some) by {
                            if m0.contains_key(k) {
                                assert(m2[k] == m0[k]);
                                assert(k != h@);
                                assert(m0[k] == old_map[k]);
                                if pend0.contains(k) {
                                    let j = choose|j: int|
                                        0 <= j < pend0.len() && pend0[j] == k;
                                    assert(j < pend0.len() - 1);
                                    assert(p0[j] == k);
                                    assert(p0.contains(k));
                                    assert(e.1.contains(k));
                                    assert(r.pend().contains(k));
                                } else {
                                }
                            } else {
                                assert(e.0.contains_key(k) && !m0.contains_key(k));
                                assert(e.1.contains(k));
                                assert(r.pend().contains(k));
                            }
                        }
                        // every key is a root or named by a held resolved payload
                        assert forall|k: Seq<u8>| #[trigger] m2.contains_key(k) implies roots_set(
                            roots@,
                        ).contains(k) || exists|k2: Seq<u8>|
                            #[trigger] m2.contains_key(k2) && m2[k2] is Some && sha1_set(
                            spec_deps_of(m2[k2]->Some_0),
                        ).contains(k) by {
                            if m0.contains_key(k) {
                                assert(old_map.contains_key(k));
                                if !roots_set(roots@).contains(k) {
                                    let k2 = choose|k2: Seq<u8>|
                                        #[trigger] old_map.contains_key(k2) && old_map[k2] is Some
                                            && sha1_set(spec_deps_of(old_map[k2]->Some_0)).contains(
                                            k,
                                        );
                                    assert(k2 != h@);
                                    assert(m0.contains_key(k2));
                                    assert(m2[k2] == m0[k2] && m0[k2] == old_map[k2]);
                                    assert(m2.contains_key(k2) && m2[k2] is Some && sha1_set(
                                        spec_deps_of(m2[k2]->Some_0),
                                    ).contains(k));
                                }
                            } else {
                                assert(e.0.contains_key(k) && !m0.contains_key(k));
                                assert(m2.dom().subset_of(m0.dom().union(sha1_set(deps))));
                                assert(sha1_set(deps).contains(k));
                                assert(m0.contains_key(h@));
                                assert(m2[h@] == m0[h@]);
                                assert(m0[h@] == Some(ob));
                                assert(m2.contains_key(h@) && m2[h@] is Some && sha1_set(
                                    spec_deps_of(m2[h@]->Some_0),
                                ).contains(k));
                            }
                        }
                        // the measure falls
                        r.content().lemma_dom_finite();
                        vstd::set_lib::lemma_len_subset(m2.dom(), u);
                    }
                },
                None => {
                    let ghost old_map = r.content()@;
                    r.on_fetch_failure(h);
                    proof {
                        lemma_after_failure(pend0, old_map, *store, &r, h);
                    }
                },
            },
            None => {
                let ghost old_map = r.content()@;
                proof {
                    store.lemma_contains(h@);
                }
                r.on_fetch_failure(h);
                proof {
                    lemma_after_failure(pend0, old_map, *store, &r, h);
                }
            },
        }
    }
    r
}

/// After a failed lookup the map is unchanged, the hash leaves the work
/// list, and the store is known to lack it.
proof fn lemma_after_failure(
    pend0: Seq<Seq<u8>>,
    old_map: Map<Seq<u8>, Option<Seq<u8>>>,
    store: ContentMap,
    r: &Resolver,
    h: [u8; 20],
)
    requires
        pend0.len() > 0,
        h@ == pend0.last(),
        pend0.no_duplicates(),
        r.content()@ == old_map,
        r.pend() == pend0.drop_last(),
        !(store@.contains_key(h@) && store@[h@] is Some),
        forall|k: Seq<u8>|
            #[trigger] old_map.contains_key(k) && old_map[k] is None && !pend0.contains(k) ==> !(
            store@.contains_key(k) && store@[k] is Some),
    ensures
        forall|k: Seq<u8>|
            #[trigger] r.content()@.contains_key(k) && r.content()@[k] is None
                && !r.pend().contains(k) ==> !(store@.contains_key(k) && store@[k] is Some),
{
    assert forall|k: Seq<u8>|
        #[trigger] r.content()@.contains_key(k) && r.content()@[k] is None && !r.pend().contains(
        k,
    ) implies !(store@.contains_key(k) && store@[k] is Some) by {
        if k == h@ {
        } else {
            if pend0.contains(k) {
                let j = choose|j: int| 0 <= j < pend0.len() && pend0[j] == k;
                assert(j < pend0.len() - 1);
                assert(pend0.drop_last()[j] == k);
                assert(r.pend().contains(k));
            }
        }
    }
}

} // verus!
