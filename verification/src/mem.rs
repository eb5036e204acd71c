//! Reference backend of the store: an in-memory block map with a
//! reference-counted pin policy over the link graph.
//!
//! The store keeps four mappings keyed by content identifier: the block
//! bytes, the outbound links computed once at insert time, the inbound
//! link count, and the user pin count. A block whose pin and inbound
//! counts both reach zero is removed, and its removal cascades along its
//! outbound links.
use vstd::prelude::*;

use crate::block::{decode_ipld, ipld_of, Block};
use crate::cid::{Cid, CidV};
use crate::error::{BlockError, StoreError};
use crate::gc::references;
use crate::ipld::{cid_set, cids_unique, links_of};

verus! {

/// The value stored under a key in an association list, looked up from the
/// most recent entry backwards.
pub open spec fn al_get<V>(s: Seq<(Cid, V)>, c: CidV) -> Option<V>
    decreases s.len(),
{
    if s.len() == 0 {
        None
    } else if s.last().0@ == c {
        Some(s.last().1)
    } else {
        al_get(s.drop_last(), c)
    }
}

/// Whether an association list holds each key at most once.
pub open spec fn al_unique<V>(s: Seq<(Cid, V)>) -> bool {
    forall|i: int, j: int| 0 <= i < j < s.len() ==> (#[trigger] s[i]).0@ != (#[trigger] s[j]).0@
}

/// In a duplicate-free list, the entry at any index is the one looked up.
proof fn lemma_al_get_index<V>(s: Seq<(Cid, V)>, i: int)
    requires
        al_unique(s),
        0 <= i < s.len(),
    ensures
        al_get(s, s[i].0@) == Some(s[i].1),
    decreases s.len(),
{
    if i < s.len() - 1 {
        assert(s.last().0@ != s[i].0@);
        lemma_al_get_index(s.drop_last(), i);
        assert(s.drop_last()[i] == s[i]);
    }
}

/// A key held at no index is looked up to nothing.
proof fn lemma_al_get_absent<V>(s: Seq<(Cid, V)>, c: CidV)
    requires
        forall|i: int| 0 <= i < s.len() ==> (#[trigger] s[i]).0@ != c,
    ensures
        al_get(s, c) is None,
    decreases s.len(),
{
    if s.len() > 0 {
        lemma_al_get_absent(s.drop_last(), c);
    }
}

/// Appending an entry changes only its own key's lookup.
proof fn lemma_al_get_push<V>(s: Seq<(Cid, V)>, e: (Cid, V), d: CidV)
    ensures
        al_get(s.push(e), e.0@) == Some(e.1),
        d != e.0@ ==> al_get(s.push(e), d) == al_get(s, d),
{
    assert(s.push(e).drop_last() =~= s);
    assert(s.push(e).last() == e);
}

/// Removing the entry at an index removes its key's lookup and keeps all
/// others, in a duplicate-free list.
proof fn lemma_al_get_remove<V>(s: Seq<(Cid, V)>, i: int, d: CidV)
    requires
        al_unique(s),
        0 <= i < s.len(),
    ensures
        al_get(s.remove(i), s[i].0@) is None,
        d != s[i].0@ ==> al_get(s.remove(i), d) == al_get(s, d),
        al_unique(s.remove(i)),
    decreases s.len(),
{
    let t = s.remove(i);
    assert forall|a: int, b: int| 0 <= a < b < t.len() implies (#[trigger] t[a]).0@ != (
    #[trigger] t[b]).0@ by {
        if b < i {
            assert(t[a] == s[a] && t[b] == s[b]);
        } else if a < i {
            assert(t[a] == s[a] && t[b] == s[b + 1]);
        } else {
            assert(t[a] == s[a + 1] && t[b] == s[b + 1]);
        }
    }
    if i == s.len() - 1 {
        assert(s.remove(i) =~= s.drop_last());
        assert forall|k: int| 0 <= k < s.drop_last().len() implies (#[trigger] s.drop_last()[k]).0@
            != s[i].0@ by {
            assert(s.drop_last()[k] == s[k]);
        }
        lemma_al_get_absent(s.drop_last(), s[i].0@);
    } else {
        assert(s.remove(i).last() == s.last());
        assert(s.remove(i).drop_last() =~= s.drop_last().remove(i));
        assert(s.drop_last()[i] == s[i]);
        lemma_al_get_remove(s.drop_last(), i, d);
        lemma_al_get_remove(s.drop_last(), i, s[i].0@);
    }
}

/// Finds the index of a key in an association list.
fn al_find<V>(s: &Vec<(Cid, V)>, c: &Cid) -> (r: Option<usize>)
    ensures
        match r {
            Some(i) => i < s@.len() && s@[i as int].0@ == c@,
            None => forall|i: int| 0 <= i < s@.len() ==> (#[trigger] s@[i]).0@ != c@,
        },
{
    let n: usize = s.len();
    let mut i: usize = 0;
    while i < n
        invariant
            n == s@.len(),
            i <= n,
            forall|j: int| 0 <= j < i ==> (#[trigger] s@[j]).0@ != c@,
        decreases n - i,
    {
        if s[i].0.equals(c) {
            return Some(i);
        }
        i += 1;
    }
    None
}

/// The number of stored link lists that hold the given identifier.
pub open spec fn count_refs(s: Seq<(Cid, Vec<Cid>)>, c: CidV) -> int
    decreases s.len(),
{
    if s.len() == 0 {
        0
    } else {
        count_refs(s.drop_last(), c) + if cid_set(s.last().1@).contains(c) {
            1int
        } else {
            0int
        }
    }
}

/// The count of holders is between zero and the number of lists.
proof fn lemma_count_refs_bounds(s: Seq<(Cid, Vec<Cid>)>, c: CidV)
    ensures
        0 <= count_refs(s, c) <= s.len(),
    decreases s.len(),
{
    if s.len() > 0 {
        lemma_count_refs_bounds(s.drop_last(), c);
    }
}

/// Appending a list raises the count exactly for the identifiers it holds.
proof fn lemma_count_refs_push(s: Seq<(Cid, Vec<Cid>)>, e: (Cid, Vec<Cid>), c: CidV)
    ensures
        count_refs(s.push(e), c) == count_refs(s, c) + if cid_set(e.1@).contains(c) {
            1int
        } else {
            0int
        },
{
    assert(s.push(e).drop_last() =~= s);
    assert(s.push(e).last() == e);
}

/// Removing a list lowers the count exactly for the identifiers it holds.
proof fn lemma_count_refs_remove(s: Seq<(Cid, Vec<Cid>)>, i: int, c: CidV)
    requires
        0 <= i < s.len(),
    ensures
        count_refs(s.remove(i), c) == count_refs(s, c) - if cid_set(s[i].1@).contains(c) {
            1int
        } else {
            0int
        },
    decreases s.len(),
{
    if i == s.len() - 1 {
        assert(s.remove(i) =~= s.drop_last());
    } else {
        assert(s.remove(i).last() == s.last());
        assert(s.remove(i).drop_last() =~= s.drop_last().remove(i));
        assert(s.drop_last()[i] == s[i]);
        lemma_count_refs_remove(s.drop_last(), i, c);
    }
}

/// A single block contributing a link makes the count positive.
proof fn lemma_count_refs_at_least_one(s: Seq<(Cid, Vec<Cid>)>, i: int, c: CidV)
    requires
        0 <= i < s.len(),
        cid_set(s[i].1@).contains(c),
    ensures
        count_refs(s, c) >= 1,
    decreases s.len(),
{
    lemma_count_refs_bounds(s.drop_last(), c);
    if i < s.len() - 1 {
        assert(s.drop_last()[i] == s[i]);
        lemma_count_refs_at_least_one(s.drop_last(), i, c);
    }
}

/// Appending an identifier adds exactly it to the set a vector holds.
pub proof fn lemma_cid_set_push(s: Seq<Cid>, x: Cid)
    ensures
        cid_set(s.push(x)) == cid_set(s).insert(x@),
{
    let t = s.push(x);
    assert(t[s.len() as int]@ == x@);
    assert forall|d: CidV| #[trigger] cid_set(t).contains(d) implies cid_set(s).insert(
        x@,
    ).contains(d) by {
        let i = choose|i: int| 0 <= i < t.len() && t[i]@ == d;
        if i < s.len() {
            assert(s[i]@ == d);
            assert(cid_set(s).contains(d));
        }
    }
    assert forall|d: CidV| cid_set(s).insert(x@).contains(d) implies cid_set(t).contains(d) by {
        if cid_set(s).contains(d) {
            let i = choose|i: int| 0 <= i < s.len() && s[i]@ == d;
            assert(t[i]@ == d);
        } else {
            assert(t[s.len() as int]@ == d);
        }
    }
    assert(cid_set(t) =~= cid_set(s).insert(x@));
}

/// The reference-counted block map.
pub struct InnerStore {
    blocks: Vec<(Cid, Vec<u8>)>,
    refs: Vec<(Cid, Vec<Cid>)>,
    referers: Vec<(Cid, usize)>,
    pins: Vec<(Cid, usize)>,
}

impl InnerStore {
    /// The bytes stored under an identifier.
    pub closed spec fn block_of(&self, c: CidV) -> Option<Seq<u8>> {
        match al_get(self.blocks@, c) {
            Some(d) => Some(d@),
            None => None,
        }
    }

    /// Whether a block is stored under the identifier.
    pub open spec fn has_block(&self, c: CidV) -> bool {
        self.block_of(c) is Some
    }

    /// The outbound links recorded for a stored block; empty for an absent
    /// one.
    pub closed spec fn refs_of(&self, c: CidV) -> Set<CidV> {
        match al_get(self.refs@, c) {
            Some(rl) => cid_set(rl@),
            None => Set::empty(),
        }
    }

    /// The inbound link count of an identifier.
    pub closed spec fn referers_of(&self, c: CidV) -> int {
        match al_get(self.referers@, c) {
            Some(n) => n as int,
            None => 0,
        }
    }

    /// The user pin count of an identifier.
    pub closed spec fn pins_of(&self, c: CidV) -> int {
        match al_get(self.pins@, c) {
            Some(n) => n as int,
            None => 0,
        }
    }

    /// Whether an identifier is retained: pinned, or linked from a stored
    /// block.
    pub open spec fn retained(&self, c: CidV) -> bool {
        self.pins_of(c) > 0 || self.referers_of(c) > 0
    }

    /// The store's internal well-formedness: each mapping holds a key at
    /// most once, the link lists exist exactly for the stored blocks and
    /// hold no identifier twice, pin entries are positive, and the inbound
    /// count of every identifier equals the number of stored link lists
    /// that hold it.
    pub closed spec fn inv(&self) -> bool {
        &&& al_unique(self.blocks@)
        &&& al_unique(self.refs@)
        &&& al_unique(self.referers@)
        &&& al_unique(self.pins@)
        &&& self.refs@.len() == self.blocks@.len()
        &&& forall|c: CidV| #[trigger]
            al_get(self.refs@, c) is Some <==> al_get(self.blocks@, c) is Some
        &&& forall|i: int| 0 <= i < self.pins@.len() ==> (#[trigger] self.pins@[i]).1 >= 1
        &&& forall|i: int| 0 <= i < self.refs@.len() ==> cids_unique((#[trigger] self.refs@[i]).1@)
        &&& forall|c: CidV| #[trigger] self.referers_of(c) == count_refs(self.refs@, c)
    }

    /// The number of stored blocks.
    pub closed spec fn block_count(&self) -> nat {
        self.blocks@.len()
    }

    /// Retention soundness: every stored block is retained.
    pub open spec fn retention_inv(&self) -> bool {
        forall|c: CidV| #[trigger] self.has_block(c) ==> self.retained(c)
    }

    /// Retention soundness away from one identifier.
    pub open spec fn retention_except(&self, c: CidV) -> bool {
        forall|d: CidV| #[trigger] self.has_block(d) && d != c ==> self.retained(d)
    }

    /// An empty store.
    pub fn new() -> (r: InnerStore)
        ensures
            r.inv(),
            r.retention_inv(),
            r.block_count() == 0,
            forall|c: CidV| #[trigger] r.block_of(c) is None,
            forall|c: CidV| #[trigger] r.refs_of(c) == Set::<CidV>::empty(),
            forall|c: CidV| #[trigger] r.referers_of(c) == 0,
            forall|c: CidV| #[trigger] r.pins_of(c) == 0,
    {
        InnerStore { blocks: Vec::new(), refs: Vec::new(), referers: Vec::new(), pins: Vec::new() }
    }

    /// Returns the stored bytes of an identifier, or reports that no block
    /// is stored under it.
    pub fn get(&self, cid: &Cid) -> (r: Result<Vec<u8>, StoreError>)
        requires
            self.inv(),
        ensures
            match r {
                Ok(d) => self.block_of(cid@) == Some(d@),
                Err(e) => self.block_of(cid@) is None && (e matches StoreError::BlockNotFound(c2)
                    && c2@ == cid@),
            },
    {
        match al_find(&self.blocks, cid) {
            Some(i) => {
                proof {
                    lemma_al_get_index(self.blocks@, i as int);
                }
                Ok(self.blocks[i].1.clone())
            },
            None => {
                proof {
                    lemma_al_get_absent(self.blocks@, cid@);
                }
                Err(StoreError::BlockNotFound(cid.clone()))
            },
        }
    }
}

impl InnerStore {
    /// Adjusts the inbound link count of an identifier by `n`, creating
    /// the count entry if none exists.
    fn add_referer(&mut self, cid: &Cid, n: isize)
        requires
            al_unique(old(self).referers@),
            0 <= old(self).referers_of(cid@) + n <= usize::MAX,
        ensures
            al_unique(final(self).referers@),
            final(self).referers_of(cid@) == old(self).referers_of(cid@) + n,
            forall|d: CidV|
                d != cid@ ==> #[trigger] final(self).referers_of(d) == old(self).referers_of(d),
            final(self).blocks@ == old(self).blocks@,
            final(self).refs@ == old(self).refs@,
            final(self).pins@ == old(self).pins@,
    {
        let delta_neg: bool = n < 0;
        let delta: usize = if n >= 0 {
            n as usize
        } else {
            ((-(n + 1)) as usize) + 1
        };
        match al_find(&self.referers, cid) {
            Some(i) => {
                proof {
                    lemma_al_get_index(self.referers@, i as int);
                }
                let entry = self.referers.remove(i);
                proof {
                    lemma_al_get_remove(old(self).referers@, i as int, cid@);
                }
                let cur: usize = entry.1;
                let newv: usize = if delta_neg {
                    cur - delta
                } else {
                    cur + delta
                };
                self.referers.push((entry.0, newv));
                proof {
                    lemma_al_get_push(
                        old(self).referers@.remove(i as int),
                        (entry.0, newv),
                        cid@,
                    );
                    assert forall|d: CidV|
                        d != cid@ implies #[trigger] final(self).referers_of(d) == old(self).referers_of(d) by {
                        lemma_al_get_remove(old(self).referers@, i as int, d);
                        lemma_al_get_push(
                            old(self).referers@.remove(i as int),
                            (entry.0, newv),
                            d,
                        );
                    }
                    assert forall|a: int, b: int|
                        0 <= a < b < self.referers@.len() implies (
                    #[trigger] self.referers@[a]).0@ != (#[trigger] self.referers@[b]).0@ by {
                        if b < self.referers@.len() - 1 {
                        } else {
                            lemma_al_get_remove(old(self).referers@, i as int, cid@);
                            if self.referers@[a].0@ == cid@ {
                                lemma_al_get_index(old(self).referers@.remove(i as int), a);
                            }
                        }
                    }
                }
            },
            None => {
                proof {
                    lemma_al_get_absent(self.referers@, cid@);
                }
                self.referers.push((cid.clone(), delta));
                proof {
                    let e = self.referers@.last();
                    lemma_al_get_push(old(self).referers@, e, cid@);
                    assert forall|d: CidV|
                        d != cid@ implies #[trigger] final(self).referers_of(d) == old(self).referers_of(d) by {
                        lemma_al_get_push(old(self).referers@, e, d);
                    }
                }
            },
        }
    }

    /// Raises the pin count entry of an identifier by one.
    fn bump_pin(&mut self, cid: &Cid)
        requires
            al_unique(old(self).pins@),
            forall|i: int| 0 <= i < old(self).pins@.len() ==> (#[trigger] old(self).pins@[i]).1
                >= 1,
            old(self).pins_of(cid@) < usize::MAX,
        ensures
            al_unique(final(self).pins@),
            forall|i: int| 0 <= i < final(self).pins@.len() ==> (#[trigger] final(self).pins@[i]).1
                >= 1,
            final(self).pins_of(cid@) == old(self).pins_of(cid@) + 1,
            forall|d: CidV|
                d != cid@ ==> #[trigger] final(self).pins_of(d) == old(self).pins_of(d),
            final(self).blocks@ == old(self).blocks@,
            final(self).refs@ == old(self).refs@,
            final(self).referers@ == old(self).referers@,
    {
        match al_find(&self.pins, cid) {
            Some(i) => {
                proof {
                    lemma_al_get_index(self.pins@, i as int);
                }
                let entry = self.pins.remove(i);
                proof {
                    lemma_al_get_remove(old(self).pins@, i as int, cid@);
                }
                let newv: usize = entry.1 + 1;
                self.pins.push((entry.0, newv));
                proof {
                    lemma_al_get_push(old(self).pins@.remove(i as int), (entry.0, newv), cid@);
                    assert forall|d: CidV|
                        d != cid@ implies #[trigger] final(self).pins_of(d) == old(self).pins_of(d) by {
                        lemma_al_get_remove(old(self).pins@, i as int, d);
                        lemma_al_get_push(old(self).pins@.remove(i as int), (entry.0, newv), d);
                    }
                    assert forall|a: int, b: int|
                        0 <= a < b < self.pins@.len() implies (#[trigger] self.pins@[a]).0@ != (
                    #[trigger] self.pins@[b]).0@ by {
                        if b == self.pins@.len() - 1 {
                            lemma_al_get_remove(old(self).pins@, i as int, cid@);
                            if self.pins@[a].0@ == cid@ {
                                lemma_al_get_index(old(self).pins@.remove(i as int), a);
                            }
                        }
                    }
                }
            },
            None => {
                proof {
                    lemma_al_get_absent(self.pins@, cid@);
                }
                self.pins.push((cid.clone(), 1));
                proof {
                    let e = self.pins@.last();
                    lemma_al_get_push(old(self).pins@, e, cid@);
                    assert forall|d: CidV|
                        d != cid@ implies #[trigger] final(self).pins_of(d) == old(self).pins_of(d) by {
                        lemma_al_get_push(old(self).pins@, e, d);
                    }
                }
            },
        }
    }

    /// Stores a block without pinning it: decodes the bytes under the
    /// codec the identifier declares, records the decoded value's links,
    /// and raises the inbound count of each link target. Inserting an
    /// already stored identifier changes nothing; a block whose bytes do
    /// not decode is not admitted.
    #[verifier::loop_isolation(false)]
    pub fn insert_block(&mut self, cid: &Cid, data: Vec<u8>) -> (r: Result<(), StoreError>)
        requires
            old(self).inv(),
            old(self).block_count() < usize::MAX,
        ensures
            final(self).inv(),
            final(self).block_count() <= old(self).block_count() + 1,
            forall|d: CidV| #[trigger] final(self).pins_of(d) == old(self).pins_of(d),
            r is Ok <==> (old(self).has_block(cid@) || ipld_of(cid@, data@) is Some),
            r matches Err(e) ==> (e matches StoreError::Block(_)) && same_state(
                *old(self),
                *final(self),
            ),
            old(self).has_block(cid@) ==> same_state(*old(self), *final(self)),
            (!old(self).has_block(cid@) && ipld_of(cid@, data@) is Some) ==> {
                &&& final(self).block_of(cid@) == Some(data@)
                &&& forall|d: CidV|
                    d != cid@ ==> #[trigger] final(self).block_of(d) == old(self).block_of(d)
                &&& final(self).refs_of(cid@) == links_of(ipld_of(cid@, data@).unwrap())
                &&& forall|d: CidV|
                    d != cid@ ==> #[trigger] final(self).refs_of(d) == old(self).refs_of(d)
                &&& forall|d: CidV| #[trigger]
                    final(self).referers_of(d) == old(self).referers_of(d) + (if links_of(
                        ipld_of(cid@, data@).unwrap(),
                    ).contains(d) {
                        1int
                    } else {
                        0int
                    })
            },
            old(self).retention_inv() ==> final(self).retention_except(cid@),
    {
        if let Some(_) = al_find(&self.blocks, cid) {
            proof {
                lemma_al_get_index(
                    self.blocks@,
                    choose|i: int| 0 <= i < self.blocks@.len() && self.blocks@[i].0@ == cid@,
                );
            }
            return Ok(());
        }
        proof {
            lemma_al_get_absent(self.blocks@, cid@);
        }
        let ipld = match decode_ipld(cid, &data) {
            Ok(v) => v,
            Err(e) => {
                return Err(StoreError::Block(e));
            },
        };
        let ghost dv = data@;
        let ghost v = ipld@;
        let rl = references(&ipld);
        let ghost rlv = rl@;
        let n: usize = rl.len();
        let mut k: usize = 0;
        proof {
            assert(cid_set(rlv.take(0)) =~= Set::<CidV>::empty());
        }
        while k < n
            invariant
                k <= n,
                n == rlv.len(),
                rl@ == rlv,
                al_unique(self.referers@),
                self.blocks@ == old(self).blocks@,
                self.refs@ == old(self).refs@,
                self.pins@ == old(self).pins@,
                forall|d: CidV| #[trigger]
                    self.referers_of(d) == old(self).referers_of(d) + (if cid_set(
                        rlv.take(k as int),
                    ).contains(d) {
                        1int
                    } else {
                        0int
                    }),
            decreases n - k,
        {
            let t = &rl[k];
            proof {
                lemma_count_refs_bounds(old(self).refs@, t@);
                assert(old(self).referers_of(t@) == count_refs(old(self).refs@, t@));
                assert(rlv.take(k as int + 1) =~= rlv.take(k as int).push(rlv[k as int]));
                lemma_cid_set_push(rlv.take(k as int), rl[k as int]);
                assert forall|j: int| 0 <= j < k implies rlv.take(k as int)[j] == rlv[j] by {}
                if cid_set(rlv.take(k as int)).contains(t@) {
                    let j = choose|j: int|
                        0 <= j < rlv.take(k as int).len() && rlv.take(k as int)[j]@ == t@;
                    assert(rlv[j]@ == rlv[k as int]@);
                    assert(false);
                }
            }
            self.add_referer(t, 1);
            proof {
                assert forall|d: CidV| #[trigger]
                    self.referers_of(d) == old(self).referers_of(d) + (if cid_set(
                        rlv.take(k as int + 1),
                    ).contains(d) {
                        1int
                    } else {
                        0int
                    }) by {}
            }
            k += 1;
        }
        proof {
            assert(rlv.take(n as int) =~= rlv);
        }
        let ghost mid = *self;
        self.refs.push((cid.clone(), rl));
        self.blocks.push((cid.clone(), data));
        proof {
            let re = self.refs@.last();
            let be = self.blocks@.last();
            assert(re.1@ == rlv && be.1@ == dv);
            assert(self.refs@ =~= old(self).refs@.push(re));
            assert(self.blocks@ =~= old(self).blocks@.push(be));
            assert forall|a: int, b: int|
                0 <= a < b < self.blocks@.len() implies (#[trigger] self.blocks@[a]).0@ != (
            #[trigger] self.blocks@[b]).0@ by {}
            assert forall|a: int, b: int|
                0 <= a < b < self.refs@.len() implies (#[trigger] self.refs@[a]).0@ != (
            #[trigger] self.refs@[b]).0@ by {
                assert(old(self).refs@[a] == self.refs@[a]);
                if b < self.refs@.len() - 1 {
                    assert(old(self).refs@[b] == self.refs@[b]);
                } else {
                    if self.refs@[a].0@ == cid@ {
                        lemma_al_get_index(old(self).refs@, a);
                        assert(al_get(old(self).refs@, cid@) is Some);
                        assert(al_get(old(self).blocks@, cid@) is Some);
                    }
                }
            }
            assert forall|d: CidV| #[trigger]
                al_get(self.refs@, d) is Some <==> al_get(self.blocks@, d) is Some by {
                lemma_al_get_push(old(self).refs@, re, d);
                lemma_al_get_push(old(self).blocks@, be, d);
            }
            assert forall|i: int|
                0 <= i < self.refs@.len() implies cids_unique(
                (#[trigger] self.refs@[i]).1@,
            ) by {
                if i < self.refs@.len() - 1 {
                    assert(self.refs@[i] == old(self).refs@[i]);
                }
            }
            assert(self.referers@ == mid.referers@);
            assert forall|d: CidV| #[trigger]
                self.referers_of(d) == count_refs(self.refs@, d) by {
                assert(self.referers_of(d) == mid.referers_of(d));
                assert(mid.referers_of(d) == old(self).referers_of(d) + (if cid_set(
                    rlv,
                ).contains(d) {
                    1int
                } else {
                    0int
                }));
                lemma_count_refs_push(old(self).refs@, re, d);
                assert(old(self).referers_of(d) == count_refs(old(self).refs@, d));
            }
            lemma_al_get_push(old(self).blocks@, be, cid@);
            lemma_al_get_push(old(self).refs@, re, cid@);
            assert forall|d: CidV|
                d != cid@ implies #[trigger] final(self).block_of(d) == old(self).block_of(d) by {
                lemma_al_get_push(old(self).blocks@, be, d);
            }
            assert forall|d: CidV|
                d != cid@ implies #[trigger] final(self).refs_of(d) == old(self).refs_of(d) by {
                lemma_al_get_push(old(self).refs@, re, d);
            }
            assert(final(self).refs_of(cid@) == cid_set(rlv));
            assert(cid_set(rlv) == links_of(ipld_of(cid@, dv).unwrap()));
            assert forall|d: CidV| #[trigger]
                final(self).referers_of(d) == old(self).referers_of(d) + (if links_of(
                    ipld_of(cid@, dv).unwrap(),
                ).contains(d) {
                    1int
                } else {
                    0int
                }) by {
                assert(final(self).referers_of(d) == mid.referers_of(d));
                assert(mid.referers_of(d) == old(self).referers_of(d) + (if cid_set(
                    rlv,
                ).contains(d) {
                    1int
                } else {
                    0int
                }));
            }
            if old(self).retention_inv() {
                assert forall|d: CidV| #[trigger]
                    final(self).has_block(d) && d != cid@ implies final(self).retained(d) by {
                    lemma_al_get_push(old(self).blocks@, be, d);
                    assert(old(self).has_block(d));
                    assert(old(self).retained(d));
                    assert(final(self).pins_of(d) == old(self).pins_of(d));
                    assert(final(self).referers_of(d) == mid.referers_of(d));
                    assert(mid.referers_of(d) >= old(self).referers_of(d));
                }
            }
        }
        Ok(())
    }

    /// Stores a block and pins it.
    pub fn insert(&mut self, cid: &Cid, data: Vec<u8>) -> (r: Result<(), StoreError>)
        requires
            old(self).inv(),
            old(self).block_count() < usize::MAX,
            old(self).pins_of(cid@) < usize::MAX,
        ensures
            final(self).inv(),
            final(self).block_count() <= old(self).block_count() + 1,
            r is Ok <==> (old(self).has_block(cid@) || ipld_of(cid@, data@) is Some),
            r matches Err(e) ==> (e matches StoreError::Block(_)) && same_state(
                *old(self),
                *final(self),
            ),
            r is Ok ==> {
                &&& final(self).pins_of(cid@) == old(self).pins_of(cid@) + 1
                &&& forall|d: CidV|
                    d != cid@ ==> #[trigger] final(self).pins_of(d) == old(self).pins_of(d)
            },
            r is Ok && old(self).has_block(cid@) ==> {
                &&& forall|d: CidV| #[trigger] final(self).block_of(d) == old(self).block_of(d)
                &&& forall|d: CidV| #[trigger] final(self).refs_of(d) == old(self).refs_of(d)
                &&& forall|d: CidV| #[trigger]
                    final(self).referers_of(d) == old(self).referers_of(d)
            },
            (!old(self).has_block(cid@) && ipld_of(cid@, data@) is Some) ==> {
                &&& final(self).block_of(cid@) == Some(data@)
                &&& forall|d: CidV|
                    d != cid@ ==> #[trigger] final(self).block_of(d) == old(self).block_of(d)
                &&& final(self).refs_of(cid@) == links_of(ipld_of(cid@, data@).unwrap())
                &&& forall|d: CidV|
                    d != cid@ ==> #[trigger] final(self).refs_of(d) == old(self).refs_of(d)
                &&& forall|d: CidV| #[trigger]
                    final(self).referers_of(d) == old(self).referers_of(d) + (if links_of(
                        ipld_of(cid@, data@).unwrap(),
                    ).contains(d) {
                        1int
                    } else {
                        0int
                    })
            },
            old(self).retention_inv() && r is Ok ==> final(self).retention_inv(),
    {
        match self.insert_block(cid, data) {
            Ok(()) => {
                self.pin(cid);
                Ok(())
            },
            Err(e) => Err(e),
        }
    }

    /// Raises the pin count of an identifier by one; pinning an absent
    /// identifier records intent for a future block.
    pub fn pin(&mut self, cid: &Cid)
        requires
            old(self).inv(),
            old(self).pins_of(cid@) < usize::MAX,
        ensures
            final(self).inv(),
            final(self).pins_of(cid@) == old(self).pins_of(cid@) + 1,
            forall|d: CidV|
                d != cid@ ==> #[trigger] final(self).pins_of(d) == old(self).pins_of(d),
            forall|d: CidV| #[trigger] final(self).block_of(d) == old(self).block_of(d),
            forall|d: CidV| #[trigger] final(self).refs_of(d) == old(self).refs_of(d),
            forall|d: CidV| #[trigger] final(self).referers_of(d) == old(self).referers_of(d),
            final(self).block_count() == old(self).block_count(),
            old(self).retention_inv() ==> final(self).retention_inv(),
            old(self).retention_except(cid@) ==> final(self).retention_inv(),
    {
        self.bump_pin(cid);
        proof {
            assert forall|c: CidV| #[trigger] self.referers_of(c) == count_refs(self.refs@, c) by {
                assert(old(self).referers_of(c) == count_refs(old(self).refs@, c));
            }
            if old(self).retention_except(cid@) {
                assert forall|c: CidV| #[trigger] self.has_block(c) implies self.retained(c) by {
                    assert(old(self).has_block(c));
                    if c != cid@ {
                        assert(old(self).retained(c));
                        assert(self.pins_of(c) == old(self).pins_of(c));
                    } else {
                        assert(self.pins_of(c) > 0);
                    }
                }
            }
            if old(self).retention_inv() {
                assert forall|c: CidV| #[trigger] self.has_block(c) implies self.retained(c) by {
                    assert(old(self).has_block(c));
                    assert(old(self).retained(c));
                    if c != cid@ {
                        assert(self.pins_of(c) == old(self).pins_of(c));
                    }
                }
            }
        }
    }
}

/// Dropping one identifier from the front of a vector: the set loses that
/// identifier and keeps the rest, when the vector holds no identifier
/// twice.
proof fn lemma_cid_set_skip_step(s: Seq<Cid>, k: int)
    requires
        0 <= k < s.len(),
        cids_unique(s),
    ensures
        forall|d: CidV| #[trigger]
            cid_set(s.skip(k)).contains(d) == (d == s[k]@ || cid_set(s.skip(k + 1)).contains(d)),
        !cid_set(s.skip(k + 1)).contains(s[k]@),
{
    assert forall|d: CidV| #[trigger]
        cid_set(s.skip(k)).contains(d) == (d == s[k]@ || cid_set(s.skip(k + 1)).contains(
            d,
        )) by {
        if cid_set(s.skip(k)).contains(d) {
            let i = choose|i: int| 0 <= i < s.skip(k).len() && (#[trigger] s.skip(k)[i])@ == d;
            if i == 0 {
                assert(d == s[k]@);
            } else {
                assert(s.skip(k + 1)[i - 1]@ == d);
            }
        }
        if d == s[k]@ {
            assert(s.skip(k)[0]@ == d);
        }
        if cid_set(s.skip(k + 1)).contains(d) {
            let i = choose|i: int|
                0 <= i < s.skip(k + 1).len() && (#[trigger] s.skip(k + 1)[i])@ == d;
            assert(s.skip(k)[i + 1]@ == d);
        }
    }
    if cid_set(s.skip(k + 1)).contains(s[k]@) {
        let i = choose|i: int|
            0 <= i < s.skip(k + 1).len() && (#[trigger] s.skip(k + 1)[i])@ == s[k]@;
        assert(s[k + 1 + i]@ == s[k]@);
        assert(false);
    }
}

impl InnerStore {
    /// The pin count of an identifier, as a machine integer.
    fn pins_count(&self, c: &Cid) -> (r: usize)
        requires
            al_unique(self.pins@),
        ensures
            r as int == self.pins_of(c@),
    {
        match al_find(&self.pins, c) {
            Some(i) => {
                proof {
                    lemma_al_get_index(self.pins@, i as int);
                }
                self.pins[i].1
            },
            None => {
                proof {
                    lemma_al_get_absent(self.pins@, c@);
                }
                0
            },
        }
    }

    /// The inbound link count of an identifier, as a machine integer.
    fn referers_count(&self, c: &Cid) -> (r: usize)
        requires
            al_unique(self.referers@),
        ensures
            r as int == self.referers_of(c@),
    {
        match al_find(&self.referers, c) {
            Some(i) => {
                proof {
                    lemma_al_get_index(self.referers@, i as int);
                }
                self.referers[i].1
            },
            None => {
                proof {
                    lemma_al_get_absent(self.referers@, c@);
                }
                0
            },
        }
    }

    /// Removes the identifier's block if it is neither pinned nor linked
    /// from a stored block, and cascades along its recorded links: each
    /// target loses one inbound count and is removed in turn when it too
    /// is no longer retained. Removing a retained or absent identifier
    /// changes nothing.
    #[verifier::loop_isolation(false)]
    #[verifier::rlimit(100)]
    #[verifier::spinoff_prover]
    fn remove(&mut self, cid: &Cid)
        requires
            old(self).inv(),
        ensures
            final(self).inv(),
            final(self).pins@ == old(self).pins@,
            (old(self).retained(cid@) || !old(self).has_block(cid@)) ==> same_state(
                *old(self),
                *final(self),
            ),
            forall|d: CidV| #[trigger]
                final(self).has_block(d) ==> old(self).has_block(d) && final(self).block_of(d)
                    == old(self).block_of(d) && final(self).refs_of(d) == old(self).refs_of(d),
            forall|d: CidV| #[trigger] final(self).referers_of(d) <= old(self).referers_of(d),
            forall|d: CidV|
                old(self).has_block(d) && !(#[trigger] final(self).has_block(d)) ==> !final(self).retained(d),
            forall|d: CidV| #[trigger]
                final(self).retained(d) ==> final(self).has_block(d) == old(self).has_block(d),
            !old(self).retained(cid@) ==> !final(self).has_block(cid@),
            old(self).retention_except(cid@) ==> final(self).retention_inv(),
    {
        let ghost o = *old(self);
        let mut pending: Vec<Cid> = Vec::new();
        pending.push(cid.clone());
        proof {
            assert(pending@[0]@ == cid@);
            assert(cid_set(pending@).contains(cid@));
        }
        while pending.len() != 0
            invariant
                self.inv(),
                self.pins@ == o.pins@,
                forall|d: CidV| #[trigger]
                    self.has_block(d) ==> o.has_block(d) && self.block_of(d) == o.block_of(d)
                        && self.refs_of(d) == o.refs_of(d),
                forall|d: CidV| #[trigger] self.referers_of(d) <= o.referers_of(d),
                forall|d: CidV|
                    o.has_block(d) && !(#[trigger] self.has_block(d)) ==> self.pins_of(d) == 0
                        && self.referers_of(d) == 0,
                forall|d: CidV| #[trigger]
                    self.has_block(d) && !self.retained(d) ==> cid_set(pending@).contains(d) || (
                    o.has_block(d) && !o.retained(d) && d != cid@),
                (o.retained(cid@) || !o.has_block(cid@)) ==> (same_state(o, *self) && forall|
                    j: int,
                |
                    0 <= j < pending@.len() ==> (#[trigger] pending@[j])@ == cid@),
            decreases self.blocks@.len(), pending@.len(),
        {
            let ghost pend_before = pending@;
            let c = pending.pop().unwrap();
            assert(c@ == pend_before.last()@);
            let p = self.pins_count(&c);
            let rr = self.referers_count(&c);
            if p == 0 && rr == 0 {
                match al_find(&self.blocks, &c) {
                    Some(bi) => {
                        proof {
                            lemma_al_get_index(self.blocks@, bi as int);
                            if o.retained(cid@) || !o.has_block(cid@) {
                                assert(pend_before[pend_before.len() - 1]@ == cid@);
                                assert(c@ == cid@);
                                assert(self.has_block(c@));
                                assert(same_state(o, *self));
                                assert(o.has_block(cid@));
                                assert(self.pins_of(cid@) == o.pins_of(cid@));
                                assert(self.referers_of(cid@) == o.referers_of(cid@));
                                assert(false);
                            }
                        }
                        let ri = match al_find(&self.refs, &c) {
                            Some(ri) => ri,
                            None => {
                                proof {
                                    lemma_al_get_absent(self.refs@, c@);
                                    assert(false);
                                }
                                0
                            },
                        };
                        proof {
                            lemma_al_get_index(self.refs@, ri as int);
                        }
                        let ghost pre = *self;
                        let refs_entry = self.refs.remove(ri);
                        self.blocks.remove(bi);
                        let rl = refs_entry.1;
                        proof {
                            assert(rl@ == pre.refs@[ri as int].1@);
                            assert(cids_unique(rl@));
                        }
                        let ghost mid = *self;
                        let ghost pend0 = pending@;
                        let n: usize = rl.len();
                        let mut k: usize = 0;
                        proof {
                            assert(rl@.skip(0) =~= rl@);
                            assert forall|d: CidV| #[trigger]
                                self.referers_of(d) == count_refs(self.refs@, d) + (if cid_set(
                                    rl@.skip(0),
                                ).contains(d) {
                                    1int
                                } else {
                                    0int
                                }) by {
                                lemma_count_refs_remove(pre.refs@, ri as int, d);
                                assert(pre.referers_of(d) == count_refs(pre.refs@, d));
                            }
                            assert forall|d: CidV|
                                o.has_block(d) && !(#[trigger] self.has_block(d)) implies
                                self.pins_of(d) == 0 && self.referers_of(d) == 0 by {
                                lemma_al_get_remove(pre.blocks@, bi as int, d);
                                assert(self.pins_of(d) == pre.pins_of(d));
                                assert(self.referers_of(d) == pre.referers_of(d));
                                if d != c@ {
                                    assert(!pre.has_block(d));
                                }
                            }
                        }
                        while k < n
                            invariant
                                k <= n,
                                n == rl@.len(),
                                self.blocks@ == mid.blocks@,
                                self.refs@ == mid.refs@,
                                self.pins@ == mid.pins@,
                                al_unique(self.referers@),
                                forall|d: CidV| #[trigger]
                                    self.referers_of(d) == count_refs(self.refs@, d) + (if cid_set(
                                        rl@.skip(k as int),
                                    ).contains(d) {
                                        1int
                                    } else {
                                        0int
                                    }),
                                forall|d: CidV| #[trigger]
                                    self.referers_of(d) <= pre.referers_of(d),
                                forall|d: CidV|
                                    o.has_block(d) && !(#[trigger] self.has_block(d))
                                        ==> self.pins_of(d) == 0 && self.referers_of(d) == 0,
                                forall|d: CidV|
                                    cid_set(pend0).contains(d) ==> #[trigger] cid_set(
                                        pending@,
                                    ).contains(d),
                                forall|j: int|
                                    0 <= j < k ==> #[trigger] cid_set(pending@).contains(rl@[j]@),
                            decreases n - k,
                        {
                            let t = &rl[k];
                            proof {
                                assert(rl@.skip(k as int)[0]@ == t@);
                                assert(cid_set(rl@.skip(k as int)).contains(t@));
                                lemma_count_refs_bounds(self.refs@, t@);
                                assert(self.referers_of(t@) >= 1);
                                lemma_cid_set_skip_step(rl@, k as int);
                            }
                            let ghost before_dec = *self;
                            self.add_referer(t, -1);
                            proof {
                                assert forall|d: CidV|
                                    o.has_block(d) && !(#[trigger] self.has_block(d)) implies
                                    self.pins_of(d) == 0 && self.referers_of(d) == 0 by {
                                    assert(!before_dec.has_block(d));
                                    assert(before_dec.pins_of(d) == 0 && before_dec.referers_of(d)
                                        == 0);
                                    if d == t@ {
                                        assert(before_dec.referers_of(t@) >= 1);
                                        assert(false);
                                    } else {
                                        assert(self.referers_of(d) == before_dec.referers_of(d));
                                        assert(self.pins_of(d) == before_dec.pins_of(d));
                                    }
                                }
                            }
                            let ghost pprev = pending@;
                            pending.push(t.clone());
                            proof {
                                assert(pending@ =~= pprev.push(pending@.last()));
                                lemma_cid_set_push(pprev, pending@.last());
                                assert(pending@.last()@ == rl@[k as int]@);
                                assert forall|d: CidV|
                                    cid_set(pend0).contains(d) implies #[trigger] cid_set(
                                    pending@,
                                ).contains(d) by {
                                    assert(cid_set(pprev).contains(d));
                                }
                                assert forall|j: int|
                                    0 <= j < k + 1 implies #[trigger] cid_set(pending@).contains(
                                    rl@[j]@,
                                ) by {
                                    if j < k {
                                        assert(cid_set(pprev).contains(rl@[j]@));
                                    }
                                }
                                assert forall|d: CidV| #[trigger]
                                    self.referers_of(d) == count_refs(self.refs@, d) + (if cid_set(
                                        rl@.skip(k as int + 1),
                                    ).contains(d) {
                                        1int
                                    } else {
                                        0int
                                    }) by {}
                            }
                            k += 1;
                        }
                        proof {
                            assert(rl@.skip(n as int) =~= Seq::<Cid>::empty());
                            assert(cid_set(rl@.skip(n as int)) =~= Set::<CidV>::empty());
                            // the store is well formed again
                            lemma_al_get_remove(pre.refs@, ri as int, c@);
                            lemma_al_get_remove(pre.blocks@, bi as int, c@);
                            assert forall|d: CidV| #[trigger]
                                al_get(self.refs@, d) is Some <==> al_get(
                                self.blocks@,
                                d,
                            ) is Some by {
                                lemma_al_get_remove(pre.refs@, ri as int, d);
                                lemma_al_get_remove(pre.blocks@, bi as int, d);
                            }
                            assert forall|i: int|
                                0 <= i < self.refs@.len() implies cids_unique(
                                (#[trigger] self.refs@[i]).1@,
                            ) by {
                                if i < ri {
                                    assert(self.refs@[i] == pre.refs@[i]);
                                } else {
                                    assert(self.refs@[i] == pre.refs@[i + 1]);
                                }
                            }
                            // the submap and retention bookkeeping
                            assert forall|d: CidV| #[trigger]
                                self.has_block(d) implies o.has_block(d) && self.block_of(d)
                                == o.block_of(d) && self.refs_of(d) == o.refs_of(d) by {
                                lemma_al_get_remove(pre.blocks@, bi as int, d);
                                lemma_al_get_remove(pre.refs@, ri as int, d);
                                assert(d != c@);
                                assert(pre.has_block(d));
                            }
                            assert forall|d: CidV| #[trigger]
                                self.referers_of(d) <= o.referers_of(d) by {}
                            assert forall|d: CidV|
                                o.has_block(d) && !(#[trigger] self.has_block(d)) implies
                                self.pins_of(d) == 0 by {
                                lemma_al_get_remove(pre.blocks@, bi as int, d);
                                if d != c@ {
                                    assert(!pre.has_block(d));
                                }
                            }
                            assert forall|d: CidV| #[trigger]
                                self.has_block(d) && !self.retained(d) implies cid_set(
                                pending@,
                            ).contains(d) || (o.has_block(d) && !o.retained(d) && d != cid@) by {
                                lemma_al_get_remove(pre.blocks@, bi as int, d);
                                assert(pre.has_block(d));
                                if !pre.retained(d) {
                                    // it was already unretained before this removal
                                    if cid_set(pend_before).contains(d) {
                                        let j = choose|j: int|
                                            0 <= j < pend_before.len() && pend_before[j]@ == d;
                                        if j < pend_before.len() - 1 {
                                            assert(pend0[j]@ == d);
                                            assert(cid_set(pend0).contains(d));
                                        } else {
                                            assert(d == c@);
                                            assert(false);
                                        }
                                    }
                                } else {
                                    // it lost its last inbound link just now
                                    assert(self.pins_of(d) == pre.pins_of(d));
                                    assert(pre.referers_of(d) > 0);
                                    assert(self.referers_of(d) < pre.referers_of(d));
                                    assert(count_refs(self.refs@, d) < count_refs(pre.refs@, d));
                                    lemma_count_refs_remove(pre.refs@, ri as int, d);
                                    assert(cid_set(rl@).contains(d));
                                    let j = choose|j: int| 0 <= j < rl@.len() && rl@[j]@ == d;
                                    assert(cid_set(pending@).contains(rl@[j]@));
                                }
                            }
                        }
                    },
                    None => {
                        proof {
                            lemma_al_get_absent(self.blocks@, c@);
                            assert forall|d: CidV| #[trigger]
                                self.has_block(d) && !self.retained(d) implies cid_set(
                                pending@,
                            ).contains(d) || (o.has_block(d) && !o.retained(d) && d != cid@) by {
                                if cid_set(pend_before).contains(d) {
                                    let j = choose|j: int|
                                        0 <= j < pend_before.len() && pend_before[j]@ == d;
                                    if j < pend_before.len() - 1 {
                                        assert(pending@[j]@ == d);
                                    } else {
                                        assert(d == c@);
                                        assert(false);
                                    }
                                }
                            }
                        }
                    },
                }
            } else {
                proof {
                    assert(self.retained(c@));
                    assert forall|d: CidV| #[trigger]
                        self.has_block(d) && !self.retained(d) implies cid_set(
                        pending@,
                    ).contains(d) || (o.has_block(d) && !o.retained(d) && d != cid@) by {
                        if cid_set(pend_before).contains(d) {
                            let j = choose|j: int|
                                0 <= j < pend_before.len() && pend_before[j]@ == d;
                            if j < pend_before.len() - 1 {
                                assert(pending@[j]@ == d);
                            } else {
                                assert(d == c@);
                                assert(false);
                            }
                        }
                    }
                }
            }
        }
        proof {
            if o.retention_except(cid@) {
                assert forall|c2: CidV| #[trigger] self.has_block(c2) implies self.retained(
                    c2,
                ) by {}
            }
            assert forall|d: CidV| #[trigger] self.retained(d) implies self.has_block(d)
                == o.has_block(d) by {
                if o.has_block(d) && !self.has_block(d) {
                    assert(false);
                }
            }
            if !o.retained(cid@) && self.has_block(cid@) {
                assert(self.pins_of(cid@) == o.pins_of(cid@));
                assert(self.referers_of(cid@) <= o.referers_of(cid@));
                lemma_count_refs_bounds(self.refs@, cid@);
                assert(self.referers_of(cid@) == count_refs(self.refs@, cid@));
                assert(!self.retained(cid@));
                assert(cid_set(pending@).contains(cid@) || (o.has_block(cid@) && !o.retained(cid@)
                    && cid@ != cid@));
                assert(pending@.len() == 0);
                assert(false);
            }
        }
    }
}

impl InnerStore {
    /// Lowers the pin count of an identifier by one. When the count falls
    /// to zero the pin entry is dropped and the block, if stored and no
    /// longer retained, is removed together with the cascade along its
    /// links. Unpinning an unpinned identifier changes nothing.
    pub fn unpin(&mut self, cid: &Cid) -> (r: Result<(), StoreError>)
        requires
            old(self).inv(),
        ensures
            final(self).inv(),
            r is Ok,
            final(self).pins_of(cid@) == (if old(self).pins_of(cid@) > 0 {
                old(self).pins_of(cid@) - 1
            } else {
                0int
            }),
            forall|d: CidV|
                d != cid@ ==> #[trigger] final(self).pins_of(d) == old(self).pins_of(d),
            old(self).pins_of(cid@) != 1 ==> graph_unchanged(*old(self), *final(self)),
            old(self).pins_of(cid@) == 1 && (old(self).referers_of(cid@) > 0 || !old(self).has_block(cid@)) ==> graph_unchanged(*old(self), *final(self)),
            forall|d: CidV| #[trigger]
                final(self).has_block(d) ==> old(self).has_block(d) && final(self).block_of(d)
                    == old(self).block_of(d) && final(self).refs_of(d) == old(self).refs_of(d),
            forall|d: CidV| #[trigger] final(self).referers_of(d) <= old(self).referers_of(d),
            forall|d: CidV|
                old(self).has_block(d) && !(#[trigger] final(self).has_block(d)) ==> !final(self).retained(d),
            forall|d: CidV| #[trigger]
                final(self).retained(d) ==> final(self).has_block(d) == old(self).has_block(d),
            old(self).retention_inv() ==> final(self).retention_inv(),
    {
        match al_find(&self.pins, cid) {
            None => {
                proof {
                    lemma_al_get_absent(self.pins@, cid@);
                }
                Ok(())
            },
            Some(i) => {
                proof {
                    lemma_al_get_index(self.pins@, i as int);
                }
                let entry = self.pins.remove(i);
                proof {
                    lemma_al_get_remove(old(self).pins@, i as int, cid@);
                    assert forall|d: CidV|
                        d != cid@ implies #[trigger] self.pins_of(d) == old(self).pins_of(d) by {
                        lemma_al_get_remove(old(self).pins@, i as int, d);
                    }
                }
                let cur: usize = entry.1;
                if cur > 1 {
                    let ghost mid = *self;
                    self.pins.push((entry.0, cur - 1));
                    proof {
                        let e = self.pins@.last();
                        assert(self.pins@ =~= mid.pins@.push(e));
                        lemma_al_get_push(mid.pins@, e, cid@);
                        assert forall|d: CidV|
                            d != cid@ implies #[trigger] self.pins_of(d) == old(self).pins_of(
                            d,
                        ) by {
                            lemma_al_get_push(mid.pins@, e, d);
                            lemma_al_get_remove(old(self).pins@, i as int, d);
                        }
                        assert forall|a: int, b: int|
                            0 <= a < b < self.pins@.len() implies (#[trigger] self.pins@[a]).0@
                            != (#[trigger] self.pins@[b]).0@ by {
                            if b == self.pins@.len() - 1 {
                                if self.pins@[a].0@ == cid@ {
                                    lemma_al_get_index(mid.pins@, a);
                                }
                            }
                        }
                        assert forall|c: CidV| #[trigger]
                            self.referers_of(c) == count_refs(self.refs@, c) by {
                            assert(old(self).referers_of(c) == count_refs(old(self).refs@, c));
                        }
                        if old(self).retention_inv() {
                            assert forall|c: CidV| #[trigger] self.has_block(c) implies
                                self.retained(c) by {
                                assert(old(self).has_block(c));
                                assert(old(self).retained(c));
                                if c != cid@ {
                                    assert(self.pins_of(c) == old(self).pins_of(c));
                                }
                            }
                        }
                    }
                    Ok(())
                } else {
                    proof {
                        assert forall|c: CidV| #[trigger]
                            self.referers_of(c) == count_refs(self.refs@, c) by {
                            assert(old(self).referers_of(c) == count_refs(old(self).refs@, c));
                        }
                        if old(self).retention_inv() {
                            assert forall|d: CidV|
                                #[trigger] self.has_block(d) && d != cid@ implies self.retained(
                                d,
                            ) by {
                                assert(old(self).has_block(d));
                                assert(old(self).retained(d));
                                assert(self.pins_of(d) == old(self).pins_of(d));
                            }
                        }
                    }
                    let ghost mid = *self;
                    self.remove(cid);
                    proof {
                        if old(self).retention_inv() {
                            assert(mid.retention_except(cid@));
                        }
                        assert(mid.pins@ == old(self).pins@.remove(i as int));
                        assert forall|d: CidV|
                            d != cid@ implies #[trigger] self.pins_of(d) == old(self).pins_of(
                            d,
                        ) by {
                            assert(al_get(self.pins@, d) == al_get(mid.pins@, d));
                            lemma_al_get_remove(old(self).pins@, i as int, d);
                        }
                        assert(al_get(self.pins@, cid@) == al_get(mid.pins@, cid@));
                        lemma_al_get_remove(old(self).pins@, i as int, cid@);
                        assert forall|d: CidV|
                            old(self).has_block(d) && !(#[trigger] self.has_block(d)) implies
                            !self.retained(d) by {
                            assert(mid.has_block(d));
                        }
                        assert forall|d: CidV| #[trigger] self.retained(d) implies self.has_block(
                            d,
                        ) == old(self).has_block(d) by {
                            assert(self.has_block(d) == mid.has_block(d));
                        }
                    }
                    Ok(())
                }
            },
        }
    }
}

/// The set of identifiers a run of blocks addresses.
pub open spec fn batch_cids(batch: Seq<Block>) -> Set<CidV> {
    Set::new(|c: CidV| exists|i: int| 0 <= i < batch.len() && (#[trigger] batch[i]).cid@ == c)
}

/// The number of times a list of identifiers holds the given one.
pub open spec fn count_cid(s: Seq<Cid>, d: CidV) -> int
    decreases s.len(),
{
    if s.len() == 0 {
        0
    } else {
        count_cid(s.drop_last(), d) + if s.last()@ == d {
            1int
        } else {
            0int
        }
    }
}

/// The count of an identifier is between zero and the list's length.
pub proof fn lemma_count_cid_bounds(s: Seq<Cid>, d: CidV)
    ensures
        0 <= count_cid(s, d) <= s.len(),
    decreases s.len(),
{
    if s.len() > 0 {
        lemma_count_cid_bounds(s.drop_last(), d);
    }
}

/// Whether an earlier block of the run addresses the same identifier as
/// the one at position `i`.
pub open spec fn earlier_occurrence(batch: Seq<Block>, i: int) -> bool {
    exists|j: int| 0 <= j < i && (#[trigger] batch[j]).cid@ == batch[i].cid@
}

/// Whether the block at position `i` of a run can be stored when its turn
/// comes: it is already stored, an earlier block of the run addresses the
/// same identifier, or its bytes decode.
pub open spec fn blk_ok(a: InnerStore, batch: Seq<Block>, i: int) -> bool {
    ||| a.has_block(batch[i].cid@)
    ||| earlier_occurrence(batch, i)
    ||| ipld_of(batch[i].cid@, batch[i].data@) is Some
}

impl InnerStore {
    /// Stores a run of blocks under one lock acquisition, none of them
    /// pinned, and returns the identifier of the last. An empty run is
    /// refused, and a run holding a block whose bytes do not decode is
    /// refused whole, the store unchanged.
    #[verifier::loop_isolation(false)]
    #[verifier::rlimit(100)]
    #[verifier::spinoff_prover]
    pub fn insert_batch(&mut self, batch: Vec<Block>) -> (r: Result<Cid, StoreError>)
        requires
            old(self).inv(),
            old(self).block_count() + batch@.len() <= usize::MAX,
        ensures
            final(self).inv(),
            final(self).block_count() <= old(self).block_count() + batch@.len(),
            forall|d: CidV| #[trigger] final(self).pins_of(d) == old(self).pins_of(d),
            forall|d: CidV|
                old(self).has_block(d) ==> #[trigger] final(self).has_block(d) && final(self).block_of(d) == old(self).block_of(d) && final(self).refs_of(d) == old(self).refs_of(d),
            forall|d: CidV|
                !batch_cids(batch@).contains(d) && !old(self).has_block(d) ==> #[trigger] final(self).block_of(d) == old(self).block_of(d) && final(self).refs_of(d) == old(self).refs_of(d),
            forall|d: CidV| #[trigger] final(self).referers_of(d) >= old(self).referers_of(d),
            batch@.len() == 0 ==> r == Result::<Cid, StoreError>::Err(StoreError::EmptyBatch),
            r is Ok <==> (batch@.len() > 0 && forall|i: int|
                0 <= i < batch@.len() ==> #[trigger] blk_ok(*old(self), batch@, i)),
            r matches Err(e) ==> same_state(*old(self), *final(self)) && ((batch@.len() == 0 && e
                == StoreError::EmptyBatch) || (e matches StoreError::Block(_))),
            r matches Ok(last) ==> last@ == batch@.last().cid@ && (forall|i: int|
                0 <= i < batch@.len() ==> final(self).has_block(#[trigger] batch@[i].cid@)),
            r is Ok ==> forall|i: int|
                0 <= i < batch@.len() && !old(self).has_block(batch@[i].cid@)
                    && !earlier_occurrence(batch@, i) ==> final(self).block_of(
                    #[trigger] batch@[i].cid@,
                ) == Some(batch@[i].data@) && ipld_of(batch@[i].cid@, batch@[i].data@) is Some
                    && final(self).refs_of(batch@[i].cid@) == links_of(
                    ipld_of(batch@[i].cid@, batch@[i].data@).unwrap(),
                ),
    {
        let ghost bv = batch@;
        let n: usize = batch.len();
        if n == 0 {
            return Err(StoreError::EmptyBatch);
        }
        // first pass: nothing is stored unless every block can be
        let mut v: usize = 0;
        while v < n
            invariant
                v <= n,
                n == bv.len(),
                batch@ == bv,
                self == old(self),
                forall|i: int| 0 <= i < v ==> #[trigger] blk_ok(*old(self), bv, i),
            decreases n - v,
        {
            let mut admissible = match al_find(&self.blocks, &batch[v].cid) {
                Some(bi) => {
                    proof {
                        lemma_al_get_index(self.blocks@, bi as int);
                    }
                    true
                },
                None => {
                    proof {
                        lemma_al_get_absent(self.blocks@, bv[v as int].cid@);
                    }
                    false
                },
            };
            if !admissible {
                let mut j: usize = 0;
                while j < v
                    invariant
                        j <= v < n,
                        n == bv.len(),
                        batch@ == bv,
                        self == old(self),
                        admissible ==> earlier_occurrence(bv, v as int),
                        !admissible ==> forall|j2: int|
                            0 <= j2 < j ==> (#[trigger] bv[j2]).cid@ != bv[v as int].cid@,
                    decreases v - j,
                {
                    if !admissible && batch[j].cid.equals(&batch[v].cid) {
                        admissible = true;
                        proof {
                            assert((#[trigger] bv[j as int]).cid@ == bv[v as int].cid@);
                            assert(earlier_occurrence(bv, v as int));
                        }
                    }
                    j += 1;
                }
                if !admissible {
                    if decode_ipld(&batch[v].cid, &batch[v].data).is_ok() {
                        admissible = true;
                    }
                }
            }
            if !admissible {
                proof {
                    assert(!blk_ok(*old(self), bv, v as int));
                }
                return Err(StoreError::Block(BlockError::CodecError(
                    crate::error::CodecFault::Malformed,
                )));
            }
            proof {
                assert(blk_ok(*old(self), bv, v as int));
            }
            v += 1;
        }
        Ok(self.insert_batch_apply(batch, Ghost(bv)))
    }

    /// Stores an admissible run of blocks in order; every step succeeds.
    #[verifier::loop_isolation(false)]
    #[verifier::rlimit(100)]
    #[verifier::spinoff_prover]
    fn insert_batch_apply(&mut self, batch: Vec<Block>, bvg: Ghost<Seq<Block>>) -> (last: Cid)
        requires
            old(self).inv(),
            old(self).block_count() + batch@.len() <= usize::MAX,
            batch@.len() > 0,
            batch@ == bvg@,
            forall|i: int| 0 <= i < batch@.len() ==> #[trigger] blk_ok(*old(self), batch@, i),
        ensures
            final(self).inv(),
            final(self).block_count() <= old(self).block_count() + bvg@.len(),
            forall|d: CidV| #[trigger] final(self).pins_of(d) == old(self).pins_of(d),
            forall|d: CidV|
                old(self).has_block(d) ==> #[trigger] final(self).has_block(d) && final(self).block_of(d) == old(self).block_of(d) && final(self).refs_of(d) == old(self).refs_of(d),
            forall|d: CidV|
                !batch_cids(bvg@).contains(d) && !old(self).has_block(d) ==> #[trigger] final(self).block_of(d) == old(self).block_of(d) && final(self).refs_of(d) == old(self).refs_of(d),
            forall|d: CidV| #[trigger] final(self).referers_of(d) >= old(self).referers_of(d),
            last@ == bvg@.last().cid@,
            forall|i: int| 0 <= i < bvg@.len() ==> final(self).has_block(#[trigger] bvg@[i].cid@),
            forall|i: int|
                0 <= i < bvg@.len() && !old(self).has_block(bvg@[i].cid@) && !earlier_occurrence(
                    bvg@,
                    i,
                ) ==> final(self).block_of(#[trigger] bvg@[i].cid@) == Some(bvg@[i].data@)
                    && ipld_of(bvg@[i].cid@, bvg@[i].data@) is Some && final(self).refs_of(
                    bvg@[i].cid@,
                ) == links_of(ipld_of(bvg@[i].cid@, bvg@[i].data@).unwrap()),
    {
        let ghost bv = bvg@;
        let n: usize = batch.len();
        // second pass: store the run; every step succeeds
        let mut batch = batch;
        let mut last: Option<Cid> = None;
        let mut k: usize = 0;
        while k < n
            invariant
                k <= n,
                n == bv.len(),
                batch@ =~= bv.skip(k as int),
                self.inv(),
                self.block_count() <= old(self).block_count() + k,
                forall|d: CidV| #[trigger] self.pins_of(d) == old(self).pins_of(d),
                forall|i: int| 0 <= i < n ==> #[trigger] blk_ok(*old(self), bv, i),
                forall|d: CidV|
                    old(self).has_block(d) ==> #[trigger] self.has_block(d) && self.block_of(d)
                        == old(self).block_of(d) && self.refs_of(d) == old(self).refs_of(d),
                forall|d: CidV|
                    !batch_cids(bv).contains(d) && !old(self).has_block(d) ==> #[trigger] self.block_of(d) == old(self).block_of(d) && self.refs_of(d) == old(self).refs_of(d),
                forall|d: CidV| #[trigger] self.referers_of(d) >= old(self).referers_of(d),
                forall|i: int| 0 <= i < k ==> self.has_block(#[trigger] bv[i].cid@),
                forall|d: CidV| #[trigger]
                    self.has_block(d) ==> old(self).has_block(d) || (exists|j: int|
                        0 <= j < k && (#[trigger] bv[j]).cid@ == d),
                forall|i: int|
                    0 <= i < k && !old(self).has_block(bv[i].cid@) && !earlier_occurrence(bv, i)
                        ==> self.block_of(#[trigger] bv[i].cid@) == Some(bv[i].data@) && ipld_of(
                        bv[i].cid@,
                        bv[i].data@,
                    ) is Some && self.refs_of(bv[i].cid@) == links_of(
                        ipld_of(bv[i].cid@, bv[i].data@).unwrap(),
                    ),
                k > 0 ==> (last matches Some(c) && c@ == bv[k as int - 1].cid@),
            decreases n - k,
        {
            let blk = batch.remove(0);
            proof {
                assert(blk == bv[k as int]);
            }
            let ghost prev = *self;
            let Block { cid: bc, data: bd } = blk;
            match self.insert_block(&bc, bd) {
                Ok(()) => {
                    proof {
                        assert(bc@ == bv[k as int].cid@);
                        assert(batch_cids(bv).contains(bc@));
                        assert(batch@ =~= bv.skip(k as int + 1));
                        assert forall|d: CidV|
                            old(self).has_block(d) implies #[trigger] self.has_block(d)
                            && self.block_of(d) == old(self).block_of(d) && self.refs_of(d)
                            == old(self).refs_of(d) by {
                            assert(prev.has_block(d));
                            if !prev.has_block(bc@) && d == bc@ {
                                assert(false);
                            } else {
                                assert(self.block_of(d) == prev.block_of(d));
                                assert(self.refs_of(d) == prev.refs_of(d));
                            }
                        }
                        assert forall|d: CidV|
                            !batch_cids(bv).contains(d) && !old(self).has_block(d) implies
                            #[trigger] self.block_of(d) == old(self).block_of(d) && self.refs_of(d)
                            == old(self).refs_of(d) by {
                            assert(d != bc@);
                            assert(self.block_of(d) == prev.block_of(d));
                            assert(self.refs_of(d) == prev.refs_of(d));
                        }
                        assert forall|d: CidV| #[trigger]
                            self.referers_of(d) >= old(self).referers_of(d) by {
                            assert(self.referers_of(d) >= prev.referers_of(d));
                        }
                        assert forall|d: CidV| #[trigger]
                            self.pins_of(d) == old(self).pins_of(d) by {
                            assert(self.pins_of(d) == prev.pins_of(d));
                        }
                        assert forall|i: int|
                            0 <= i < k + 1 implies self.has_block(#[trigger] bv[i].cid@) by {
                            if i < k {
                                assert(prev.has_block(bv[i].cid@));
                                if !prev.has_block(bc@) && bv[i].cid@ == bc@ {
                                    assert(false);
                                } else {
                                    assert(self.block_of(bv[i].cid@) == prev.block_of(
                                        bv[i].cid@,
                                    ));
                                }
                            } else {
                                if prev.has_block(bc@) {
                                    assert(self.block_of(bc@) == prev.block_of(bc@));
                                } else {
                                    assert(self.block_of(bc@) == Some(bv[k as int].data@));
                                }
                            }
                        }
                        assert forall|d: CidV| #[trigger]
                            self.has_block(d) implies old(self).has_block(d) || (exists|j: int|
                            0 <= j < k + 1 && (#[trigger] bv[j]).cid@ == d) by {
                            if d == bc@ {
                                assert((#[trigger] bv[k as int]).cid@ == d);
                            } else {
                                assert(self.block_of(d) == prev.block_of(d));
                                assert(prev.has_block(d));
                            }
                        }
                        assert forall|i: int|
                            0 <= i < k + 1 && !old(self).has_block(bv[i].cid@)
                                && !earlier_occurrence(bv, i) implies self.block_of(
                            #[trigger] bv[i].cid@) == Some(bv[i].data@) && ipld_of(
                            bv[i].cid@,
                            bv[i].data@,
                        ) is Some && self.refs_of(bv[i].cid@) == links_of(
                            ipld_of(bv[i].cid@, bv[i].data@).unwrap(),
                        ) by {
                            if i < k {
                                if !prev.has_block(bc@) && bv[i].cid@ == bc@ {
                                    assert(prev.has_block(bv[i].cid@));
                                    assert(false);
                                } else {
                                    assert(self.block_of(bv[i].cid@) == prev.block_of(
                                        bv[i].cid@,
                                    ));
                                    assert(self.refs_of(bv[i].cid@) == prev.refs_of(bv[i].cid@));
                                }
                            } else if i == k && !old(self).has_block(bv[i].cid@)
                                && !earlier_occurrence(bv, i) {
                                if prev.has_block(bc@) {
                                    assert(old(self).has_block(bc@) || (exists|j: int|
                                        0 <= j < k && (#[trigger] bv[j]).cid@ == bc@));
                                    assert(false);
                                }
                                assert(ipld_of(bv[i].cid@, bv[i].data@) is Some);
                                assert(self.block_of(bc@) == Some(bv[k as int].data@));
                            }
                        }
                    }
                    last = Some(bc);
                    k += 1;
                },
                Err(_) => {
                    proof {
                        assert(!prev.has_block(bc@));
                        assert(ipld_of(bv[k as int].cid@, bv[k as int].data@) is None);
                        assert(blk_ok(*old(self), bv, k as int));
                        if old(self).has_block(bc@) {
                            assert(prev.has_block(bc@));
                            assert(false);
                        }
                        if earlier_occurrence(bv, k as int) {
                            let j = choose|j: int|
                                0 <= j < k && (#[trigger] bv[j]).cid@ == bv[k as int].cid@;
                            assert(prev.has_block(bv[j].cid@));
                            assert(false);
                        }
                        assert(false);
                    }
                    return Cid::new_v0(Vec::new());
                },
            }
        }
        match last {
            Some(c) => c,
            None => {
                proof {
                    assert(false);
                }
                Cid::new_v0(Vec::new())
            },
        }
    }
}

/// Two stores with the same blocks, links and inbound counts; the pin
/// counts may differ.
pub open spec fn graph_unchanged(a: InnerStore, b: InnerStore) -> bool {
    &&& forall|d: CidV| #[trigger] b.block_of(d) == a.block_of(d)
    &&& forall|d: CidV| #[trigger] b.refs_of(d) == a.refs_of(d)
    &&& forall|d: CidV| #[trigger] b.referers_of(d) == a.referers_of(d)
}

/// Two stores with the same four mappings.
pub open spec fn same_state(a: InnerStore, b: InnerStore) -> bool {
    &&& forall|c: CidV| #[trigger] b.block_of(c) == a.block_of(c)
    &&& forall|c: CidV| #[trigger] b.refs_of(c) == a.refs_of(c)
    &&& forall|c: CidV| #[trigger] b.referers_of(c) == a.referers_of(c)
    &&& forall|c: CidV| #[trigger] b.pins_of(c) == a.pins_of(c)
}


/// The target bound to a name in the alias list, looked up from the most
/// recent entry backwards.
pub open spec fn alias_get(s: Seq<(Vec<u8>, Cid)>, name: Seq<u8>) -> Option<Cid>
    decreases s.len(),
{
    if s.len() == 0 {
        None
    } else if s.last().0@ == name {
        Some(s.last().1)
    } else {
        alias_get(s.drop_last(), name)
    }
}

/// Whether the alias list binds each name at most once.
pub open spec fn alias_unique(s: Seq<(Vec<u8>, Cid)>) -> bool {
    forall|i: int, j: int| 0 <= i < j < s.len() ==> (#[trigger] s[i]).0@ != (#[trigger] s[j]).0@
}

/// The number of aliases bound to the given target.
pub open spec fn count_alias(s: Seq<(Vec<u8>, Cid)>, c: CidV) -> int
    decreases s.len(),
{
    if s.len() == 0 {
        0
    } else {
        count_alias(s.drop_last(), c) + if s.last().1@ == c {
            1int
        } else {
            0int
        }
    }
}

/// The count of aliases of any target is nonnegative.
proof fn lemma_count_alias_nonneg(s: Seq<(Vec<u8>, Cid)>, c: CidV)
    ensures
        0 <= count_alias(s, c),
    decreases s.len(),
{
    if s.len() > 0 {
        lemma_count_alias_nonneg(s.drop_last(), c);
    }
}

/// Binding one more name raises the count of its target alone.
proof fn lemma_count_alias_push(s: Seq<(Vec<u8>, Cid)>, e: (Vec<u8>, Cid), c: CidV)
    ensures
        count_alias(s.push(e), c) == count_alias(s, c) + if e.1@ == c {
            1int
        } else {
            0int
        },
{
    assert(s.push(e).drop_last() =~= s);
    assert(s.push(e).last() == e);
}

/// Dropping a binding lowers the count of its target alone.
proof fn lemma_count_alias_remove(s: Seq<(Vec<u8>, Cid)>, i: int, c: CidV)
    requires
        0 <= i < s.len(),
    ensures
        count_alias(s.remove(i), c) == count_alias(s, c) - if s[i].1@ == c {
            1int
        } else {
            0int
        },
    decreases s.len(),
{
    if i == s.len() - 1 {
        assert(s.remove(i) =~= s.drop_last());
    } else {
        assert(s.remove(i).last() == s.last());
        assert(s.remove(i).drop_last() =~= s.drop_last().remove(i));
        assert(s.drop_last()[i] == s[i]);
        lemma_count_alias_remove(s.drop_last(), i, c);
    }
}

/// A single binding makes its target's count positive.
proof fn lemma_count_alias_at_least_one(s: Seq<(Vec<u8>, Cid)>, i: int)
    requires
        0 <= i < s.len(),
    ensures
        count_alias(s, s[i].1@) >= 1,
    decreases s.len(),
{
    lemma_count_alias_nonneg(s.drop_last(), s[i].1@);
    if i < s.len() - 1 {
        assert(s.drop_last()[i] == s[i]);
        lemma_count_alias_at_least_one(s.drop_last(), i);
    }
}

/// In a duplicate-free alias list, the binding at any index is looked up.
proof fn lemma_alias_get_index(s: Seq<(Vec<u8>, Cid)>, i: int)
    requires
        alias_unique(s),
        0 <= i < s.len(),
    ensures
        alias_get(s, s[i].0@) == Some(s[i].1),
    decreases s.len(),
{
    if i < s.len() - 1 {
        assert(s.last().0@ != s[i].0@);
        lemma_alias_get_index(s.drop_last(), i);
        assert(s.drop_last()[i] == s[i]);
    }
}

/// A name bound at no index is looked up to nothing.
proof fn lemma_alias_get_absent(s: Seq<(Vec<u8>, Cid)>, name: Seq<u8>)
    requires
        forall|i: int| 0 <= i < s.len() ==> (#[trigger] s[i]).0@ != name,
    ensures
        alias_get(s, name) is None,
    decreases s.len(),
{
    if s.len() > 0 {
        lemma_alias_get_absent(s.drop_last(), name);
    }
}

/// Binding one more name changes only that name's lookup.
proof fn lemma_alias_get_push(s: Seq<(Vec<u8>, Cid)>, e: (Vec<u8>, Cid), name: Seq<u8>)
    ensures
        alias_get(s.push(e), e.0@) == Some(e.1),
        name != e.0@ ==> alias_get(s.push(e), name) == alias_get(s, name),
{
    assert(s.push(e).drop_last() =~= s);
    assert(s.push(e).last() == e);
}

/// Dropping a binding removes only that name's lookup, in a duplicate-free
/// list.
proof fn lemma_alias_get_remove(s: Seq<(Vec<u8>, Cid)>, i: int, name: Seq<u8>)
    requires
        alias_unique(s),
        0 <= i < s.len(),
    ensures
        alias_get(s.remove(i), s[i].0@) is None,
        name != s[i].0@ ==> alias_get(s.remove(i), name) == alias_get(s, name),
        alias_unique(s.remove(i)),
    decreases s.len(),
{
    let t = s.remove(i);
    assert forall|a: int, b: int| 0 <= a < b < t.len() implies (#[trigger] t[a]).0@ != (
    #[trigger] t[b]).0@ by {
        if b < i {
            assert(t[a] == s[a] && t[b] == s[b]);
        } else if a < i {
            assert(t[a] == s[a] && t[b] == s[b + 1]);
        } else {
            assert(t[a] == s[a + 1] && t[b] == s[b + 1]);
        }
    }
    if i == s.len() - 1 {
        assert(s.remove(i) =~= s.drop_last());
        assert forall|k: int| 0 <= k < s.drop_last().len() implies (#[trigger] s.drop_last()[k]).0@
            != s[i].0@ by {
            assert(s.drop_last()[k] == s[k]);
        }
        lemma_alias_get_absent(s.drop_last(), s[i].0@);
    } else {
        assert(s.remove(i).last() == s.last());
        assert(s.remove(i).drop_last() =~= s.drop_last().remove(i));
        assert(s.drop_last()[i] == s[i]);
        lemma_alias_get_remove(s.drop_last(), i, name);
        lemma_alias_get_remove(s.drop_last(), i, s[i].0@);
    }
}

/// Finds the index of a name in the alias list.
fn alias_find(s: &Vec<(Vec<u8>, Cid)>, name: &Vec<u8>) -> (r: Option<usize>)
    ensures
        match r {
            Some(i) => i < s@.len() && s@[i as int].0@ == name@,
            None => forall|i: int| 0 <= i < s@.len() ==> (#[trigger] s@[i]).0@ != name@,
        },
{
    let n: usize = s.len();
    let mut i: usize = 0;
    while i < n
        invariant
            n == s@.len(),
            i <= n,
            forall|j: int| 0 <= j < i ==> (#[trigger] s@[j]).0@ != name@,
        decreases n - i,
    {
        if crate::cid::bytes_equal(&s[i].0, name) {
            return Some(i);
        }
        i += 1;
    }
    None
}

/// The memory-backed store: the reference-counted block map together with
/// the alias map. Setting an alias pins its target; every alias target is
/// thereby retained.
pub struct MemStore {
    inner: InnerStore,
    aliases: Vec<(Vec<u8>, Cid)>,
}

impl MemStore {
    /// The bytes stored under an identifier.
    pub closed spec fn block_of(&self, c: CidV) -> Option<Seq<u8>> {
        self.inner.block_of(c)
    }

    /// Whether a block is stored under the identifier.
    pub open spec fn has_block(&self, c: CidV) -> bool {
        self.block_of(c) is Some
    }

    /// The outbound links recorded for a stored block.
    pub closed spec fn refs_of(&self, c: CidV) -> Set<CidV> {
        self.inner.refs_of(c)
    }

    /// The inbound link count of an identifier.
    pub closed spec fn referers_of(&self, c: CidV) -> int {
        self.inner.referers_of(c)
    }

    /// The pin count of an identifier; alias pins are counted here too.
    pub closed spec fn pins_of(&self, c: CidV) -> int {
        self.inner.pins_of(c)
    }

    /// Whether an identifier is retained.
    pub open spec fn retained(&self, c: CidV) -> bool {
        self.pins_of(c) > 0 || self.referers_of(c) > 0
    }

    /// The number of aliases bound to a target.
    pub closed spec fn alias_count(&self, c: CidV) -> int {
        count_alias(self.aliases@, c)
    }

    /// The target an alias name is bound to.
    pub closed spec fn alias_of(&self, name: Seq<u8>) -> Option<CidV> {
        match alias_get(self.aliases@, name) {
            Some(c) => Some(c@),
            None => None,
        }
    }

    /// The number of stored blocks.
    pub closed spec fn block_count(&self) -> nat {
        self.inner.block_count()
    }

    /// Well-formedness: the block map is well formed, each name is bound
    /// at most once, and every target holds at least as many pins as it
    /// has aliases, so an alias target is always retained.
    pub closed spec fn wf(&self) -> bool {
        &&& self.inner.inv()
        &&& alias_unique(self.aliases@)
        &&& forall|c: CidV| #[trigger] self.inner.pins_of(c) >= count_alias(self.aliases@, c)
    }

    /// Retention soundness: every stored block is retained.
    pub open spec fn retention_inv(&self) -> bool {
        forall|c: CidV| #[trigger] self.has_block(c) ==> self.retained(c)
    }

    /// An empty store.
    pub fn new() -> (r: MemStore)
        ensures
            r.wf(),
            r.retention_inv(),
            r.block_count() == 0,
            forall|c: CidV| #[trigger] r.alias_count(c) == 0,
            forall|c: CidV| #[trigger] r.block_of(c) is None,
            forall|c: CidV| #[trigger] r.pins_of(c) == 0,
            forall|c: CidV| #[trigger] r.referers_of(c) == 0,
            forall|name: Seq<u8>| #[trigger] r.alias_of(name) is None,
    {
        let r = MemStore { inner: InnerStore::new(), aliases: Vec::new() };
        proof {
            assert forall|c: CidV| #[trigger] r.inner.pins_of(c) >= count_alias(
                r.aliases@,
                c,
            ) by {}
        }
        r
    }

    /// Returns the stored bytes of an identifier, or reports that no block
    /// is stored under it.
    pub fn get(&self, cid: &Cid) -> (r: Result<Vec<u8>, StoreError>)
        requires
            self.wf(),
        ensures
            match r {
                Ok(d) => self.block_of(cid@) == Some(d@),
                Err(e) => self.block_of(cid@) is None && (e matches StoreError::BlockNotFound(c2)
                    && c2@ == cid@),
            },
    {
        self.inner.get(cid)
    }

    /// Stores a block and pins it.
    pub fn insert(&mut self, cid: &Cid, data: Vec<u8>) -> (r: Result<(), StoreError>)
        requires
            old(self).wf(),
            old(self).block_count() < usize::MAX,
            old(self).pins_of(cid@) < usize::MAX,
        ensures
            final(self).wf(),
            forall|n2: Seq<u8>| #[trigger] final(self).alias_of(n2) == old(self).alias_of(n2),
            r is Ok <==> (old(self).has_block(cid@) || ipld_of(cid@, data@) is Some),
            r matches Err(e) ==> (e matches StoreError::Block(_)) && ms_same_state(
                *old(self),
                *final(self),
            ),
            r is Ok ==> final(self).pins_of(cid@) == old(self).pins_of(cid@) + 1 && (forall|
                d: CidV,
            | d != cid@ ==> #[trigger] final(self).pins_of(d) == old(self).pins_of(d)),
            r is Ok && old(self).has_block(cid@) ==> ms_graph_unchanged(
                *old(self),
                *final(self),
            ),
            (!old(self).has_block(cid@) && ipld_of(cid@, data@) is Some) ==> {
                &&& final(self).block_of(cid@) == Some(data@)
                &&& forall|d: CidV|
                    d != cid@ ==> #[trigger] final(self).block_of(d) == old(self).block_of(d)
                &&& final(self).refs_of(cid@) == links_of(ipld_of(cid@, data@).unwrap())
                &&& forall|d: CidV| #[trigger]
                    final(self).referers_of(d) == old(self).referers_of(d) + (if links_of(
                        ipld_of(cid@, data@).unwrap(),
                    ).contains(d) {
                        1int
                    } else {
                        0int
                    })
            },
            old(self).retention_inv() && r is Ok ==> final(self).retention_inv(),
    {
        proof {
            if old(self).retention_inv() {
                assert forall|c: CidV| #[trigger] self.inner.has_block(c) implies
                    self.inner.retained(c) by {
                    assert(old(self).has_block(c));
                }
            }
        }
        let r = self.inner.insert(cid, data);
        proof {
            if old(self).retention_inv() && r is Ok {
                assert forall|c: CidV| #[trigger] final(self).has_block(c) implies final(self).retained(c) by {
                    assert(self.inner.has_block(c));
                    assert(self.inner.retained(c));
                }
            }
            if r is Ok {
                assert forall|c: CidV| #[trigger] self.inner.pins_of(c) >= count_alias(
                    self.aliases@,
                    c,
                ) by {
                    assert(old(self).inner.pins_of(c) >= count_alias(old(self).aliases@, c));
                    if c != cid@ {
                        assert(self.inner.pins_of(c) == old(self).inner.pins_of(c));
                    }
                }
            }
        }
        r
    }

    /// Stores a run of blocks, none pinned, returning the last identifier.
    #[verifier::rlimit(100)]
    #[verifier::spinoff_prover]
    pub fn insert_batch(&mut self, batch: Vec<Block>) -> (r: Result<Cid, StoreError>)
        requires
            old(self).wf(),
            old(self).block_count() + batch@.len() <= usize::MAX,
        ensures
            final(self).wf(),
            forall|n2: Seq<u8>| #[trigger] final(self).alias_of(n2) == old(self).alias_of(n2),
            forall|d: CidV| #[trigger] final(self).pins_of(d) == old(self).pins_of(d),
            batch@.len() == 0 ==> r == Result::<Cid, StoreError>::Err(StoreError::EmptyBatch),
            r is Ok <==> (batch@.len() > 0 && forall|i: int|
                0 <= i < batch@.len() ==> #[trigger] ms_blk_ok(*old(self), batch@, i)),
            r matches Ok(last) ==> last@ == batch@.last().cid@,
            r matches Err(e) ==> ms_same_state(*old(self), *final(self)) && ((batch@.len() == 0
                && e == StoreError::EmptyBatch) || (e matches StoreError::Block(_))),
            forall|d: CidV| #[trigger] final(self).alias_count(d) == old(self).alias_count(d),
            r is Ok ==> forall|i: int|
                0 <= i < batch@.len() ==> final(self).has_block(#[trigger] batch@[i].cid@),
            r is Ok ==> forall|i: int|
                0 <= i < batch@.len() && !old(self).has_block(batch@[i].cid@)
                    && !earlier_occurrence(batch@, i) ==> final(self).block_of(
                    #[trigger] batch@[i].cid@,
                ) == Some(batch@[i].data@) && ipld_of(batch@[i].cid@, batch@[i].data@) is Some
                    && final(self).refs_of(batch@[i].cid@) == links_of(
                    ipld_of(batch@[i].cid@, batch@[i].data@).unwrap(),
                ),
            old(self).retention_inv() && (r matches Err(_)) ==> final(self).retention_inv(),
    {
        let ghost bv = batch@;
        let r = self.inner.insert_batch(batch);
        proof {
            if r matches Err(_) {
                assert forall|d: CidV| #[trigger]
                    final(self).pins_of(d) == old(self).pins_of(d) by {
                    assert(self.inner.pins_of(d) == old(self).inner.pins_of(d));
                }
                assert forall|d: CidV| #[trigger]
                    final(self).block_of(d) == old(self).block_of(d) by {
                    assert(self.inner.block_of(d) == old(self).inner.block_of(d));
                }
                assert forall|d: CidV| #[trigger]
                    final(self).refs_of(d) == old(self).refs_of(d) by {
                    assert(self.inner.refs_of(d) == old(self).inner.refs_of(d));
                }
                assert forall|d: CidV| #[trigger]
                    final(self).referers_of(d) == old(self).referers_of(d) by {
                    assert(self.inner.referers_of(d) == old(self).inner.referers_of(d));
                }
                if old(self).retention_inv() {
                    assert forall|c: CidV| #[trigger] final(self).has_block(c) implies final(self).retained(c) by {
                        assert(old(self).has_block(c));
                        assert(old(self).retained(c));
                    }
                }
            }
            if r is Ok {
                assert forall|i: int| 0 <= i < bv.len() implies #[trigger] ms_blk_ok(
                    *old(self),
                    bv,
                    i,
                ) by {
                    assert(blk_ok(old(self).inner, bv, i));
                }
            } else {
                if bv.len() > 0 && (forall|i: int|
                    0 <= i < bv.len() ==> #[trigger] ms_blk_ok(*old(self), bv, i)) {
                    assert forall|i: int| 0 <= i < bv.len() implies #[trigger] blk_ok(
                        old(self).inner,
                        bv,
                        i,
                    ) by {
                        assert(ms_blk_ok(*old(self), bv, i));
                    }
                    assert(false);
                }
            }
            assert forall|c: CidV| #[trigger] self.inner.pins_of(c) >= count_alias(
                self.aliases@,
                c,
            ) by {
                assert(old(self).inner.pins_of(c) >= count_alias(old(self).aliases@, c));
            }
        }
        r
    }

    /// Raises the pin count of an identifier by one; pinning an absent
    /// identifier records intent for a future block.
    pub fn pin(&mut self, cid: &Cid)
        requires
            old(self).wf(),
            old(self).pins_of(cid@) < usize::MAX,
        ensures
            final(self).wf(),
            final(self).pins_of(cid@) == old(self).pins_of(cid@) + 1,
            forall|d: CidV|
                d != cid@ ==> #[trigger] final(self).pins_of(d) == old(self).pins_of(d),
            ms_graph_unchanged(*old(self), *final(self)),
            forall|d: CidV| #[trigger] final(self).alias_count(d) == old(self).alias_count(d),
            forall|n2: Seq<u8>| #[trigger] final(self).alias_of(n2) == old(self).alias_of(n2),
            old(self).retention_inv() ==> final(self).retention_inv(),
    {
        proof {
            if old(self).retention_inv() {
                assert forall|c: CidV| #[trigger] self.inner.has_block(c) implies
                    self.inner.retained(c) by {
                    assert(old(self).has_block(c));
                }
            }
        }
        self.inner.pin(cid);
        proof {
            assert forall|c: CidV| #[trigger] self.inner.pins_of(c) >= count_alias(
                self.aliases@,
                c,
            ) by {
                assert(old(self).inner.pins_of(c) >= count_alias(old(self).aliases@, c));
                if c != cid@ {
                    assert(self.inner.pins_of(c) == old(self).inner.pins_of(c));
                }
            }
            if old(self).retention_inv() {
                assert forall|c: CidV| #[trigger] final(self).has_block(c) implies final(self).retained(c) by {
                    assert(self.inner.has_block(c));
                    assert(self.inner.retained(c));
                }
            }
        }
    }

    /// Counts the aliases bound to an identifier.
    fn alias_count_exec(&self, cid: &Cid) -> (r: usize)
        ensures
            r as int == self.alias_count(cid@),
    {
        let n: usize = self.aliases.len();
        let mut i: usize = 0;
        let mut count: usize = 0;
        proof {
            assert(self.aliases@.take(0) =~= Seq::<(Vec<u8>, Cid)>::empty());
        }
        while i < n
            invariant
                n == self.aliases@.len(),
                i <= n,
                count <= i,
                count as int == count_alias(self.aliases@.take(i as int), cid@),
            decreases n - i,
        {
            proof {
                assert(self.aliases@.take(i as int + 1).drop_last() =~= self.aliases@.take(
                    i as int,
                ));
                assert(self.aliases@.take(i as int + 1).last() == self.aliases@[i as int]);
            }
            if self.aliases[i].1.equals(cid) {
                count = count + 1;
            }
            i += 1;
        }
        proof {
            assert(self.aliases@.take(n as int) =~= self.aliases@);
        }
        count
    }

    /// Drops one user pin of an identifier, removing its block and
    /// cascading along its links when it is no longer retained. The pins
    /// that aliases hold are protected: when every remaining pin belongs
    /// to an alias, the call changes nothing, so an alias target stays
    /// retained until its alias is unbound.
    pub fn unpin(&mut self, cid: &Cid) -> (r: Result<(), StoreError>)
        requires
            old(self).wf(),
        ensures
            final(self).wf(),
            r is Ok,
            forall|n2: Seq<u8>| #[trigger] final(self).alias_of(n2) == old(self).alias_of(n2),
            forall|d: CidV| #[trigger] final(self).alias_count(d) == old(self).alias_count(d),
            old(self).pins_of(cid@) <= old(self).alias_count(cid@) ==> ms_same_state(
                *old(self),
                *final(self),
            ),
            old(self).pins_of(cid@) > old(self).alias_count(cid@) ==> {
                &&& final(self).pins_of(cid@) == old(self).pins_of(cid@) - 1
                &&& forall|d: CidV|
                    d != cid@ ==> #[trigger] final(self).pins_of(d) == old(self).pins_of(d)
                &&& (old(self).pins_of(cid@) != 1 ==> ms_graph_unchanged(
                    *old(self),
                    *final(self),
                ))
                &&& (old(self).pins_of(cid@) == 1 && (old(self).referers_of(cid@) > 0 || !old(
                    self,
                ).has_block(cid@)) ==> ms_graph_unchanged(*old(self), *final(self)))
            },
            forall|d: CidV| #[trigger]
                final(self).has_block(d) ==> old(self).has_block(d) && final(self).block_of(d)
                    == old(self).block_of(d) && final(self).refs_of(d) == old(self).refs_of(d),
            forall|d: CidV| #[trigger] final(self).referers_of(d) <= old(self).referers_of(d),
            forall|d: CidV|
                old(self).has_block(d) && !(#[trigger] final(self).has_block(d)) ==> !final(self).retained(d),
            forall|d: CidV| #[trigger]
                final(self).retained(d) ==> final(self).has_block(d) == old(self).has_block(d),
            old(self).retention_inv() ==> final(self).retention_inv(),
    {
        let ac = self.alias_count_exec(cid);
        let p = self.inner_pins(cid);
        if p <= ac {
            return Ok(());
        }
        proof {
            if old(self).retention_inv() {
                assert forall|c: CidV| #[trigger] self.inner.has_block(c) implies
                    self.inner.retained(c) by {
                    assert(old(self).has_block(c));
                }
            }
        }
        let r = self.inner.unpin(cid);
        proof {
            assert forall|d: CidV| #[trigger]
                final(self).has_block(d) implies old(self).has_block(d) && final(self).block_of(d)
                == old(self).block_of(d) && final(self).refs_of(d) == old(self).refs_of(d) by {
                assert(self.inner.has_block(d));
            }
            assert forall|d: CidV|
                old(self).has_block(d) && !(#[trigger] final(self).has_block(d)) implies !final(self).retained(d) by {
                assert(old(self).inner.has_block(d));
                assert(!self.inner.retained(d));
            }
            assert forall|d: CidV| #[trigger]
                final(self).retained(d) implies final(self).has_block(d) == old(self).has_block(
                d,
            ) by {
                assert(self.inner.retained(d));
                assert(self.inner.has_block(d) == old(self).inner.has_block(d));
            }
            if old(self).retention_inv() {
                assert forall|c: CidV| #[trigger] final(self).has_block(c) implies final(self).retained(c) by {
                    assert(self.inner.has_block(c));
                    assert(self.inner.retained(c));
                }
            }
            lemma_count_alias_nonneg(self.aliases@, cid@);
            assert forall|c: CidV| #[trigger] self.inner.pins_of(c) >= count_alias(
                self.aliases@,
                c,
            ) by {
                assert(old(self).inner.pins_of(c) >= count_alias(old(self).aliases@, c));
                if c != cid@ {
                    assert(self.inner.pins_of(c) == old(self).inner.pins_of(c));
                }
            }
        }
        r
    }

    /// The pin count of an identifier, as a machine integer.
    fn inner_pins(&self, cid: &Cid) -> (r: usize)
        requires
            self.wf(),
        ensures
            r as int == self.pins_of(cid@),
    {
        self.inner.pins_count(cid)
    }

    /// Binds a name to an identifier and pins it; rebinding a name unpins
    /// the prior target first. An alias target is always retained.
    pub fn alias(&mut self, name: &Vec<u8>, cid: &Cid) -> (r: Result<(), StoreError>)
        requires
            old(self).wf(),
            old(self).pins_of(cid@) < usize::MAX,
        ensures
            final(self).wf(),
            r is Ok,
            final(self).alias_of(name@) == Some(cid@),
            forall|n2: Seq<u8>|
                n2 != name@ ==> #[trigger] final(self).alias_of(n2) == old(self).alias_of(n2),
            final(self).pins_of(cid@) > 0,
            match old(self).alias_of(name@) {
                None => {
                    &&& final(self).pins_of(cid@) == old(self).pins_of(cid@) + 1
                    &&& forall|d: CidV|
                        d != cid@ ==> #[trigger] final(self).pins_of(d) == old(self).pins_of(d)
                    &&& ms_graph_unchanged(*old(self), *final(self))
                },
                Some(t) => {
                    &&& (t == cid@ ==> final(self).pins_of(cid@) == old(self).pins_of(cid@))
                    &&& (t != cid@ ==> final(self).pins_of(cid@) == old(self).pins_of(cid@) + 1
                        && final(self).pins_of(t) == (if old(self).pins_of(t) > 0 {
                        old(self).pins_of(t) - 1
                    } else {
                        0int
                    }))
                    &&& forall|d: CidV|
                        d != cid@ && d != t ==> #[trigger] final(self).pins_of(d) == old(self).pins_of(d)
                    &&& forall|d: CidV| #[trigger]
                        final(self).has_block(d) ==> old(self).has_block(d) && final(self).block_of(d) == old(self).block_of(d) && final(self).refs_of(d) == old(self).refs_of(d)
                    &&& forall|d: CidV| #[trigger]
                        final(self).referers_of(d) <= old(self).referers_of(d)
                },
            },
            old(self).retention_inv() ==> final(self).retention_inv(),
    {
        match alias_find(&self.aliases, name) {
            Some(i) => {
                proof {
                    lemma_alias_get_index(self.aliases@, i as int);
                    lemma_count_alias_at_least_one(self.aliases@, i as int);
                    assert(old(self).alias_of(name@) == Some(self.aliases@[i as int].1@));
                    assert(old(self).pins_of(self.aliases@[i as int].1@) >= 1);
                }
                let entry = self.aliases.remove(i);
                proof {
                    lemma_alias_get_remove(old(self).aliases@, i as int, name@);
                    assert forall|c: CidV| #[trigger] self.inner.pins_of(c) >= count_alias(
                        self.aliases@,
                        c,
                    ) + (if c == entry.1@ {
                        1int
                    } else {
                        0int
                    }) by {
                        lemma_count_alias_remove(old(self).aliases@, i as int, c);
                        assert(old(self).inner.pins_of(c) >= count_alias(old(self).aliases@, c));
                    }
                }
                let old_target = entry.1;
                let ghost s1 = *self;
                proof {
                    if old(self).retention_inv() {
                        assert forall|c: CidV| #[trigger] self.inner.has_block(c) implies
                            self.inner.retained(c) by {
                            assert(old(self).has_block(c));
                        }
                    }
                }
                self.inner.unpin(&old_target);
                proof {
                    lemma_count_alias_nonneg(self.aliases@, old_target@);
                    assert forall|c: CidV| #[trigger] self.inner.pins_of(c) >= count_alias(
                        self.aliases@,
                        c,
                    ) by {
                        if c != old_target@ {
                            assert(self.inner.pins_of(c) == s1.inner.pins_of(c));
                        }
                    }
                }
                let ghost s2 = *self;
                self.inner.pin(cid);
                self.aliases.push((name.clone(), cid.clone()));
                proof {
                    let e = self.aliases@.last();
                    assert(self.aliases@ =~= s2.aliases@.push(e));
                    lemma_alias_get_push(s2.aliases@, e, name@);
                    assert forall|n2: Seq<u8>|
                        n2 != name@ implies #[trigger] final(self).alias_of(n2) == old(self).alias_of(n2) by {
                        lemma_alias_get_push(s2.aliases@, e, n2);
                        lemma_alias_get_remove(old(self).aliases@, i as int, n2);
                    }
                    assert forall|a: int, b: int|
                        0 <= a < b < self.aliases@.len() implies (#[trigger] self.aliases@[a]).0@
                        != (#[trigger] self.aliases@[b]).0@ by {
                        if b == self.aliases@.len() - 1 {
                            if self.aliases@[a].0@ == name@ {
                                lemma_alias_get_index(s2.aliases@, a);
                            }
                        }
                    }
                    assert forall|c: CidV| #[trigger] self.inner.pins_of(c) >= count_alias(
                        self.aliases@,
                        c,
                    ) by {
                        lemma_count_alias_push(s2.aliases@, e, c);
                        if c != cid@ {
                            assert(self.inner.pins_of(c) == s2.inner.pins_of(c));
                        }
                    }
                    if old(self).retention_inv() {
                        assert forall|c: CidV| #[trigger] final(self).has_block(c) implies final(self).retained(c) by {
                            assert(self.inner.has_block(c));
                            assert(self.inner.retained(c));
                        }
                    }
                    assert(s1.inner == old(self).inner);
                    assert(old(self).alias_of(name@) == Some(old_target@));
                    assert(final(self).pins_of(cid@) == s2.inner.pins_of(cid@) + 1);
                    if old_target@ != cid@ {
                        assert(s2.inner.pins_of(cid@) == s1.inner.pins_of(cid@));
                        assert(final(self).pins_of(old_target@) == s2.inner.pins_of(
                            old_target@,
                        ));
                    }
                    assert forall|d: CidV|
                        d != cid@ && d != old_target@ implies #[trigger] final(self).pins_of(d)
                        == old(self).pins_of(d) by {
                        assert(self.inner.pins_of(d) == s2.inner.pins_of(d));
                        assert(s2.inner.pins_of(d) == s1.inner.pins_of(d));
                    }
                    assert forall|d: CidV| #[trigger]
                        final(self).has_block(d) implies old(self).has_block(d) && final(self).block_of(d) == old(self).block_of(d) && final(self).refs_of(d) == old(self).refs_of(d) by {
                        assert(self.inner.block_of(d) == s2.inner.block_of(d));
                        assert(self.inner.refs_of(d) == s2.inner.refs_of(d));
                        assert(s2.inner.has_block(d));
                    }
                    assert forall|d: CidV| #[trigger]
                        final(self).referers_of(d) <= old(self).referers_of(d) by {
                        assert(self.inner.referers_of(d) == s2.inner.referers_of(d));
                    }
                }
                Ok(())
            },
            None => {
                proof {
                    lemma_alias_get_absent(self.aliases@, name@);
                    if old(self).retention_inv() {
                        assert forall|c: CidV| #[trigger] self.inner.has_block(c) implies
                            self.inner.retained(c) by {
                            assert(old(self).has_block(c));
                        }
                    }
                }
                let ghost s2 = *self;
                self.inner.pin(cid);
                self.aliases.push((name.clone(), cid.clone()));
                proof {
                    let e = self.aliases@.last();
                    assert(self.aliases@ =~= s2.aliases@.push(e));
                    lemma_alias_get_push(s2.aliases@, e, name@);
                    assert forall|n2: Seq<u8>|
                        n2 != name@ implies #[trigger] final(self).alias_of(n2) == old(self).alias_of(n2) by {
                        lemma_alias_get_push(s2.aliases@, e, n2);
                    }
                    assert forall|a: int, b: int|
                        0 <= a < b < self.aliases@.len() implies (#[trigger] self.aliases@[a]).0@
                        != (#[trigger] self.aliases@[b]).0@ by {
                        if b == self.aliases@.len() - 1 {
                            if self.aliases@[a].0@ == name@ {
                            }
                        }
                    }
                    assert forall|c: CidV| #[trigger] self.inner.pins_of(c) >= count_alias(
                        self.aliases@,
                        c,
                    ) by {
                        lemma_count_alias_push(s2.aliases@, e, c);
                        assert(old(self).inner.pins_of(c) >= count_alias(old(self).aliases@, c));
                        if c != cid@ {
                            assert(self.inner.pins_of(c) == s2.inner.pins_of(c));
                        }
                    }
                    if old(self).retention_inv() {
                        assert forall|c: CidV| #[trigger] final(self).has_block(c) implies final(self).retained(c) by {
                            assert(self.inner.has_block(c));
                            assert(self.inner.retained(c));
                        }
                    }
                    assert(s2 == *old(self));
                    assert(old(self).alias_of(name@) is None);
                    assert(final(self).pins_of(cid@) == s2.inner.pins_of(cid@) + 1);
                    assert forall|d: CidV|
                        d != cid@ implies #[trigger] final(self).pins_of(d) == old(self).pins_of(
                        d,
                    ) by {
                        assert(self.inner.pins_of(d) == s2.inner.pins_of(d));
                    }
                    assert forall|d: CidV| #[trigger]
                        final(self).block_of(d) == old(self).block_of(d) by {
                        assert(self.inner.block_of(d) == s2.inner.block_of(d));
                    }
                    assert forall|d: CidV| #[trigger]
                        final(self).refs_of(d) == old(self).refs_of(d) by {
                        assert(self.inner.refs_of(d) == s2.inner.refs_of(d));
                    }
                    assert forall|d: CidV| #[trigger]
                        final(self).referers_of(d) == old(self).referers_of(d) by {
                        assert(self.inner.referers_of(d) == s2.inner.referers_of(d));
                    }
                }
                Ok(())
            },
        }
    }

    /// Unbinds a name and drops the pin it held on its target.
    pub fn unalias(&mut self, name: &Vec<u8>) -> (r: Result<(), StoreError>)
        requires
            old(self).wf(),
        ensures
            final(self).wf(),
            r is Ok,
            final(self).alias_of(name@) is None,
            forall|n2: Seq<u8>|
                n2 != name@ ==> #[trigger] final(self).alias_of(n2) == old(self).alias_of(n2),
            match old(self).alias_of(name@) {
                None => ms_same_state(*old(self), *final(self)),
                Some(t) => {
                    &&& final(self).pins_of(t) == (if old(self).pins_of(t) > 0 {
                        old(self).pins_of(t) - 1
                    } else {
                        0int
                    })
                    &&& forall|d: CidV|
                        d != t ==> #[trigger] final(self).pins_of(d) == old(self).pins_of(d)
                    &&& forall|d: CidV| #[trigger]
                        final(self).has_block(d) ==> old(self).has_block(d) && final(self).block_of(d) == old(self).block_of(d) && final(self).refs_of(d) == old(self).refs_of(d)
                    &&& forall|d: CidV| #[trigger]
                        final(self).referers_of(d) <= old(self).referers_of(d)
                    &&& forall|d: CidV|
                        old(self).has_block(d) && !(#[trigger] final(self).has_block(d))
                            ==> !final(self).retained(d)
                },
            },
            old(self).retention_inv() ==> final(self).retention_inv(),
    {
        match alias_find(&self.aliases, name) {
            Some(i) => {
                proof {
                    lemma_alias_get_index(self.aliases@, i as int);
                    lemma_count_alias_at_least_one(self.aliases@, i as int);
                    assert(old(self).alias_of(name@) == Some(self.aliases@[i as int].1@));
                }
                let entry = self.aliases.remove(i);
                proof {
                    lemma_alias_get_remove(old(self).aliases@, i as int, name@);
                    assert forall|n2: Seq<u8>|
                        n2 != name@ implies alias_get(self.aliases@, n2) == alias_get(
                        old(self).aliases@,
                        n2,
                    ) by {
                        lemma_alias_get_remove(old(self).aliases@, i as int, n2);
                    }
                    assert forall|c: CidV| #[trigger] self.inner.pins_of(c) >= count_alias(
                        self.aliases@,
                        c,
                    ) + (if c == entry.1@ {
                        1int
                    } else {
                        0int
                    }) by {
                        lemma_count_alias_remove(old(self).aliases@, i as int, c);
                        assert(old(self).inner.pins_of(c) >= count_alias(old(self).aliases@, c));
                    }
                }
                let target = entry.1;
                let ghost s1 = *self;
                proof {
                    if old(self).retention_inv() {
                        assert forall|c: CidV| #[trigger] self.inner.has_block(c) implies
                            self.inner.retained(c) by {
                            assert(old(self).has_block(c));
                        }
                    }
                }
                let r = self.inner.unpin(&target);
                proof {
                    if old(self).retention_inv() {
                        assert forall|c: CidV| #[trigger] final(self).has_block(c) implies final(self).retained(c) by {
                            assert(self.inner.has_block(c));
                            assert(self.inner.retained(c));
                        }
                    }
                    lemma_count_alias_nonneg(self.aliases@, target@);
                    assert forall|c: CidV| #[trigger] self.inner.pins_of(c) >= count_alias(
                        self.aliases@,
                        c,
                    ) by {
                        if c != target@ {
                            assert(self.inner.pins_of(c) == s1.inner.pins_of(c));
                        }
                    }
                    assert(s1.inner == old(self).inner);
                    assert(old(self).alias_of(name@) == Some(target@));
                    assert(final(self).pins_of(target@) == self.inner.pins_of(target@));
                    assert forall|d: CidV|
                        d != target@ implies #[trigger] final(self).pins_of(d) == old(self).pins_of(d) by {
                        assert(self.inner.pins_of(d) == s1.inner.pins_of(d));
                    }
                    assert forall|d: CidV| #[trigger]
                        final(self).has_block(d) implies old(self).has_block(d) && final(self).block_of(d) == old(self).block_of(d) && final(self).refs_of(d) == old(self).refs_of(d) by {
                        assert(self.inner.has_block(d));
                    }
                    assert forall|d: CidV|
                        old(self).has_block(d) && !(#[trigger] final(self).has_block(d)) implies
                        !final(self).retained(d) by {
                        assert(s1.inner.has_block(d));
                        assert(!self.inner.retained(d));
                    }
                }
                r
            },
            None => {
                proof {
                    lemma_alias_get_absent(self.aliases@, name@);
                    assert(ms_same_state(*old(self), *final(self)));
                }
                Ok(())
            },
        }
    }

    /// Returns the identifier a name is bound to, if any.
    pub fn resolve(&self, name: &Vec<u8>) -> (r: Option<Cid>)
        requires
            self.wf(),
        ensures
            match r {
                Some(c) => self.alias_of(name@) == Some(c@),
                None => self.alias_of(name@) is None,
            },
    {
        match alias_find(&self.aliases, name) {
            Some(i) => {
                proof {
                    lemma_alias_get_index(self.aliases@, i as int);
                }
                Some(self.aliases[i].1.clone())
            },
            None => {
                proof {
                    lemma_alias_get_absent(self.aliases@, name@);
                }
                None
            },
        }
    }

    /// Flushes the store; the memory backend has nothing to write out.
    pub fn flush(&self) -> (r: Result<(), StoreError>)
        ensures
            r is Ok,
    {
        Ok(())
    }
}

/// Whether the block at position `i` of a run can be stored at its turn:
/// it is already stored, an earlier block of the run addresses the same
/// identifier, or its bytes decode.
pub open spec fn ms_blk_ok(a: MemStore, batch: Seq<Block>, i: int) -> bool {
    ||| a.has_block(batch[i].cid@)
    ||| earlier_occurrence(batch, i)
    ||| ipld_of(batch[i].cid@, batch[i].data@) is Some
}

/// Two memory stores with the same blocks, links and inbound counts.
pub open spec fn ms_graph_unchanged(a: MemStore, b: MemStore) -> bool {
    &&& forall|d: CidV| #[trigger] b.block_of(d) == a.block_of(d)
    &&& forall|d: CidV| #[trigger] b.refs_of(d) == a.refs_of(d)
    &&& forall|d: CidV| #[trigger] b.referers_of(d) == a.referers_of(d)
}

/// Two memory stores with the same blocks, links, counts and pins.
pub open spec fn ms_same_state(a: MemStore, b: MemStore) -> bool {
    ms_graph_unchanged(a, b) && forall|d: CidV| #[trigger] b.pins_of(d) == a.pins_of(d)
}

/// Pin counts are never negative.
pub proof fn lemma_pins_nonneg(s: MemStore, c: CidV)
    ensures
        s.pins_of(c) >= 0,
{
    lemma_al_get_nonneg(s.inner.pins@, c);
}

/// A lookup in a list of machine counters is nonnegative.
proof fn lemma_al_get_nonneg(s: Seq<(Cid, usize)>, c: CidV)
    ensures
        (match al_get(s, c) {
            Some(n) => n as int,
            None => 0,
        }) >= 0,
    decreases s.len(),
{
    if s.len() > 0 && s.last().0@ != c {
        lemma_al_get_nonneg(s.drop_last(), c);
    }
}

/// Retention: a stored block is retained: it is pinned, or a stored block
/// links to it. An identifier that is pinned or aliased before its block
/// arrives is retained but not yet retrievable, so retention does not
/// imply a successful read.
pub proof fn lemma_retention(s: MemStore, c: CidV)
    requires
        s.wf(),
        s.retention_inv(),
        s.has_block(c),
    ensures
        s.retained(c),
{
}

/// Every alias target is retained, so a bound name always protects its
/// block.
pub proof fn lemma_alias_retained(s: MemStore, name: Seq<u8>)
    requires
        s.wf(),
        s.alias_of(name) is Some,
    ensures
        s.retained(s.alias_of(name).unwrap()),
{
    let c = s.alias_of(name).unwrap();
    lemma_alias_some_index(s.aliases@, name);
    let i = choose|i: int|
        0 <= i < s.aliases@.len() && (#[trigger] s.aliases@[i]).0@ == name && s.aliases@[i].1@
            == c;
    lemma_count_alias_at_least_one(s.aliases@, i);
    assert(s.inner.pins_of(c) >= count_alias(s.aliases@, c));
}

/// A bound name is bound at some index.
proof fn lemma_alias_some_index(s: Seq<(Vec<u8>, Cid)>, name: Seq<u8>)
    requires
        alias_get(s, name) is Some,
    ensures
        exists|i: int|
            0 <= i < s.len() && (#[trigger] s[i]).0@ == name && s[i].1@ == alias_get(
                s,
                name,
            ).unwrap()@,
    decreases s.len(),
{
    if s.len() > 0 {
        if s.last().0@ == name {
            assert((#[trigger] s[s.len() - 1]).0@ == name);
        } else {
            lemma_alias_some_index(s.drop_last(), name);
            let i = choose|i: int|
                0 <= i < s.drop_last().len() && (#[trigger] s.drop_last()[i]).0@ == name
                    && s.drop_last()[i].1@ == alias_get(s.drop_last(), name).unwrap()@;
            assert((#[trigger] s[i]).0@ == name);
        }
    }
}

/// A lookup that succeeds comes from some entry of the list.
proof fn lemma_al_get_some_index<V>(s: Seq<(Cid, V)>, c: CidV)
    requires
        al_get(s, c) is Some,
    ensures
        exists|i: int|
            0 <= i < s.len() && (#[trigger] s[i]).0@ == c && s[i].1 == al_get(s, c).unwrap(),
    decreases s.len(),
{
    if s.len() > 0 {
        if s.last().0@ == c {
            assert((#[trigger] s[s.len() - 1]).0@ == c);
        } else {
            lemma_al_get_some_index(s.drop_last(), c);
            let i = choose|i: int|
                0 <= i < s.drop_last().len() && (#[trigger] s.drop_last()[i]).0@ == c
                    && s.drop_last()[i].1 == al_get(s.drop_last(), c).unwrap();
            assert((#[trigger] s[i]).0@ == c);
        }
    }
}

/// No dangling links in the retained set: a link recorded for a stored
/// block always points at a retained identifier.
pub proof fn lemma_no_dangling(s: InnerStore, c: CidV, d: CidV)
    requires
        s.inv(),
        s.has_block(c),
        s.refs_of(c).contains(d),
    ensures
        s.retained(d),
{
    s.lemma_refs_entry(c, d);
}

impl InnerStore {
    /// A recorded link makes its target's inbound count positive.
    proof fn lemma_refs_entry(self, c: CidV, d: CidV)
        requires
            self.inv(),
            self.has_block(c),
            self.refs_of(c).contains(d),
        ensures
            self.referers_of(d) >= 1,
    {
        assert(al_get(self.refs@, c) is Some);
        lemma_al_get_some_index(self.refs@, c);
        let i = choose|i: int|
            0 <= i < self.refs@.len() && (#[trigger] self.refs@[i]).0@ == c && self.refs@[i].1
                == al_get(self.refs@, c).unwrap();
        lemma_count_refs_at_least_one(self.refs@, i, d);
        assert(self.referers_of(d) == count_refs(self.refs@, d));
    }
}

/// Pin/unpin symmetry: one pin followed by one unpin of the same
/// identifier restores the store, on any well-formed store whose stored
/// blocks are all retained. The two steps are quoted exactly as the pin
/// and unpin operations state them.
pub open spec fn pin_rel(a: InnerStore, b: InnerStore, c: CidV) -> bool {
    &&& b.pins_of(c) == a.pins_of(c) + 1
    &&& forall|d: CidV| d != c ==> #[trigger] b.pins_of(d) == a.pins_of(d)
    &&& forall|d: CidV| #[trigger] b.block_of(d) == a.block_of(d)
    &&& forall|d: CidV| #[trigger] b.refs_of(d) == a.refs_of(d)
    &&& forall|d: CidV| #[trigger] b.referers_of(d) == a.referers_of(d)
}

/// The state relation the unpin operation establishes.
pub open spec fn unpin_rel(a: InnerStore, b: InnerStore, c: CidV) -> bool {
    &&& b.pins_of(c) == (if a.pins_of(c) > 0 {
        a.pins_of(c) - 1
    } else {
        0int
    })
    &&& forall|d: CidV| d != c ==> #[trigger] b.pins_of(d) == a.pins_of(d)
    &&& (a.pins_of(c) != 1 ==> graph_unchanged(a, b))
    &&& (a.pins_of(c) == 1 && (a.referers_of(c) > 0 || !a.has_block(c)) ==> graph_unchanged(a, b))
}

/// One pin then one unpin of the same identifier leaves the store as it
/// was.
pub proof fn lemma_pin_unpin_symmetry(s0: InnerStore, s1: InnerStore, s2: InnerStore, c: CidV)
    requires
        s0.retention_inv(),
        pin_rel(s0, s1, c),
        unpin_rel(s1, s2, c),
    ensures
        same_state(s0, s2),
{
    if s0.pins_of(c) >= 1 {
        assert(s1.pins_of(c) != 1);
        assert(graph_unchanged(s1, s2));
    } else {
        assert(s1.pins_of(c) == 1);
        if s0.has_block(c) {
            assert(s0.retained(c));
            assert(s1.referers_of(c) == s0.referers_of(c));
            assert(s1.referers_of(c) > 0);
            assert(graph_unchanged(s1, s2));
        } else {
            assert(!s1.has_block(c));
            assert(graph_unchanged(s1, s2));
        }
    }
}



/// The number of entries of a block list whose identifier is outside the
/// given set.
pub open spec fn count_unseen(s: Seq<(Cid, Vec<u8>)>, seen: Set<CidV>) -> int
    decreases s.len(),
{
    if s.len() == 0 {
        0
    } else {
        count_unseen(s.drop_last(), seen) + if seen.contains(s.last().0@) {
            0int
        } else {
            1int
        }
    }
}

/// The unseen count is nonnegative.
proof fn lemma_count_unseen_nonneg(s: Seq<(Cid, Vec<u8>)>, seen: Set<CidV>)
    ensures
        count_unseen(s, seen) >= 0,
    decreases s.len(),
{
    if s.len() > 0 {
        lemma_count_unseen_nonneg(s.drop_last(), seen);
    }
}

/// Marking a stored identifier seen lowers the unseen count; marking any
/// other identifier leaves it unchanged.
proof fn lemma_count_unseen_insert(s: Seq<(Cid, Vec<u8>)>, seen: Set<CidV>, c: CidV)
    requires
        !seen.contains(c),
    ensures
        al_get(s, c) is Some ==> count_unseen(s, seen.insert(c)) < count_unseen(s, seen),
        al_get(s, c) is None ==> count_unseen(s, seen.insert(c)) == count_unseen(s, seen),
    decreases s.len(),
{
    if s.len() > 0 {
        lemma_count_unseen_insert(s.drop_last(), seen, c);
        lemma_count_unseen_nonneg(s.drop_last(), seen.insert(c));
        if s.last().0@ != c {
            lemma_count_unseen_mono(s.drop_last(), seen, c);
        }
    }
}

/// Marking one more identifier seen never raises the unseen count.
proof fn lemma_count_unseen_mono(s: Seq<(Cid, Vec<u8>)>, seen: Set<CidV>, c: CidV)
    ensures
        count_unseen(s, seen.insert(c)) <= count_unseen(s, seen),
    decreases s.len(),
{
    if s.len() > 0 {
        lemma_count_unseen_mono(s.drop_last(), seen, c);
    }
}

impl MemStore {
    /// The number of stored blocks whose identifier is outside the set.
    pub closed spec fn unseen_blocks(&self, seen: Set<CidV>) -> int {
        count_unseen(self.inner.blocks_view(), seen)
    }

    /// The unseen count is nonnegative.
    pub proof fn lemma_unseen_nonneg(&self, seen: Set<CidV>)
        ensures
            self.unseen_blocks(seen) >= 0,
    {
        lemma_count_unseen_nonneg(self.inner.blocks_view(), seen);
    }

    /// Marking a stored identifier seen lowers the unseen count; marking
    /// any other identifier leaves it unchanged.
    pub proof fn lemma_unseen_insert(&self, seen: Set<CidV>, c: CidV)
        requires
            !seen.contains(c),
        ensures
            self.has_block(c) ==> self.unseen_blocks(seen.insert(c)) < self.unseen_blocks(seen),
            !self.has_block(c) ==> self.unseen_blocks(seen.insert(c)) == self.unseen_blocks(
                seen,
            ),
    {
        lemma_count_unseen_insert(self.inner.blocks_view(), seen, c);
    }

    /// Returns a copy of the links recorded for a stored block, or
    /// reports that no block is stored under the identifier.
    pub fn refs_list(&self, cid: &Cid) -> (r: Option<Vec<Cid>>)
        requires
            self.wf(),
        ensures
            match r {
                Some(v) => self.has_block(cid@) && cids_unique(v@) && cid_set(v@) == self.refs_of(
                    cid@,
                ),
                None => !self.has_block(cid@),
            },
    {
        self.inner.refs_list_inner(cid)
    }
}

impl InnerStore {
    /// The stored block list, for counting.
    pub closed spec fn blocks_view(&self) -> Seq<(Cid, Vec<u8>)> {
        self.blocks@
    }

    /// Returns a copy of the links recorded for a stored block.
    fn refs_list_inner(&self, cid: &Cid) -> (r: Option<Vec<Cid>>)
        requires
            self.inv(),
        ensures
            match r {
                Some(v) => self.has_block(cid@) && cids_unique(v@) && cid_set(v@) == self.refs_of(
                    cid@,
                ),
                None => !self.has_block(cid@),
            },
    {
        match al_find(&self.refs, cid) {
            Some(i) => {
                proof {
                    lemma_al_get_index(self.refs@, i as int);
                    lemma_al_get_some_index(self.refs@, cid@);
                }
                let src = &self.refs[i].1;
                let n: usize = src.len();
                let mut out: Vec<Cid> = Vec::new();
                let mut k: usize = 0;
                while k < n
                    invariant
                        n == src@.len(),
                        k <= n,
                        out@.len() == k,
                        forall|j: int| 0 <= j < k ==> out@[j]@ == (#[trigger] src@[j])@,
                    decreases n - k,
                {
                    out.push(src[k].clone());
                    k += 1;
                }
                proof {
                    assert forall|d: CidV| #[trigger]
                        cid_set(out@).contains(d) == cid_set(src@).contains(d) by {
                        if cid_set(out@).contains(d) {
                            let j = choose|j: int| 0 <= j < out@.len() && out@[j]@ == d;
                            assert(src@[j]@ == d);
                        }
                        if cid_set(src@).contains(d) {
                            let j = choose|j: int| 0 <= j < src@.len() && src@[j]@ == d;
                            assert(out@[j]@ == d);
                        }
                    }
                    assert(cid_set(out@) =~= cid_set(src@));
                    assert(al_get(self.blocks@, cid@) is Some);
                    assert(cids_unique(self.refs@[i as int].1@));
                    assert forall|a: int, b: int|
                        0 <= a < b < out@.len() implies out@[a]@ != out@[b]@ by {
                        assert(src@[a]@ != src@[b]@);
                    }
                    assert(self.refs_of(cid@) == cid_set(src@));
                }
                Some(out)
            },
            None => {
                proof {
                    lemma_al_get_absent(self.refs@, cid@);
                }
                None
            },
        }
    }
}

} // verus!
