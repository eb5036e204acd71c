//! Transactions and the typed write-through cache over a store.
use vstd::prelude::*;

use crate::block::{create_cbor_block, decode_ipld, ipld_of, Block, MAX_BLOCK_SIZE};
use crate::cbor::{enc, encodable};
use crate::cid::{Cid, CidV, DAG_CBOR, SHA2_256};
use crate::error::{BlockError, StoreError};
use crate::ipld::Ipld;
use crate::mem::{count_cid, lemma_count_cid_bounds, MemStore};

verus! {

/// A transaction: staged create, pin and unpin intents, applied to a
/// store atomically at commit, together with the decoded values staged
/// for the cache.
pub struct Transaction {
    codec: u64,
    hash: u64,
    creates: Vec<Block>,
    pins: Vec<Cid>,
    unpins: Vec<Cid>,
    cache: Vec<(Cid, Ipld)>,
}

impl Transaction {
    /// The staged blocks, in insertion order.
    pub closed spec fn creates_view(&self) -> Seq<Block> {
        self.creates@
    }

    /// The staged pin intents.
    pub closed spec fn pins_view(&self) -> Seq<Cid> {
        self.pins@
    }

    /// The staged unpin intents.
    pub closed spec fn unpins_view(&self) -> Seq<Cid> {
        self.unpins@
    }

    /// The staged cache entries.
    pub closed spec fn cache_view(&self) -> Seq<(Cid, Ipld)> {
        self.cache@
    }

    /// An empty transaction for the given codec and digest function.
    pub fn new(codec: u64, hash: u64) -> (r: Transaction)
        ensures
            r.creates_view() == Seq::<Block>::empty(),
            r.pins_view() == Seq::<Cid>::empty(),
            r.unpins_view() == Seq::<Cid>::empty(),
            r.cache_view() == Seq::<(Cid, Ipld)>::empty(),
    {
        Transaction {
            codec,
            hash,
            creates: Vec::new(),
            pins: Vec::new(),
            unpins: Vec::new(),
            cache: Vec::new(),
        }
    }

    /// An empty transaction with room reserved for `capacity` staged
    /// operations.
    pub fn with_capacity(codec: u64, hash: u64, capacity: usize) -> (r: Transaction)
        ensures
            r.creates_view() == Seq::<Block>::empty(),
            r.pins_view() == Seq::<Cid>::empty(),
            r.unpins_view() == Seq::<Cid>::empty(),
            r.cache_view() == Seq::<(Cid, Ipld)>::empty(),
    {
        Transaction {
            codec,
            hash,
            creates: Vec::with_capacity(capacity),
            pins: Vec::with_capacity(capacity),
            unpins: Vec::with_capacity(capacity),
            cache: Vec::with_capacity(capacity),
        }
    }

    /// Encodes a value under the canonical CBOR codec, stages the block
    /// and the decoded value, and returns the identifier so later inserts
    /// of the same transaction can link to it.
    pub fn insert(&mut self, value: Ipld) -> (r: Result<Cid, BlockError>)
        ensures
            final(self).pins_view() == old(self).pins_view(),
            final(self).unpins_view() == old(self).unpins_view(),
            match r {
                Ok(cid) => {
                    &&& encodable(value@)
                    &&& cid@ == (CidV {
                        version: 1,
                        codec: DAG_CBOR,
                        hash_code: SHA2_256,
                        digest: crate::block::sha256_of(enc(value@)),
                    })
                    &&& final(self).creates_view().len() == old(self).creates_view().len() + 1
                    &&& final(self).creates_view().last().cid@ == cid@
                    &&& final(self).creates_view().last().data@ == enc(value@)
                    &&& forall|i: int|
                        0 <= i < old(self).creates_view().len() ==> final(self).creates_view()[i]
                            == old(self).creates_view()[i]
                    &&& final(self).cache_view().len() == old(self).cache_view().len() + 1
                    &&& final(self).cache_view().last().0@ == cid@
                    &&& final(self).cache_view().last().1@ == value@
                    &&& forall|i: int|
                        0 <= i < old(self).cache_view().len() ==> final(self).cache_view()[i]
                            == old(self).cache_view()[i]
                },
                Err(_) => {
                    &&& (!encodable(value@) || enc(value@).len() > MAX_BLOCK_SIZE)
                    &&& final(self).creates_view() == old(self).creates_view()
                    &&& final(self).cache_view() == old(self).cache_view()
                },
            },
    {
        let block = match create_cbor_block(&value) {
            Ok(b) => b,
            Err(e) => {
                return Err(e);
            },
        };
        let cid = block.cid.clone();
        self.creates.push(block);
        self.cache.push((cid.clone(), value));
        Ok(cid)
    }

    /// Stages a pin of an identifier.
    pub fn pin(&mut self, cid: &Cid)
        ensures
            final(self).pins_view().len() == old(self).pins_view().len() + 1,
            final(self).pins_view().last()@ == cid@,
            forall|i: int|
                0 <= i < old(self).pins_view().len() ==> final(self).pins_view()[i] == old(
                    self,
                ).pins_view()[i],
            final(self).creates_view() == old(self).creates_view(),
            final(self).unpins_view() == old(self).unpins_view(),
            final(self).cache_view() == old(self).cache_view(),
    {
        self.pins.push(cid.clone());
    }

    /// Stages an unpin of an identifier.
    pub fn unpin(&mut self, cid: &Cid)
        ensures
            final(self).unpins_view().len() == old(self).unpins_view().len() + 1,
            final(self).unpins_view().last()@ == cid@,
            forall|i: int|
                0 <= i < old(self).unpins_view().len() ==> final(self).unpins_view()[i] == old(
                    self,
                ).unpins_view()[i],
            final(self).creates_view() == old(self).creates_view(),
            final(self).pins_view() == old(self).pins_view(),
            final(self).cache_view() == old(self).cache_view(),
    {
        self.unpins.push(cid.clone());
    }

    /// Stages an update: the new identifier is pinned and the old one, if
    /// any, unpinned.
    pub fn update(&mut self, old_cid: Option<&Cid>, new_cid: &Cid)
        ensures
            final(self).pins_view().len() == old(self).pins_view().len() + 1,
            final(self).pins_view().last()@ == new_cid@,
            match old_cid {
                Some(oc) => final(self).unpins_view().len() == old(self).unpins_view().len() + 1
                    && final(self).unpins_view().last()@ == oc@,
                None => final(self).unpins_view() == old(self).unpins_view(),
            },
            final(self).creates_view() == old(self).creates_view(),
            final(self).cache_view() == old(self).cache_view(),
    {
        self.pins.push(new_cid.clone());
        if let Some(oc) = old_cid {
            self.unpins.push(oc.clone());
        }
    }
}

/// Whether every cached entry whose block is still stored equals the
/// decoding of that block.
pub open spec fn cache_coherent(store: MemStore, entries: Seq<(Cid, Ipld)>) -> bool {
    forall|i: int|
        0 <= i < entries.len() ==> match store.block_of((#[trigger] entries[i]).0@) {
            Some(d) => ipld_of(entries[i].0@, d) == Some(entries[i].1@),
            None => true,
        }
}

/// A size-bounded cache of decoded values over a store. A read consults
/// the store for the block's presence and serves the decoded value from
/// the cache when it holds one.
pub struct IpldCache {
    store: MemStore,
    codec: u64,
    hash: u64,
    capacity: usize,
    entries: Vec<(Cid, Ipld)>,
}

impl IpldCache {
    /// The underlying store.
    pub closed spec fn store_view(&self) -> MemStore {
        self.store
    }

    /// Well-formedness: the store is well formed, the cache holds at most
    /// its capacity, and every cached value whose block is still stored
    /// equals that block's decoding.
    pub closed spec fn wf(&self) -> bool {
        &&& self.store.wf()
        &&& self.entries@.len() <= self.capacity
        &&& cache_coherent(self.store, self.entries@)
    }

    /// A cache of the given capacity over a store.
    pub fn new(store: MemStore, codec: u64, hash: u64, size: usize) -> (r: IpldCache)
        requires
            store.wf(),
        ensures
            r.wf(),
            r.store_view() == store,
    {
        IpldCache { store, codec, hash, capacity: size, entries: Vec::new() }
    }

    /// A fresh transaction for this cache's codec and digest function.
    pub fn transaction(&self) -> (r: Transaction)
        ensures
            r.creates_view() == Seq::<Block>::empty(),
            r.pins_view() == Seq::<Cid>::empty(),
            r.unpins_view() == Seq::<Cid>::empty(),
            r.cache_view() == Seq::<(Cid, Ipld)>::empty(),
    {
        Transaction::new(self.codec, self.hash)
    }

    /// A fresh transaction with reserved room.
    pub fn transaction_with_capacity(&self, capacity: usize) -> (r: Transaction)
        ensures
            r.creates_view() == Seq::<Block>::empty(),
            r.pins_view() == Seq::<Cid>::empty(),
            r.unpins_view() == Seq::<Cid>::empty(),
            r.cache_view() == Seq::<(Cid, Ipld)>::empty(),
    {
        Transaction::with_capacity(self.codec, self.hash, capacity)
    }

    /// Stores a decoded value in the cache, evicting the oldest entry when
    /// the cache is full.
    fn cache_put(&mut self, cid: &Cid, value: Ipld)
        requires
            old(self).wf(),
            match old(self).store_view().block_of(cid@) {
                Some(d) => ipld_of(cid@, d) == Some(value@),
                None => true,
            },
        ensures
            final(self).wf(),
            final(self).store_view() == old(self).store_view(),
    {
        if self.capacity == 0 {
            return ;
        }
        if self.entries.len() >= self.capacity {
            let ghost pre = self.entries@;
            self.entries.remove(0);
            proof {
                assert forall|i: int|
                    0 <= i < self.entries@.len() implies match self.store.block_of(
                    (#[trigger] self.entries@[i]).0@) {
                    Some(d) => ipld_of(self.entries@[i].0@, d) == Some(self.entries@[i].1@),
                    None => true,
                } by {
                    assert(self.entries@[i] == pre[i + 1]);
                }
            }
        }
        self.entries.push((cid.clone(), value));
    }

    /// Returns the decoded value of a stored block: the store decides
    /// presence, the cache supplies the decoded value when it holds one,
    /// and a freshly decoded value fills the cache.
    pub fn get(&mut self, cid: &Cid) -> (r: Result<Ipld, StoreError>)
        requires
            old(self).wf(),
        ensures
            final(self).wf(),
            final(self).store_view() == old(self).store_view(),
            match r {
                Ok(v) => (match old(self).store_view().block_of(cid@) {
                    Some(d) => ipld_of(cid@, d) == Some(v@),
                    None => false,
                }),
                Err(e) => match e {
                    StoreError::BlockNotFound(c2) => c2@ == cid@ && old(self).store_view().block_of(
                        cid@,
                    ) is None,
                    StoreError::Block(_) => (match old(self).store_view().block_of(cid@) {
                        Some(d) => ipld_of(cid@, d) is None,
                        None => false,
                    }),
                    _ => false,
                },
            },
    {
        let data = match self.store.get(cid) {
            Ok(d) => d,
            Err(e) => {
                return Err(e);
            },
        };
        let n: usize = self.entries.len();
        let mut i: usize = 0;
        while i < n
            invariant
                self.wf(),
                n == self.entries@.len(),
                i <= n,
                self.store.block_of(cid@) == Some(data@),
            decreases n - i,
        {
            if self.entries[i].0.equals(cid) {
                return Ok(self.entries[i].1.clone());
            }
            i += 1;
        }
        let value = match decode_ipld(cid, &data) {
            Ok(v) => v,
            Err(e) => {
                return Err(StoreError::Block(e));
            },
        };
        let out = value.clone();
        self.cache_put(cid, value);
        Ok(out)
    }

    /// Drops one pin of an identifier in the store; a removed block is no
    /// longer served because a read asks the store first.
    pub fn unpin(&mut self, cid: &Cid) -> (r: Result<(), StoreError>)
        requires
            old(self).wf(),
        ensures
            final(self).wf(),
            r is Ok,
            old(self).store_view().pins_of(cid@) > old(self).store_view().alias_count(cid@)
                ==> final(self).store_view().pins_of(cid@) == old(self).store_view().pins_of(cid@)
                - 1,
            old(self).store_view().pins_of(cid@) <= old(self).store_view().alias_count(cid@)
                ==> final(self).store_view().pins_of(cid@) == old(self).store_view().pins_of(
                cid@,
            ),
    {
        let ghost pre = self.store;
        let r = self.store.unpin(cid);
        proof {
            assert forall|i: int|
                0 <= i < self.entries@.len() implies match self.store.block_of(
                (#[trigger] self.entries@[i]).0@) {
                Some(d) => ipld_of(self.entries@[i].0@, d) == Some(self.entries@[i].1@),
                None => true,
            } by {
                if self.store.has_block(self.entries@[i].0@) {
                    assert(self.store.block_of(self.entries@[i].0@) == pre.block_of(
                        self.entries@[i].0@,
                    ));
                }
            }
        }
        r
    }

    /// Applies a transaction to the store: the staged blocks are stored
    /// atomically, then the staged pins and unpins applied, and the cache
    /// filled with the decodings of the stored blocks, so a read of a
    /// committed identifier is served. A transaction whose staged bytes do
    /// not decode is rejected whole with the store unchanged.
    #[verifier::loop_isolation(false)]
    #[verifier::rlimit(100)]
    #[verifier::spinoff_prover]
    pub fn commit(&mut self, tx: Transaction) -> (r: Result<(), StoreError>)
        requires
            old(self).wf(),
            old(self).store_view().block_count() + tx.creates_view().len() <= usize::MAX,
            forall|i: int|
                0 <= i < tx.pins_view().len() ==> old(self).store_view().pins_of(
                    (#[trigger] tx.pins_view()[i])@,
                ) + tx.pins_view().len() <= usize::MAX,
        ensures
            final(self).wf(),
            forall|n2: Seq<u8>| #[trigger]
                final(self).store_view().alias_of(n2) == old(self).store_view().alias_of(n2),
            r is Ok <==> (tx.creates_view().len() == 0 || forall|i: int|
                0 <= i < tx.creates_view().len() ==> #[trigger] crate::mem::ms_blk_ok(
                    old(self).store_view(),
                    tx.creates_view(),
                    i,
                )),
            r matches Err(e) ==> (e matches StoreError::Block(_)) && crate::mem::ms_same_state(
                old(self).store_view(),
                final(self).store_view(),
            ),
            r is Ok && tx.unpins_view().len() == 0 ==> forall|i: int|
                0 <= i < tx.creates_view().len() ==> final(self).store_view().has_block(
                    (#[trigger] tx.creates_view()[i]).cid@,
                ),
            r is Ok ==> forall|i: int|
                0 <= i < tx.creates_view().len() && final(self).store_view().retained(
                    tx.creates_view()[i].cid@,
                ) ==> final(self).store_view().has_block((#[trigger] tx.creates_view()[i]).cid@),
            r is Ok ==> forall|i: int|
                0 <= i < tx.creates_view().len() && !old(self).store_view().has_block(
                    tx.creates_view()[i].cid@,
                ) && !crate::mem::earlier_occurrence(tx.creates_view(), i) && final(self).store_view().has_block(tx.creates_view()[i].cid@) ==> final(self).store_view().block_of((#[trigger] tx.creates_view()[i]).cid@) == Some(
                    tx.creates_view()[i].data@,
                ) && ipld_of(tx.creates_view()[i].cid@, tx.creates_view()[i].data@) is Some,
            r is Ok ==> forall|d: CidV| #[trigger]
                final(self).store_view().pins_of(d) <= old(self).store_view().pins_of(d)
                    + count_cid(tx.pins_view(), d),
            r is Ok ==> forall|d: CidV| #[trigger]
                final(self).store_view().pins_of(d) >= old(self).store_view().pins_of(d)
                    + count_cid(tx.pins_view(), d) - count_cid(tx.unpins_view(), d),
    {
        let ghost txc = tx.creates_view();
        let ghost txp = tx.pins_view();
        let ghost txu = tx.unpins_view();
        proof {
            assert forall|i: int|
                0 <= i < txp.len() implies old(self).store_view().pins_of((#[trigger] txp[i])@)
                + txp.len() <= usize::MAX by {
                assert(txp[i] == tx.pins_view()[i]);
            }
        }
        let Transaction { codec: _, hash: _, creates, pins, unpins, cache: staged } = tx;
        let ghost pv = pins@;
        let ghost uv = unpins@;
        if creates.len() > 0 {
            let ghost cv = creates@;
            match self.store.insert_batch(creates) {
                Ok(_) => {},
                Err(e) => {
                    proof {
                        assert(cv.len() > 0);
                        assert(cv == txc);
                    }
                    return Err(e);
                },
            }
        }
        let ghost after_batch = self.store;
        self.entries.clear();
        let np: usize = pins.len();
        let mut i: usize = 0;
        proof {
            assert forall|d: CidV| #[trigger]
                count_cid(pv.take(0), d) == 0 by {
                assert(pv.take(0) =~= Seq::<Cid>::empty());
            }
        }
        while i < np
            invariant
                self.store.wf(),
                np == pv.len(),
                pins@ == pv,
                i <= np,
                forall|n2: Seq<u8>| #[trigger]
                    self.store.alias_of(n2) == old(self).store_view().alias_of(n2),
                forall|d: CidV| #[trigger]
                    self.store.alias_count(d) == old(self).store_view().alias_count(d),
                forall|d: CidV| #[trigger]
                    self.store.pins_of(d) == after_batch.pins_of(d) + count_cid(
                        pv.take(i as int),
                        d,
                    ),
                forall|d: CidV| #[trigger] self.store.block_of(d) == after_batch.block_of(d),
                forall|d: CidV| #[trigger] self.store.refs_of(d) == after_batch.refs_of(d),
                forall|d: CidV| #[trigger]
                    self.store.referers_of(d) == after_batch.referers_of(d),
                self.entries@.len() == 0,
            decreases np - i,
        {
            proof {
                lemma_count_cid_bounds(pv.take(i as int), pv[i as int]@);
                assert(pv[i as int] == txp[i as int]);
                assert(after_batch.pins_of(pv[i as int]@) == old(self).store_view().pins_of(
                    pv[i as int]@,
                ));
                assert(self.store.pins_of(pv[i as int]@) < usize::MAX);
            }
            let ghost before = self.store;
            self.store.pin(&pins[i]);
            proof {
                assert forall|d: CidV| #[trigger]
                    self.store.pins_of(d) == after_batch.pins_of(d) + count_cid(
                        pv.take(i as int + 1),
                        d,
                    ) by {
                    assert(pv.take(i as int + 1).drop_last() =~= pv.take(i as int));
                    assert(pv.take(i as int + 1).last() == pv[i as int]);
                    if d != pv[i as int]@ {
                        assert(self.store.pins_of(d) == before.pins_of(d));
                    }
                }
            }
            i += 1;
        }
        proof {
            assert(pv.take(np as int) =~= pv);
        }
        let ghost after_pins = self.store;
        let nu: usize = unpins.len();
        let mut j: usize = 0;
        proof {
            assert forall|d: CidV| #[trigger]
                count_cid(uv.take(0), d) == 0 by {
                assert(uv.take(0) =~= Seq::<Cid>::empty());
            }
        }
        while j < nu
            invariant
                self.store.wf(),
                nu == uv.len(),
                unpins@ == uv,
                j <= nu,
                forall|n2: Seq<u8>| #[trigger]
                    self.store.alias_of(n2) == old(self).store_view().alias_of(n2),
                forall|d: CidV| #[trigger]
                    self.store.pins_of(d) <= after_pins.pins_of(d),
                forall|d: CidV| #[trigger]
                    self.store.pins_of(d) >= after_pins.pins_of(d) - count_cid(
                        uv.take(j as int),
                        d,
                    ),
                forall|d: CidV| #[trigger]
                    self.store.has_block(d) ==> after_pins.has_block(d) && self.store.block_of(d)
                        == after_pins.block_of(d),
                forall|d: CidV| #[trigger]
                    self.store.referers_of(d) <= after_pins.referers_of(d),
                forall|d: CidV| #[trigger]
                    self.store.retained(d) ==> self.store.has_block(d) == after_pins.has_block(d),
                j == 0 ==> self.store == after_pins,
                self.entries@.len() == 0,
            decreases nu - j,
        {
            let ghost before = self.store;
            let _ = self.store.unpin(&unpins[j]);
            proof {
                assert forall|d: CidV| #[trigger]
                    self.store.retained(d) implies self.store.has_block(d)
                    == after_pins.has_block(d) by {
                    assert(self.store.pins_of(d) <= before.pins_of(d));
                    assert(self.store.referers_of(d) <= before.referers_of(d));
                    assert(before.retained(d));
                    assert(self.store.has_block(d) == before.has_block(d));
                }
            }
            proof {
                assert forall|d: CidV| #[trigger]
                    self.store.pins_of(d) >= after_pins.pins_of(d) - count_cid(
                        uv.take(j as int + 1),
                        d,
                    ) by {
                    assert(uv.take(j as int + 1).drop_last() =~= uv.take(j as int));
                    assert(uv.take(j as int + 1).last() == uv[j as int]);
                    lemma_count_cid_bounds(uv.take(j as int), d);
                    if d != uv[j as int]@ {
                        assert(self.store.pins_of(d) == before.pins_of(d));
                    } else {
                        assert(self.store.pins_of(d) >= before.pins_of(d) - 1);
                    }
                }
                assert forall|d: CidV| #[trigger]
                    self.store.pins_of(d) <= after_pins.pins_of(d) by {
                    if d != uv[j as int]@ {
                        assert(self.store.pins_of(d) == before.pins_of(d));
                    } else {
                        assert(self.store.pins_of(d) <= before.pins_of(d));
                    }
                }
            }
            j += 1;
        }
        proof {
            assert(uv.take(nu as int) =~= uv);
        }
        let ns: usize = staged.len();
        let mut k: usize = 0;
        let ghost post_store = self.store;
        while k < ns
            invariant
                self.wf(),
                self.store == post_store,
                ns == staged@.len(),
                k <= ns,
            decreases ns - k,
        {
            let c = staged[k].0.clone();
            let got = self.store.get(&c);
            match got {
                Ok(d) => {
                    match decode_ipld(&c, &d) {
                        Ok(v) => {
                            self.cache_put(&c, v);
                        },
                        Err(_) => {},
                    }
                },
                Err(_) => {},
            }
            k += 1;
        }
        proof {
            if uv.len() == 0 {
                assert(post_store == after_pins);
                assert forall|i2: int|
                    0 <= i2 < txc.len() implies final(self).store_view().has_block(
                    (#[trigger] txc[i2]).cid@) by {
                    assert(after_batch.has_block(txc[i2].cid@));
                    assert(after_pins.has_block(txc[i2].cid@));
                }
            }
            assert forall|i2: int|
                0 <= i2 < txc.len() && final(self).store_view().retained(txc[i2].cid@) implies
                final(self).store_view().has_block((#[trigger] txc[i2]).cid@) by {
                assert(after_batch.has_block(txc[i2].cid@));
                assert(after_pins.has_block(txc[i2].cid@));
                assert(post_store.retained(txc[i2].cid@));
                assert(post_store.has_block(txc[i2].cid@) == after_pins.has_block(txc[i2].cid@));
            }
        }
        Ok(())
    }
}

} // verus!
