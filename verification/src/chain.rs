//! The node's view of the canonical chain: block header hashes and the
//! serialized block behind each, by height.
//!
//! Hashing and validating blocks is the consensus collaborator's work;
//! here a block is its 32-byte header hash and its opaque bytes.

use vstd::prelude::*;

use crate::codec::copy_range;
use crate::message::BlockHeaderHash;
use crate::MAX_BLOCK_SYNC_COUNT;

verus! {

/// One block of the canonical chain.
#[derive(Clone, Debug)]
pub struct BlockRecord {
    /// The hash of the block's header.
    pub hash: BlockHeaderHash,
    /// The serialized block.
    pub bytes: Vec<u8>,
}

/// The canonical chain, genesis first.
#[derive(Clone, Debug)]
pub struct ChainState {
    blocks: Vec<BlockRecord>,
}

/// The height limit: a height, and the block count, travel as `u32`s
/// on the wire.
pub open spec fn max_chain_len() -> int {
    0xffffffff
}

/// A well-formed chain has a genesis block and fits the height limit.
pub proof fn lemma_chain_bounds(c: ChainState)
    requires
        c.wf(),
    ensures
        1 <= c.spec_blocks().len() <= max_chain_len(),
{
}

impl ChainState {
    /// The chain's blocks, genesis first.
    pub closed spec fn spec_blocks(self) -> Seq<BlockRecord> {
        self.blocks@
    }

    /// The chain's height: the number of blocks above genesis.
    pub open spec fn spec_height(self) -> int {
        self.spec_blocks().len() - 1
    }

    /// The header hash at the given height.
    pub open spec fn spec_hash_at(self, h: int) -> Seq<u8> {
        self.spec_blocks()[h].hash@
    }

    /// Whether some block of the chain has the given header hash.
    pub open spec fn spec_contains_hash(self, hh: Seq<u8>) -> bool {
        exists|i: int|
            0 <= i < self.spec_blocks().len() && (#[trigger] self.spec_blocks()[i]).hash@ == hh
    }

    /// The height of the block with the given header hash.
    pub open spec fn spec_height_of(self, hh: Seq<u8>) -> int {
        choose|i: int|
            0 <= i < self.spec_blocks().len() && (#[trigger] self.spec_blocks()[i]).hash@ == hh
    }

    /// The chain's invariant: a genesis block exists, heights fit a
    /// `u32`, every hash has its 32 bytes, and no hash repeats.
    pub closed spec fn wf(self) -> bool {
        &&& self.blocks@.len() >= 1
        &&& self.blocks@.len() <= max_chain_len()
        &&& forall|i: int| 0 <= i < self.blocks@.len() ==> (#[trigger] self.blocks@[i]).hash.wf()
        &&& forall|i: int, j: int|
            0 <= i < j < self.blocks@.len() ==> (#[trigger] self.blocks@[i]).hash@ != (
            #[trigger] self.blocks@[j]).hash@
    }

    /// A chain holding only the given genesis block.
    pub fn new(genesis_hash: BlockHeaderHash, genesis_bytes: Vec<u8>) -> (r: ChainState)
        requires
            genesis_hash.wf(),
        ensures
            r.wf(),
            r.spec_height() == 0,
            r.spec_blocks().len() == 1,
            r.spec_hash_at(0) == genesis_hash@,
            r.spec_blocks()[0].bytes@ == genesis_bytes@,
    {
        let mut blocks: Vec<BlockRecord> = Vec::new();
        blocks.push(BlockRecord { hash: genesis_hash, bytes: genesis_bytes });
        ChainState { blocks }
    }

    /// The height of the chain tip.
    pub fn get_current_block_height(&self) -> (r: u32)
        requires
            self.wf(),
        ensures
            r == self.spec_height(),
    {
        (self.blocks.len() - 1) as u32
    }

    /// The header hash at the given height, if the chain reaches it.
    pub fn get_block_hash(&self, height: u32) -> (r: Option<BlockHeaderHash>)
        requires
            self.wf(),
        ensures
            r is Some <==> height <= self.spec_height(),
            r is Some ==> r->0@ == self.spec_hash_at(height as int) && r->0.wf(),
    {
        if (height as usize) < self.blocks.len() {
            let bytes = copy_range(&self.blocks[height as usize].hash.0, 0, self.blocks[height as usize].hash.0.len());
            Some(BlockHeaderHash(bytes))
        } else {
            None
        }
    }

    /// The height of the block with the given header hash, if any.
    pub fn get_block_number(&self, hash: &BlockHeaderHash) -> (r: Option<u32>)
        requires
            self.wf(),
        ensures
            r is Some <==> self.spec_contains_hash(hash@),
            r is Some ==> 0 <= r->0 < self.spec_blocks().len() && self.spec_hash_at(r->0 as int)
                == hash@ && r->0 == self.spec_height_of(hash@),
    {
        let n = self.blocks.len();
        let mut i: usize = 0;
        while i < n
            invariant
                self.wf(),
                n == self.spec_blocks().len(),
                0 <= i <= n,
                forall|j: int| 0 <= j < i ==> (#[trigger] self.spec_blocks()[j]).hash@ != hash@,
            decreases n - i,
        {
            if crate::message::hash_eq(&self.blocks[i].hash, hash) {
                proof {
                    let k = self.spec_height_of(hash@);
                    assert(self.spec_blocks()[i as int].hash@ == hash@);
                    assert(0 <= k < self.spec_blocks().len() && self.spec_blocks()[k].hash@
                        == hash@);
                    if k != i as int {
                        if k < i as int {
                            assert(self.spec_blocks()[k].hash@ != self.spec_blocks()[
                                i as int].hash@);
                        } else {
                            assert(self.spec_blocks()[i as int].hash@ != self.spec_blocks()[
                                k].hash@);
                        }
                    }
                }
                return Some(i as u32);
            }
            i = i + 1;
        }
        None
    }

    /// Whether the chain holds a block with the given header hash.
    pub fn block_hash_exists(&self, hash: &BlockHeaderHash) -> (r: bool)
        requires
            self.wf(),
        ensures
            r == self.spec_contains_hash(hash@),
    {
        self.get_block_number(hash).is_some()
    }

    /// The serialized block with the given header hash, if any.
    pub fn get_block(&self, hash: &BlockHeaderHash) -> (r: Option<Vec<u8>>)
        requires
            self.wf(),
        ensures
            r is Some <==> self.spec_contains_hash(hash@),
            r is Some ==> r->0@ == self.spec_blocks()[self.spec_height_of(hash@)].bytes@,
    {
        match self.get_block_number(hash) {
            Some(h) => {
                let b = &self.blocks[h as usize].bytes;
                Some(copy_range(b, 0, b.len()))
            },
            None => None,
        }
    }

    /// Appends a block at the tip, unless its hash is already present
    /// or the chain is at its height limit.
    pub fn insert_block(&mut self, hash: BlockHeaderHash, bytes: Vec<u8>)
        requires
            old(self).wf(),
            hash.wf(),
        ensures
            final(self).wf(),
            insert_block_rel(*old(self), *final(self), hash@, bytes@),
            old(self).spec_contains_hash(hash@) || old(self).spec_blocks().len()
                == max_chain_len() ==> final(self).spec_blocks() == old(self).spec_blocks(),
            !old(self).spec_contains_hash(hash@) && old(self).spec_blocks().len()
                < max_chain_len() ==> final(self).spec_blocks().len() == old(
                self,
            ).spec_blocks().len() + 1 && final(self).spec_blocks()[final(self).spec_height()].hash@
                == hash@ && final(self).spec_blocks()[final(self).spec_height()].bytes@ == bytes@
                && forall|i: int|
                0 <= i < old(self).spec_blocks().len() ==> #[trigger] final(self).spec_blocks()[i]
                    == old(self).spec_blocks()[i],
            final(self).spec_contains_hash(hash@) || old(self).spec_blocks().len()
                == max_chain_len(),
    {
        if self.block_hash_exists(&hash) {
            return ;
        }
        if self.blocks.len() as u64 >= 0xffffffffu64 {
            return ;
        }
        let ghost pre = self.blocks@;
        self.blocks.push(BlockRecord { hash, bytes });
        proof {
            let post = self.blocks@;
            assert(post[pre.len() as int].hash@ == hash@);
            assert forall|i: int| 0 <= i < post.len() implies (#[trigger] post[i]).hash.wf() by {
                if i < pre.len() {
                    assert(post[i] == pre[i]);
                }
            }
            assert forall|i: int, j: int|
                0 <= i < j < post.len() implies (#[trigger] post[i]).hash@ != (
            #[trigger] post[j]).hash@ by {
                if j < pre.len() {
                    assert(post[i] == pre[i] && post[j] == pre[j]);
                } else {
                    assert(post[i] == pre[i]);
                    if pre[i].hash@ == hash@ {
                        assert(old(self).spec_contains_hash(hash@));
                    }
                }
            }
        }
    }
}

/// How `insert_block` changes the chain: a new hash with room left is
/// appended at the tip, anything else leaves the chain alone.
pub open spec fn insert_block_rel(
    pre: ChainState,
    post: ChainState,
    hh: Seq<u8>,
    bytes: Seq<u8>,
) -> bool {
    if pre.spec_contains_hash(hh) || pre.spec_blocks().len() == max_chain_len() {
        post.spec_blocks() == pre.spec_blocks()
    } else {
        &&& post.spec_blocks().len() == pre.spec_blocks().len() + 1
        &&& post.spec_blocks()[post.spec_height()].hash@ == hh
        &&& post.spec_blocks()[post.spec_height()].bytes@ == bytes
        &&& forall|i: int|
            0 <= i < pre.spec_blocks().len() ==> #[trigger] post.spec_blocks()[i]
                == pre.spec_blocks()[i]
    }
}

/// The first hash of the locator that the chain holds, or the genesis
/// hash when none is shared.
pub open spec fn spec_latest_shared(chain: ChainState, loc: Seq<Seq<u8>>) -> Seq<u8>
    decreases loc.len(),
{
    if loc.len() == 0 {
        chain.spec_hash_at(0)
    } else if chain.spec_contains_hash(loc.first()) {
        loc.first()
    } else {
        spec_latest_shared(chain, loc.drop_first())
    }
}

/// The shared hash is always a hash of the chain.
pub proof fn lemma_latest_shared_in_chain(chain: ChainState, loc: Seq<Seq<u8>>)
    requires
        chain.wf(),
    ensures
        chain.spec_contains_hash(spec_latest_shared(chain, loc)),
    decreases loc.len(),
{
    if loc.len() == 0 {
        assert(chain.spec_blocks()[0].hash@ == chain.spec_hash_at(0));
    } else if chain.spec_contains_hash(loc.first()) {
    } else {
        lemma_latest_shared_in_chain(chain, loc.drop_first());
    }
}

/// Whether `hs` is the chain's answer to a locator whose shared height
/// is `h`: the hashes right above the shared block, in order, capped at
/// `MAX_BLOCK_SYNC_COUNT`.
pub open spec fn sync_response_ok(chain: ChainState, h: int, hs: Seq<BlockHeaderHash>) -> bool {
    let cap = if chain.spec_height() - h <= MAX_BLOCK_SYNC_COUNT as int {
        chain.spec_height() - h
    } else {
        MAX_BLOCK_SYNC_COUNT as int
    };
    &&& hs.len() == (if h < chain.spec_height() {
        cap
    } else {
        0int
    })
    &&& forall|i: int|
        #![trigger hs[i]]
        0 <= i < hs.len() ==> hs[i]@ == chain.spec_hash_at(h + 1 + i) && hs[i].wf()
}

impl ChainState {
    /// The first hash of the given block locator that this chain
    /// holds; the genesis hash when none is shared.
    pub fn get_latest_shared_hash(&self, locator: &Vec<BlockHeaderHash>) -> (r: BlockHeaderHash)
        requires
            self.wf(),
        ensures
            r@ == spec_latest_shared(*self, crate::message::hashes_view(locator@)),
            self.spec_contains_hash(r@),
            r.wf(),
    {
        let ghost loc = crate::message::hashes_view(locator@);
        proof {
            assert(loc.skip(0) =~= loc);
        }
        let n = locator.len();
        let mut i: usize = 0;
        while i < n
            invariant
                self.wf(),
                n == locator@.len(),
                loc == crate::message::hashes_view(locator@),
                0 <= i <= n,
                spec_latest_shared(*self, loc) == spec_latest_shared(*self, loc.skip(i as int)),
            decreases n - i,
        {
            proof {
                assert(loc.skip(i as int).len() == n - i);
                assert(loc.skip(i as int).first() == loc[i as int]);
                assert(loc[i as int] == locator@[i as int]@);
                assert(loc.skip(i as int).drop_first() =~= loc.skip(i + 1));
            }
            if self.block_hash_exists(&locator[i]) {
                let b = &locator[i].0;
                let bytes = copy_range(b, 0, b.len());
                proof {
                    lemma_latest_shared_in_chain(*self, loc);
                }
                return BlockHeaderHash(bytes);
            }
            i = i + 1;
        }
        proof {
            assert(loc.skip(n as int) =~= Seq::<Seq<u8>>::empty());
            lemma_latest_shared_in_chain(*self, loc);
        }
        let b = &self.blocks[0].hash.0;
        let bytes = copy_range(b, 0, b.len());
        proof {
            assert(bytes@ =~= self.spec_blocks()[0].hash@);
        }
        BlockHeaderHash(bytes)
    }

    /// The hashes to answer a `GetSync` with: those right above the
    /// first shared locator hash, at most `MAX_BLOCK_SYNC_COUNT` of
    /// them.
    pub fn sync_response_hashes(&self, locator: &Vec<BlockHeaderHash>) -> (r: Vec<BlockHeaderHash>)
        requires
            self.wf(),
        ensures
            sync_response_ok(
                *self,
                self.spec_height_of(
                    spec_latest_shared(*self, crate::message::hashes_view(locator@)),
                ),
                r@,
            ),
    {
        let shared = self.get_latest_shared_hash(locator);
        let h = match self.get_block_number(&shared) {
            Some(h) => h,
            None => 0,
        };
        let height = self.get_current_block_height();
        let mut out: Vec<BlockHeaderHash> = Vec::new();
        if h >= height {
            return out;
        }
        let span = height - h;
        let cap: u32 = if span <= MAX_BLOCK_SYNC_COUNT {
            span
        } else {
            MAX_BLOCK_SYNC_COUNT
        };
        let mut i: u32 = 0;
        while i < cap
            invariant
                self.wf(),
                h == self.spec_height_of(
                    spec_latest_shared(*self, crate::message::hashes_view(locator@)),
                ),
                0 <= h < height,
                height == self.spec_height(),
                cap == (if height - h <= MAX_BLOCK_SYNC_COUNT as int {
                    height - h
                } else {
                    MAX_BLOCK_SYNC_COUNT as int
                }),
                0 <= i <= cap,
                out@.len() == i,
                forall|j: int|
                    #![trigger out@[j]]
                    0 <= j < i ==> out@[j]@ == self.spec_hash_at(h + 1 + j) && out@[j].wf(),
            decreases cap - i,
        {
            let idx = h + 1 + i;
            let b = &self.blocks[idx as usize].hash.0;
            let bytes = copy_range(b, 0, b.len());
            out.push(BlockHeaderHash(bytes));
            i = i + 1;
        }
        out
    }
}

/// The locator offset at position `k`: dense for the first dozen, then
/// doubling gaps toward genesis.
pub open spec fn locator_offset(k: int) -> int
    decreases (if k <= 12 {
        0int
    } else {
        k
    }),
{
    if k <= 12 {
        k
    } else {
        2 * locator_offset(k - 1) - 10
    }
}

/// Locator offsets grow strictly.
pub proof fn lemma_locator_offset_increasing(k: int)
    requires
        k >= 0,
    ensures
        locator_offset(k + 1) > locator_offset(k),
        locator_offset(k) >= k,
    decreases k,
{
    if k > 0 {
        lemma_locator_offset_increasing(k - 1);
    }
}

/// Whether the first `k` locator entries are the hashes at the tip
/// minus each offset, every offset under the tip height.
pub open spec fn locator_prefix_ok(chain: ChainState, out: Seq<BlockHeaderHash>, k: int) -> bool {
    forall|i: int|
        #![trigger out[i]]
        #![trigger locator_offset(i)]
        0 <= i < k ==> locator_offset(i) < chain.spec_height() && out[i]@ == chain.spec_hash_at(
            chain.spec_height() - locator_offset(i),
        ) && out[i].wf()
}

/// Whether `hs` is the block locator of the chain: hashes at the tip
/// minus each offset while the offset stays under the tip height, and
/// the genesis hash at the end.
pub open spec fn is_locator_of(chain: ChainState, hs: Seq<BlockHeaderHash>) -> bool {
    let m = hs.len() - 1;
    &&& hs.len() >= 1
    &&& locator_prefix_ok(chain, hs, m)
    &&& hs[m]@ == chain.spec_hash_at(0)
    &&& hs[m].wf()
    &&& m == 0 || locator_offset(m) >= chain.spec_height()
}

/// A locator prefix is untouched by appending entries after it.
proof fn lemma_locator_prefix_push(
    chain: ChainState,
    o: Seq<BlockHeaderHash>,
    k: int,
    x: BlockHeaderHash,
)
    requires
        0 <= k <= o.len(),
        locator_prefix_ok(chain, o, k),
    ensures
        locator_prefix_ok(chain, o.push(x), k),
{
    let o2 = o.push(x);
    assert forall|i: int|
        0 <= i < k implies locator_offset(i) < chain.spec_height() && (#[trigger] o2[i])@
        == chain.spec_hash_at(chain.spec_height() - locator_offset(i)) && o2[i].wf() by {
        assert(o2[i] == o[i]);
        assert(locator_offset(i) < chain.spec_height() && o[i]@ == chain.spec_hash_at(
            chain.spec_height() - locator_offset(i),
        ) && o[i].wf());
    }
}

/// A locator prefix grows by one entry holding the hash at the next
/// offset.
proof fn lemma_locator_prefix_extend(chain: ChainState, o: Seq<BlockHeaderHash>, k: int)
    requires
        1 <= k <= o.len(),
        locator_prefix_ok(chain, o, k - 1),
        locator_offset(k - 1) < chain.spec_height(),
        o[k - 1]@ == chain.spec_hash_at(chain.spec_height() - locator_offset(k - 1)),
        o[k - 1].wf(),
    ensures
        locator_prefix_ok(chain, o, k),
{
    assert forall|i: int|
        0 <= i < k implies locator_offset(i) < chain.spec_height() && (#[trigger] o[i])@
        == chain.spec_hash_at(chain.spec_height() - locator_offset(i)) && o[i].wf() by {
        if i < k - 1 {
            assert(locator_offset(i) < chain.spec_height() && o[i]@ == chain.spec_hash_at(
                chain.spec_height() - locator_offset(i),
            ) && o[i].wf());
        }
    }
}

impl ChainState {
    /// The block locator of this chain: header hashes dense near the
    /// tip and geometrically thinning toward genesis, genesis last.
    pub fn get_block_locator_hashes(&self) -> (r: Vec<BlockHeaderHash>)
        requires
            self.wf(),
        ensures
            is_locator_of(*self, r@),
    {
        let height = self.get_current_block_height();
        let mut out: Vec<BlockHeaderHash> = Vec::new();
        let mut k: u64 = 0;
        let mut off: u64 = 0;
        while off < height as u64
            invariant
                self.wf(),
                height == self.spec_height(),
                0 <= off,
                off == locator_offset(k as int),
                k == out@.len(),
                k <= 12 ==> off == k,
                k > 12 ==> off > k,
                locator_prefix_ok(*self, out@, k as int),
            decreases height as int - k as int,
        {
            let h = height - (off as u32);
            let rec = &self.blocks[h as usize];
            let bytes = copy_range(&rec.hash.0, 0, rec.hash.0.len());
            let ghost old_out = out@;
            let h_new = BlockHeaderHash(bytes);
            out.push(h_new);
            proof {
                lemma_locator_offset_increasing(k as int);
                assert(out@ == old_out.push(h_new));
                lemma_locator_prefix_push(*self, old_out, k as int, h_new);
                assert(out@[k as int]@ == self.spec_hash_at(
                    self.spec_height() - locator_offset(k as int),
                ));
                assert(out@[k as int].wf());
                lemma_locator_prefix_extend(*self, out@, k as int + 1);
            }
            if k < 12 {
                off = off + 1;
            } else {
                off = 2 * off - 10;
            }
            k = k + 1;
        }
        let ghost old_out = out@;
        let rec = &self.blocks[0];
        let bytes = copy_range(&rec.hash.0, 0, rec.hash.0.len());
        let h_gen = BlockHeaderHash(bytes);
        out.push(h_gen);
        proof {
            assert(out@ == old_out.push(h_gen));
            lemma_locator_prefix_push(*self, old_out, k as int, h_gen);
            assert(out@.len() == k + 1);
            assert(out@[k as int]@ == self.spec_hash_at(0));
            assert(out@[k as int].wf());
            assert(k == 0 || locator_offset(k as int) >= self.spec_height());
        }
        out
    }
}

} // verus!
