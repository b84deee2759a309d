use vstd::prelude::*;

use crate::block::Block;
use crate::checksum::{checksum, crc32c_of, new_id};
use crate::erasure::{
    agrees, all_len, codeword, count_present, opt_views, present_len, rs_encode, rs_reconstruct,
    rs_reconstructed, somes, valid_code, views,
};
use crate::error::{RedundantFileError, VolumeError};
use crate::volume::Volume;

verus! {

/// One window of a file, encoded into `chunk_n` data and `parity_n` parity
/// shards of `block_size` bytes each.
#[derive(Debug)]
pub struct Chunk {
    pub id: u128,
    /// Index of the window in its file.
    pub position: u32,
    /// Number of data shards (k).
    pub chunk_n: usize,
    /// Number of parity shards (m).
    pub parity_n: usize,
    /// Number of meaningful bytes in the window.
    pub chunk_size: usize,
    /// Length of every shard payload.
    pub block_size: usize,
    /// Block ids, indexed by shard position.
    pub blocks: Vec<u128>,
    /// Checksum of the window's bytes before encoding.
    pub hash: u32,
}

/// Parameters a chunk can be encoded with: a usable code, nonempty shards,
/// and all shards together addressable in memory.
pub open spec fn valid_params(k: nat, m: nat, block_size: nat) -> bool {
    valid_code(k, m) && block_size >= 1 && (k + m) * block_size <= usize::MAX
}

/// The `k` data shards of window `w`: its bytes laid out in order over `k`
/// shards of `len` bytes, zero-padded at the end.
pub open spec fn data_shards(w: Seq<u8>, k: nat, len: nat) -> Seq<Seq<u8>> {
    Seq::new(
        k,
        |i: int|
            Seq::new(
                len,
                |j: int|
                    if i * len + j < w.len() {
                        w[i * len + j]
                    } else {
                        0u8
                    },
            ),
    )
}

/// All `k + m` shards of window `w`.
pub open spec fn encoded_window(k: nat, m: nat, len: nat, w: Seq<u8>) -> Seq<Seq<u8>> {
    codeword(k, m, data_shards(w, k, len))
}

/// The first `size` bytes of the concatenation of `shards`, each `len`
/// bytes long.
pub open spec fn window_from(shards: Seq<Seq<u8>>, len: nat, size: nat) -> Seq<u8> {
    Seq::new(size, |t: int| shards[t / len as int][t % len as int])
}

/// Byte `s` of the concatenated shards of `shards`, each `len` bytes long.
pub open spec fn flat_at(shards: Seq<Option<Vec<u8>>>, len: usize, s: int) -> u8 {
    match shards[s / len as int] {
        Some(x) => x@[s % len as int],
        None => 0u8,
    }
}

proof fn lemma_index_in_shard(t: int, k: int, len: int)
    requires
        0 <= t < k * len,
        len >= 1,
    ensures
        0 <= t / len < k,
        0 <= t % len < len,
        (t / len) * len + t % len == t,
{
    vstd::arithmetic::div_mod::lemma_fundamental_div_mod(t, len);
    vstd::arithmetic::div_mod::lemma_mod_bound(t, len);
    vstd::arithmetic::div_mod::lemma_div_pos_is_pos(t, len);
    if t / len >= k {
        vstd::arithmetic::mul::lemma_mul_inequality(k, t / len, len);
        assert(len * (t / len) >= k * len) by (nonlinear_arith)
            requires
                t / len >= k,
                len >= 1,
        ;
    }
    assert((t / len) * len == len * (t / len)) by (nonlinear_arith);
}

impl Chunk {
    /// The parameters are usable and the window fits the data shards.
    pub open spec fn params_ok(&self) -> bool {
        &&& valid_params(self.chunk_n as nat, self.parity_n as nat, self.block_size as nat)
        &&& self.chunk_size <= self.chunk_n * self.block_size
        &&& self.blocks@.len() == self.chunk_n + self.parity_n
    }

    /// The chunk describes window `w`: its length and its checksum.
    pub open spec fn records_window(&self, w: Seq<u8>) -> bool {
        self.chunk_size == w.len() && self.hash == crc32c_of(w)
    }

    /// The window the decoder rebuilds from the slots `sv`: the first
    /// `chunk_size` bytes of the data shards it reconstructs.
    pub open spec fn decoded(&self, sv: Seq<Option<Seq<u8>>>) -> Seq<u8> {
        window_from(
            rs_reconstructed(self.chunk_n as nat, self.parity_n as nat, sv),
            self.block_size as nat,
            self.chunk_size as nat,
        )
    }

    /// What decoding the slots `sv` gives once at least `chunk_n` shards are
    /// usable: the rebuilt window if its checksum is the recorded one, else
    /// `HashMismatch(position, its checksum, recorded checksum)`.
    pub open spec fn decode_outcome(&self, sv: Seq<Option<Seq<u8>>>) -> Result<
        Seq<u8>,
        RedundantFileError,
    > {
        let v = self.decoded(sv);
        if crc32c_of(v) == self.hash {
            Ok(v)
        } else {
            Err(RedundantFileError::HashMismatch(self.position, crc32c_of(v), self.hash))
        }
    }

    /// `after` and `r` are what rebuilding this chunk from the blocks `bm`
    /// and appending it to `before` gives: on failure nothing is appended;
    /// unusable parameters give `InvalidParameters` and fewer than `chunk_n`
    /// usable shards `TooManyErasures`; otherwise the decoding outcome, its
    /// window appended on success. In particular a store that restores `w`
    /// appends exactly `w`.
    pub open spec fn appended(
        &self,
        bm: Map<u128, Block>,
        before: Seq<u8>,
        after: Seq<u8>,
        r: Result<(), VolumeError>,
    ) -> bool {
        &&& r is Err ==> after == before
        &&& r is Ok ==> self.params_ok() && count_present(self.store_shards(bm)) >= self.chunk_n
        &&& r is Ok ==> after.len() == before.len() + self.chunk_size && self.records_window(
            after.skip(before.len() as int),
        )
        &&& !self.params_ok() ==> r == Err::<(), _>(
            VolumeError::File(RedundantFileError::InvalidParameters),
        )
        &&& self.params_ok() && count_present(self.store_shards(bm)) < self.chunk_n ==> r == Err::<
            (),
            _,
        >(VolumeError::File(RedundantFileError::TooManyErasures))
        &&& self.params_ok() && count_present(self.store_shards(bm)) >= self.chunk_n ==> match self.decode_outcome(
            self.store_shards(bm),
        ) {
            Ok(v) => r is Ok && after == before + v,
            Err(e) => r == Err::<(), _>(VolumeError::File(e)),
        }
        &&& forall|w: Seq<u8>| #[trigger]
            self.restores(bm, w) ==> (r is Ok && after == before + w)
    }

    /// The shards the chunk's window encodes to.
    pub open spec fn encoding_of(&self, w: Seq<u8>) -> Seq<Seq<u8>> {
        encoded_window(self.chunk_n as nat, self.parity_n as nat, self.block_size as nat, w)
    }

    /// What the decoder takes from the block `ob` found for slot `i`: its
    /// payload if it is there, is intact, carries the id recorded for the
    /// slot and has the shard length; an erasure otherwise.
    pub open spec fn shard_view(&self, ob: Option<&Block>, i: int) -> Option<Seq<u8>> {
        match ob {
            Some(b) => self.block_view(*b, i),
            None => None,
        }
    }

    pub open spec fn block_view(&self, b: Block, i: int) -> Option<Seq<u8>> {
        if b.is_intact() && b.id == self.blocks@[i] && b.data@.len() == self.block_size {
            Some(b.data@)
        } else {
            None
        }
    }

    /// What the decoder takes from a store whose blocks are `bm`, slot by
    /// slot.
    pub open spec fn store_shards(&self, bm: Map<u128, Block>) -> Seq<Option<Seq<u8>>> {
        Seq::new(
            self.blocks@.len(),
            |i: int|
                if bm.contains_key(self.blocks@[i]) {
                    self.block_view(bm[self.blocks@[i]], i)
                } else {
                    None
                },
        )
    }

    /// The store's blocks `bm` let this chunk rebuild window `w`: the chunk
    /// is well formed and records `w`, and at least `chunk_n` slots hold
    /// usable shards, all of them shards of the encoding of `w`.
    pub open spec fn restores(&self, bm: Map<u128, Block>, w: Seq<u8>) -> bool {
        &&& self.params_ok()
        &&& self.records_window(w)
        &&& count_present(self.store_shards(bm)) >= self.chunk_n
        &&& agrees(self.store_shards(bm), self.encoding_of(w))
    }

    pub open spec fn shard_views(&self, bs: Seq<Option<&Block>>) -> Seq<Option<Seq<u8>>> {
        Seq::new(bs.len(), |i: int| self.shard_view(bs[i], i))
    }

    /// `bs` are the blocks of an encoding of `w` by this chunk: one per slot,
    /// carrying the slot's id and position, the slot's shard, and its
    /// checksum.
    pub open spec fn holds_blocks(&self, bs: Seq<Block>, w: Seq<u8>) -> bool {
        &&& bs.len() == self.chunk_n + self.parity_n
        &&& forall|i: int|
            0 <= i < bs.len() ==> {
                &&& (#[trigger] bs[i]).id == self.blocks@[i]
                &&& bs[i].id != 0
                &&& bs[i].position == i
                &&& bs[i].data@ == self.encoding_of(w)[i]
                &&& bs[i].data@.len() == self.block_size
                &&& bs[i].crc == crc32c_of(bs[i].data@)
            }
    }

    /// Encodes `window` as the chunk at `position`, with `k` data and `m`
    /// parity shards of `block_size` bytes. Fails with `InvalidParameters`
    /// exactly when the parameters are unusable or the window does not fit
    /// in the data shards.
    pub fn build(window: &[u8], position: u32, k: usize, m: usize, block_size: usize) -> (r:
        Result<(Chunk, Vec<Block>), RedundantFileError>)
        ensures
            r is Err <==> !(valid_params(k as nat, m as nat, block_size as nat) && window@.len() <= k
                * block_size),
            r matches Err(e) ==> e == RedundantFileError::InvalidParameters,
            r matches Ok((c, bs)) ==> {
                &&& c.id != 0
                &&& c.position == position
                &&& c.chunk_n == k
                &&& c.parity_n == m
                &&& c.block_size == block_size
                &&& c.params_ok()
                &&& c.records_window(window@)
                &&& c.holds_blocks(bs@, window@)
            },
    {
        if k == 0 || m == 0 || k > 256 || m > 256 || k + m > 256 || block_size == 0 {
            return Err(RedundantFileError::InvalidParameters);
        }
        let n: usize = k + m;
        if block_size > usize::MAX / n {
            proof {
                assert(n * block_size > usize::MAX) by (nonlinear_arith)
                    requires
                        block_size > usize::MAX / n,
                        n >= 1,
                ;
            }
            return Err(RedundantFileError::InvalidParameters);
        }
        proof {
            assert(n * block_size <= usize::MAX) by (nonlinear_arith)
                requires
                    block_size <= usize::MAX / n,
                    n >= 1,
            ;
            assert(k * block_size <= n * block_size) by (nonlinear_arith)
                requires
                    k <= n,
            ;
        }
        let data_len: usize = k * block_size;
        if window.len() > data_len {
            return Err(RedundantFileError::InvalidParameters);
        }
        let ghost w = window@;
        let ghost data = data_shards(w, k as nat, block_size as nat);
        let hash = checksum(window);
        let mut shards: Vec<Vec<u8>> = Vec::new();
        let mut i: usize = 0;
        while i < n
            invariant
                i <= n,
                n == k + m,
                1 <= k <= n,
                block_size >= 1,
                k * block_size == data_len,
                n * block_size <= usize::MAX,
                window@ == w,
                data == data_shards(w, k as nat, block_size as nat),
                shards@.len() == i,
                forall|t: int| 0 <= t < i ==> (#[trigger] shards@[t])@.len() == block_size,
                forall|t: int| 0 <= t < i && t < k ==> (#[trigger] shards@[t])@ == data[t],
            decreases n - i,
        {
            proof {
                assert(i * block_size + block_size <= n * block_size) by (nonlinear_arith)
                    requires
                        i < n,
                ;
            }
            let base: usize = i * block_size;
            let mut s: Vec<u8> = Vec::new();
            let mut j: usize = 0;
            while j < block_size
                invariant
                    i < n,
                    base == i * block_size,
                    base + block_size <= usize::MAX,
                    window@ == w,
                    j <= block_size,
                    s@.len() == j,
                    forall|t: int|
                        0 <= t < j ==> #[trigger] s@[t] == (if i < k && base + t < w.len() {
                            w[base + t]
                        } else {
                            0u8
                        }),
                decreases block_size - j,
            {
                if i < k && base + j < window.len() {
                    s.push(window[base + j]);
                } else {
                    s.push(0u8);
                }
                j = j + 1;
            }
            proof {
                if i < k {
                    assert(s@ =~= data[i as int]);
                }
            }
            shards.push(s);
            i = i + 1;
        }
        proof {
            assert(views(shards@).take(k as int) =~= data);
            assert(all_len(views(shards@), shards@[0]@.len()));
        }
        rs_encode(k, m, &mut shards);
        let ghost enc = views(shards@);
        assert(enc == codeword(k as nat, m as nat, data));
        assert(forall|t: int| 0 <= t < n ==> (#[trigger] enc[t]).len() == block_size);
        let mut ids: Vec<u128> = Vec::new();
        let mut blocks: Vec<Block> = Vec::new();
        let mut p: usize = 0;
        while p < n
            invariant
                p <= n,
                n == k + m,
                shards@.len() == n - p,
                forall|t: int| 0 <= t < n - p ==> (#[trigger] shards@[t])@ == enc[p + t],
                forall|t: int| 0 <= t < n ==> (#[trigger] enc[t]).len() == block_size,
                ids@.len() == p,
                blocks@.len() == p,
                forall|t: int|
                    0 <= t < p ==> {
                        &&& (#[trigger] blocks@[t]).id == ids@[t]
                        &&& blocks@[t].id != 0
                        &&& blocks@[t].position == t
                        &&& blocks@[t].data@ == enc[t]
                &&& blocks@[t].data@.len() == block_size
                        &&& blocks@[t].crc == crc32c_of(blocks@[t].data@)
                    },
            decreases n - p,
        {
            let d = shards.remove(0);
            let crc = checksum(d.as_slice());
            let id = new_id();
            ids.push(id);
            blocks.push(Block { id, position: p, data: d, crc });
            p = p + 1;
        }
        let c = Chunk {
            id: new_id(),
            position,
            chunk_n: k,
            parity_n: m,
            chunk_size: window.len(),
            block_size,
            blocks: ids,
            hash,
        };
        Ok((c, blocks))
    }

    /// Rebuilds the window from `blocks`, the block found for each shard slot
    /// (`None` where none was). Blocks that are not intact, carry another id
    /// or have the wrong length count as erased.
    pub fn rebuild_data(&self, blocks: &Vec<Option<&Block>>) -> (r: Result<Vec<u8>, RedundantFileError>)
        ensures
            r == Err::<Vec<u8>, _>(RedundantFileError::InvalidParameters) <==> !(self.params_ok()
                && blocks@.len() == self.chunk_n + self.parity_n),
            self.params_ok() && blocks@.len() == self.chunk_n + self.parity_n && count_present(
                self.shard_views(blocks@),
            ) < self.chunk_n ==> r == Err::<Vec<u8>, _>(RedundantFileError::TooManyErasures),
            self.params_ok() && blocks@.len() == self.chunk_n + self.parity_n && count_present(
                self.shard_views(blocks@),
            ) >= self.chunk_n ==> match self.decode_outcome(self.shard_views(blocks@)) {
                Ok(v) => r matches Ok(x) && x@ == v,
                Err(e) => r == Err::<Vec<u8>, _>(e),
            },
            r matches Ok(v) ==> self.records_window(v@),
            r matches Err(RedundantFileError::HashMismatch(p, c, e)) ==> p == self.position && e
                == self.hash && c != e,
            self.params_ok() && blocks@.len() == self.chunk_n + self.parity_n && count_present(
                self.shard_views(blocks@),
            ) >= self.chunk_n ==> forall|w: Seq<u8>|
                #[trigger] self.records_window(w) && agrees(
                    self.shard_views(blocks@),
                    self.encoding_of(w),
                ) ==> (r matches Ok(v) && v@ == w),
    {
        let k = self.chunk_n;
        let m = self.parity_n;
        let len = self.block_size;
        if k == 0 || m == 0 || k > 256 || m > 256 || k + m > 256 || len == 0 {
            return Err(RedundantFileError::InvalidParameters);
        }
        let n: usize = k + m;
        if len > usize::MAX / n {
            proof {
                assert(n * len > usize::MAX) by (nonlinear_arith)
                    requires
                        len > usize::MAX / n,
                        n >= 1,
                ;
            }
            return Err(RedundantFileError::InvalidParameters);
        }
        proof {
            assert(n * len <= usize::MAX) by (nonlinear_arith)
                requires
                    len <= usize::MAX / n,
                    n >= 1,
            ;
            assert(k * len <= n * len) by (nonlinear_arith)
                requires
                    k <= n,
            ;
        }
        if self.chunk_size > k * len || self.blocks.len() != n || blocks.len() != n {
            return Err(RedundantFileError::InvalidParameters);
        }
        let ghost sv = self.shard_views(blocks@);
        let mut shards: Vec<Option<Vec<u8>>> = Vec::new();
        let mut present: usize = 0;
        let mut i: usize = 0;
        while i < n
            invariant
                i <= n,
                n == k + m,
                k == self.chunk_n,
                len == self.block_size,
                self.blocks@.len() == n,
                blocks@.len() == n,
                sv == self.shard_views(blocks@),
                shards@.len() == i,
                opt_views(shards@) == sv.take(i as int),
                present == count_present(sv.take(i as int)),
                present <= i,
            decreases n - i,
        {
            let mut slot: Option<Vec<u8>> = None;
            match blocks[i] {
                Some(b) => {
                    if b.id == self.blocks[i] {
                        match b.inner_data_as_vec() {
                            Some(d) => {
                                if d.len() == len {
                                    slot = Some(d);
                                }
                            },
                            None => {},
                        }
                    }
                },
                None => {},
            }
            proof {
                assert(sv.take(i + 1).drop_last() =~= sv.take(i as int));
            }
            if slot.is_some() {
                present = present + 1;
            }
            shards.push(slot);
            i = i + 1;
            assert(opt_views(shards@) =~= sv.take(i as int));
        }
        assert(sv.take(n as int) =~= sv);
        if present < k {
            return Err(RedundantFileError::TooManyErasures);
        }
        let ghost before = shards@;
        assert(present_len(opt_views(shards@), len as nat));
        match rs_reconstruct(k, m, len, &mut shards) {
            Ok(()) => {},
            Err(_) => {
                return Err(RedundantFileError::TooManyErasures);
            },
        }
        let size = self.chunk_size;
        let mut out: Vec<u8> = Vec::new();
        let mut t: usize = 0;
        while t < size
            invariant
                t <= size,
                size == self.chunk_size,
                size <= k * len,
                len >= 1,
                shards@.len() == n,
                n == k + m,
                forall|q: int|
                    0 <= q < n ==> ((#[trigger] shards@[q]) matches Some(x) && x@.len() == len),
                out@.len() == t,
                forall|s: int| 0 <= s < t ==> #[trigger] out@[s] == flat_at(shards@, len, s),
            decreases size - t,
        {
            proof {
                lemma_index_in_shard(t as int, k as int, len as int);
            }
            let q = t / len;
            let o = t % len;
            let byte = match &shards[q] {
                Some(x) => x[o],
                None => 0u8,
            };
            out.push(byte);
            t = t + 1;
        }
        let ghost fin = shards@;
        let ghost rec = rs_reconstructed(k as nat, m as nat, sv);
        proof {
            assert(opt_views(fin) == somes(rec));
            assert(rec.len() == somes(rec).len());
            assert(rec.len() == n);
            assert forall|s: int| 0 <= s < size implies out@[s] == window_from(
                rec,
                len as nat,
                size as nat,
            )[s] by {
                lemma_index_in_shard(s, k as int, len as int);
                let q = s / len as int;
                assert(q < n);
                assert(somes(rec)[q] == Some(rec[q]));
                assert(opt_views(fin)[q] == Some(rec[q]));
            }
            assert(out@ =~= self.decoded(sv));
        }
        let computed = checksum(out.as_slice());
        proof {
            assert forall|w: Seq<u8>|
                #[trigger] self.records_window(w) && agrees(sv, self.encoding_of(w)) implies out@
                == w && computed == self.hash by {
                let data = data_shards(w, k as nat, len as nat);
                assert(all_len(data, len as nat));
                assert(opt_views(fin) == somes(codeword(k as nat, m as nat, data)));
                assert forall|s: int| 0 <= s < w.len() implies out@[s] == w[s] by {
                    lemma_index_in_shard(s, k as int, len as int);
                    let q = s / len as int;
                    let o = s % len as int;
                    assert(opt_views(fin)[q] == Some(codeword(k as nat, m as nat, data)[q]));
                    assert(q * len + o == s);
                }
                assert(out@ =~= w);
            }
        }
        if computed != self.hash {
            return Err(RedundantFileError::HashMismatch(self.position, computed, self.hash));
        }
        Ok(out)
    }

    /// Rebuilds this chunk's window from the blocks of `data_manager` and
    /// appends it to `writer`; on failure `writer` is left as it was.
    pub fn inner_rebuild<T: Volume>(&self, data_manager: &T, writer: &mut Vec<u8>) -> (r: Result<
        (),
        VolumeError,
    >)
        ensures
            self.appended(data_manager.block_map(), old(writer)@, final(writer)@, r),
    {
        let ghost bm = data_manager.block_map();
        let n = self.blocks.len();
        let mut found: Vec<Option<&Block>> = Vec::new();
        let mut i: usize = 0;
        while i < n
            invariant
                i <= n,
                n == self.blocks@.len(),
                bm == data_manager.block_map(),
                found@.len() == i,
                self.shard_views(found@) == self.store_shards(bm).take(i as int),
            decreases n - i,
        {
            match data_manager.get_block(self.blocks[i]) {
                Ok(b) => {
                    found.push(Some(b));
                },
                Err(_) => {
                    found.push(None);
                },
            }
            i = i + 1;
            assert(self.shard_views(found@) =~= self.store_shards(bm).take(i as int));
        }
        assert(self.store_shards(bm).take(n as int) =~= self.store_shards(bm));
        match self.rebuild_data(&found) {
            Ok(v) => {
                let ghost before = writer@;
                let ghost window = v@;
                let mut v = v;
                writer.append(&mut v);
                assert(writer@ == before + window);
                assert(writer@.skip(before.len() as int) =~= window);
                Ok(())
            },
            Err(e) => Err(VolumeError::File(e)),
        }
    }

    /// Resolves chunk `id` through `data_manager`, rebuilds its window and
    /// appends it to `writer`; on failure `writer` is left as it was.
    pub fn rebuild<T: Volume>(id: u128, data_manager: &T, writer: &mut Vec<u8>) -> (r: Result<
        (),
        VolumeError,
    >)
        ensures
            !data_manager.chunk_map().contains_key(id) ==> r == Err::<(), _>(
                VolumeError::NoDataFound,
            ) && final(writer)@ == old(writer)@,
            data_manager.chunk_map().contains_key(id) ==> data_manager.chunk_map()[id].appended(
                data_manager.block_map(),
                old(writer)@,
                final(writer)@,
                r,
            ),
    {
        let chunk = data_manager.get_chunk(id)?;
        chunk.inner_rebuild(data_manager, writer)
    }

    /// A chunk with no shards and the sentinel id.
    pub fn empty() -> (r: Chunk)
        ensures
            r.id == 0,
            r.position == 0,
            r.chunk_n == 0,
            r.parity_n == 0,
            r.chunk_size == 0,
            r.block_size == 0,
            r.blocks@ == Seq::<u128>::empty(),
            r.hash == 0,
    {
        Chunk {
            id: 0,
            position: 0,
            chunk_n: 0,
            parity_n: 0,
            chunk_size: 0,
            block_size: 0,
            blocks: Vec::new(),
            hash: 0,
        }
    }
}

} // verus!

verus! {

/// Number of `true` entries.
pub open spec fn count_true(s: Seq<bool>) -> nat
    decreases s.len(),
{
    if s.len() == 0 {
        0
    } else {
        count_true(s.drop_last()) + if s.last() {
            1nat
        } else {
            0nat
        }
    }
}

proof fn lemma_count_at_least(s: Seq<Option<Seq<u8>>>, kept: Seq<bool>)
    requires
        s.len() == kept.len(),
        forall|i: int| 0 <= i < s.len() && #[trigger] kept[i] ==> s[i] is Some,
    ensures
        count_present(s) >= count_true(kept),
    decreases s.len(),
{
    if s.len() > 0 {
        lemma_count_at_least(s.drop_last(), kept.drop_last());
    }
}

proof fn lemma_count_at_most(s: Seq<Option<Seq<u8>>>, kept: Seq<bool>)
    requires
        s.len() == kept.len(),
        forall|i: int| 0 <= i < s.len() && !#[trigger] kept[i] ==> s[i] is None,
    ensures
        count_present(s) <= count_true(kept),
    decreases s.len(),
{
    if s.len() > 0 {
        lemma_count_at_most(s.drop_last(), kept.drop_last());
    }
}

/// Erasure tolerance: take the blocks `bs` of an encoding of window `w`
/// and hand the decoder, slot by slot, either the block itself (where
/// `kept` holds) or anything that fails the decoder's checks: nothing, a
/// block whose checksum no longer matches, a block of another slot. If at
/// most `parity_n` slots are not kept, the decoder sees at least `chunk_n`
/// shards, all of them shards of the encoding of `w`, so `rebuild_data`
/// returns `w`.
pub proof fn lemma_erasure_tolerance(
    c: Chunk,
    w: Seq<u8>,
    bs: Seq<Block>,
    given: Seq<Option<&Block>>,
    kept: Seq<bool>,
)
    requires
        c.params_ok(),
        c.records_window(w),
        c.holds_blocks(bs, w),
        given.len() == bs.len(),
        kept.len() == bs.len(),
        forall|i: int|
            0 <= i < kept.len() && #[trigger] kept[i] ==> (given[i] matches Some(b) && *b
                == bs[i]),
        forall|i: int| 0 <= i < kept.len() && !#[trigger] kept[i] ==> c.shard_view(given[i], i) is None,
        kept.len() - count_true(kept) <= c.parity_n,
    ensures
        count_present(c.shard_views(given)) >= c.chunk_n,
        agrees(c.shard_views(given), c.encoding_of(w)),
{
    let sv = c.shard_views(given);
    assert forall|i: int| 0 <= i < sv.len() && #[trigger] kept[i] implies sv[i] is Some by {
        assert(bs[i].is_intact());
    }
    lemma_count_at_least(sv, kept);
    assert forall|i: int| 0 <= i < sv.len() implies (#[trigger] sv[i] matches Some(x) ==> x
        == c.encoding_of(w)[i]) by {
        if kept[i] {
            assert(bs[i].data@ == c.encoding_of(w)[i]);
        }
    }
}

/// Erasure budget boundary: when `parity_n + 1` of the `chunk_n +
/// parity_n` slots fail the decoder's checks (withheld or corrupted), fewer
/// than `chunk_n` shards remain, so `rebuild_data` fails with
/// `TooManyErasures`, whichever slots they are.
pub proof fn lemma_erasure_boundary(c: Chunk, given: Seq<Option<&Block>>, kept: Seq<bool>)
    requires
        c.params_ok(),
        given.len() == c.chunk_n + c.parity_n,
        kept.len() == given.len(),
        forall|i: int| 0 <= i < kept.len() && !#[trigger] kept[i] ==> c.shard_view(given[i], i) is None,
        kept.len() - count_true(kept) == c.parity_n + 1,
    ensures
        count_present(c.shard_views(given)) < c.chunk_n,
{
    lemma_count_at_most(c.shard_views(given), kept);
}

} // verus!
