use vstd::prelude::*;

use vstd::slice::slice_subrange;

use crate::block::Block;
use crate::checksum::new_id;
use crate::codec::{le_bytes, push_le};
use crate::chunk::{valid_params, Chunk};
use crate::constants::{FILENAME_SIZE, FIRST_INDIRECTION_SIZE};
use crate::erasure::{count_present, valid_code};
use crate::error::{RedundantFileError, VolumeError};
use crate::volume::Volume;

verus! {

/// A fixed-size array of chunk ids; 0 marks an empty slot.
pub struct ChunkIndirection {
    pub chunks: Vec<u128>,
}

/// A whole file: its id, its name field, and the ids of its chunks in
/// position order, `FIRST_INDIRECTION_SIZE` held directly and the rest in
/// `FIRST_INDIRECTION_SIZE` indirection blocks of that many ids each.
pub struct RedundantFile {
    pub id: u128,
    pub name: Vec<u8>,
    pub chunks_fi: ChunkIndirection,
    pub chunks_si: Vec<ChunkIndirection>,
}

/// Placeholder for a directory of files; it holds nothing yet.
pub struct Directory {}

/// Number of chunks a file record can address.
pub open spec fn capacity() -> nat {
    (FIRST_INDIRECTION_SIZE + FIRST_INDIRECTION_SIZE * FIRST_INDIRECTION_SIZE) as nat
}

/// Shard length for windows of `ws` bytes over `k` data shards.
pub open spec fn shard_len(ws: nat, k: nat) -> nat {
    if k == 0 {
        0
    } else {
        ((ws + k - 1) / k as int) as nat
    }
}

/// Number of windows of `ws` bytes needed for `len` bytes.
pub open spec fn chunk_count(len: nat, ws: nat) -> nat {
    if ws == 0 {
        0
    } else if len % ws == 0 {
        len / ws
    } else {
        len / ws + 1
    }
}

/// Window `p` of `b`: `ws` bytes from `p * ws`, shorter at the end.
pub open spec fn window_of(b: Seq<u8>, ws: nat, p: nat) -> Seq<u8> {
    let s = p * ws;
    let e = if s + ws <= b.len() {
        s + ws
    } else {
        b.len() as nat
    };
    b.subrange(s as int, e as int)
}

/// The windows `b` is cut into.
pub open spec fn split_windows(b: Seq<u8>, ws: nat) -> Seq<Seq<u8>> {
    Seq::new(chunk_count(b.len(), ws), |p: int| window_of(b, ws, p as nat))
}

/// The name field of a file record: the name's first `FILENAME_SIZE` bytes,
/// zero-padded.
pub open spec fn name_field(name: Seq<u8>) -> Seq<u8> {
    Seq::new(
        FILENAME_SIZE as nat,
        |i: int|
            if i < name.len() {
                name[i]
            } else {
                0u8
            },
    )
}

/// The concatenation of `ws` in order.
pub open spec fn concat_all(ws: Seq<Seq<u8>>) -> Seq<u8>
    decreases ws.len(),
{
    if ws.len() == 0 {
        Seq::empty()
    } else {
        concat_all(ws.drop_last()) + ws.last()
    }
}

/// Chunk `id` is in `cm`, well formed, and the blocks `bm` give it at
/// least `chunk_n` usable shards.
pub open spec fn decodable(cm: Map<u128, Chunk>, bm: Map<u128, Block>, id: u128) -> bool {
    &&& cm.contains_key(id)
    &&& cm[id].params_ok()
    &&& count_present(cm[id].store_shards(bm)) >= cm[id].chunk_n
}

/// The nonzero entries of `s`, in order.
pub open spec fn nonzero(s: Seq<u128>) -> Seq<u128>
    decreases s.len(),
{
    if s.len() == 0 {
        Seq::empty()
    } else if s.last() == 0 {
        nonzero(s.drop_last())
    } else {
        nonzero(s.drop_last()).push(s.last())
    }
}

proof fn lemma_nonzero_append(a: Seq<u128>, b: Seq<u128>)
    ensures
        nonzero(a + b) == nonzero(a) + nonzero(b),
    decreases b.len(),
{
    if b.len() == 0 {
        assert(a + b =~= a);
        assert(nonzero(a) + nonzero(b) =~= nonzero(a));
    } else {
        lemma_nonzero_append(a, b.drop_last());
        assert((a + b).drop_last() =~= a + b.drop_last());
        if b.last() == 0 {
        } else {
            assert(nonzero(a) + nonzero(b) =~= (nonzero(a) + nonzero(b.drop_last())).push(b.last()));
        }
    }
}

/// The encoding of a sequence of ids, 16 little-endian bytes each.
pub open spec fn ids_bytes(ids: Seq<u128>) -> Seq<u8>
    decreases ids.len(),
{
    if ids.len() == 0 {
        Seq::empty()
    } else {
        ids_bytes(ids.drop_last()) + le_bytes(ids.last() as nat, 16)
    }
}

proof fn lemma_ids_bytes_len(ids: Seq<u128>)
    ensures
        ids_bytes(ids).len() == 16 * ids.len(),
    decreases ids.len(),
{
    if ids.len() > 0 {
        lemma_ids_bytes_len(ids.drop_last());
    }
}

impl ChunkIndirection {
    /// The ids, in slot order.
    pub open spec fn ids(&self) -> Seq<u128> {
        self.chunks@
    }

    /// The block has exactly `FIRST_INDIRECTION_SIZE` slots.
    pub open spec fn wf(&self) -> bool {
        self.chunks@.len() == FIRST_INDIRECTION_SIZE
    }

    /// An indirection block with every slot empty.
    pub fn default() -> (r: ChunkIndirection)
        ensures
            r.wf(),
            r.ids() == Seq::new(FIRST_INDIRECTION_SIZE as nat, |i: int| 0u128),
    {
        let mut chunks: Vec<u128> = Vec::new();
        let mut i: usize = 0;
        while i < FIRST_INDIRECTION_SIZE
            invariant
                i <= FIRST_INDIRECTION_SIZE,
                chunks@ == Seq::new(i as nat, |t: int| 0u128),
            decreases FIRST_INDIRECTION_SIZE - i,
        {
            chunks.push(0u128);
            i = i + 1;
            assert(chunks@ =~= Seq::new(i as nat, |t: int| 0u128));
        }
        ChunkIndirection { chunks }
    }

    /// The ids as bytes, 16 little-endian bytes each, in slot order.
    pub fn to_bin_vec(&self) -> (r: Vec<u8>)
        ensures
            r@ == ids_bytes(self.ids()),
            self.wf() ==> r@.len() == 16 * FIRST_INDIRECTION_SIZE,
    {
        let mut out: Vec<u8> = Vec::new();
        let mut i: usize = 0;
        while i < self.chunks.len()
            invariant
                i <= self.chunks@.len(),
                out@ == ids_bytes(self.chunks@.take(i as int)),
            decreases self.chunks@.len() - i,
        {
            push_le(&mut out, self.chunks[i], 16);
            proof {
                assert(self.chunks@.take(i + 1).drop_last() =~= self.chunks@.take(i as int));
            }
            i = i + 1;
        }
        assert(self.chunks@.take(self.chunks@.len() as int) =~= self.chunks@);
        proof {
            lemma_ids_bytes_len(self.chunks@);
        }
        out
    }
}

impl RedundantFile {
    /// The record has its fixed shape.
    pub open spec fn wf(&self) -> bool {
        &&& self.name@.len() == FILENAME_SIZE
        &&& self.chunks_fi.wf()
        &&& self.chunks_si@.len() == FIRST_INDIRECTION_SIZE
        &&& forall|i: int| 0 <= i < FIRST_INDIRECTION_SIZE ==> (#[trigger] self.chunks_si@[i]).wf()
    }

    /// The chunk id at file position `p`: `chunks_fi[p]` for the first
    /// `FIRST_INDIRECTION_SIZE` positions, then `chunks_si[i][j]` for
    /// position `D + i * D + j`.
    pub open spec fn id_at(&self, p: int) -> u128 {
        let d = FIRST_INDIRECTION_SIZE as int;
        if p < d {
            self.chunks_fi.ids()[p]
        } else {
            self.chunks_si@[(p - d) / d].ids()[(p - d) % d]
        }
    }

    /// All chunk slots in position order.
    pub open spec fn slot_ids(&self) -> Seq<u128> {
        Seq::new(capacity(), |p: int| self.id_at(p))
    }

    /// The ids of the chunks the record references, in position order.
    pub open spec fn referenced(&self) -> Seq<u128> {
        nonzero(self.slot_ids())
    }

    /// `after` and `r` are what rebuilding this file from the chunks `cm`
    /// and blocks `bm` and appending it to `before` gives: on failure
    /// nothing is appended (no partial file); a malformed record is
    /// `Corrupt`; success means every referenced chunk was found and had
    /// enough usable shards; and a store that holds the windows `ws`
    /// appends exactly their concatenation.
    pub open spec fn rebuilt(
        &self,
        cm: Map<u128, Chunk>,
        bm: Map<u128, Block>,
        before: Seq<u8>,
        after: Seq<u8>,
        r: Result<(), VolumeError>,
    ) -> bool {
        &&& r is Err ==> after == before
        &&& !self.wf() ==> r == Err::<(), _>(VolumeError::Corrupt)
        &&& r is Ok ==> forall|j: int|
            0 <= j < self.referenced().len() ==> decodable(cm, bm, #[trigger] self.referenced()[j])
        &&& forall|ws: Seq<Seq<u8>>| #[trigger]
            self.store_holds(cm, bm, ws) ==> (r is Ok && after == before + concat_all(ws))
    }

    /// The store of maps `cm` and `bm` lets this file rebuild as the windows
    /// `ws`: one per referenced chunk, each of which the store restores.
    pub open spec fn store_holds(
        &self,
        cm: Map<u128, Chunk>,
        bm: Map<u128, Block>,
        ws: Seq<Seq<u8>>,
    ) -> bool {
        &&& self.wf()
        &&& self.referenced().len() == ws.len()
        &&& forall|j: int|
            0 <= j < ws.len() ==> cm.contains_key(#[trigger] self.referenced()[j]) && cm[self.referenced()[j]].restores(
                bm,
                ws[j],
            )
    }
}

/// What splitting `b` into windows of `ws` bytes with `k` data and `m`
/// parity shards per window produced: the file record `f`, one chunk per
/// window in position order, the blocks of each chunk, and the chunk ids in
/// the record's slots, with every later slot empty.
pub open spec fn split_result(
    b: Seq<u8>,
    ws: nat,
    k: nat,
    m: nat,
    name: Seq<u8>,
    f: RedundantFile,
    cs: Seq<Chunk>,
    bss: Seq<Seq<Block>>,
) -> bool {
    let wins = split_windows(b, ws);
    &&& f.wf()
    &&& f.id != 0
    &&& f.name@ == name_field(name)
    &&& cs.len() == wins.len()
    &&& cs.len() <= capacity()
    &&& bss.len() == wins.len()
    &&& forall|p: int|
        0 <= p < cs.len() ==> {
            &&& (#[trigger] cs[p]).id != 0
            &&& cs[p].position == p
            &&& cs[p].chunk_n == k
            &&& cs[p].parity_n == m
            &&& cs[p].block_size == shard_len(ws, k)
            &&& cs[p].params_ok()
            &&& cs[p].records_window(wins[p])
            &&& cs[p].holds_blocks(bss[p], wins[p])
            &&& f.id_at(p) == cs[p].id
        }
    &&& forall|p: int| cs.len() <= p < capacity() ==> f.id_at(p) == 0
}

/// The parameters `split` accepts.
pub open spec fn split_params_ok(ws: nat, k: nat, m: nat) -> bool {
    valid_code(k, m) && ws >= 1 && valid_params(k, m, shard_len(ws, k))
}

pub open spec fn block_views(bss: Seq<Vec<Block>>) -> Seq<Seq<Block>> {
    Seq::new(bss.len(), |i: int| bss[i]@)
}

proof fn lemma_window_start(len: nat, ws: nat, p: nat)
    requires
        ws >= 1,
        p < chunk_count(len, ws),
    ensures
        p * ws < len,
{
    vstd::arithmetic::div_mod::lemma_fundamental_div_mod(len as int, ws as int);
    let q = len / ws;
    let r = len % ws;
    assert(len == ws * q + r);
    if p < q {
        assert(p * ws + ws <= q * ws) by (nonlinear_arith)
            requires
                p < q,
        ;
        assert(q * ws == ws * q) by (nonlinear_arith);
    } else {
        assert(p == q && r > 0);
        assert(p * ws == ws * q) by (nonlinear_arith)
            requires
                p == q,
        ;
    }
}

proof fn lemma_shard_len(ws: nat, k: nat)
    requires
        k >= 1,
        ws >= 1,
    ensures
        ws <= k * shard_len(ws, k),
        shard_len(ws, k) >= 1,
{
    let t = (ws + k - 1) as int;
    vstd::arithmetic::div_mod::lemma_fundamental_div_mod(t, k as int);
    vstd::arithmetic::div_mod::lemma_mod_bound(t, k as int);
    let q = t / k as int;
    assert(t == k * q + t % k as int);
    assert(k * q >= ws) by (nonlinear_arith)
        requires
            t == k * q + t % k as int,
            t % k as int <= k - 1,
            t == ws + k - 1,
    ;
    assert(q >= 1) by (nonlinear_arith)
        requires
            k * q >= ws,
            ws >= 1,
            k >= 1,
    ;
}

impl RedundantFile {
    /// Whether the record has its fixed shape.
    pub fn is_wf(&self) -> (r: bool)
        ensures
            r == self.wf(),
    {
        let d = FIRST_INDIRECTION_SIZE;
        if self.name.len() != FILENAME_SIZE || self.chunks_fi.chunks.len() != d
            || self.chunks_si.len() != d {
            return false;
        }
        let mut i: usize = 0;
        while i < d
            invariant
                i <= d,
                d == FIRST_INDIRECTION_SIZE,
                self.chunks_si@.len() == d,
                forall|t: int| 0 <= t < i ==> (#[trigger] self.chunks_si@[t]).ids().len() == d,
            decreases d - i,
        {
            if self.chunks_si[i].chunks.len() != d {
                return false;
            }
            i = i + 1;
        }
        true
    }

    /// The chunk id at position `p`.
    fn slot(&self, p: usize) -> (r: u128)
        requires
            self.wf(),
            p < capacity(),
        ensures
            r == self.id_at(p as int),
    {
        let d = FIRST_INDIRECTION_SIZE;
        if p < d {
            self.chunks_fi.chunks[p]
        } else {
            self.chunks_si[(p - d) / d].chunks[(p - d) % d]
        }
    }

    /// The ids of the chunks the record references, in position order.
    pub fn referenced_ids(&self) -> (r: Vec<u128>)
        requires
            self.wf(),
        ensures
            r@ == self.referenced(),
    {
        let ghost ids = self.slot_ids();
        let d = FIRST_INDIRECTION_SIZE;
        let cap: usize = d + d * d;
        let mut out: Vec<u128> = Vec::new();
        let mut p: usize = 0;
        while p < cap
            invariant
                p <= cap,
                cap == capacity(),
                self.wf(),
                ids == self.slot_ids(),
                out@ == nonzero(ids.take(p as int)),
            decreases cap - p,
        {
            let id = self.slot(p);
            proof {
                assert(ids.take(p + 1).drop_last() =~= ids.take(p as int));
            }
            if id != 0 {
                out.push(id);
            }
            p = p + 1;
        }
        assert(ids.take(cap as int) =~= ids);
        out
    }

    /// Rebuilds the file from the chunks and blocks of `data_manager`,
    /// walking the record's slots in position order and skipping empty ones,
    /// and appends its bytes to `writer`. On any failure `writer` is left as
    /// it was: no partial file is written.
    pub fn inner_rebuild<T: Volume>(&self, data_manager: &T, writer: &mut Vec<u8>) -> (r: Result<
        (),
        VolumeError,
    >)
        ensures
            self.rebuilt(
                data_manager.chunk_map(),
                data_manager.block_map(),
                old(writer)@,
                final(writer)@,
                r,
            ),
    {
        if !self.is_wf() {
            return Err(VolumeError::Corrupt);
        }
        let ghost cm = data_manager.chunk_map();
        let ghost bm = data_manager.block_map();
        let ghost ids = self.slot_ids();
        let d = FIRST_INDIRECTION_SIZE;
        let cap: usize = d + d * d;
        let mut out: Vec<u8> = Vec::new();
        let mut p: usize = 0;
        while p < cap
            invariant
                p <= cap,
                cap == capacity(),
                self.wf(),
                ids == self.slot_ids(),
                cm == data_manager.chunk_map(),
                bm == data_manager.block_map(),
                forall|j: int|
                    0 <= j < nonzero(ids.take(p as int)).len() ==> decodable(
                        cm,
                        bm,
                        #[trigger] nonzero(ids.take(p as int))[j],
                    ),
                forall|ws: Seq<Seq<u8>>| #[trigger]
                    self.store_holds(cm, bm, ws) ==> out@ == concat_all(
                        ws.take(nonzero(ids.take(p as int)).len() as int),
                    ),
            decreases cap - p,
        {
            let id = self.slot(p);
            let ghost before = out@;
            let ghost done = nonzero(ids.take(p as int));
            proof {
                assert(ids.take(p + 1).drop_last() =~= ids.take(p as int));
                lemma_nonzero_append(ids.take(p as int), ids.skip(p as int));
                assert(ids.take(p as int) + ids.skip(p as int) =~= ids);
                lemma_nonzero_append(ids.take(p + 1), ids.skip(p + 1));
                assert(ids.take(p + 1) + ids.skip(p + 1) =~= ids);
            }
            if id != 0 {
                assert(nonzero(ids.take(p + 1)) == done.push(id));
                assert(self.referenced()[done.len() as int] == id);
                Chunk::rebuild(id, data_manager, &mut out)?;
                proof {
                    assert forall|ws: Seq<Seq<u8>>| #[trigger]
                        self.store_holds(cm, bm, ws) implies out@ == concat_all(
                        ws.take(done.len() + 1int),
                    ) by {
                        let j = done.len() as int;
                        assert(self.referenced()[j] == id);
                        assert(cm[id].restores(bm, ws[j]));
                        assert(ws.take(j + 1).drop_last() =~= ws.take(j));
                    }
                }
            } else {
                assert(nonzero(ids.take(p + 1)) == done);
            }
            p = p + 1;
        }
        proof {
            assert(ids.take(cap as int) =~= ids);
            assert forall|ws: Seq<Seq<u8>>| #[trigger]
                self.store_holds(cm, bm, ws) implies out@ == concat_all(ws) by {
                assert(ws.take(ws.len() as int) =~= ws);
            }
        }
        let ghost before = writer@;
        let ghost bytes = out@;
        writer.append(&mut out);
        assert(writer@ == before + bytes);
        Ok(())
    }

    /// Resolves file `id` through `data_manager`, rebuilds it and appends its
    /// bytes to `writer`; on failure `writer` is left as it was.
    pub fn rebuild<T: Volume>(id: u128, data_manager: &T, writer: &mut Vec<u8>) -> (r: Result<
        (),
        VolumeError,
    >)
        ensures
            !data_manager.file_map().contains_key(id) ==> r == Err::<(), _>(
                VolumeError::NoDataFound,
            ) && final(writer)@ == old(writer)@,
            data_manager.file_map().contains_key(id) ==> data_manager.file_map()[id].rebuilt(
                data_manager.chunk_map(),
                data_manager.block_map(),
                old(writer)@,
                final(writer)@,
                r,
            ),
    {
        let file = data_manager.get_redundant_file(id)?;
        file.inner_rebuild(data_manager, writer)
    }

    /// Splits `bytes` into windows of `window_size` bytes, encodes each as a
    /// chunk with `k` data and `m` parity shards, and records the chunk ids
    /// in a new file record named by the first `FILENAME_SIZE` bytes of
    /// `name`. Fails with `InvalidParameters` exactly when the parameters
    /// are unusable, and with `TooManyChunks` exactly when the file needs
    /// more windows than a record can address.
    pub fn destruct(name: &[u8], bytes: &[u8], window_size: usize, k: usize, m: usize) -> (r:
        Result<(RedundantFile, Vec<Chunk>, Vec<Vec<Block>>), RedundantFileError>)
        ensures
            r == Err::<(RedundantFile, Vec<Chunk>, Vec<Vec<Block>>), _>(
                RedundantFileError::InvalidParameters,
            ) <==> !split_params_ok(window_size as nat, k as nat, m as nat),
            r == Err::<(RedundantFile, Vec<Chunk>, Vec<Vec<Block>>), _>(
                RedundantFileError::TooManyChunks,
            ) <==> split_params_ok(window_size as nat, k as nat, m as nat) && chunk_count(
                bytes@.len(),
                window_size as nat,
            ) > capacity(),
            split_params_ok(window_size as nat, k as nat, m as nat) && chunk_count(
                bytes@.len(),
                window_size as nat,
            ) <= capacity() ==> r is Ok,
            r matches Ok((f, cs, bss)) ==> split_result(
                bytes@,
                window_size as nat,
                k as nat,
                m as nat,
                name@,
                f,
                cs@,
                block_views(bss@),
            ),
    {
        if k == 0 || m == 0 || k > 256 || m > 256 || k + m > 256 || window_size == 0 {
            return Err(RedundantFileError::InvalidParameters);
        }
        let q0: usize = window_size / k;
        proof {
            vstd::arithmetic::div_mod::lemma_fundamental_div_mod(window_size as int, k as int);
            if window_size % k != 0 {
                assert(k != 1);
                assert(q0 < usize::MAX) by (nonlinear_arith)
                    requires
                        window_size == k * q0 + window_size % k,
                        k >= 2,
                        window_size <= usize::MAX,
                ;
            }
        }
        let block_size: usize = if window_size % k != 0 {
            q0 + 1
        } else {
            q0
        };
        proof {
            let t = (window_size + k - 1) as int;
            vstd::arithmetic::div_mod::lemma_fundamental_div_mod(window_size as int, k as int);
            vstd::arithmetic::div_mod::lemma_fundamental_div_mod(t, k as int);
            vstd::arithmetic::div_mod::lemma_mod_bound(t, k as int);
            vstd::arithmetic::div_mod::lemma_mod_bound(window_size as int, k as int);
            let q = window_size as int / k as int;
            let r = window_size as int % k as int;
            let q2 = t / k as int;
            let r2 = t % k as int;
            if r == 0 {
                assert(t == q * k + (k - 1)) by (nonlinear_arith)
                    requires
                        window_size == k * q + r,
                        r == 0,
                        t == window_size + k - 1,
                ;
                vstd::arithmetic::div_mod::lemma_fundamental_div_mod_converse(
                    t,
                    k as int,
                    q,
                    k - 1,
                );
            } else {
                assert(t == (q + 1) * k + (r - 1)) by (nonlinear_arith)
                    requires
                        window_size == k * q + r,
                        t == window_size + k - 1,
                ;
                vstd::arithmetic::div_mod::lemma_fundamental_div_mod_converse(
                    t,
                    k as int,
                    q + 1,
                    r - 1,
                );
            }
            assert(block_size == shard_len(window_size as nat, k as nat));
            lemma_shard_len(window_size as nat, k as nat);
        }
        let n_all: usize = k + m;
        if block_size > usize::MAX / n_all {
            proof {
                assert(n_all * block_size > usize::MAX) by (nonlinear_arith)
                    requires
                        block_size > usize::MAX / n_all,
                        n_all >= 1,
                ;
            }
            return Err(RedundantFileError::InvalidParameters);
        }
        proof {
            assert(n_all * block_size <= usize::MAX) by (nonlinear_arith)
                requires
                    block_size <= usize::MAX / n_all,
                    n_all >= 1,
            ;
        }
        let len = bytes.len();
        let d = FIRST_INDIRECTION_SIZE;
        let cap: usize = d + d * d;
        let q = len / window_size;
        if q > cap {
            return Err(RedundantFileError::TooManyChunks);
        }
        let n: usize = q + if len % window_size != 0 {
            1usize
        } else {
            0usize
        };
        if n > cap {
            return Err(RedundantFileError::TooManyChunks);
        }
        let ghost b = bytes@;
        let ghost wins = split_windows(b, window_size as nat);
        let mut all: Vec<u128> = Vec::new();
        let mut z: usize = 0;
        while z < cap
            invariant
                z <= cap,
                all@.len() == z,
                forall|t: int| 0 <= t < z ==> all@[t] == 0,
            decreases cap - z,
        {
            all.push(0);
            z = z + 1;
        }
        let mut chunks: Vec<Chunk> = Vec::new();
        let mut blocks: Vec<Vec<Block>> = Vec::new();
        let mut p: usize = 0;
        while p < n
            invariant
                p <= n,
                n == chunk_count(len as nat, window_size as nat),
                n <= cap,
                cap == capacity(),
                len == b.len(),
                bytes@ == b,
                wins == split_windows(b, window_size as nat),
                window_size >= 1,
                block_size == shard_len(window_size as nat, k as nat),
                window_size <= k * block_size,
                valid_params(k as nat, m as nat, block_size as nat),
                all@.len() == cap,
                chunks@.len() == p,
                blocks@.len() == p,
                forall|t: int| p <= t < cap ==> all@[t] == 0,
                forall|t: int|
                    0 <= t < p ==> {
                        &&& (#[trigger] chunks@[t]).id != 0
                        &&& chunks@[t].position == t
                        &&& chunks@[t].chunk_n == k
                        &&& chunks@[t].parity_n == m
                        &&& chunks@[t].block_size == block_size
                        &&& chunks@[t].params_ok()
                        &&& chunks@[t].records_window(wins[t])
                        &&& chunks@[t].holds_blocks(blocks@[t]@, wins[t])
                        &&& all@[t] == chunks@[t].id
                    },
            decreases n - p,
        {
            proof {
                lemma_window_start(len as nat, window_size as nat, p as nat);
                assert(p * window_size <= usize::MAX);
            }
            let start: usize = p * window_size;
            let end: usize = if len - start > window_size {
                start + window_size
            } else {
                len
            };
            let window = slice_subrange(bytes, start, end);
            assert(window@ == wins[p as int]);
            match Chunk::build(window, p as u32, k, m, block_size) {
                Ok((c, bs)) => {
                    all.set(p, c.id);
                    chunks.push(c);
                    blocks.push(bs);
                },
                Err(e) => {
                    return Err(e);
                },
            }
            p = p + 1;
        }
        let mut fi: Vec<u128> = Vec::new();
        let mut i: usize = 0;
        while i < d
            invariant
                i <= d,
                d == FIRST_INDIRECTION_SIZE,
                all@.len() == cap,
                cap == d + d * d,
                fi@ == all@.take(i as int),
            decreases d - i,
        {
            fi.push(all[i]);
            i = i + 1;
            assert(fi@ =~= all@.take(i as int));
        }
        let mut si: Vec<ChunkIndirection> = Vec::new();
        let mut a: usize = 0;
        while a < d
            invariant
                a <= d,
                d == FIRST_INDIRECTION_SIZE,
                all@.len() == cap,
                cap == d + d * d,
                si@.len() == a,
                forall|t: int|
                    0 <= t < a ==> (#[trigger] si@[t]).ids() == all@.subrange(
                        d + t * d,
                        d + t * d + d,
                    ),
            decreases d - a,
        {
            let mut row: Vec<u128> = Vec::new();
            let base: usize = d + a * d;
            let mut j: usize = 0;
            while j < d
                invariant
                    j <= d,
                    a < d,
                    d == FIRST_INDIRECTION_SIZE,
                    base == d + a * d,
                    all@.len() == cap,
                    cap == d + d * d,
                    row@ == all@.subrange(base as int, base + j),
                decreases d - j,
            {
                row.push(all[base + j]);
                j = j + 1;
                assert(row@ =~= all@.subrange(base as int, base + j));
            }
            si.push(ChunkIndirection { chunks: row });
            a = a + 1;
        }
        let mut name_bytes: Vec<u8> = Vec::new();
        let mut t: usize = 0;
        while t < FILENAME_SIZE
            invariant
                t <= FILENAME_SIZE,
                name_bytes@ == name_field(name@).take(t as int),
            decreases FILENAME_SIZE - t,
        {
            if t < name.len() {
                name_bytes.push(name[t]);
            } else {
                name_bytes.push(0u8);
            }
            t = t + 1;
            assert(name_bytes@ =~= name_field(name@).take(t as int));
        }
        assert(name_bytes@ =~= name_field(name@));
        let f = RedundantFile {
            id: new_id(),
            name: name_bytes,
            chunks_fi: ChunkIndirection { chunks: fi },
            chunks_si: si,
        };
        proof {
            assert forall|q: int| 0 <= q < cap implies f.id_at(q) == all@[q] by {
                if q >= d {
                    let i = (q - d) / d as int;
                    let j = (q - d) % d as int;
                    assert(0 <= i < d);
                    assert(d + i * d + j == q);
                }
            }
            assert(block_views(blocks@) =~= Seq::new(blocks@.len(), |t: int| blocks@[t]@));
        }
        Ok((f, chunks, blocks))
    }
}

} // verus!

verus! {

proof fn lemma_nonzero_all_zero(s: Seq<u128>)
    requires
        forall|i: int| 0 <= i < s.len() ==> s[i] == 0,
    ensures
        nonzero(s) == Seq::<u128>::empty(),
    decreases s.len(),
{
    if s.len() > 0 {
        lemma_nonzero_all_zero(s.drop_last());
    }
}

proof fn lemma_nonzero_none_zero(s: Seq<u128>)
    requires
        forall|i: int| 0 <= i < s.len() ==> s[i] != 0,
    ensures
        nonzero(s) == s,
    decreases s.len(),
{
    if s.len() > 0 {
        lemma_nonzero_none_zero(s.drop_last());
        assert(s.drop_last().push(s.last()) =~= s);
    }
}

proof fn lemma_count_all_present(s: Seq<Option<Seq<u8>>>)
    requires
        forall|i: int| 0 <= i < s.len() ==> s[i] is Some,
    ensures
        count_present(s) == s.len(),
    decreases s.len(),
{
    if s.len() > 0 {
        lemma_count_all_present(s.drop_last());
    }
}

proof fn lemma_concat_windows(b: Seq<u8>, ws: nat, p: nat)
    requires
        ws >= 1,
        p <= chunk_count(b.len(), ws),
    ensures
        concat_all(split_windows(b, ws).take(p as int)) == b.take(
            if p * ws <= b.len() {
                (p * ws) as int
            } else {
                b.len() as int
            },
        ),
    decreases p,
{
    let wins = split_windows(b, ws);
    if p == 0 {
        assert(wins.take(0) =~= Seq::<Seq<u8>>::empty());
        assert(b.take(0) =~= Seq::<u8>::empty());
    } else {
        lemma_concat_windows(b, ws, (p - 1) as nat);
        lemma_window_start(b.len(), ws, (p - 1) as nat);
        assert(wins.take(p as int).drop_last() =~= wins.take(p - 1));
        assert((p - 1) * ws + ws == p * ws) by (nonlinear_arith);
        let s = (p - 1) * ws;
        assert(b.take(s as int) + window_of(b, ws, (p - 1) as nat) =~= b.take(
            if p * ws <= b.len() {
                (p * ws) as int
            } else {
                b.len() as int
            },
        ));
    }
}

proof fn lemma_windows_cover(b: Seq<u8>, ws: nat)
    requires
        ws >= 1,
    ensures
        concat_all(split_windows(b, ws)) == b,
{
    let n = chunk_count(b.len(), ws);
    lemma_concat_windows(b, ws, n);
    let len = b.len() as int;
    let w = ws as int;
    vstd::arithmetic::div_mod::lemma_fundamental_div_mod(len, w);
    vstd::arithmetic::div_mod::lemma_mod_bound(len, w);
    let q = len / w;
    let r = len % w;
    assert(n * ws >= b.len()) by (nonlinear_arith)
        requires
            len == w * q + r,
            n == (if r == 0 {
                q
            } else {
                q + 1
            }),
            0 <= r < w,
            len == b.len(),
            w == ws,
    ;
    assert(split_windows(b, ws).take(n as int) =~= split_windows(b, ws));
    assert(b.take(b.len() as int) =~= b);
}

/// Round trip: when a store keeps every chunk and every block that
/// splitting `b` produced, each under its own id, the file record rebuilds
/// from that store as windows whose concatenation is exactly `b`.
pub proof fn lemma_round_trip(
    b: Seq<u8>,
    ws: nat,
    k: nat,
    m: nat,
    name: Seq<u8>,
    f: RedundantFile,
    cs: Seq<Chunk>,
    bss: Seq<Seq<Block>>,
    cm: Map<u128, Chunk>,
    bm: Map<u128, Block>,
)
    requires
        split_params_ok(ws, k, m),
        split_result(b, ws, k, m, name, f, cs, bss),
        forall|p: int| 0 <= p < cs.len() ==> cm.contains_key(#[trigger] cs[p].id) && cm[cs[p].id] == cs[p],
        forall|p: int, i: int|
            0 <= p < bss.len() && 0 <= i < bss[p].len() ==> bm.contains_key(
                #[trigger] bss[p][i].id,
            ) && bm[bss[p][i].id] == bss[p][i],
    ensures
        f.store_holds(cm, bm, split_windows(b, ws)),
        concat_all(split_windows(b, ws)) == b,
{
    let wins = split_windows(b, ws);
    let n = cs.len();
    let ids = f.slot_ids();
    let cids = Seq::new(n, |p: int| cs[p].id);
    assert forall|p: int| 0 <= p < n implies ids.take(n as int)[p] == cids[p] by {
        assert(f.id_at(p) == cs[p].id);
    }
    assert(ids.take(n as int) =~= cids);
    lemma_nonzero_none_zero(cids);
    assert forall|i: int| 0 <= i < ids.skip(n as int).len() implies ids.skip(n as int)[i] == 0 by {
        assert(f.id_at(n + i) == 0);
    }
    lemma_nonzero_all_zero(ids.skip(n as int));
    lemma_nonzero_append(ids.take(n as int), ids.skip(n as int));
    assert(ids.take(n as int) + ids.skip(n as int) =~= ids);
    assert(f.referenced() =~= cids);
    assert forall|j: int| 0 <= j < wins.len() implies cm.contains_key(
        #[trigger] f.referenced()[j],
    ) && cm[f.referenced()[j]].restores(bm, wins[j]) by {
        let c = cs[j];
        assert(f.referenced()[j] == c.id);
        let sh = c.store_shards(bm);
        let enc = c.encoding_of(wins[j]);
        assert(bss[j].len() == c.chunk_n + c.parity_n);
        assert forall|i: int| 0 <= i < sh.len() implies sh[i] == Some(enc[i]) by {
            assert(bss[j][i].id == c.blocks@[i]);
            assert(bm[bss[j][i].id] == bss[j][i]);
        }
        lemma_count_all_present(sh);
    }
    lemma_windows_cover(b, ws);
}

} // verus!
