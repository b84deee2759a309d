use vstd::prelude::*;

use crate::codec::{le_bytes, le_value, push_le, read_le};
use crate::constants::VECTOR_FAN_OUT;
use crate::error::VolumeError;

verus! {

/// Bytes of an encoded superblock.
pub const SUPER_BLOCK_BYTES: usize = 16;

/// Bytes of one encoded (offset, id) slot.
pub const ENTRY_BYTES: usize = 24;

/// Bytes of an encoded allocation vector: its slots, then the next link.
pub const VECTOR_BYTES: usize = 392;

/// Total size a new volume reserves by default.
pub const DEFAULT_VOLUME_SIZE: u64 = 134217728;

/// The header of a volume file: its total size and where the first
/// allocation vector starts.
#[derive(Debug, Clone, Copy)]
pub struct SuperBlock {
    pub file_size: u64,
    pub file_vector_start: u64,
}

/// One allocation vector: `VECTOR_FAN_OUT` (offset, id) slots, (0, 0)
/// marking a free one, and the offset of the next vector (0 ends the chain).
#[derive(Debug)]
pub struct FileVector {
    pub entries: Vec<(u64, u128)>,
    pub next_file_vector: u64,
}

/// The allocation vectors of a chunk volume have the same layout.
pub type ChunkVector = FileVector;

/// The encoding of a sequence of slots: per slot, the offset in 8 and the
/// id in 16 little-endian bytes.
pub open spec fn entries_bytes(e: Seq<(u64, u128)>) -> Seq<u8>
    decreases e.len(),
{
    if e.len() == 0 {
        Seq::empty()
    } else {
        entries_bytes(e.drop_last()) + le_bytes(e.last().0 as nat, 8) + le_bytes(
            e.last().1 as nat,
            16,
        )
    }
}

/// The encoding of an allocation vector.
pub open spec fn vector_bytes(e: Seq<(u64, u128)>, next: u64) -> Seq<u8> {
    entries_bytes(e) + le_bytes(next as nat, 8)
}

/// The slot encoded at `b[ENTRY_BYTES * i..]`.
pub open spec fn entry_at(b: Seq<u8>, i: int) -> (u64, u128) {
    (
        le_value(b.subrange(ENTRY_BYTES * i, ENTRY_BYTES * i + 8)) as u64,
        le_value(b.subrange(ENTRY_BYTES * i + 8, ENTRY_BYTES * i + 24)) as u128,
    )
}

proof fn lemma_offsets_ordered(offs: Seq<u64>, st: int, j: int)
    requires
        0 < j < offs.len(),
        st >= 0,
        offs[j - 1] + st <= offs[j],
        forall|a: int, b: int| 0 <= a < b < j ==> #[trigger] offs[a] + st <= #[trigger] offs[b],
    ensures
        forall|a: int, b: int| 0 <= a < b < j + 1 ==> #[trigger] offs[a] + st <= #[trigger] offs[b],
{
    assert forall|a: int, b: int| 0 <= a < b < j + 1 implies #[trigger] offs[a] + st
        <= #[trigger] offs[b] by {
        if b == j && a < j - 1 {
            assert(offs[a] + st <= offs[j - 1]);
        }
    }
}

proof fn lemma_chain_entries_len(chain: Seq<(u64, FileVector)>)
    requires
        forall|j: int| 0 <= j < chain.len() ==> (#[trigger] chain[j]).1.entries@.len() == VECTOR_FAN_OUT,
    ensures
        chain_entries(chain).len() == VECTOR_FAN_OUT * chain.len(),
    decreases chain.len(),
{
    if chain.len() > 0 {
        lemma_chain_entries_len(chain.drop_last());
    }
}

proof fn lemma_le_fits(s: Seq<u8>, n: nat)
    requires
        s.len() == n,
        n <= 16,
    ensures
        n == 8 ==> le_value(s) <= u64::MAX,
        n == 16 ==> le_value(s) <= u128::MAX,
{
    crate::codec::lemma_le_value_bound(s);
    crate::codec::lemma_pow256_16();
    if n == 8 {
        assert(crate::codec::pow256(8) == 0x1_0000_0000_0000_0000) by {
            reveal_with_fuel(crate::codec::pow256, 9);
        }
    }
}

impl SuperBlock {
    /// The superblock of a new volume of the default size, its first vector
    /// right after the superblock.
    pub fn default() -> (r: SuperBlock)
        ensures
            r.file_size == DEFAULT_VOLUME_SIZE,
            r.file_vector_start == SUPER_BLOCK_BYTES,
    {
        SuperBlock { file_size: DEFAULT_VOLUME_SIZE, file_vector_start: SUPER_BLOCK_BYTES as u64 }
    }

    /// The 16-byte encoding: `file_size`, then `file_vector_start`, each as
    /// 8 little-endian bytes.
    pub fn to_bytes(&self) -> (r: Vec<u8>)
        ensures
            r@ == le_bytes(self.file_size as nat, 8) + le_bytes(self.file_vector_start as nat, 8),
    {
        let mut out: Vec<u8> = Vec::new();
        push_le(&mut out, self.file_size as u128, 8);
        push_le(&mut out, self.file_vector_start as u128, 8);
        out
    }

    /// Decodes the superblock at the start of `b`.
    pub fn from_bytes(b: &[u8]) -> (r: SuperBlock)
        requires
            b@.len() >= SUPER_BLOCK_BYTES,
        ensures
            r.file_size == le_value(b@.subrange(0, 8)),
            r.file_vector_start == le_value(b@.subrange(8, 16)),
    {
        let size = read_le(b, 0, 8);
        let start = read_le(b, 8, 8);
        proof {
            lemma_le_fits(b@.subrange(0, 8), 8);
            lemma_le_fits(b@.subrange(8, 16), 8);
        }
        SuperBlock { file_size: size as u64, file_vector_start: start as u64 }
    }
}

impl FileVector {
    /// The vector has exactly `VECTOR_FAN_OUT` slots.
    pub open spec fn wf(&self) -> bool {
        self.entries@.len() == VECTOR_FAN_OUT
    }

    /// A vector with every slot free and no successor.
    pub fn default() -> (r: FileVector)
        ensures
            r.wf(),
            r.entries@ == Seq::new(VECTOR_FAN_OUT as nat, |i: int| (0u64, 0u128)),
            r.next_file_vector == 0,
    {
        let mut entries: Vec<(u64, u128)> = Vec::new();
        let mut i: usize = 0;
        while i < VECTOR_FAN_OUT
            invariant
                i <= VECTOR_FAN_OUT,
                entries@ == Seq::new(i as nat, |t: int| (0u64, 0u128)),
            decreases VECTOR_FAN_OUT - i,
        {
            entries.push((0u64, 0u128));
            i = i + 1;
            assert(entries@ =~= Seq::new(i as nat, |t: int| (0u64, 0u128)));
        }
        FileVector { entries, next_file_vector: 0 }
    }

    /// The encoding: each slot as its offset in 8 and its id in 16
    /// little-endian bytes, then the next link in 8.
    pub fn to_bytes(&self) -> (r: Vec<u8>)
        ensures
            r@ == vector_bytes(self.entries@, self.next_file_vector),
            self.wf() ==> r@.len() == VECTOR_BYTES,
    {
        let mut out: Vec<u8> = Vec::new();
        let mut i: usize = 0;
        while i < self.entries.len()
            invariant
                i <= self.entries@.len(),
                out@ == entries_bytes(self.entries@.take(i as int)),
            decreases self.entries@.len() - i,
        {
            let (off, id) = self.entries[i];
            push_le(&mut out, off as u128, 8);
            push_le(&mut out, id, 16);
            proof {
                assert(self.entries@.take(i + 1).drop_last() =~= self.entries@.take(i as int));
            }
            i = i + 1;
        }
        assert(self.entries@.take(self.entries@.len() as int) =~= self.entries@);
        push_le(&mut out, self.next_file_vector as u128, 8);
        proof {
            lemma_entries_bytes_len(self.entries@);
        }
        out
    }

    /// Decodes the vector at the start of `b`.
    pub fn from_bytes(b: &[u8]) -> (r: FileVector)
        requires
            b@.len() >= VECTOR_BYTES,
        ensures
            r.wf(),
            forall|i: int| 0 <= i < VECTOR_FAN_OUT ==> #[trigger] r.entries@[i] == entry_at(b@, i),
            r.next_file_vector == le_value(b@.subrange(384, 392)),
    {
        let mut entries: Vec<(u64, u128)> = Vec::new();
        let mut i: usize = 0;
        while i < VECTOR_FAN_OUT
            invariant
                i <= VECTOR_FAN_OUT,
                b@.len() >= VECTOR_BYTES,
                entries@.len() == i,
                forall|t: int| 0 <= t < i ==> #[trigger] entries@[t] == entry_at(b@, t),
            decreases VECTOR_FAN_OUT - i,
        {
            let base: usize = ENTRY_BYTES * i;
            let off = read_le(b, base, 8);
            let id = read_le(b, base + 8, 16);
            proof {
                lemma_le_fits(b@.subrange(base as int, base + 8), 8);
            }
            entries.push((off as u64, id));
            i = i + 1;
        }
        let next = read_le(b, 384, 8);
        proof {
            lemma_le_fits(b@.subrange(384, 392), 8);
        }
        FileVector { entries, next_file_vector: next as u64 }
    }
}

} // verus!

verus! {

/// Bytes one allocation vector governs: the vector itself and the records
/// of its slots.
pub open spec fn stride(record_size: u64) -> int {
    VECTOR_BYTES + VECTOR_FAN_OUT * record_size
}

/// The allocation state of one volume file: its superblock, the size of its
/// records, where each vector of the chain sits, and all slots of the chain
/// in order (vector `j` holds slots `j * VECTOR_FAN_OUT` onwards). A vector
/// is followed by the records of its slots.
pub struct FileVolumeManager {
    pub super_block: SuperBlock,
    pub record_size: u64,
    pub vector_offsets: Vec<u64>,
    pub entries: Vec<(u64, u128)>,
}

/// `after` and `r` are what allocating `id` in `before` gives (see
/// `FileVolumeManager::allocate_file`): the reserved id 0 is refused; else
/// the first free slot is taken; else, if there is room, a vector is linked
/// after the last one and its first slot taken; else the volume is full.
/// Failures change nothing.
pub open spec fn allocated(
    before: FileVolumeManager,
    id: u128,
    after: FileVolumeManager,
    r: Result<u64, VolumeError>,
) -> bool {
    &&& after.super_block == before.super_block
    &&& after.record_size == before.record_size
    &&& r is Err ==> after.entries@ == before.entries@ && after.vector_offsets@
        == before.vector_offsets@
    &&& id == 0 ==> r == Err::<u64, _>(VolumeError::GeneralError)
    &&& r matches Err(e) ==> e == VolumeError::GeneralError || e == VolumeError::VolumeFull
    &&& forall|s: int|
        id != 0 && #[trigger] before.is_first_free(s) ==> {
            &&& r == Ok::<u64, VolumeError>(before.slot_offset(s) as u64)
            &&& after.entries@ == before.entries@.update(s, (before.slot_offset(s) as u64, id))
            &&& after.vector_offsets@ == before.vector_offsets@
        }
    &&& id != 0 && before.is_full() && before.next_vector_offset() + stride(before.record_size)
        <= before.super_block.file_size ==> {
        &&& r == Ok::<u64, VolumeError>((before.next_vector_offset() + VECTOR_BYTES) as u64)
        &&& after.vector_offsets@ == before.vector_offsets@.push(
            before.next_vector_offset() as u64,
        )
        &&& after.entries@ == before.entries@ + seq![
            ((before.next_vector_offset() + VECTOR_BYTES) as u64, id),
        ] + Seq::new((VECTOR_FAN_OUT - 1) as nat, |i: int| (0u64, 0u128))
    }
    &&& id != 0 && before.is_full() && before.next_vector_offset() + stride(before.record_size)
        > before.super_block.file_size ==> r == Err::<u64, _>(VolumeError::VolumeFull)
    &&& r == Err::<u64, _>(VolumeError::GeneralError) ==> id == 0
    &&& r == Err::<u64, _>(VolumeError::VolumeFull) ==> before.no_room()
    &&& r matches Ok(off) ==> keeps(before, after) && holds(after, off, id) && placed_once(
        before,
        after,
        off,
        id,
    )
}

/// `after` is `before`, possibly grown by free slots, with exactly one slot
/// changed: a slot free in `before` (or new) now holds `(off, id)`.
pub open spec fn placed_once(before: FileVolumeManager, after: FileVolumeManager, off: u64, id: u128) -> bool {
    exists|s: int|
        0 <= s < after.entries@.len() && #[trigger] after.entries@[s] == (off, id) && (s
            < before.entries@.len() ==> before.entries@[s] == (0u64, 0u128)) && forall|t: int|
            0 <= t < after.entries@.len() && t != s ==> #[trigger] after.entries@[t] == (if t
                < before.entries@.len() {
                before.entries@[t]
            } else {
                (0u64, 0u128)
            })
}

/// Every slot taken in `before` is unchanged in `after`.
pub open spec fn keeps(before: FileVolumeManager, after: FileVolumeManager) -> bool {
    &&& before.entries@.len() <= after.entries@.len()
    &&& forall|s: int|
        0 <= s < before.entries@.len() && #[trigger] before.entries@[s] != (0u64, 0u128)
            ==> after.entries@[s] == before.entries@[s]
}

/// Some slot of `v` records `id` at offset `off`.
pub open spec fn holds(v: FileVolumeManager, off: u64, id: u128) -> bool {
    exists|s: int| 0 <= s < v.entries@.len() && #[trigger] v.entries@[s] == (off, id)
}

/// The slots of a chain of vectors, in order.
pub open spec fn chain_entries(chain: Seq<(u64, FileVector)>) -> Seq<(u64, u128)>
    decreases chain.len(),
{
    if chain.len() == 0 {
        Seq::empty()
    } else {
        chain_entries(chain.drop_last()) + chain.last().1.entries@
    }
}

/// The link a vector of the chain `offsets` carries: the next vector's
/// offset, 0 for the last.
pub open spec fn next_link(offsets: Seq<u64>, j: int) -> u64 {
    if j + 1 < offsets.len() {
        offsets[j + 1]
    } else {
        0
    }
}

/// `chain`, a list of (offset, vector) read from a volume, is a well-formed
/// chain for `super_block` and records of `record_size` bytes: it starts at
/// the superblock's first vector, each vector has `VECTOR_FAN_OUT` slots and
/// links to the next one (the last to 0), and every vector with its records
/// lies inside the volume, after the superblock and before the next vector.
pub open spec fn valid_chain(
    super_block: SuperBlock,
    record_size: u64,
    chain: Seq<(u64, FileVector)>,
) -> bool {
    &&& record_size >= 1
    &&& chain.len() >= 1
    &&& chain[0].0 == super_block.file_vector_start
    &&& chain[0].0 >= SUPER_BLOCK_BYTES
    &&& forall|j: int|
        0 <= j < chain.len() ==> {
            &&& (#[trigger] chain[j]).1.entries@.len() == VECTOR_FAN_OUT
            &&& chain[j].1.next_file_vector == next_link(
                Seq::new(chain.len(), |t: int| chain[t].0),
                j,
            )
            &&& chain[j].0 + stride(record_size) <= super_block.file_size
            &&& j + 1 < chain.len() ==> chain[j].0 + stride(record_size) <= chain[j + 1].0
        }
}

impl FileVolumeManager {
    pub open spec fn wf(&self) -> bool {
        &&& self.record_size >= 1
        &&& self.vector_offsets@.len() >= 1
        &&& self.entries@.len() == VECTOR_FAN_OUT * self.vector_offsets@.len()
        &&& self.vector_offsets@[0] == self.super_block.file_vector_start
        &&& self.vector_offsets@[0] >= SUPER_BLOCK_BYTES
        &&& forall|j: int|
            0 <= j < self.vector_offsets@.len() ==> #[trigger] self.vector_offsets@[j] + stride(
                self.record_size,
            ) <= self.super_block.file_size
        &&& forall|i: int, j: int|
            0 <= i < j < self.vector_offsets@.len() ==> #[trigger] self.vector_offsets@[i] + stride(
                self.record_size,
            ) <= #[trigger] self.vector_offsets@[j]
    }

    /// Where the record of slot `s` lives.
    pub open spec fn slot_offset(&self, s: int) -> int {
        self.vector_offsets@[s / VECTOR_FAN_OUT as int] + VECTOR_BYTES + (s
            % VECTOR_FAN_OUT as int) * self.record_size
    }

    /// Slot `s` is the first free one.
    pub open spec fn is_first_free(&self, s: int) -> bool {
        &&& 0 <= s < self.entries@.len()
        &&& self.entries@[s] == (0u64, 0u128)
        &&& forall|t: int| 0 <= t < s ==> #[trigger] self.entries@[t] != (0u64, 0u128)
    }

    /// No slot is free.
    pub open spec fn is_full(&self) -> bool {
        forall|s: int| 0 <= s < self.entries@.len() ==> #[trigger] self.entries@[s] != (0u64, 0u128)
    }

    /// Every slot is taken and another vector with its records would not
    /// fit in the volume.
    pub open spec fn no_room(&self) -> bool {
        self.is_full() && self.next_vector_offset() + stride(self.record_size)
            > self.super_block.file_size
    }

    /// Where a vector appended to the chain would go: right after the
    /// records of the last one.
    pub open spec fn next_vector_offset(&self) -> int {
        self.vector_offsets@.last() + stride(self.record_size)
    }

    /// Slot `s` is the first one that holds `id`.
    pub open spec fn is_first_match(&self, id: u128, s: int) -> bool {
        &&& 0 <= s < self.entries@.len()
        &&& self.entries@[s].1 == id
        &&& forall|t: int| 0 <= t < s ==> #[trigger] self.entries@[t].1 != id
    }

    /// A new volume of `file_size` bytes for records of `record_size` bytes:
    /// the superblock, then one empty vector. Fails with `GeneralError` when
    /// the record size is 0 or the first vector and its records do not fit.
    pub fn init(file_size: u64, record_size: u64) -> (r: Result<FileVolumeManager, VolumeError>)
        ensures
            r is Err <==> !(record_size >= 1 && SUPER_BLOCK_BYTES + stride(record_size)
                <= file_size),
            r matches Err(e) ==> e == VolumeError::GeneralError,
            r matches Ok(v) ==> {
                &&& v.wf()
                &&& v.record_size == record_size
                &&& v.super_block.file_size == file_size
                &&& v.super_block.file_vector_start == SUPER_BLOCK_BYTES
                &&& v.vector_offsets@ == seq![SUPER_BLOCK_BYTES as u64]
                &&& v.entries@ == Seq::new(VECTOR_FAN_OUT as nat, |i: int| (0u64, 0u128))
            },
    {
        if record_size == 0 || record_size > (u64::MAX - VECTOR_BYTES as u64) / (
        VECTOR_FAN_OUT as u64) {
            proof {
                if record_size != 0 {
                    assert(VECTOR_BYTES + VECTOR_FAN_OUT * record_size > u64::MAX) by (nonlinear_arith)
                        requires
                            record_size > (u64::MAX - 392) / 16,
                            VECTOR_BYTES == 392,
                            VECTOR_FAN_OUT == 16,
                    ;
                }
            }
            return Err(VolumeError::GeneralError);
        }
        proof {
            assert(VECTOR_BYTES + VECTOR_FAN_OUT * record_size <= u64::MAX) by (nonlinear_arith)
                requires
                    record_size <= (u64::MAX - 392) / 16,
                    VECTOR_BYTES == 392,
                    VECTOR_FAN_OUT == 16,
            ;
        }
        let st: u64 = VECTOR_BYTES as u64 + VECTOR_FAN_OUT as u64 * record_size;
        if file_size < SUPER_BLOCK_BYTES as u64 || file_size - (SUPER_BLOCK_BYTES as u64) < st {
            return Err(VolumeError::GeneralError);
        }
        let fv = FileVector::default();
        let mut offsets: Vec<u64> = Vec::new();
        offsets.push(SUPER_BLOCK_BYTES as u64);
        Ok(
            FileVolumeManager {
                super_block: SuperBlock {
                    file_size,
                    file_vector_start: SUPER_BLOCK_BYTES as u64,
                },
                record_size,
                vector_offsets: offsets,
                entries: fv.entries,
            },
        )
    }

    /// The manager of a volume whose superblock and vector chain were read
    /// back; fails with `Corrupt` exactly when the chain is not valid.
    #[verifier::rlimit(60)]
    pub fn open(super_block: SuperBlock, record_size: u64, chain: &Vec<(u64, FileVector)>) -> (r:
        Result<FileVolumeManager, VolumeError>)
        ensures
            r is Err <==> !valid_chain(super_block, record_size, chain@),
            r matches Err(e) ==> e == VolumeError::Corrupt,
            r matches Ok(v) ==> {
                &&& v.wf()
                &&& v.super_block == super_block
                &&& v.record_size == record_size
                &&& v.vector_offsets@ == Seq::new(chain@.len(), |t: int| chain@[t].0)
                &&& v.entries@ == chain_entries(chain@)
            },
    {
        let ghost offs = Seq::new(chain@.len(), |t: int| chain@[t].0);
        if record_size == 0 || chain.len() == 0 || chain[0].0 != super_block.file_vector_start
            || chain[0].0 < SUPER_BLOCK_BYTES as u64 || record_size > (u64::MAX
            - VECTOR_BYTES as u64) / (VECTOR_FAN_OUT as u64) {
            proof {
                if record_size != 0 && chain@.len() != 0 && chain@[0].0
                    == super_block.file_vector_start && chain@[0].0 >= SUPER_BLOCK_BYTES {
                    assert(VECTOR_BYTES + VECTOR_FAN_OUT * record_size > u64::MAX) by (nonlinear_arith)
                        requires
                            record_size > (u64::MAX - 392) / 16,
                            VECTOR_BYTES == 392,
                            VECTOR_FAN_OUT == 16,
                    ;
                    assert(chain@[0].0 + stride(record_size) > super_block.file_size);
                }
            }
            return Err(VolumeError::Corrupt);
        }
        proof {
            assert(VECTOR_BYTES + VECTOR_FAN_OUT * record_size <= u64::MAX) by (nonlinear_arith)
                requires
                    record_size <= (u64::MAX - 392) / 16,
                    VECTOR_BYTES == 392,
                    VECTOR_FAN_OUT == 16,
            ;
        }
        let st: u64 = VECTOR_BYTES as u64 + VECTOR_FAN_OUT as u64 * record_size;
        let n = chain.len();
        let mut offsets: Vec<u64> = Vec::new();
        let mut entries: Vec<(u64, u128)> = Vec::new();
        let mut j: usize = 0;
        while j < n
            invariant
                j <= n,
                n == chain@.len(),
                n >= 1,
                st == stride(record_size),
                offs == Seq::new(chain@.len(), |t: int| chain@[t].0),
                offsets@ == offs.take(j as int),
                entries@ == chain_entries(chain@.take(j as int)),
                forall|t: int|
                    0 <= t < j ==> {
                        &&& (#[trigger] chain@[t]).1.entries@.len() == VECTOR_FAN_OUT
                        &&& chain@[t].1.next_file_vector == next_link(offs, t)
                        &&& chain@[t].0 + stride(record_size) <= super_block.file_size
                        &&& t + 1 < n ==> chain@[t].0 + stride(record_size) <= chain@[t + 1].0
                    },
                forall|a: int, b: int|
                    0 <= a < b < j ==> #[trigger] offs[a] + stride(record_size) <= #[trigger] offs[b],
            decreases n - j,
        {
            let (off, fv) = &chain[j];
            let expected: u64 = if j + 1 < n {
                chain[j + 1].0
            } else {
                0
            };
            if fv.entries.len() != VECTOR_FAN_OUT || fv.next_file_vector != expected
                || *off > super_block.file_size || super_block.file_size - *off < st {
                return Err(VolumeError::Corrupt);
            }
            if j + 1 < n && *off + st > chain[j + 1].0 {
                return Err(VolumeError::Corrupt);
            }
            proof {
                if j > 0 {
                    assert(chain@[j - 1].0 + stride(record_size) <= chain@[j as int].0);
                    lemma_offsets_ordered(offs, stride(record_size), j as int);
                }
            }
            offsets.push(*off);
            let mut i: usize = 0;
            let ghost base = entries@;
            while i < VECTOR_FAN_OUT
                invariant
                    i <= VECTOR_FAN_OUT,
                    fv.entries@.len() == VECTOR_FAN_OUT,
                    entries@ == base + fv.entries@.take(i as int),
                decreases VECTOR_FAN_OUT - i,
            {
                entries.push(fv.entries[i]);
                i = i + 1;
                assert(entries@ =~= base + fv.entries@.take(i as int));
            }
            proof {
                assert(fv.entries@.take(VECTOR_FAN_OUT as int) =~= fv.entries@);
                assert(chain@.take(j + 1).drop_last() =~= chain@.take(j as int));
            }
            j = j + 1;
            assert(offsets@ =~= offs.take(j as int));
        }
        proof {
            assert(chain@.take(n as int) =~= chain@);
            assert(offs.take(n as int) =~= offs);
            lemma_chain_entries_len(chain@);
        }
        Ok(FileVolumeManager { super_block, record_size, vector_offsets: offsets, entries })
    }

    /// The bytes to write to persist the chain: for each vector, its offset
    /// and its encoding with the link to the next vector.
    pub fn vector_images(&self) -> (r: Vec<(u64, Vec<u8>)>)
        requires
            self.wf(),
        ensures
            r@.len() == self.vector_offsets@.len(),
            forall|j: int|
                0 <= j < r@.len() ==> (#[trigger] r@[j]).0 == self.vector_offsets@[j] && r@[j].1@
                    == vector_bytes(
                    self.entries@.subrange(VECTOR_FAN_OUT * j, VECTOR_FAN_OUT * j + VECTOR_FAN_OUT),
                    next_link(self.vector_offsets@, j),
                ),
    {
        let n = self.vector_offsets.len();
        let total = self.entries.len();
        let mut out: Vec<(u64, Vec<u8>)> = Vec::new();
        let mut j: usize = 0;
        while j < n
            invariant
                j <= n,
                n == self.vector_offsets@.len(),
                total == self.entries@.len(),
                self.wf(),
                out@.len() == j,
                forall|t: int|
                    0 <= t < j ==> (#[trigger] out@[t]).0 == self.vector_offsets@[t] && out@[t].1@
                        == vector_bytes(
                        self.entries@.subrange(
                            VECTOR_FAN_OUT * t,
                            VECTOR_FAN_OUT * t + VECTOR_FAN_OUT,
                        ),
                        next_link(self.vector_offsets@, t),
                    ),
            decreases n - j,
        {
            proof {
                assert(VECTOR_FAN_OUT * j <= VECTOR_FAN_OUT * n) by (nonlinear_arith)
                    requires
                        j < n,
                ;
            }
            let base: usize = VECTOR_FAN_OUT * j;
            let mut es: Vec<(u64, u128)> = Vec::new();
            let mut i: usize = 0;
            while i < VECTOR_FAN_OUT
                invariant
                    i <= VECTOR_FAN_OUT,
                    j < n,
                    n == self.vector_offsets@.len(),
                    base == VECTOR_FAN_OUT * j,
                    self.entries@.len() == VECTOR_FAN_OUT * n,
                    es@ == self.entries@.subrange(base as int, base + i),
                decreases VECTOR_FAN_OUT - i,
            {
                proof {
                    assert(base + i < VECTOR_FAN_OUT * n) by (nonlinear_arith)
                        requires
                            base == VECTOR_FAN_OUT * j,
                            j < n,
                            i < VECTOR_FAN_OUT,
                    ;
                }
                es.push(self.entries[base + i]);
                i = i + 1;
                assert(es@ =~= self.entries@.subrange(base as int, base + i));
            }
            let next: u64 = if j + 1 < n {
                self.vector_offsets[j + 1]
            } else {
                0
            };
            let fv = FileVector { entries: es, next_file_vector: next };
            out.push((self.vector_offsets[j], fv.to_bytes()));
            j = j + 1;
        }
        out
    }

    /// Takes slot `id` in the chain: the first free slot (first fit), its
    /// offset computed from its place; when every slot is taken, a new
    /// vector is linked after the last one and its first slot is used.
    /// Fails with `GeneralError` for the reserved id 0 and with
    /// `VolumeFull` when no vector fits; failures change nothing.
    pub fn allocate_file(&mut self, id: u128) -> (r: Result<u64, VolumeError>)
        requires
            old(self).wf(),
        ensures
            final(self).wf(),
            allocated(*old(self), id, *final(self), r),
    {
        if id == 0 {
            return Err(VolumeError::GeneralError);
        }
        let rs = self.record_size;
        proof {
            assert(self.vector_offsets@[0] + stride(rs) <= self.super_block.file_size);
        }
        let st: u64 = VECTOR_BYTES as u64 + VECTOR_FAN_OUT as u64 * rs;
        let n = self.entries.len();
        let mut s: usize = 0;
        while s < n
            invariant
                s <= n,
                n == self.entries@.len(),
                self.wf(),
                id != 0,
                rs == self.record_size,
                self.entries@ == old(self).entries@,
                self.vector_offsets@ == old(self).vector_offsets@,
                self.super_block == old(self).super_block,
                self.record_size == old(self).record_size,
                forall|t: int| 0 <= t < s ==> #[trigger] self.entries@[t] != (0u64, 0u128),
            decreases n - s,
        {
            let (slot_off, slot_id) = self.entries[s];
            if slot_off == 0 && slot_id == 0 {
                let j = s / VECTOR_FAN_OUT;
                let o = s % VECTOR_FAN_OUT;
                proof {
                    assert(j < self.vector_offsets@.len()) by (nonlinear_arith)
                        requires
                            s < n,
                            n == VECTOR_FAN_OUT * self.vector_offsets@.len(),
                            j == s / VECTOR_FAN_OUT,
                    ;
                    assert(self.vector_offsets@[j as int] + stride(rs) <= self.super_block.file_size);
                    assert(o * rs <= (VECTOR_FAN_OUT - 1) * rs) by (nonlinear_arith)
                        requires
                            o < VECTOR_FAN_OUT,
                    ;
                }
                let off: u64 = self.vector_offsets[j] + VECTOR_BYTES as u64 + o as u64 * rs;
                assert(self.is_first_free(s as int));
                self.entries.set(s, (off, id));
                assert(self.entries@[s as int] == (off, id));
                assert(placed_once(*old(self), *self, off, id));
                return Ok(off);
            }
            s = s + 1;
        }
        let last = self.vector_offsets[self.vector_offsets.len() - 1];
        proof {
            assert(last + stride(rs) <= self.super_block.file_size);
        }
        let next: u64 = last + st;
        if self.super_block.file_size - next < st {
            return Err(VolumeError::VolumeFull);
        }
        let ghost old_entries = self.entries@;
        let ghost old_offsets = self.vector_offsets@;
        let off: u64 = next + VECTOR_BYTES as u64;
        self.vector_offsets.push(next);
        self.entries.push((off, id));
        let mut t: usize = 1;
        while t < VECTOR_FAN_OUT
            invariant
                1 <= t <= VECTOR_FAN_OUT,
                self.vector_offsets@ == old_offsets.push(next),
                self.super_block == old(self).super_block,
                self.record_size == old(self).record_size,
                self.entries@ == old_entries + seq![(off, id)] + Seq::new(
                    (t - 1) as nat,
                    |i: int| (0u64, 0u128),
                ),
            decreases VECTOR_FAN_OUT - t,
        {
            self.entries.push((0u64, 0u128));
            t = t + 1;
            assert(self.entries@ =~= old_entries + seq![(off, id)] + Seq::new(
                (t - 1) as nat,
                |i: int| (0u64, 0u128),
            ));
        }
        assert(self.entries@[old_entries.len() as int] == (off, id));
        assert(placed_once(*old(self), *self, off, id));
        proof {
            assert forall|j: int| 0 <= j < self.vector_offsets@.len() implies #[trigger] self.vector_offsets@[j]
                + stride(self.record_size) <= self.super_block.file_size by {
                if j < old_offsets.len() {
                    assert(self.vector_offsets@[j] == old_offsets[j]);
                }
            }
        }
        Ok(off)
    }

    /// The record offset of the first slot holding `id`; `None` for the
    /// reserved id 0 or an id not allocated here.
    pub fn resolve(&self, id: u128) -> (r: Option<u64>)
        ensures
            id == 0 ==> r is None,
            id != 0 ==> (r is None <==> forall|s: int|
                0 <= s < self.entries@.len() ==> #[trigger] self.entries@[s].1 != id),
            forall|s: int|
                id != 0 && #[trigger] self.is_first_match(id, s) ==> r == Some(self.entries@[s].0),
    {
        if id == 0 {
            return None;
        }
        let n = self.entries.len();
        let mut s: usize = 0;
        while s < n
            invariant
                s <= n,
                n == self.entries@.len(),
                id != 0,
                forall|t: int| 0 <= t < s ==> #[trigger] self.entries@[t].1 != id,
            decreases n - s,
        {
            if self.entries[s].1 == id {
                assert(self.is_first_match(id, s as int));
                return Some(self.entries[s].0);
            }
            s = s + 1;
        }
        None
    }
}

} // verus!

verus! {

/// Number of vectors a chain needs after `n` allocations from a fresh
/// volume.
pub open spec fn vectors_for(n: nat) -> nat {
    if n == 0 {
        1
    } else {
        ((n - 1) / (VECTOR_FAN_OUT as int) + 1) as nat
    }
}

/// Record offset of the `i`-th allocation from a fresh volume whose first
/// vector is at `start`: slot `i % VECTOR_FAN_OUT` of vector
/// `i / VECTOR_FAN_OUT`, vectors being laid out one stride apart.
pub open spec fn fill_offset(start: int, record_size: u64, i: int) -> int {
    start + (i / VECTOR_FAN_OUT as int) * stride(record_size) + VECTOR_BYTES + (i
        % VECTOR_FAN_OUT as int) * record_size
}

/// The state after the first `k` of `ids` were allocated from a fresh
/// volume whose first vector is at `start`.
pub open spec fn filled(st: FileVolumeManager, start: int, ids: Seq<u128>, k: nat) -> bool {
    &&& st.wf()
    &&& st.vector_offsets@.len() == vectors_for(k)
    &&& forall|j: int|
        0 <= j < st.vector_offsets@.len() ==> #[trigger] st.vector_offsets@[j] == start + j
            * stride(st.record_size)
    &&& forall|i: int|
        0 <= i < k ==> #[trigger] st.entries@[i] == (
            fill_offset(start, st.record_size, i) as u64,
            ids[i],
        )
    &&& forall|i: int| k <= i < st.entries@.len() ==> #[trigger] st.entries@[i] == (0u64, 0u128)
}

proof fn lemma_allocation_step(
    before: FileVolumeManager,
    after: FileVolumeManager,
    start: int,
    ids: Seq<u128>,
    k: nat,
    r: Result<u64, VolumeError>,
)
    requires
        k < ids.len(),
        ids[k as int] != 0,
        filled(before, start, ids, k),
        forall|i: int| 0 <= i < k ==> #[trigger] ids[i] != 0,
        after.wf(),
        allocated(before, ids[k as int], after, r),
        r is Ok,
    ensures
        filled(after, start, ids, k + 1),
        r == Ok::<u64, VolumeError>(fill_offset(start, before.record_size, k as int) as u64),
{
    let f = VECTOR_FAN_OUT as int;
    let kk = k as int;
    let v = vectors_for(k) as int;
    let st = stride(before.record_size);
    let id = ids[k as int];
    assert(f == 16);
    if kk < f * v {
        assert forall|t: int| 0 <= t < k implies #[trigger] before.entries@[t] != (0u64, 0u128) by {
            assert(before.entries@[t].1 == ids[t]);
        }
        assert(before.is_first_free(k as int));
        let j = kk / f;
        assert(j < v);
        assert(before.vector_offsets@[j] == start + j * st);
        assert(before.slot_offset(k as int) == fill_offset(start, before.record_size, k as int));
        assert(vectors_for(k + 1) == vectors_for(k));
    } else {
        assert(kk == f * v);
        assert forall|s: int| 0 <= s < before.entries@.len() implies #[trigger] before.entries@[s]
            != (0u64, 0u128) by {
            assert(before.entries@[s].1 == ids[s]);
        }
        assert(before.is_full());
        if before.next_vector_offset() + stride(before.record_size) > before.super_block.file_size {
            assert(r is Err);
        }
        assert(before.vector_offsets@.last() == start + (v - 1) * st);
        assert((v - 1) * st + st == v * st) by (nonlinear_arith);
        assert(before.next_vector_offset() == start + v * st);
        assert(kk / f == v);
        assert(kk % f == 0);
        assert(vectors_for(k + 1) == v + 1);
        assert forall|j: int| 0 <= j < after.vector_offsets@.len() implies #[trigger] after.vector_offsets@[j]
            == start + j * stride(after.record_size) by {
            if j < v {
                assert(after.vector_offsets@[j] == before.vector_offsets@[j]);
            }
        }
        assert(after.entries@[kk] == ((before.next_vector_offset() + VECTOR_BYTES) as u64, id));
        assert(after.record_size == before.record_size);
        assert((kk % f) * after.record_size == 0) by (nonlinear_arith)
            requires
                kk % f == 0,
        ;
        assert((kk / f) * st == v * st) by (nonlinear_arith)
            requires
                kk / f == v,
        ;
        assert(fill_offset(start, after.record_size, kk) == start + v * st + VECTOR_BYTES);
        assert forall|i: int| 0 <= i < k + 1 implies #[trigger] after.entries@[i] == (
            fill_offset(start, after.record_size, i) as u64,
            ids[i],
        ) by {
            if i < k {
                assert(after.entries@[i] == before.entries@[i]);
            }
        }
    }
}

/// Slot reuse and chain growth: allocating nonzero ids one after another
/// into a fresh volume (one empty vector) puts the `i`-th id in slot `i`,
/// at `fill_offset(start, record_size, i)`. The first vector's slots fill
/// first; each time the chain is full it grows by one vector linked after
/// the last, so no id is overwritten or lost, and every slot after the
/// last allocation stays free.
pub proof fn lemma_sequential_allocation(
    states: Seq<FileVolumeManager>,
    ids: Seq<u128>,
    rs: Seq<Result<u64, VolumeError>>,
)
    requires
        states.len() == ids.len() + 1,
        rs.len() == ids.len(),
        states[0].wf(),
        states[0].vector_offsets@.len() == 1,
        forall|i: int| 0 <= i < states[0].entries@.len() ==> #[trigger] states[0].entries@[i] == (
            0u64,
            0u128,
        ),
        forall|i: int| 0 <= i < ids.len() ==> #[trigger] ids[i] != 0,
        forall|i: int|
            0 <= i < ids.len() ==> #[trigger] allocated(states[i], ids[i], states[i + 1], rs[i])
                && states[i + 1].wf() && rs[i] is Ok,
    ensures
        states[ids.len() as int].record_size == states[0].record_size,
        states[ids.len() as int].super_block == states[0].super_block,
        filled(states[ids.len() as int], states[0].super_block.file_vector_start as int, ids, ids.len()),
        forall|i: int|
            0 <= i < ids.len() ==> #[trigger] rs[i] == Ok::<u64, VolumeError>(
                fill_offset(
                    states[0].super_block.file_vector_start as int,
                    states[0].record_size,
                    i,
                ) as u64,
            ),
    decreases ids.len(),
{
    let start = states[0].super_block.file_vector_start as int;
    let n = ids.len();
    if n == 0 {
        let st0 = states[0];
        assert(st0.vector_offsets@[0] == start);
        assert(0 * stride(st0.record_size) == 0);
        assert forall|j: int| 0 <= j < st0.vector_offsets@.len() implies #[trigger] st0.vector_offsets@[j]
            == start + j * stride(st0.record_size) by {
            assert(j == 0);
        }
        assert(filled(states[0], start, ids, 0));
    } else {
        let m = (n - 1) as nat;
        let ids2 = ids.take(m as int);
        let states2 = states.take(m + 1int);
        let rs2 = rs.take(m as int);
        assert forall|i: int| 0 <= i < ids2.len() implies #[trigger] allocated(
            states2[i],
            ids2[i],
            states2[i + 1],
            rs2[i],
        ) && states2[i + 1].wf() && rs2[i] is Ok by {
            assert(allocated(states[i], ids[i], states[i + 1], rs[i]));
        }
        lemma_sequential_allocation(states2, ids2, rs2);
        let before = states[m as int];
        assert(states2[m as int] == before);
        assert(filled(before, start, ids, m)) by {
            assert forall|i: int| 0 <= i < m implies #[trigger] before.entries@[i] == (
                fill_offset(start, before.record_size, i) as u64,
                ids[i],
            ) by {
                assert(ids2[i] == ids[i]);
            }
        }
        assert(allocated(states[m as int], ids[m as int], states[m + 1int], rs[m as int]));
        lemma_allocation_step(before, states[n as int], start, ids, m, rs[m as int]);
        assert forall|i: int| 0 <= i < n implies #[trigger] rs[i] == Ok::<u64, VolumeError>(
            fill_offset(start, states[0].record_size, i) as u64,
        ) by {
            if i < m {
                assert(rs2[i] == rs[i]);
            }
        }
    }
}

} // verus!

verus! {

proof fn lemma_entries_bytes(e: Seq<(u64, u128)>, i: int)
    requires
        0 <= i < e.len(),
    ensures
        entries_bytes(e).len() == ENTRY_BYTES * e.len(),
        entries_bytes(e).subrange(ENTRY_BYTES * i, ENTRY_BYTES * i + 8) == le_bytes(
            e[i].0 as nat,
            8,
        ),
        entries_bytes(e).subrange(ENTRY_BYTES * i + 8, ENTRY_BYTES * i + 24) == le_bytes(
            e[i].1 as nat,
            16,
        ),
    decreases e.len(),
{
    lemma_entries_bytes_len(e);
    let prefix = entries_bytes(e.drop_last());
    lemma_entries_bytes_len(e.drop_last());
    if i < e.len() - 1 {
        lemma_entries_bytes(e.drop_last(), i);
        assert(entries_bytes(e).subrange(ENTRY_BYTES * i, ENTRY_BYTES * i + 8)
            =~= prefix.subrange(ENTRY_BYTES * i, ENTRY_BYTES * i + 8));
        assert(entries_bytes(e).subrange(ENTRY_BYTES * i + 8, ENTRY_BYTES * i + 24)
            =~= prefix.subrange(ENTRY_BYTES * i + 8, ENTRY_BYTES * i + 24));
    } else {
        assert(prefix.len() == ENTRY_BYTES * i);
        assert(entries_bytes(e).subrange(ENTRY_BYTES * i, ENTRY_BYTES * i + 8) =~= le_bytes(
            e[i].0 as nat,
            8,
        ));
        assert(entries_bytes(e).subrange(ENTRY_BYTES * i + 8, ENTRY_BYTES * i + 24)
            =~= le_bytes(e[i].1 as nat, 16));
    }
}

proof fn lemma_entries_bytes_len(e: Seq<(u64, u128)>)
    ensures
        entries_bytes(e).len() == ENTRY_BYTES * e.len(),
    decreases e.len(),
{
    if e.len() > 0 {
        lemma_entries_bytes_len(e.drop_last());
    }
}

/// Decoding an encoded allocation vector gives back its slots and its
/// link: what `FileVector::to_bytes` writes, `FileVector::from_bytes`
/// reads back unchanged.
pub proof fn lemma_vector_round_trip(e: Seq<(u64, u128)>, next: u64)
    requires
        e.len() == VECTOR_FAN_OUT,
    ensures
        vector_bytes(e, next).len() == VECTOR_BYTES,
        forall|i: int| 0 <= i < VECTOR_FAN_OUT ==> #[trigger] entry_at(vector_bytes(e, next), i) == e[i],
        le_value(vector_bytes(e, next).subrange(384, 392)) == next,
{
    let b = vector_bytes(e, next);
    lemma_entries_bytes_len(e);
    crate::codec::lemma_pow256_16();
    assert(crate::codec::pow256(8) == 0x1_0000_0000_0000_0000) by {
        reveal_with_fuel(crate::codec::pow256, 9);
    }
    assert forall|i: int| 0 <= i < VECTOR_FAN_OUT implies #[trigger] entry_at(b, i) == e[i] by {
        lemma_entries_bytes(e, i);
        assert(b.subrange(ENTRY_BYTES * i, ENTRY_BYTES * i + 8) =~= entries_bytes(e).subrange(
            ENTRY_BYTES * i,
            ENTRY_BYTES * i + 8,
        ));
        assert(b.subrange(ENTRY_BYTES * i + 8, ENTRY_BYTES * i + 24) =~= entries_bytes(
            e,
        ).subrange(ENTRY_BYTES * i + 8, ENTRY_BYTES * i + 24));
        crate::codec::lemma_le_round_trip(e[i].0 as nat, 8);
        crate::codec::lemma_le_round_trip(e[i].1 as nat, 16);
    }
    assert(b.subrange(384, 392) =~= le_bytes(next as nat, 8));
    crate::codec::lemma_le_round_trip(next as nat, 8);
}

/// Decoding an encoded superblock gives it back.
pub proof fn lemma_super_block_round_trip(sb: SuperBlock)
    ensures
        ({
            let b = le_bytes(sb.file_size as nat, 8) + le_bytes(sb.file_vector_start as nat, 8);
            le_value(b.subrange(0, 8)) == sb.file_size && le_value(b.subrange(8, 16))
                == sb.file_vector_start
        }),
{
    let b = le_bytes(sb.file_size as nat, 8) + le_bytes(sb.file_vector_start as nat, 8);
    assert(crate::codec::pow256(8) == 0x1_0000_0000_0000_0000) by {
        reveal_with_fuel(crate::codec::pow256, 9);
    }
    assert(b.subrange(0, 8) =~= le_bytes(sb.file_size as nat, 8));
    assert(b.subrange(8, 16) =~= le_bytes(sb.file_vector_start as nat, 8));
    crate::codec::lemma_le_round_trip(sb.file_size as nat, 8);
    crate::codec::lemma_le_round_trip(sb.file_vector_start as nat, 8);
}

} // verus!

verus! {

proof fn lemma_slot_in_region(v: FileVolumeManager, s: int)
    requires
        v.wf(),
        0 <= s < v.entries@.len(),
    ensures
        0 <= s / (VECTOR_FAN_OUT as int) < v.vector_offsets@.len(),
        v.slot_offset(s) >= v.vector_offsets@[s / VECTOR_FAN_OUT as int] + VECTOR_BYTES,
        v.slot_offset(s) + v.record_size <= v.vector_offsets@[s / VECTOR_FAN_OUT as int]
            + stride(v.record_size),
{
    let o = s % VECTOR_FAN_OUT as int;
    let rs = v.record_size as int;
    assert(0 <= o < 16);
    assert(o * rs + rs <= 16 * rs) by (nonlinear_arith)
        requires
            0 <= o < 16,
            rs >= 1,
    ;
    assert(o * rs >= 0) by (nonlinear_arith)
        requires
            0 <= o,
            rs >= 1,
    ;
}

/// Records never overlap: the record of a slot lies inside the volume after
/// the superblock, clear of every allocation vector, and the records of two
/// different slots are disjoint.
pub proof fn lemma_records_disjoint(v: FileVolumeManager, s: int, t: int)
    requires
        v.wf(),
        0 <= s < t < v.entries@.len(),
    ensures
        v.slot_offset(s) >= SUPER_BLOCK_BYTES + VECTOR_BYTES,
        v.slot_offset(t) + v.record_size <= v.super_block.file_size,
        v.slot_offset(s) + v.record_size <= v.slot_offset(t),
        forall|j: int|
            0 <= j < v.vector_offsets@.len() ==> v.slot_offset(s) + v.record_size
                <= #[trigger] v.vector_offsets@[j] || v.vector_offsets@[j] + VECTOR_BYTES
                <= v.slot_offset(s),
{
    let f = VECTOR_FAN_OUT as int;
    let a = s / f;
    let b = t / f;
    let rs = v.record_size as int;
    lemma_slot_in_region(v, s);
    lemma_slot_in_region(v, t);
    assert(a <= b);
    if a == b {
        assert(s % f < t % f);
        assert((s % f) * rs + rs <= (t % f) * rs) by (nonlinear_arith)
            requires
                s % f < t % f,
                rs >= 1,
        ;
    } else {
        assert(v.vector_offsets@[a] + stride(v.record_size) <= v.vector_offsets@[b]);
    }
    if a > 0 {
        assert(v.vector_offsets@[0] + stride(v.record_size) <= v.vector_offsets@[a]);
    }
    assert forall|j: int|
        0 <= j < v.vector_offsets@.len() implies v.slot_offset(s) + v.record_size
        <= #[trigger] v.vector_offsets@[j] || v.vector_offsets@[j] + VECTOR_BYTES
        <= v.slot_offset(s) by {
        if j < a {
            assert(v.vector_offsets@[j] + stride(v.record_size) <= v.vector_offsets@[a]);
        } else if j > a {
            assert(v.vector_offsets@[a] + stride(v.record_size) <= v.vector_offsets@[j]);
        }
    }
}

} // verus!
