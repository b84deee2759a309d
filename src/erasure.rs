use vstd::prelude::*;

use reed_solomon_erasure::galois_8::ReedSolomon;

verus! {

/// The parity shards that the Reed-Solomon code over GF(2^8) with `k` data
/// and `m` parity shards computes for the data shards `data`.
pub uninterp spec fn rs_parity(k: nat, m: nat, data: Seq<Seq<u8>>) -> Seq<Seq<u8>>;

/// The k + m shards the Reed-Solomon decoder of the code with `k` data and
/// `m` parity shards produces from the slots `shards` (`None` for a missing
/// shard).
pub uninterp spec fn rs_reconstructed(k: nat, m: nat, shards: Seq<Option<Seq<u8>>>) -> Seq<
    Seq<u8>,
>;

/// The full systematic codeword of `data`: the data shards, then their parity.
pub open spec fn codeword(k: nat, m: nat, data: Seq<Seq<u8>>) -> Seq<Seq<u8>> {
    data + rs_parity(k, m, data)
}

/// Parameters the code accepts.
pub open spec fn valid_code(k: nat, m: nat) -> bool {
    1 <= k && 1 <= m && k + m <= 256
}

/// The byte views of a sequence of buffers.
pub open spec fn views(s: Seq<Vec<u8>>) -> Seq<Seq<u8>> {
    Seq::new(s.len(), |i: int| s[i]@)
}

/// The byte views of a sequence of optional buffers.
pub open spec fn opt_views(s: Seq<Option<Vec<u8>>>) -> Seq<Option<Seq<u8>>> {
    Seq::new(
        s.len(),
        |i: int|
            match s[i] {
                Some(v) => Some(v@),
                None => None,
            },
    )
}

/// Every entry present.
pub open spec fn somes(s: Seq<Seq<u8>>) -> Seq<Option<Seq<u8>>> {
    Seq::new(s.len(), |i: int| Some(s[i]))
}

/// Number of present entries.
pub open spec fn count_present(s: Seq<Option<Seq<u8>>>) -> nat
    decreases s.len(),
{
    if s.len() == 0 {
        0
    } else {
        count_present(s.drop_last()) + if s.last() is Some {
            1nat
        } else {
            0nat
        }
    }
}

/// Every present entry of `s` equals the entry of `cw` at the same index.
pub open spec fn agrees(s: Seq<Option<Seq<u8>>>, cw: Seq<Seq<u8>>) -> bool {
    forall|i: int| 0 <= i < s.len() ==> (#[trigger] s[i] matches Some(x) ==> x == cw[i])
}

/// Every present entry has length `len`.
pub open spec fn present_len(s: Seq<Option<Seq<u8>>>, len: nat) -> bool {
    forall|i: int| 0 <= i < s.len() ==> (#[trigger] s[i] matches Some(x) ==> x.len() == len)
}

/// Every entry has length `len`.
pub open spec fn all_len(s: Seq<Seq<u8>>, len: nat) -> bool {
    forall|i: int| 0 <= i < s.len() ==> (#[trigger] s[i]).len() == len
}

/// Relies on `ReedSolomon::new`, which accepts 1 <= k, 1 <= m, k + m <= 256,
/// and `ReedSolomon::encode`: given k + m shards of one nonzero length, it
/// overwrites the last m with the parity of the first k, which stay as they
/// were.
#[verifier::external_body]
pub(crate) fn rs_encode(k: usize, m: usize, shards: &mut Vec<Vec<u8>>)
    requires
        valid_code(k as nat, m as nat),
        old(shards)@.len() == k + m,
        old(shards)@[0]@.len() >= 1,
        all_len(views(old(shards)@), old(shards)@[0]@.len()),
    ensures
        final(shards)@.len() == k + m,
        views(final(shards)@) == views(old(shards)@).take(k as int) + rs_parity(
            k as nat,
            m as nat,
            views(old(shards)@).take(k as int),
        ),
        all_len(views(final(shards)@), old(shards)@[0]@.len()),
{
    ReedSolomon::new(k, m).unwrap().encode(shards).unwrap();
}

/// Relies on `ReedSolomon::new`, which accepts 1 <= k, 1 <= m, k + m <= 256,
/// and `ReedSolomon::reconstruct`: with k + m slots whose present shards all
/// have length `shard_len`, it fails, touching nothing, when fewer than k are
/// present; otherwise it fills every missing slot so that the slots form the
/// codeword that agrees with the present shards (any k shards of a codeword
/// determine it). What it fills in depends on k, m and the slots alone.
/// `shard_len` is the common length of the present shards.
#[verifier::external_body]
pub(crate) fn rs_reconstruct(
    k: usize,
    m: usize,
    shard_len: usize,
    shards: &mut Vec<Option<Vec<u8>>>,
) -> (r: Result<(), reed_solomon_erasure::Error>)
    requires
        valid_code(k as nat, m as nat),
        shard_len >= 1,
        old(shards)@.len() == k + m,
        present_len(opt_views(old(shards)@), shard_len as nat),
    ensures
        r is Ok <==> count_present(opt_views(old(shards)@)) >= k,
        r is Err ==> final(shards)@ == old(shards)@,
        r is Ok ==> final(shards)@.len() == k + m,
        r is Ok ==> forall|i: int|
            0 <= i < k + m ==> ((#[trigger] final(shards)@[i]) matches Some(x) && x@.len()
                == shard_len),
        r is Ok ==> opt_views(final(shards)@) == somes(
            rs_reconstructed(k as nat, m as nat, opt_views(old(shards)@)),
        ),
        r is Ok ==> forall|data: Seq<Seq<u8>>|
            data.len() == k && all_len(data, shard_len as nat) && agrees(
                opt_views(old(shards)@),
                #[trigger] codeword(k as nat, m as nat, data),
            ) ==> opt_views(final(shards)@) == somes(codeword(k as nat, m as nat, data)),
{
    ReedSolomon::new(k, m).unwrap().reconstruct(shards)
}

#[verifier::external_type_specification]
#[verifier::external_body]
pub struct ExRsError(reed_solomon_erasure::Error);

} // verus!
