use vstd::prelude::*;

verus! {

/// 256 to the power `n`.
pub open spec fn pow256(n: nat) -> nat
    decreases n,
{
    if n == 0 {
        1
    } else {
        256 * pow256((n - 1) as nat)
    }
}

/// The `n` little-endian bytes of `v`: byte `i` is digit `i` of `v` in base
/// 256.
pub open spec fn le_bytes(v: nat, n: nat) -> Seq<u8> {
    Seq::new(n, |i: int| ((v / pow256(i as nat)) % 256) as u8)
}

/// The number whose little-endian bytes are `s`.
pub open spec fn le_value(s: Seq<u8>) -> nat
    decreases s.len(),
{
    if s.len() == 0 {
        0
    } else {
        (s[0] + 256 * le_value(s.drop_first())) as nat
    }
}

proof fn lemma_pow256_positive(n: nat)
    ensures
        pow256(n) >= 1,
    decreases n,
{
    if n > 0 {
        lemma_pow256_positive((n - 1) as nat);
    }
}

pub proof fn lemma_pow256_16()
    ensures
        pow256(16) == 0x1_0000_0000_0000_0000_0000_0000_0000_0000,
{
    reveal_with_fuel(pow256, 17);
}

proof fn lemma_pow256_mono(a: nat, b: nat)
    requires
        a <= b,
    ensures
        pow256(a) <= pow256(b),
    decreases b,
{
    if a < b {
        lemma_pow256_mono(a, (b - 1) as nat);
        lemma_pow256_positive((b - 1) as nat);
    }
}

pub proof fn lemma_le_value_bound(s: Seq<u8>)
    ensures
        le_value(s) < pow256(s.len()),
    decreases s.len(),
{
    if s.len() > 0 {
        lemma_le_value_bound(s.drop_first());
    }
}

/// Appends the `n` little-endian bytes of `v` to `out`.
pub fn push_le(out: &mut Vec<u8>, v: u128, n: usize)
    requires
        n <= 16,
    ensures
        final(out)@ == old(out)@ + le_bytes(v as nat, n as nat),
{
    let ghost start = out@;
    let mut x: u128 = v;
    let mut i: usize = 0;
    assert(pow256(0) == 1);
    while i < n
        invariant
            i <= n,
            x == v as nat / pow256(i as nat),
            out@ == start + le_bytes(v as nat, i as nat),
        decreases n - i,
    {
        proof {
            lemma_pow256_positive(i as nat);
            vstd::arithmetic::div_mod::lemma_div_denominator(
                v as int,
                pow256(i as nat) as int,
                256,
            );
            assert(pow256((i + 1) as nat) == 256 * pow256(i as nat));
            assert(pow256(i as nat) * 256 == 256 * pow256(i as nat)) by (nonlinear_arith);
        }
        out.push((x % 256) as u8);
        x = x / 256;
        i = i + 1;
        assert(out@ =~= start + le_bytes(v as nat, i as nat));
    }
}

/// The number whose little-endian bytes are `b[start..start + n]`.
pub fn read_le(b: &[u8], start: usize, n: usize) -> (r: u128)
    requires
        n <= 16,
        start + n <= b@.len(),
    ensures
        r == le_value(b@.subrange(start as int, start + n)),
{
    let len = b.len();
    let mut v: u128 = 0;
    let mut i: usize = n;
    while i > 0
        invariant
            i <= n,
            n <= 16,
            start + n <= b@.len(),
            len == b@.len(),
            v == le_value(b@.subrange(start + i, start + n)),
        decreases i,
    {
        let ghost tail = b@.subrange(start + i, start + n);
        let ghost next = b@.subrange(start + i - 1, start + n);
        proof {
            assert(next.drop_first() =~= tail);
            lemma_le_value_bound(tail);
            lemma_pow256_mono(tail.len(), 15);
            lemma_pow256_16();
            assert(pow256(16) == 256 * pow256(15));
        }
        i = i - 1;
        v = b[start + i] as u128 + 256 * v;
    }
    assert(b@.subrange(start as int, start + n) =~= b@.subrange(start + 0, start + n));
    v
}

} // verus!

verus! {

/// Decoding the `n` little-endian bytes of `v` gives `v` back, when `v`
/// fits in `n` bytes.
pub proof fn lemma_le_round_trip(v: nat, n: nat)
    requires
        v < pow256(n),
    ensures
        le_value(le_bytes(v, n)) == v,
    decreases n,
{
    if n == 0 {
        assert(pow256(0) == 1);
    } else {
        let s = le_bytes(v, n);
        let rest = le_bytes(v / 256, (n - 1) as nat);
        assert forall|i: int| 0 <= i < rest.len() implies s.drop_first()[i] == rest[i] by {
            lemma_pow256_positive(i as nat);
            vstd::arithmetic::div_mod::lemma_div_denominator(v as int, 256, pow256(i as nat) as int);
            assert(pow256((i + 1) as nat) == 256 * pow256(i as nat));
        }
        assert(s.drop_first() =~= rest);
        assert(pow256(0) == 1);
        assert(v / pow256(0) == v);
        assert(s[0] == v % 256);
        assert(v / 256 < pow256((n - 1) as nat)) by {
            vstd::arithmetic::div_mod::lemma_fundamental_div_mod(v as int, 256);
            assert(pow256(n) == 256 * pow256((n - 1) as nat));
        }
        lemma_le_round_trip(v / 256, (n - 1) as nat);
        vstd::arithmetic::div_mod::lemma_fundamental_div_mod(v as int, 256);
    }
}

} // verus!
