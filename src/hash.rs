use vstd::arithmetic::div_mod::{
    lemma_fundamental_div_mod, lemma_mod_mod, lemma_mod_multiples_basic, lemma_mul_mod_noop_left,
    lemma_small_mod,
};
use vstd::arithmetic::power2::{
    lemma2_to64, lemma_pow2_adds, lemma_pow2_pos, lemma_pow2_strictly_increases, pow2,
};
use vstd::bits::{
    lemma_u32_low_bits_mask_is_mod, lemma_u32_pow2_no_overflow, lemma_u32_shl_is_mul, low_bits_mask,
};
use vstd::prelude::*;

verus! {

/// The hash that marks a k-mer holding a symbol outside the alphabet.
pub const SENTINEL: u32 = 0xffff_ffff;

/// Whether a byte is one of the four canonical symbols.
pub open spec fn is_base(b: u8) -> bool {
    b == 71u8 || b == 67u8 || b == 84u8 || b == 65u8
}

/// The two-bit code of a canonical symbol: G, C, T, A map to 0, 1, 2, 3.
pub open spec fn base_code(b: u8) -> nat {
    if b == 71u8 {
        0
    } else if b == 67u8 {
        1
    } else if b == 84u8 {
        2
    } else {
        3
    }
}

/// Whether every symbol of a window is canonical.
pub open spec fn all_bases(s: Seq<u8>) -> bool {
    forall|i: int| 0 <= i < s.len() ==> is_base(#[trigger] s[i])
}

/// The big-endian base-4 number spelled by a window of codes.
pub open spec fn raw_code(s: Seq<u8>) -> nat
    decreases s.len(),
{
    if s.len() == 0 {
        0
    } else {
        4 * raw_code(s.drop_last()) + base_code(s.last())
    }
}

/// The base-4 encoding is injective: two windows of canonical symbols of the
/// same length with the same number are the same window.
pub proof fn lemma_raw_code_injective(s1: Seq<u8>, s2: Seq<u8>)
    requires
        s1.len() == s2.len(),
        all_bases(s1),
        all_bases(s2),
        raw_code(s1) == raw_code(s2),
    ensures
        s1 == s2,
    decreases s1.len(),
{
    if s1.len() > 0 {
        let p1 = s1.drop_last();
        let p2 = s2.drop_last();
        let c1 = base_code(s1.last());
        let c2 = base_code(s2.last());
        assert(is_base(s1[s1.len() - 1]));
        assert(is_base(s2[s2.len() - 1]));
        assert(c1 < 4 && c2 < 4);
        assert(4 * raw_code(p1) + c1 == 4 * raw_code(p2) + c2);
        assert(c1 == c2 && raw_code(p1) == raw_code(p2)) by (nonlinear_arith)
            requires
                4 * raw_code(p1) + c1 == 4 * raw_code(p2) + c2,
                c1 < 4,
                c2 < 4,
        ;
        assert(s1.last() == s2.last());
        assert(all_bases(p1));
        assert(all_bases(p2));
        lemma_raw_code_injective(p1, p2);
        assert(s1 =~= p1.push(s1.last()));
        assert(s2 =~= p2.push(s2.last()));
    } else {
        assert(s1 =~= s2);
    }
}

/// The mask with the low `p` bits set.
pub open spec fn mask(p: u32) -> u32 {
    if p >= 32 {
        0xffff_ffffu32
    } else {
        ((1u32 << p) - 1) as u32
    }
}

// The rounds of the finalizer, in order. Each round that can carry past the
// top bit is cut back to the mask `m`.
pub open spec fn mix_a(x: u32, m: u32) -> u32 {
    (!x).wrapping_add(x << 21u32) & m
}

pub open spec fn mix_b(x: u32) -> u32 {
    x ^ (x >> 24u32)
}

pub open spec fn mix_c(x: u32, m: u32) -> u32 {
    x.wrapping_add(x << 3u32).wrapping_add(x << 8u32) & m
}

pub open spec fn mix_d(x: u32) -> u32 {
    x ^ (x >> 14u32)
}

pub open spec fn mix_e(x: u32, m: u32) -> u32 {
    x.wrapping_add(x << 2u32).wrapping_add(x << 4u32) & m
}

pub open spec fn mix_f(x: u32) -> u32 {
    x ^ (x >> 28u32)
}

pub open spec fn mix_g(x: u32, m: u32) -> u32 {
    x.wrapping_add(x << 31u32) & m
}

/// The bit-mixing finalizer on `p`-bit values.
pub open spec fn mix(x: u32, p: u32) -> u32 {
    let m = mask(p);
    mix_g(mix_f(mix_e(mix_d(mix_c(mix_b(mix_a(x, m)), m)), m)), m)
}

/// The hash of a window: the sentinel if a symbol is not canonical, else the
/// finalizer applied to the base-4 number truncated to 32 bits.
pub open spec fn kmer_hash(s: Seq<u8>) -> u32 {
    if all_bases(s) {
        mix((raw_code(s) % 0x1_0000_0000) as u32, 32)
    } else {
        SENTINEL
    }
}

/// The bit-mixing finalizer on `p`-bit values, `p` at most 32.
pub fn invertible_hash(x: u32, p: u32) -> (r: u32)
    requires
        p <= 32,
    ensures
        r == mix(x, p),
{
    let m: u32 = if p == 32 {
        0xffff_ffff
    } else {
        let top: u32 = 1u32 << p;
        assert(top >= 1) by (bit_vector)
            requires
                top == 1u32 << p,
                p < 32,
        ;
        top - 1
    };
    let mut x: u32 = (!x).wrapping_add(x << 21) & m;
    x = x ^ (x >> 24);
    x = x.wrapping_add(x << 3).wrapping_add(x << 8) & m;
    x = x ^ (x >> 14);
    x = x.wrapping_add(x << 2).wrapping_add(x << 4) & m;
    x = x ^ (x >> 28);
    x = x.wrapping_add(x << 31) & m;
    x
}

/// The two-bit code of a symbol, or `None` for a byte outside the alphabet.
pub fn encode_base(b: u8) -> (r: Option<u32>)
    ensures
        r == (if is_base(b) {
            Some(base_code(b) as u32)
        } else {
            None
        }),
{
    match b {
        71u8 => Some(0),
        67u8 => Some(1),
        84u8 => Some(2),
        65u8 => Some(3),
        _ => None,
    }
}

/// Whether every symbol of a window is canonical.
pub fn all_canonical(kmer: &[u8]) -> (r: bool)
    ensures
        r == all_bases(kmer@),
{
    let mut i: usize = 0;
    while i < kmer.len()
        invariant
            i <= kmer@.len(),
            forall|j: int| 0 <= j < i ==> is_base(#[trigger] kmer@[j]),
        decreases kmer@.len() - i,
    {
        match encode_base(kmer[i]) {
            Some(_) => {},
            None => {
                return false;
            },
        }
        i += 1;
    }
    true
}

proof fn lemma_shift_in(h: u32, c: u32)
    requires
        c < 4,
    ensures
        (h << 2u32) as int + c < 0x1_0000_0000,
        ((h << 2u32) + c) as int == (4 * h + c) % 0x1_0000_0000,
{
    assert(c < 4 ==> (h << 2u32) as int + c < 0x1_0000_0000 && ((h << 2u32) + c) as int == (4
        * h + c) % 0x1_0000_0000) by (bit_vector);
}

/// Hashes one window of symbols.
pub fn hash_kmer(kmer: &[u8]) -> (r: u32)
    ensures
        r == kmer_hash(kmer@),
        !all_bases(kmer@) ==> r == SENTINEL,
{
    let mut hash: u32 = 0;
    let mut i: usize = 0;
    while i < kmer.len()
        invariant
            0 <= i <= kmer@.len(),
            all_bases(kmer@.take(i as int)),
            hash as int == raw_code(kmer@.take(i as int)) % 0x1_0000_0000,
        decreases kmer@.len() - i,
    {
        let base = kmer[i];
        let code = match encode_base(base) {
            Some(c) => c,
            None => {
                return SENTINEL;
            },
        };
        let ghost pre = kmer@.take(i as int);
        let ghost next = kmer@.take(i + 1);
        assert(next.drop_last() =~= pre);
        proof {
            lemma_shift_in(hash, code);
            assert((4 * (raw_code(pre) % 0x1_0000_0000) + code) % 0x1_0000_0000 == (4 * raw_code(
                pre,
            ) + code) % 0x1_0000_0000) by (nonlinear_arith);
        }
        hash = (hash << 2) + code;
        i += 1;
        assert(all_bases(kmer@.take(i as int)));
    }
    assert(kmer@.take(i as int) =~= kmer@);
    invertible_hash(hash, 32)
}

// The inverses of the rounds. The multiplying rounds are undone by the inverse
// of their odd factor modulo 2^32; `mix_f` and `mix_g` are their own inverses.
pub open spec fn unmix_a(y: u32, m: u32) -> u32 {
    y.wrapping_add(1).wrapping_mul(4292870143u32) & m
}

pub open spec fn unmix_b(y: u32) -> u32 {
    y ^ (y >> 24u32)
}

pub open spec fn unmix_c(y: u32, m: u32) -> u32 {
    y.wrapping_mul(470015289u32) & m
}

pub open spec fn unmix_d(y: u32) -> u32 {
    y ^ (y >> 14u32) ^ (y >> 28u32)
}

pub open spec fn unmix_e(y: u32, m: u32) -> u32 {
    y.wrapping_mul(1022611261u32) & m
}

/// The inverse of the finalizer on `p`-bit values.
pub open spec fn unmix(y: u32, p: u32) -> u32 {
    let m = mask(p);
    unmix_a(unmix_b(unmix_c(unmix_d(unmix_e(mix_f(mix_g(y, m)), m)), m)), m)
}

/// Masking to `p` bits is reduction modulo `2^p`, which divides `2^32`.
proof fn lemma_mask_is_mod(v: u32, p: u32)
    requires
        p <= 32,
    ensures
        pow2(p as nat) > 0,
        0x1_0000_0000int % (pow2(p as nat) as int) == 0,
        (v & mask(p)) as int == (v as int) % (pow2(p as nat) as int),
{
    lemma2_to64();
    if p == 32 {
        assert(v & 0xffff_ffffu32 == v) by (bit_vector);
        lemma_small_mod(v as nat, pow2(32));
    } else {
        lemma_u32_pow2_no_overflow(p as nat);
        lemma_u32_shl_is_mul(1u32, p);
        assert(mask(p) as nat == low_bits_mask(p as nat));
        lemma_u32_low_bits_mask_is_mod(v, p as nat);
        lemma_pow2_adds(p as nat, (32 - p) as nat);
        lemma_pow2_pos((32 - p) as nat);
        lemma_mod_multiples_basic(pow2((32 - p) as nat) as int, pow2(p as nat) as int);
        assert(pow2((32 - p) as nat) * pow2(p as nat) == pow2(p as nat) * pow2((32 - p) as nat));
    }
}

/// The low `p` bits of a product depend only on the low `p` bits of a factor.
proof fn lemma_mul_low_bits(a: u32, c: u32, p: u32)
    requires
        p <= 32,
    ensures
        (a & mask(p)).wrapping_mul(c) & mask(p) == a.wrapping_mul(c) & mask(p),
{
    let big: int = 0x1_0000_0000int;
    let pp = pow2(p as nat) as int;
    let am = a & mask(p);
    lemma_mask_is_mod(a, p);
    lemma_mask_is_mod(am.wrapping_mul(c), p);
    lemma_mask_is_mod(a.wrapping_mul(c), p);
    lemma_fundamental_div_mod(big, pp);
    assert(big == pp * (big / pp));
    assert(big / pp > 0) by (nonlinear_arith)
        requires
            big == pp * (big / pp),
            big > 0,
            pp > 0,
    ;
    lemma_mod_mod(am as int * c, pp, big / pp);
    lemma_mod_mod(a as int * c, pp, big / pp);
    lemma_mul_mod_noop_left(a as int, c as int, pp);
}

proof fn lemma_low_mask(p: u32)
    requires
        p <= 32,
    ensures
        mask(p) & mask(p).wrapping_add(1) == 0,
{
    assert(p <= 32 ==> mask(p) & mask(p).wrapping_add(1) == 0) by (bit_vector);
}

proof fn lemma_mix_a_is_mul(v: u32, m: u32)
    ensures
        mix_a(v, m) == v.wrapping_mul(2097151u32).wrapping_sub(1) & m,
{
    assert((!v).wrapping_add(v << 21u32) == (v << 21u32).wrapping_sub(v).wrapping_sub(1u32))
        by (bit_vector);
    assert((v << 21u32).wrapping_sub(v) == v.wrapping_mul(2097151u32)) by (bit_vector);
}

proof fn lemma_round_a(x: u32, p: u32)
    requires
        p <= 32,
        x & mask(p) == x,
    ensures
        mix_a(x, mask(p)) & mask(p) == mix_a(x, mask(p)),
        unmix_a(x, mask(p)) & mask(p) == unmix_a(x, mask(p)),
        unmix_a(mix_a(x, mask(p)), mask(p)) == x,
        mix_a(unmix_a(x, mask(p)), mask(p)) == x,
{
    let m = mask(p);
    lemma_low_mask(p);
    // unmix_a(mix_a(x)) == x
    let big_a = x.wrapping_mul(2097151u32);
    lemma_mix_a_is_mul(x, m);
    let y = big_a.wrapping_sub(1) & m;
    assert(y & m == y) by (bit_vector)
        requires
            y == big_a.wrapping_sub(1) & m,
    ;
    assert((y.wrapping_add(1) & m) == (big_a & m)) by (bit_vector)
        requires
            m & m.wrapping_add(1) == 0,
            y == big_a.wrapping_sub(1) & m,
    ;
    lemma_mul_low_bits(y.wrapping_add(1), 4292870143u32, p);
    lemma_mul_low_bits(big_a, 4292870143u32, p);
    assert(big_a.wrapping_mul(4292870143u32) == x) by (bit_vector)
        requires
            big_a == x.wrapping_mul(2097151u32),
    ;
    assert(unmix_a(y, m) == x);
    // mix_a(unmix_a(x)) == x
    let zz = x.wrapping_add(1).wrapping_mul(4292870143u32);
    let z = zz & m;
    assert(unmix_a(x, m) == z);
    assert(z & m == z) by (bit_vector)
        requires
            z == zz & m,
    ;
    lemma_mix_a_is_mul(z, m);
    lemma_mul_low_bits(zz, 2097151u32, p);
    assert(zz.wrapping_mul(2097151u32) == x.wrapping_add(1)) by (bit_vector)
        requires
            zz == x.wrapping_add(1).wrapping_mul(4292870143u32),
    ;
    let zc = z.wrapping_mul(2097151u32);
    assert(zc & m == x.wrapping_add(1) & m);
    assert((zc.wrapping_sub(1) & m) == x) by (bit_vector)
        requires
            m & m.wrapping_add(1) == 0,
            zc & m == x.wrapping_add(1) & m,
            x & m == x,
    ;
}

proof fn lemma_round_mul(x: u32, p: u32, c: u32, ci: u32)
    requires
        p <= 32,
        x & mask(p) == x,
        forall|v: u32| #[trigger] v.wrapping_mul(c).wrapping_mul(ci) == v,
        forall|v: u32| #[trigger] v.wrapping_mul(ci).wrapping_mul(c) == v,
    ensures
        x.wrapping_mul(c) & mask(p) & mask(p) == x.wrapping_mul(c) & mask(p),
        x.wrapping_mul(ci) & mask(p) & mask(p) == x.wrapping_mul(ci) & mask(p),
        (x.wrapping_mul(c) & mask(p)).wrapping_mul(ci) & mask(p) == x,
        (x.wrapping_mul(ci) & mask(p)).wrapping_mul(c) & mask(p) == x,
{
    let m = mask(p);
    assert(forall|v: u32| #[trigger] ((v & m) & m) == v & m) by (bit_vector);
    lemma_mul_low_bits(x.wrapping_mul(c), ci, p);
    lemma_mul_low_bits(x.wrapping_mul(ci), c, p);
    assert(x.wrapping_mul(c).wrapping_mul(ci) == x);
    assert(x.wrapping_mul(ci).wrapping_mul(c) == x);
}

proof fn lemma_round_c(x: u32, p: u32)
    requires
        p <= 32,
        x & mask(p) == x,
    ensures
        mix_c(x, mask(p)) & mask(p) == mix_c(x, mask(p)),
        unmix_c(x, mask(p)) & mask(p) == unmix_c(x, mask(p)),
        unmix_c(mix_c(x, mask(p)), mask(p)) == x,
        mix_c(unmix_c(x, mask(p)), mask(p)) == x,
{
    assert(forall|v: u32| #[trigger] v.wrapping_add(v << 3u32).wrapping_add(v << 8u32) == v.wrapping_mul(
        265u32,
    )) by (bit_vector);
    assert(forall|v: u32| #[trigger] v.wrapping_mul(265u32).wrapping_mul(470015289u32) == v)
        by (bit_vector);
    assert(forall|v: u32| #[trigger] v.wrapping_mul(470015289u32).wrapping_mul(265u32) == v)
        by (bit_vector);
    lemma_round_mul(x, p, 265u32, 470015289u32);
    assert(mix_c(unmix_c(x, mask(p)), mask(p)) == (x.wrapping_mul(470015289u32) & mask(
        p,
    )).wrapping_mul(265u32) & mask(p));
}

proof fn lemma_round_e(x: u32, p: u32)
    requires
        p <= 32,
        x & mask(p) == x,
    ensures
        mix_e(x, mask(p)) & mask(p) == mix_e(x, mask(p)),
        unmix_e(x, mask(p)) & mask(p) == unmix_e(x, mask(p)),
        unmix_e(mix_e(x, mask(p)), mask(p)) == x,
        mix_e(unmix_e(x, mask(p)), mask(p)) == x,
{
    assert(forall|v: u32| #[trigger] v.wrapping_add(v << 2u32).wrapping_add(v << 4u32) == v.wrapping_mul(
        21u32,
    )) by (bit_vector);
    assert(forall|v: u32| #[trigger] v.wrapping_mul(21u32).wrapping_mul(1022611261u32) == v)
        by (bit_vector);
    assert(forall|v: u32| #[trigger] v.wrapping_mul(1022611261u32).wrapping_mul(21u32) == v)
        by (bit_vector);
    lemma_round_mul(x, p, 21u32, 1022611261u32);
    assert(mix_e(unmix_e(x, mask(p)), mask(p)) == (x.wrapping_mul(1022611261u32) & mask(
        p,
    )).wrapping_mul(21u32) & mask(p));
}

proof fn lemma_round_xor(x: u32, m: u32)
    requires
        m & m.wrapping_add(1) == 0,
        x & m == x,
    ensures
        mix_b(x) & m == mix_b(x),
        unmix_b(x) & m == unmix_b(x),
        unmix_b(mix_b(x)) == x,
        mix_b(unmix_b(x)) == x,
        mix_d(x) & m == mix_d(x),
        unmix_d(x) & m == unmix_d(x),
        unmix_d(mix_d(x)) == x,
        mix_d(unmix_d(x)) == x,
        mix_f(x) & m == mix_f(x),
        mix_f(mix_f(x)) == x,
        mix_g(x, m) & m == mix_g(x, m),
        mix_g(mix_g(x, m), m) == x,
{
    assert(m & m.wrapping_add(1) == 0 && x & m == x ==> unmix_b(mix_b(x)) == x && mix_b(
        unmix_b(x),
    ) == x && mix_b(x) & m == mix_b(x) && unmix_b(x) & m == unmix_b(x)) by (bit_vector);
    assert(m & m.wrapping_add(1) == 0 && x & m == x ==> unmix_d(mix_d(x)) == x && mix_d(
        unmix_d(x),
    ) == x && mix_d(x) & m == mix_d(x) && unmix_d(x) & m == unmix_d(x)) by (bit_vector);
    assert(m & m.wrapping_add(1) == 0 && x & m == x ==> mix_f(mix_f(x)) == x && mix_f(x) & m
        == mix_f(x)) by (bit_vector);
    assert(m & m.wrapping_add(1) == 0 && x & m == x ==> mix_g(mix_g(x, m), m) == x && mix_g(x, m)
        & m == mix_g(x, m)) by (bit_vector);
}

/// The finalizer is a bijection on the `p`-bit values: it maps them into
/// themselves, and `unmix` undoes it on either side, so every `p`-bit value
/// is the image of exactly one `p`-bit value.
pub proof fn lemma_mix_bijective(x: u32, p: u32)
    requires
        p <= 32,
        x & mask(p) == x,
    ensures
        mix(x, p) & mask(p) == mix(x, p),
        unmix(mix(x, p), p) == x,
        unmix(x, p) & mask(p) == unmix(x, p),
        mix(unmix(x, p), p) == x,
{
    let m = mask(p);
    lemma_low_mask(p);
    let a = mix_a(x, m);
    lemma_round_a(x, p);
    let b = mix_b(a);
    lemma_round_xor(a, m);
    let c = mix_c(b, m);
    lemma_round_c(b, p);
    let d = mix_d(c);
    lemma_round_xor(c, m);
    let e = mix_e(d, m);
    lemma_round_e(d, p);
    let f = mix_f(e);
    lemma_round_xor(e, m);
    lemma_round_xor(f, m);
    let g = mix_g(x, m);
    lemma_round_xor(x, m);
    let f2 = mix_f(g);
    lemma_round_xor(g, m);
    let e2 = unmix_e(f2, m);
    lemma_round_e(f2, p);
    let d2 = unmix_d(e2);
    lemma_round_xor(e2, m);
    let c2 = unmix_c(d2, m);
    lemma_round_c(d2, p);
    let b2 = unmix_b(c2);
    lemma_round_xor(c2, m);
    lemma_round_a(b2, p);
}

/// The base-4 number of a window of `n` symbols is below `4^n`.
proof fn lemma_raw_code_bound(s: Seq<u8>)
    ensures
        raw_code(s) < pow2(2 * s.len()),
    decreases s.len(),
{
    if s.len() == 0 {
        lemma2_to64();
    } else {
        let pre = s.drop_last();
        lemma_raw_code_bound(pre);
        lemma_pow2_adds(2 * pre.len(), 2);
        lemma2_to64();
        assert(base_code(s.last()) < 4);
    }
}

/// Distinct windows of at most 16 canonical symbols, of the same length, have
/// distinct hashes: the base-4 number fits in 32 bits and the finalizer is a
/// bijection.
pub proof fn lemma_kmer_hash_injective(s1: Seq<u8>, s2: Seq<u8>)
    requires
        s1.len() == s2.len(),
        s1.len() <= 16,
        all_bases(s1),
        all_bases(s2),
        kmer_hash(s1) == kmer_hash(s2),
    ensures
        s1 == s2,
{
    lemma_raw_code_bound(s1);
    lemma_raw_code_bound(s2);
    if s1.len() < 16 {
        lemma_pow2_strictly_increases(2 * s1.len(), 32);
    }
    lemma2_to64();
    let x1 = (raw_code(s1) % 0x1_0000_0000) as u32;
    let x2 = (raw_code(s2) % 0x1_0000_0000) as u32;
    assert(x1 & mask(32) == x1) by (bit_vector);
    assert(x2 & mask(32) == x2) by (bit_vector);
    lemma_mix_bijective(x1, 32);
    lemma_mix_bijective(x2, 32);
    assert(x1 == x2);
    assert(raw_code(s1) == raw_code(s2));
    lemma_raw_code_injective(s1, s2);
}

} // verus!
