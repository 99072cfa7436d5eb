//! Tests for the SipHash engines: every output is checked against a plain,
//! unoptimized restatement of the algorithm and against pinned vectors.

use siphasher::sip128::Hash128;
use siphasher::sip128::Hasher128;
use siphasher::sip128::SipHasher;
use siphasher::sip128::SipHasher13;
use siphasher::sip128::SipHasher24;

/// One mixing round, restated directly.
fn ref_round(v: &mut [u64; 4]) {
    v[0] = v[0].wrapping_add(v[1]);
    v[1] = v[1].rotate_left(13);
    v[1] ^= v[0];
    v[0] = v[0].rotate_left(32);
    v[2] = v[2].wrapping_add(v[3]);
    v[3] = v[3].rotate_left(16);
    v[3] ^= v[2];
    v[0] = v[0].wrapping_add(v[3]);
    v[3] = v[3].rotate_left(21);
    v[3] ^= v[0];
    v[2] = v[2].wrapping_add(v[1]);
    v[1] = v[1].rotate_left(17);
    v[1] ^= v[2];
    v[2] = v[2].rotate_left(32);
}

/// A straightforward one-shot restatement of the whole hash: initialize from
/// the keys, absorb each complete 8-byte word, build the finalization block
/// from the length byte and the tail, run both finalization phases.
fn ref_hash128(k0: u64, k1: u64, msg: &[u8], c: usize, d: usize) -> (u64, u64) {
    let mut v = [
        k0 ^ 0x736f6d6570736575,
        k1 ^ 0x646f72616e646f83,
        k0 ^ 0x6c7967656e657261,
        k1 ^ 0x7465646279746573,
    ];
    let nblocks = msg.len() - msg.len() % 8;
    for block in 0..nblocks / 8 {
        let mut w: u64 = 0;
        for j in 0..8 {
            w |= (msg[block * 8 + j] as u64) << (8 * j);
        }
        v[3] ^= w;
        for _ in 0..c {
            ref_round(&mut v);
        }
        v[0] ^= w;
    }
    let mut tail: u64 = 0;
    for j in nblocks..msg.len() {
        tail |= (msg[j] as u64) << (8 * (j - nblocks));
    }
    let b = ((msg.len() as u64 & 0xff) << 56) | tail;
    v[3] ^= b;
    for _ in 0..c {
        ref_round(&mut v);
    }
    v[0] ^= b;
    v[2] ^= 0xee;
    for _ in 0..d {
        ref_round(&mut v);
    }
    let h1 = v[0] ^ v[1] ^ v[2] ^ v[3];
    v[1] ^= 0xdd;
    for _ in 0..d {
        ref_round(&mut v);
    }
    let h2 = v[0] ^ v[1] ^ v[2] ^ v[3];
    (h1, h2)
}

fn hash13(k0: u64, k1: u64, msg: &[u8]) -> Hash128 {
    let mut h = SipHasher13::new_with_keys(k0, k1);
    h.write(msg);
    h.finish128()
}

fn hash24(k0: u64, k1: u64, msg: &[u8]) -> Hash128 {
    let mut h = SipHasher24::new_with_keys(k0, k1);
    h.write(msg);
    h.finish128()
}

#[test]
fn empty_input_with_zero_keys_is_pinned() {
    let h = SipHasher13::new().finish128();
    assert_eq!(h.h1, 0x2134935d61d9b40d);
    assert_eq!(h.h2, 0xb91c5ed031fb3303);
    assert_eq!(SipHasher13::new().finish(), 0xb91c5ed031fb3303);

    let h = SipHasher24::new().finish128();
    assert_eq!(h.h1, 0x7de0a38047d74950);
    assert_eq!(h.h2, 0xf4f2ced447ab0242);
    assert_eq!(SipHasher24::new().finish(), 0xf4f2ced447ab0242);

    let (r1, r2) = ref_hash128(0, 0, &[], 1, 3);
    assert_eq!((r1, r2), (0x2134935d61d9b40d, 0xb91c5ed031fb3303));
    let (r1, r2) = ref_hash128(0, 0, &[], 2, 4);
    assert_eq!((r1, r2), (0x7de0a38047d74950, 0xf4f2ced447ab0242));
}

const K0: u64 = 0x0706050403020100;
const K1: u64 = 0x0f0e0d0c0b0a0908;

fn pinned13() -> Vec<(usize, u64, u64)> {
    vec![
    (0, 0xbea58827b2bc7ee7, 0x013030dd6adb62fd),
    (1, 0xa8edd36004376ffc, 0x63f02f2bcc73055e),
    (7, 0xc3e0aaf223b98410, 0x77ab4808c82e2fa6),
    (8, 0xb4dae3d5e1fe12aa, 0x99c7f935ab164f72),
    (9, 0x9439f32c04b8dd81, 0x427c1394000e72f4),
    (15, 0x6c52bdb205557ec1, 0x09017e1eeccd2129),
    (16, 0xeb8e511557d9a8d0, 0x93179e3df8b013b5),
        (17, 0x8d66bb3ff9264123, 0xecf7bdfee8125197),
    ]
}

fn pinned24() -> Vec<(usize, u64, u64)> {
    vec![
    (0, 0xe6a825ba047f81a3, 0x930255c71472f66d),
    (1, 0x44af996bd8c187da, 0x45fc229b11597634),
    (7, 0x53c1dbd8beebf1a1, 0x3982f01fa64ab8c0),
    (8, 0x61f55862baa9623b, 0xb49714f364e2830f),
    (9, 0xabbad90a06994426, 0xed716dbb028b7fc4),
    (15, 0x11a8b03399e99354, 0xd9c3cf970fec087e),
    (16, 0xbb54b067caa4e26e, 0x77052385bf1533fd),
        (17, 0x98b88d73e8063d47, 0x4077e47ac466c054),
    ]
}

fn bytes_up_to(len: usize) -> Vec<u8> {
    (0..len as u8).collect()
}

#[test]
fn boundary_lengths_match_reference_13() {
    for &(len, h1, h2) in pinned13().iter() {
        let msg = bytes_up_to(len);
        let got = hash13(K0, K1, &msg);
        assert_eq!((got.h1, got.h2), (h1, h2), "length {}", len);
        assert_eq!(ref_hash128(K0, K1, &msg, 1, 3), (h1, h2), "length {}", len);
    }
}

#[test]
fn boundary_lengths_match_reference_24() {
    for &(len, h1, h2) in pinned24().iter() {
        let msg = bytes_up_to(len);
        let got = hash24(K0, K1, &msg);
        assert_eq!((got.h1, got.h2), (h1, h2), "length {}", len);
        assert_eq!(ref_hash128(K0, K1, &msg, 2, 4), (h1, h2), "length {}", len);
    }
}

#[test]
fn chunking_invariance_every_split() {
    let msg = bytes_up_to(25);
    let whole = hash24(K0, K1, &msg);
    for cut in 0..=msg.len() {
        let mut h = SipHasher24::new_with_keys(K0, K1);
        h.write(&msg[..cut]);
        h.write(&msg[cut..]);
        let split = h.finish128();
        assert_eq!((split.h1, split.h2), (whole.h1, whole.h2), "cut {}", cut);
    }
}

#[test]
fn chunking_invariance_byte_at_a_time() {
    let msg = bytes_up_to(25);
    let whole = hash13(K0, K1, &msg);
    let mut h = SipHasher13::new_with_keys(K0, K1);
    for b in msg.iter() {
        h.write(&[*b]);
    }
    let pieces = h.finish128();
    assert_eq!((pieces.h1, pieces.h2), (whole.h1, whole.h2));
}

#[test]
fn chunking_invariance_uneven_pieces() {
    let msg = bytes_up_to(40);
    let whole = hash24(K0, K1, &msg);
    let mut h = SipHasher24::new_with_keys(K0, K1);
    // Pieces chosen to land inside, on, and across block boundaries.
    for piece in [&msg[0..3], &msg[3..3], &msg[3..11], &msg[11..12], &msg[12..29], &msg[29..40]] {
        h.write(piece);
    }
    let split = h.finish128();
    assert_eq!((split.h1, split.h2), (whole.h1, whole.h2));
}

#[test]
fn determinism() {
    let msg = bytes_up_to(19);
    let a = hash24(K0, K1, &msg);
    let b = hash24(K0, K1, &msg);
    assert_eq!((a.h1, a.h2), (b.h1, b.h2));
    let mut x = SipHasher13::new_with_keys(K0, K1);
    x.write(&msg);
    let mut y = SipHasher13::new_with_keys(K0, K1);
    y.write(&msg);
    assert_eq!(x.finish(), y.finish());
    assert_eq!(x.finish(), x.finish());
}

#[test]
fn key_sensitivity() {
    let msg = bytes_up_to(11);
    let base = hash24(K0, K1, &msg);
    for (k0, k1) in [(K0 ^ 1, K1), (K0, K1 ^ 1), (K0 ^ (1 << 63), K1), (K0, K1 ^ (1 << 63)), (0, 0)]
    {
        let other = hash24(k0, k1, &msg);
        assert_ne!((base.h1, base.h2), (other.h1, other.h2));
    }
    let base13 = hash13(K0, K1, &msg);
    let other13 = hash13(K0 ^ 2, K1, &msg);
    assert_ne!((base13.h1, base13.h2), (other13.h1, other13.h2));
}

#[test]
fn finish_matches_second_half_of_finish128() {
    for len in [0, 1, 7, 8, 9, 15, 16, 17, 23] {
        let msg = bytes_up_to(len);
        let mut h = SipHasher24::new_with_keys(K0, K1);
        h.write(&msg);
        assert_eq!(h.finish(), h.clone().finish128().h2);
        let mut h = SipHasher13::new_with_keys(K0, K1);
        h.write(&msg);
        assert_eq!(h.finish(), h.clone().finish128().h2);
        let mut h = SipHasher::new_with_keys(K0, K1);
        h.write(&msg);
        assert_eq!(h.finish(), h.clone().finish128().h2);
    }
}

#[test]
fn clone_equivalence() {
    let prefix = bytes_up_to(13);
    let suffix_a: Vec<u8> = (50..71u8).collect();
    let suffix_b: Vec<u8> = (80..95u8).collect();

    let mut original = SipHasher24::new_with_keys(K0, K1);
    original.write(&prefix);
    let mut copy = original.clone();

    original.write(&suffix_a);
    copy.write(&suffix_b);
    let ha = original.finish128();
    let hb = copy.finish128();
    assert_ne!((ha.h1, ha.h2), (hb.h1, hb.h2));

    let mut full_a: Vec<u8> = prefix.clone();
    full_a.extend_from_slice(&suffix_a);
    let scratch_a = hash24(K0, K1, &full_a);
    assert_eq!((ha.h1, ha.h2), (scratch_a.h1, scratch_a.h2));

    let mut full_b: Vec<u8> = prefix.clone();
    full_b.extend_from_slice(&suffix_b);
    let scratch_b = hash24(K0, K1, &full_b);
    assert_eq!((hb.h1, hb.h2), (scratch_b.h1, scratch_b.h2));
}

#[test]
fn round_trip_serialization() {
    for len in [0, 5, 8, 21] {
        let msg = bytes_up_to(len);
        let h = hash24(K0, K1, &msg);
        let bytes = h.into_bytes();
        assert_eq!(bytes.len(), 16);
        let mut lo = [0u8; 8];
        let mut hi = [0u8; 8];
        lo.copy_from_slice(&bytes[0..8]);
        hi.copy_from_slice(&bytes[8..16]);
        assert_eq!(u64::from_le_bytes(lo), h.h1);
        assert_eq!(u64::from_le_bytes(hi), h.h2);
    }
    let bytes = Hash128 { h1: 0x0123456789abcdef, h2: 0xfedcba9876543210 }.into_bytes();
    assert_eq!(
        bytes,
        vec![0xef, 0xcd, 0xab, 0x89, 0x67, 0x45, 0x23, 0x01, 0x10, 0x32, 0x54, 0x76, 0x98, 0xba,
            0xdc, 0xfe]
    );
}

#[test]
fn reset_discards_absorbed_data() {
    let mut h = siphasher::sip128::Hasher::<siphasher::sip128::Sip24Rounds>::new_with_keys(K0, K1);
    h.write(&bytes_up_to(33));
    h.reset();
    let after_reset = h.finish128();
    let fresh = siphasher::sip128::Hasher::<siphasher::sip128::Sip24Rounds>::new_with_keys(K0, K1)
        .finish128();
    assert_eq!((after_reset.h1, after_reset.h2), (fresh.h1, fresh.h2));
}

#[test]
fn default_matches_zero_keys() {
    let d = SipHasher24::default().finish128();
    let z = SipHasher24::new().finish128();
    assert_eq!((d.h1, d.h2), (z.h1, z.h2));
    assert_eq!(SipHasher13::default().finish(), SipHasher13::new().finish());
    assert_eq!(SipHasher::default().finish(), SipHasher::new().finish());
}

#[test]
fn siphasher_is_the_two_four_variant() {
    let msg = bytes_up_to(17);
    let mut h = SipHasher::new_with_keys(K0, K1);
    h.write(&msg);
    let got = h.finish128();
    let expect = hash24(K0, K1, &msg);
    assert_eq!((got.h1, got.h2), (expect.h1, expect.h2));
}

fn finish128_through_trait<T: Hasher128>(h: &T) -> Hash128 {
    h.finish128()
}

#[test]
fn trait_and_inherent_outputs_agree() {
    let msg = bytes_up_to(9);
    let mut a = SipHasher13::new_with_keys(K0, K1);
    a.write(&msg);
    let via_trait = finish128_through_trait(&a);
    let direct = hash13(K0, K1, &msg);
    assert_eq!((via_trait.h1, via_trait.h2), (direct.h1, direct.h2));
}
