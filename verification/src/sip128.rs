//! A streaming SipHash engine with 64-bit and 128-bit outputs.
//!
//! SipHash is a keyed pseudorandom function over byte streams. It is a good
//! general-purpose hasher for keying hash tables, but it is not meant for
//! cryptographic purposes.
//!
//! The engine absorbs arbitrary byte slices incrementally, eight bytes at a
//! time, buffering up to seven leftover bytes between calls, and finalizes
//! to either a 64-bit or a 128-bit output. The whole computation is specified
//! by the pure function [`spec_hash128`] of the two keys and the absorbed
//! message, and every operation on the engine is verified against it; in
//! particular, the output depends only on the concatenation of the absorbed
//! slices, never on how the message was split across calls.

use crate::words::le_nat;
use crate::words::lemma_le_nat_bound;
use crate::words::lemma_le_nat_snoc;
use crate::words::load_word_le;
use crate::words::push_byte;
use crate::words::word_to_le_bytes;
use core::marker::PhantomData;
use vstd::prelude::*;

verus! {

/// The four 64-bit words of the permutation state.
///
/// `v0, v2` and `v1, v3` appear in pairs in the mixing round, so they are
/// laid out in that order.
#[derive(Clone, Copy, Debug)]
pub struct State {
    pub v0: u64,
    pub v2: u64,
    pub v1: u64,
    pub v3: u64,
}

/// One mixing round of the permutation: a fixed add-rotate-xor network over
/// the four state words, with all additions wrapping modulo 2^64.
pub open spec fn sip_round(s: State) -> State {
    let v0a = s.v0.wrapping_add(s.v1);
    let v1a = ((s.v1 << 13u64) | (s.v1 >> 51u64)) ^ v0a;
    let v0b = (v0a << 32u64) | (v0a >> 32u64);
    let v2a = s.v2.wrapping_add(s.v3);
    let v3a = ((s.v3 << 16u64) | (s.v3 >> 48u64)) ^ v2a;
    let v0c = v0b.wrapping_add(v3a);
    let v3b = ((v3a << 21u64) | (v3a >> 43u64)) ^ v0c;
    let v2b = v2a.wrapping_add(v1a);
    let v1b = ((v1a << 17u64) | (v1a >> 47u64)) ^ v2b;
    let v2c = (v2b << 32u64) | (v2b >> 32u64);
    State { v0: v0c, v1: v1b, v2: v2c, v3: v3b }
}

/// `n` mixing rounds applied in sequence.
pub open spec fn spec_rounds(s: State, n: nat) -> State
    decreases n,
{
    if n == 0 {
        s
    } else {
        sip_round(spec_rounds(s, (n - 1) as nat))
    }
}

/// One more round on top of `n` rounds is `n + 1` rounds.
proof fn lemma_rounds_step(s: State, n: nat)
    ensures
        spec_rounds(s, n + 1) == sip_round(spec_rounds(s, n)),
{
}

/// Applies one mixing round to the state in place.
fn compress(state: &mut State)
    ensures
        *final(state) == sip_round(*old(state)),
{
    let mut v0 = state.v0;
    let mut v1 = state.v1;
    let mut v2 = state.v2;
    let mut v3 = state.v3;
    v0 = v0.wrapping_add(v1);
    v1 = (v1 << 13u64) | (v1 >> 51u64);
    v1 = v1 ^ v0;
    v0 = (v0 << 32u64) | (v0 >> 32u64);
    v2 = v2.wrapping_add(v3);
    v3 = (v3 << 16u64) | (v3 >> 48u64);
    v3 = v3 ^ v2;
    v0 = v0.wrapping_add(v3);
    v3 = (v3 << 21u64) | (v3 >> 43u64);
    v3 = v3 ^ v0;
    v2 = v2.wrapping_add(v1);
    v1 = (v1 << 17u64) | (v1 >> 47u64);
    v1 = v1 ^ v2;
    v2 = (v2 << 32u64) | (v2 >> 32u64);
    state.v0 = v0;
    state.v1 = v1;
    state.v2 = v2;
    state.v3 = v3;
}

/// The keyed initial state: each key is folded into two state words through
/// fixed constants of the algorithm family.
pub open spec fn init_state(k0: u64, k1: u64) -> State {
    State {
        v0: k0 ^ 0x736f6d6570736575,
        v1: k1 ^ 0x646f72616e646f83,
        v2: k0 ^ 0x6c7967656e657261,
        v3: k1 ^ 0x7465646279746573,
    }
}

/// Absorbing one 64-bit message word: fold it into `v3`, mix for `c` rounds,
/// fold it into `v0`.
pub open spec fn spec_absorb(s: State, m: u64, c: nat) -> State {
    let mixed = spec_rounds(State { v0: s.v0, v1: s.v1, v2: s.v2, v3: s.v3 ^ m }, c);
    State { v0: mixed.v0 ^ m, v1: mixed.v1, v2: mixed.v2, v3: mixed.v3 }
}

/// Absorbing a message word by word: each group of eight bytes is read as a
/// little-endian word and absorbed; fewer than eight leftover bytes are
/// ignored here (they only enter at finalization).
pub open spec fn absorb_blocks(s: State, m: Seq<u8>, c: nat) -> State
    decreases m.len(),
{
    if m.len() < 8 {
        s
    } else {
        absorb_blocks(spec_absorb(s, le_nat(m.take(8)) as u64, c), m.skip(8), c)
    }
}

/// The complete blocks of a message: everything except the trailing
/// `len % 8` bytes.
pub open spec fn msg_blocks(m: Seq<u8>) -> Seq<u8> {
    m.take(m.len() as int - (m.len() % 8) as int)
}

/// The trailing `len % 8` bytes of a message, which never fill a block.
pub open spec fn msg_tail(m: Seq<u8>) -> Seq<u8> {
    m.skip(m.len() as int - (m.len() % 8) as int)
}

/// The state after absorbing all complete blocks of `m` into the keyed
/// initial state.
pub open spec fn spec_state_after(k0: u64, k1: u64, m: Seq<u8>, c: nat) -> State {
    absorb_blocks(init_state(k0, k1), msg_blocks(m), c)
}

/// The finalization block: the low byte of the message length in the top
/// byte of the word, over the left-over tail bytes packed little-endian.
pub open spec fn spec_final_word(m: Seq<u8>) -> u64 {
    (((m.len() % 256) as u64) << 56u64) | (le_nat(msg_tail(m)) as u64)
}

/// The 128-bit hash of message `m` under keys `k0, k1`, with `c` mixing
/// rounds per absorbed word and `d` rounds per finalization phase.
///
/// After the finalization block is absorbed, the first half comes from
/// folding `0xee` into `v2` and mixing `d` rounds; the second half continues
/// from that same state, folding `0xdd` into `v1` and mixing `d` rounds
/// again. The two halves are one coupled 128-bit value, not two separate
/// hashes.
pub open spec fn spec_hash128(k0: u64, k1: u64, m: Seq<u8>, c: nat, d: nat) -> (u64, u64) {
    let b = spec_final_word(m);
    let s1 = spec_absorb(spec_state_after(k0, k1, m, c), b, c);
    let s2 = spec_rounds(State { v0: s1.v0, v1: s1.v1, v2: s1.v2 ^ 0xee, v3: s1.v3 }, d);
    let h1 = s2.v0 ^ s2.v1 ^ s2.v2 ^ s2.v3;
    let s3 = spec_rounds(State { v0: s2.v0, v1: s2.v1 ^ 0xdd, v2: s2.v2, v3: s2.v3 }, d);
    let h2 = s3.v0 ^ s3.v1 ^ s3.v2 ^ s3.v3;
    (h1, h2)
}

/// The 64-bit hash of message `m` under keys `k0, k1`: the same finalization
/// as the 128-bit hash, carried through both phases, keeping only the word
/// produced after the second one.
pub open spec fn spec_hash64(k0: u64, k1: u64, m: Seq<u8>, c: nat, d: nat) -> u64 {
    let b = spec_final_word(m);
    let s1 = spec_absorb(spec_state_after(k0, k1, m, c), b, c);
    let s2 = spec_rounds(State { v0: s1.v0, v1: s1.v1, v2: s1.v2 ^ 0xee, v3: s1.v3 }, d);
    let s3 = spec_rounds(State { v0: s2.v0, v1: s2.v1 ^ 0xdd, v2: s2.v2, v3: s2.v3 }, d);
    s3.v0 ^ s3.v1 ^ s3.v2 ^ s3.v3
}

/// The 64-bit hash is exactly the second half of the 128-bit hash computed
/// from the same keys and message: the two entry points are consistent.
pub proof fn lemma_hash64_is_second_half(k0: u64, k1: u64, m: Seq<u8>, c: nat, d: nat)
    ensures
        spec_hash64(k0, k1, m, c, d) == spec_hash128(k0, k1, m, c, d).1,
{
}

/// Splitting a message anywhere and absorbing the two pieces in order gives
/// the hash of the whole message: chunking does not matter, only the
/// concatenation of the absorbed bytes does.
pub proof fn lemma_chunking_invariance(k0: u64, k1: u64, m: Seq<u8>, cut: int, c: nat, d: nat)
    requires
        0 <= cut <= m.len(),
    ensures
        spec_hash128(k0, k1, m.subrange(0, cut) + m.subrange(cut, m.len() as int), c, d)
            == spec_hash128(k0, k1, m, c, d),
{
    assert(m.subrange(0, cut) + m.subrange(cut, m.len() as int) =~= m);
}

/// Absorbing the blocks of `p + w`, where `p` is complete blocks and `w` is
/// one more block, absorbs the blocks of `p` and then the word of `w`.
proof fn lemma_absorb_blocks_snoc(s: State, p: Seq<u8>, w: Seq<u8>, c: nat)
    requires
        p.len() % 8 == 0,
        w.len() == 8,
    ensures
        absorb_blocks(s, p + w, c) == spec_absorb(absorb_blocks(s, p, c), le_nat(w) as u64, c),
    decreases p.len(),
{
    if p.len() == 0 {
        assert(p + w =~= w);
        assert(w.take(8) =~= w);
        assert(w.skip(8) =~= Seq::<u8>::empty());
        assert(absorb_blocks(s, w, c) == absorb_blocks(
            spec_absorb(s, le_nat(w) as u64, c),
            w.skip(8),
            c,
        ));
    } else {
        assert(p.len() >= 8) by {
            vstd::arithmetic::div_mod::lemma_mod_multiples_vanish(1, p.len() as int - 8, 8);
        }
        let first = p.take(8);
        let rest = p.skip(8);
        assert((p + w).take(8) =~= first);
        assert((p + w).skip(8) =~= rest + w);
        assert(rest.len() % 8 == 0) by {
            vstd::arithmetic::div_mod::lemma_mod_multiples_vanish(1, p.len() as int - 8, 8);
        }
        lemma_absorb_blocks_snoc(spec_absorb(s, le_nat(first) as u64, c), rest, w, c);
    }
}

/// The round policy of a SipHash variant: how many mixing rounds run after
/// each absorbed word (`c_count`) and in each finalization phase
/// (`d_count`).
pub trait Sip: Sized {
    /// The number of mixing rounds per absorbed word.
    spec fn c_count() -> nat;

    /// The number of mixing rounds per finalization phase.
    spec fn d_count() -> nat;

    /// Runs the per-word mixing rounds on the state.
    fn c_rounds(state: &mut State)
        ensures
            *final(state) == spec_rounds(*old(state), Self::c_count()),
    ;

    /// Runs the per-finalization-phase mixing rounds on the state.
    fn d_rounds(state: &mut State)
        ensures
            *final(state) == spec_rounds(*old(state), Self::d_count()),
    ;
}

/// The round policy of SipHash 1-3: one round per word, three per
/// finalization phase.
#[derive(Clone, Copy, Debug, Default)]
pub struct Sip13Rounds;

impl Sip for Sip13Rounds {
    open spec fn c_count() -> nat {
        1
    }

    open spec fn d_count() -> nat {
        3
    }

    fn c_rounds(state: &mut State) {
        let ghost s0 = *old(state);
        compress(state);
        proof {
            lemma_rounds_step(s0, 0);
        }
    }

    fn d_rounds(state: &mut State) {
        let ghost s0 = *old(state);
        compress(state);
        compress(state);
        compress(state);
        proof {
            lemma_rounds_step(s0, 0);
            lemma_rounds_step(s0, 1);
            lemma_rounds_step(s0, 2);
        }
    }
}

/// The round policy of SipHash 2-4: two rounds per word, four per
/// finalization phase.
#[derive(Clone, Copy, Debug, Default)]
pub struct Sip24Rounds;

impl Sip for Sip24Rounds {
    open spec fn c_count() -> nat {
        2
    }

    open spec fn d_count() -> nat {
        4
    }

    fn c_rounds(state: &mut State) {
        let ghost s0 = *old(state);
        compress(state);
        compress(state);
        proof {
            lemma_rounds_step(s0, 0);
            lemma_rounds_step(s0, 1);
        }
    }

    fn d_rounds(state: &mut State) {
        let ghost s0 = *old(state);
        compress(state);
        compress(state);
        compress(state);
        compress(state);
        proof {
            lemma_rounds_step(s0, 0);
            lemma_rounds_step(s0, 1);
            lemma_rounds_step(s0, 2);
            lemma_rounds_step(s0, 3);
        }
    }
}

/// Absorbs one message word into the state under round policy `S`.
fn absorb<S: Sip>(state: &mut State, m: u64)
    ensures
        *final(state) == spec_absorb(*old(state), m, S::c_count()),
{
    state.v3 = state.v3 ^ m;
    S::c_rounds(state);
    state.v0 = state.v0 ^ m;
}

/// What an engine abstractly is: its two keys and the message absorbed so
/// far, as one byte sequence.
pub ghost struct HasherView {
    pub k0: u64,
    pub k1: u64,
    pub msg: Seq<u8>,
}

/// A streaming SipHash engine under round policy `S`.
///
/// The engine owns the key material, the running byte count, the permutation
/// state, and a buffer of up to seven message bytes that do not yet fill a
/// block, packed little-endian into a word.
pub struct Hasher<S: Sip> {
    k0: u64,
    k1: u64,
    length: u64,
    state: State,
    tail: u64,
    ntail: usize,
    msg: Ghost<Seq<u8>>,
    _marker: PhantomData<S>,
}

impl<S: Sip> Clone for Hasher<S> {
    /// A clone is equal to the original in every field, so it continues
    /// absorption and finalizes exactly as the original would at the point
    /// of cloning.
    fn clone(&self) -> (r: Self)
        ensures
            r == *self,
    {
        Hasher {
            k0: self.k0,
            k1: self.k1,
            length: self.length,
            state: self.state,
            tail: self.tail,
            ntail: self.ntail,
            msg: Ghost(self.msg@),
            _marker: PhantomData,
        }
    }
}

impl<S: Sip> View for Hasher<S> {
    type V = HasherView;

    closed spec fn view(&self) -> HasherView {
        HasherView { k0: self.k0, k1: self.k1, msg: self.msg@ }
    }
}

impl<S: Sip> Hasher<S> {
    /// The engine's invariant: every absorbed byte is accounted for exactly
    /// once. The state holds the absorbed complete blocks, the tail buffer
    /// holds the remaining `len % 8` bytes packed little-endian, and the
    /// length counter holds the total byte count modulo 2^64.
    pub closed spec fn wf(&self) -> bool {
        let m = self.msg@;
        &&& self.ntail as nat == m.len() % 8
        &&& self.tail as nat == le_nat(msg_tail(m))
        &&& self.length as nat == m.len() % 0x1_0000_0000_0000_0000
        &&& self.state == spec_state_after(self.k0, self.k1, m, S::c_count())
    }

    /// Creates an engine keyed off the two given keys, with nothing absorbed.
    pub fn new_with_keys(key0: u64, key1: u64) -> (r: Hasher<S>)
        ensures
            r.wf(),
            r@ == (HasherView { k0: key0, k1: key1, msg: Seq::<u8>::empty() }),
    {
        let mut h = Hasher {
            k0: key0,
            k1: key1,
            length: 0,
            state: State { v0: 0, v1: 0xee, v2: 0, v3: 0 },
            tail: 0,
            ntail: 0,
            msg: Ghost(Seq::empty()),
            _marker: PhantomData,
        };
        h.reset();
        h
    }

    /// Returns the engine to the freshly keyed state, discarding all
    /// absorbed data but keeping the keys.
    pub fn reset(&mut self)
        ensures
            final(self).wf(),
            final(self)@ == (HasherView {
                k0: old(self)@.k0,
                k1: old(self)@.k1,
                msg: Seq::<u8>::empty(),
            }),
    {
        self.length = 0;
        self.state.v0 = self.k0 ^ 0x736f6d6570736575;
        self.state.v1 = self.k1 ^ 0x646f72616e646f83;
        self.state.v2 = self.k0 ^ 0x6c7967656e657261;
        self.state.v3 = self.k1 ^ 0x7465646279746573;
        self.tail = 0;
        self.ntail = 0;
        self.msg = Ghost(Seq::empty());
        proof {
            let m = Seq::<u8>::empty();
            assert(msg_tail(m) =~= m);
            assert(le_nat(m) == 0);
            assert(msg_blocks(m) =~= m);
        }
    }

    /// Absorbs `input` into the engine. The abstract message grows by
    /// exactly these bytes; since finalization depends only on the abstract
    /// message, any way of chunking a message across calls hashes alike.
    pub fn write(&mut self, input: &[u8])
        requires
            old(self).wf(),
        ensures
            final(self).wf(),
            final(self)@ == (HasherView {
                k0: old(self)@.k0,
                k1: old(self)@.k1,
                msg: old(self)@.msg + input@,
            }),
    {
        let ghost old_msg = self.msg@;
        let ghost n = old_msg.len();
        let ghost m = old_msg + input@;
        let ghost k = n % 8;
        let ghost c = S::c_count();
        let ghost gk0 = self.k0;
        let ghost gk1 = self.k1;
        let ghost wmod = 0x1_0000_0000_0000_0000int;

        let length: usize = input.len();
        proof {
            vstd::arithmetic::div_mod::lemma_small_mod(length as nat, wmod as nat);
            vstd::arithmetic::div_mod::lemma_add_mod_noop(n as int, length as int, wmod);
            if self.length + length > u64::MAX {
                vstd::arithmetic::div_mod::lemma_mod_multiples_vanish(
                    1,
                    self.length + length - wmod,
                    wmod,
                );
                vstd::arithmetic::div_mod::lemma_small_mod(
                    (self.length + length - wmod) as nat,
                    wmod as nat,
                );
            } else {
                vstd::arithmetic::div_mod::lemma_small_mod(
                    (self.length + length) as nat,
                    wmod as nat,
                );
            }
        }
        self.length = self.length.wrapping_add(length as u64);
        self.msg = Ghost(m);

        let mut state = self.state;
        let mut tail = self.tail;
        let mut ntail = self.ntail;
        let mut i: usize = 0;
        let ghost base = (n - k) as int;

        proof {
            assert(self.length as nat == m.len() % 0x1_0000_0000_0000_0000);
            assert(m.take(base) =~= msg_blocks(old_msg));
            assert(m.subrange(base, n as int) =~= msg_tail(old_msg));
            vstd::arithmetic::div_mod::lemma_fundamental_div_mod(n as int, 8);
            vstd::arithmetic::div_mod::lemma_mod_multiples_vanish(n as int / 8, 0, 8);
        }

        if ntail != 0 {
            let needed: usize = 8 - ntail;
            if length < needed {
                // Too few bytes to complete a block: they all go to the tail.
                let mut j: usize = 0;
                while j < length
                    invariant
                        j <= length,
                        length == input@.len(),
                        m == old_msg + input@,
                        n == old_msg.len(),
                        k == n % 8,
                        base == n - k,
                        k + length < 8,
                        ntail as nat == k + j,
                        tail as nat == le_nat(m.subrange(base, (n + j) as int)),
                    decreases length - j,
                {
                    let ghost sofar = m.subrange(base, (n + j) as int);
                    proof {
                        lemma_le_nat_bound(sofar);
                    }
                    tail = push_byte(tail, input[j], ntail);
                    proof {
                        lemma_le_nat_snoc(sofar, input@[j as int]);
                        assert(m.subrange(base, (n + j + 1) as int) =~= sofar.push(
                            input@[j as int],
                        ));
                    }
                    ntail += 1;
                    j += 1;
                }
                self.tail = tail;
                self.ntail = ntail;
                proof {
                    vstd::arithmetic::div_mod::lemma_fundamental_div_mod(n as int, 8);
                    vstd::arithmetic::div_mod::lemma_mod_multiples_vanish(
                        n as int / 8,
                        (k + length) as int,
                        8,
                    );
                    vstd::arithmetic::div_mod::lemma_small_mod((k + length) as nat, 8);
                    assert(m.len() % 8 == k + length);
                    assert(msg_tail(m) =~= m.subrange(base, (n + length) as int));
                    assert(msg_blocks(m) =~= msg_blocks(old_msg));
                }
                return ;
            }
            // Complete the buffered block with the first `needed` input bytes
            // and absorb it.
            let mut j: usize = 0;
            while j < needed
                invariant
                    j <= needed,
                    needed == 8 - k,
                    1 <= needed <= 7,
                    needed <= length,
                    length == input@.len(),
                    m == old_msg + input@,
                    n == old_msg.len(),
                    k == n % 8,
                    base == n - k,
                    ntail as nat == k + j,
                    tail as nat == le_nat(m.subrange(base, (n + j) as int)),
                decreases needed - j,
            {
                let ghost sofar = m.subrange(base, (n + j) as int);
                proof {
                    lemma_le_nat_bound(sofar);
                }
                tail = push_byte(tail, input[j], ntail);
                proof {
                    lemma_le_nat_snoc(sofar, input@[j as int]);
                    assert(m.subrange(base, (n + j + 1) as int) =~= sofar.push(input@[j as int]));
                }
                ntail += 1;
                j += 1;
            }
            proof {
                assert((n + needed) as int == base + 8);
                lemma_absorb_blocks_snoc(
                    init_state(gk0, gk1),
                    m.take(base),
                    m.subrange(base, base + 8),
                    c,
                );
                assert(m.take(base + 8) =~= m.take(base) + m.subrange(base, base + 8));
            }
            absorb::<S>(&mut state, tail);
            tail = 0;
            ntail = 0;
            i = needed;
            proof {
                vstd::arithmetic::div_mod::lemma_mod_multiples_vanish(1, base, 8);
                assert((n + i) % 8 == 0);
            }
        } else {
            proof {
                assert(k == 0);
                assert(msg_tail(old_msg) =~= Seq::<u8>::empty());
                assert(le_nat(Seq::<u8>::empty()) == 0);
            }
        }
        // Absorb the remaining complete blocks straight from the input.
        while length - i >= 8
            invariant
                i <= length,
                length == input@.len(),
                m == old_msg + input@,
                n == old_msg.len(),
                c == S::c_count(),
                (n + i) % 8 == 0,
                state == absorb_blocks(init_state(gk0, gk1), m.take((n + i) as int), c),
                tail == 0,
                ntail == 0,
            decreases length - i,
        {
            let w = load_word_le(input, i);
            proof {
                assert(m.subrange((n + i) as int, (n + i) as int + 8) =~= input@.subrange(
                    i as int,
                    i as int + 8,
                ));
                lemma_absorb_blocks_snoc(
                    init_state(gk0, gk1),
                    m.take((n + i) as int),
                    m.subrange((n + i) as int, (n + i) as int + 8),
                    c,
                );
                assert(m.take((n + i) as int + 8) =~= m.take((n + i) as int) + m.subrange(
                    (n + i) as int,
                    (n + i) as int + 8,
                ));
                vstd::arithmetic::div_mod::lemma_mod_multiples_vanish(1, (n + i) as int, 8);
            }
            absorb::<S>(&mut state, w);
            i += 8;
        }
        // Pack the trailing bytes, fewer than eight, into the tail buffer.
        let ghost done = n + i;
        proof {
            assert(m.subrange(done as int, done as int) =~= Seq::<u8>::empty());
            assert(le_nat(Seq::<u8>::empty()) == 0);
        }
        while i < length
            invariant
                i <= length,
                length == input@.len(),
                m == old_msg + input@,
                n == old_msg.len(),
                c == S::c_count(),
                done % 8 == 0,
                done <= n + i,
                n + length < done + 8,
                ntail as nat == (n + i) - done,
                tail as nat == le_nat(m.subrange(done as int, (n + i) as int)),
                state == absorb_blocks(init_state(gk0, gk1), m.take(done as int), c),
            decreases length - i,
        {
            let ghost sofar = m.subrange(done as int, (n + i) as int);
            proof {
                lemma_le_nat_bound(sofar);
            }
            tail = push_byte(tail, input[i], ntail);
            proof {
                lemma_le_nat_snoc(sofar, input@[i as int]);
                assert(m.subrange(done as int, (n + i + 1) as int) =~= sofar.push(
                    input@[i as int],
                ));
            }
            ntail += 1;
            i += 1;
        }
        self.state = state;
        self.tail = tail;
        self.ntail = ntail;
        proof {
            let r = (n + length) - done;
            vstd::arithmetic::div_mod::lemma_fundamental_div_mod(done as int, 8);
            vstd::arithmetic::div_mod::lemma_mod_multiples_vanish(done as int / 8, r, 8);
            vstd::arithmetic::div_mod::lemma_small_mod(r as nat, 8);
            assert(m.len() % 8 == r);
            assert(msg_tail(m) =~= m.subrange(done as int, m.len() as int));
            assert(msg_blocks(m) =~= m.take(done as int));
        }
    }

    /// Produces the 128-bit hash of everything absorbed so far. Finalization
    /// reads the engine without changing it.
    pub fn finish128(&self) -> (r: Hash128)
        requires
            self.wf(),
        ensures
            r.h1 == spec_hash128(self@.k0, self@.k1, self@.msg, S::c_count(), S::d_count()).0,
            r.h2 == spec_hash128(self@.k0, self@.k1, self@.msg, S::c_count(), S::d_count()).1,
    {
        let ghost m = self.msg@;
        let mut state = self.state;
        let lenbyte: u64 = self.length % 256;
        proof {
            assert(0x1_0000_0000_0000_0000int == 256 * 0x100_0000_0000_0000);
            vstd::arithmetic::div_mod::lemma_mod_mod(m.len() as int, 256, 0x100_0000_0000_0000);
            assert(lenbyte as nat == m.len() % 256);
        }
        let b: u64 = (lenbyte << 56u64) | self.tail;
        proof {
            assert(b == spec_final_word(m));
        }
        absorb::<S>(&mut state, b);
        state.v2 = state.v2 ^ 0xee;
        S::d_rounds(&mut state);
        let h1 = state.v0 ^ state.v1 ^ state.v2 ^ state.v3;
        state.v1 = state.v1 ^ 0xdd;
        S::d_rounds(&mut state);
        let h2 = state.v0 ^ state.v1 ^ state.v2 ^ state.v3;
        Hash128 { h1, h2 }
    }

    /// Produces the 64-bit hash of everything absorbed so far: the second
    /// half of the 128-bit output.
    pub fn finish(&self) -> (r: u64)
        requires
            self.wf(),
        ensures
            r == spec_hash64(self@.k0, self@.k1, self@.msg, S::c_count(), S::d_count()),
    {
        proof {
            lemma_hash64_is_second_half(self@.k0, self@.k1, self@.msg, S::c_count(), S::d_count());
        }
        self.finish128().h2
    }
}

impl<S: Sip> Default for Hasher<S> {
    /// An engine with both keys zero and nothing absorbed.
    fn default() -> (r: Hasher<S>)
        ensures
            r.wf(),
            r@ == (HasherView { k0: 0, k1: 0, msg: Seq::<u8>::empty() }),
    {
        Hasher::new_with_keys(0, 0)
    }
}

/// A 128-bit hash output: two 64-bit words.
#[derive(Clone, Copy, Debug, Default)]
pub struct Hash128 {
    pub h1: u64,
    pub h2: u64,
}

impl Hash128 {
    /// The 16-byte serialization of the hash: `h1` in little-endian order
    /// followed by `h2` in little-endian order. Reading the two halves back
    /// as little-endian words reproduces `h1` and `h2` exactly.
    pub fn into_bytes(&self) -> (r: Vec<u8>)
        ensures
            r@.len() == 16,
            le_nat(r@.subrange(0, 8)) == self.h1,
            le_nat(r@.subrange(8, 16)) == self.h2,
    {
        let mut out = word_to_le_bytes(self.h1);
        let second = word_to_le_bytes(self.h2);
        let mut j: usize = 0;
        proof {
            assert(out@.subrange(0, 8) =~= out@);
            assert(out@.subrange(8, out@.len() as int) =~= second@.subrange(0, 0));
        }
        while j < 8
            invariant
                j <= 8,
                second@.len() == 8,
                le_nat(second@) == self.h2,
                out@.len() == 8 + j,
                le_nat(out@.subrange(0, 8)) == self.h1,
                out@.subrange(8, out@.len() as int) =~= second@.subrange(0, j as int),
            decreases 8 - j,
        {
            let ghost before = out@;
            out.push(second[j]);
            proof {
                assert(out@.subrange(0, 8) =~= before.subrange(0, 8));
                assert(out@.subrange(8, out@.len() as int) =~= second@.subrange(0, j as int + 1));
            }
            j += 1;
        }
        proof {
            assert(out@.subrange(8, 16) =~= second@);
        }
        out
    }
}

/// A hashing engine that can produce a 128-bit output of the message it has
/// absorbed.
pub trait Hasher128 {
    /// Whether the engine's internal invariant holds.
    spec fn inv(&self) -> bool;

    /// The engine's keys and the message it has absorbed so far.
    spec fn hasher_view(&self) -> HasherView;

    /// The engine's per-word mixing round count.
    spec fn c_count_of(&self) -> nat;

    /// The engine's per-finalization-phase mixing round count.
    spec fn d_count_of(&self) -> nat;

    /// Return a 128-bit hash
    fn finish128(&self) -> (r: Hash128)
        requires
            self.inv(),
        ensures
            r.h1 == spec_hash128(
                self.hasher_view().k0,
                self.hasher_view().k1,
                self.hasher_view().msg,
                self.c_count_of(),
                self.d_count_of(),
            ).0,
            r.h2 == spec_hash128(
                self.hasher_view().k0,
                self.hasher_view().k1,
                self.hasher_view().msg,
                self.c_count_of(),
                self.d_count_of(),
            ).1,
    ;
}

/// A streaming SipHash 1-3 engine with 64-bit and 128-bit outputs.
pub struct SipHasher13 {
    hasher: Hasher<Sip13Rounds>,
}

impl View for SipHasher13 {
    type V = HasherView;

    closed spec fn view(&self) -> HasherView {
        self.hasher@
    }
}

impl SipHasher13 {
    /// The engine's internal invariant.
    pub closed spec fn wf(&self) -> bool {
        self.hasher.wf()
    }

    /// Creates a new `SipHasher13` with the two initial keys set to 0.
    pub fn new() -> (r: SipHasher13)
        ensures
            r.wf(),
            r@ == (HasherView { k0: 0, k1: 0, msg: Seq::<u8>::empty() }),
    {
        SipHasher13::new_with_keys(0, 0)
    }

    /// Creates a `SipHasher13` that is keyed off the provided keys.
    pub fn new_with_keys(key0: u64, key1: u64) -> (r: SipHasher13)
        ensures
            r.wf(),
            r@ == (HasherView { k0: key0, k1: key1, msg: Seq::<u8>::empty() }),
    {
        SipHasher13 { hasher: Hasher::new_with_keys(key0, key1) }
    }

    /// Absorbs `input` into the engine.
    pub fn write(&mut self, input: &[u8])
        requires
            old(self).wf(),
        ensures
            final(self).wf(),
            final(self)@ == (HasherView {
                k0: old(self)@.k0,
                k1: old(self)@.k1,
                msg: old(self)@.msg + input@,
            }),
    {
        self.hasher.write(input)
    }

    /// The 64-bit hash of everything absorbed so far.
    pub fn finish(&self) -> (r: u64)
        requires
            self.wf(),
        ensures
            r == spec_hash64(self@.k0, self@.k1, self@.msg, 1, 3),
    {
        self.hasher.finish()
    }
}

impl Clone for SipHasher13 {
    /// A clone continues and finalizes exactly as the original would.
    fn clone(&self) -> (r: Self)
        ensures
            r == *self,
    {
        SipHasher13 { hasher: self.hasher.clone() }
    }
}

impl Default for SipHasher13 {
    /// An engine with both keys zero and nothing absorbed.
    fn default() -> (r: SipHasher13)
        ensures
            r.wf(),
            r@ == (HasherView { k0: 0, k1: 0, msg: Seq::<u8>::empty() }),
    {
        SipHasher13::new()
    }
}

impl Hasher128 for SipHasher13 {
    open spec fn inv(&self) -> bool {
        self.wf()
    }

    open spec fn hasher_view(&self) -> HasherView {
        self@
    }

    open spec fn c_count_of(&self) -> nat {
        1
    }

    open spec fn d_count_of(&self) -> nat {
        3
    }

    /// Return a 128-bit hash
    fn finish128(&self) -> (r: Hash128) {
        self.hasher.finish128()
    }
}

/// A streaming SipHash 2-4 engine with 64-bit and 128-bit outputs.
pub struct SipHasher24 {
    hasher: Hasher<Sip24Rounds>,
}

impl View for SipHasher24 {
    type V = HasherView;

    closed spec fn view(&self) -> HasherView {
        self.hasher@
    }
}

impl SipHasher24 {
    /// The engine's internal invariant.
    pub closed spec fn wf(&self) -> bool {
        self.hasher.wf()
    }

    /// Creates a new `SipHasher24` with the two initial keys set to 0.
    pub fn new() -> (r: SipHasher24)
        ensures
            r.wf(),
            r@ == (HasherView { k0: 0, k1: 0, msg: Seq::<u8>::empty() }),
    {
        SipHasher24::new_with_keys(0, 0)
    }

    /// Creates a `SipHasher24` that is keyed off the provided keys.
    pub fn new_with_keys(key0: u64, key1: u64) -> (r: SipHasher24)
        ensures
            r.wf(),
            r@ == (HasherView { k0: key0, k1: key1, msg: Seq::<u8>::empty() }),
    {
        SipHasher24 { hasher: Hasher::new_with_keys(key0, key1) }
    }

    /// Absorbs `input` into the engine.
    pub fn write(&mut self, input: &[u8])
        requires
            old(self).wf(),
        ensures
            final(self).wf(),
            final(self)@ == (HasherView {
                k0: old(self)@.k0,
                k1: old(self)@.k1,
                msg: old(self)@.msg + input@,
            }),
    {
        self.hasher.write(input)
    }

    /// The 64-bit hash of everything absorbed so far.
    pub fn finish(&self) -> (r: u64)
        requires
            self.wf(),
        ensures
            r == spec_hash64(self@.k0, self@.k1, self@.msg, 2, 4),
    {
        self.hasher.finish()
    }
}

impl Clone for SipHasher24 {
    /// A clone continues and finalizes exactly as the original would.
    fn clone(&self) -> (r: Self)
        ensures
            r == *self,
    {
        SipHasher24 { hasher: self.hasher.clone() }
    }
}

impl Default for SipHasher24 {
    /// An engine with both keys zero and nothing absorbed.
    fn default() -> (r: SipHasher24)
        ensures
            r.wf(),
            r@ == (HasherView { k0: 0, k1: 0, msg: Seq::<u8>::empty() }),
    {
        SipHasher24::new()
    }
}

impl Hasher128 for SipHasher24 {
    open spec fn inv(&self) -> bool {
        self.wf()
    }

    open spec fn hasher_view(&self) -> HasherView {
        self@
    }

    open spec fn c_count_of(&self) -> nat {
        2
    }

    open spec fn d_count_of(&self) -> nat {
        4
    }

    /// Return a 128-bit hash
    fn finish128(&self) -> (r: Hash128) {
        self.hasher.finish128()
    }
}

/// A streaming SipHash 2-4 engine: the default variant.
///
/// SipHash is a general-purpose keyed hashing function: key it from a strong
/// random source to key hash tables. It is not intended for cryptographic
/// purposes.
pub struct SipHasher(SipHasher24);

impl View for SipHasher {
    type V = HasherView;

    closed spec fn view(&self) -> HasherView {
        self.0@
    }
}

impl SipHasher {
    /// The engine's internal invariant.
    pub closed spec fn wf(&self) -> bool {
        self.0.wf()
    }

    /// Creates a new `SipHasher` with the two initial keys set to 0.
    pub fn new() -> (r: SipHasher)
        ensures
            r.wf(),
            r@ == (HasherView { k0: 0, k1: 0, msg: Seq::<u8>::empty() }),
    {
        SipHasher::new_with_keys(0, 0)
    }

    /// Creates a `SipHasher` that is keyed off the provided keys.
    pub fn new_with_keys(key0: u64, key1: u64) -> (r: SipHasher)
        ensures
            r.wf(),
            r@ == (HasherView { k0: key0, k1: key1, msg: Seq::<u8>::empty() }),
    {
        SipHasher(SipHasher24::new_with_keys(key0, key1))
    }

    /// Absorbs `input` into the engine.
    pub fn write(&mut self, input: &[u8])
        requires
            old(self).wf(),
        ensures
            final(self).wf(),
            final(self)@ == (HasherView {
                k0: old(self)@.k0,
                k1: old(self)@.k1,
                msg: old(self)@.msg + input@,
            }),
    {
        self.0.write(input)
    }

    /// The 64-bit hash of everything absorbed so far.
    pub fn finish(&self) -> (r: u64)
        requires
            self.wf(),
        ensures
            r == spec_hash64(self@.k0, self@.k1, self@.msg, 2, 4),
    {
        self.0.finish()
    }
}

impl Clone for SipHasher {
    /// A clone continues and finalizes exactly as the original would.
    fn clone(&self) -> (r: Self)
        ensures
            r == *self,
    {
        SipHasher(self.0.clone())
    }
}

impl Default for SipHasher {
    /// An engine with both keys zero and nothing absorbed.
    fn default() -> (r: SipHasher)
        ensures
            r.wf(),
            r@ == (HasherView { k0: 0, k1: 0, msg: Seq::<u8>::empty() }),
    {
        SipHasher::new()
    }
}

impl Hasher128 for SipHasher {
    open spec fn inv(&self) -> bool {
        self.wf()
    }

    open spec fn hasher_view(&self) -> HasherView {
        self@
    }

    open spec fn c_count_of(&self) -> nat {
        2
    }

    open spec fn d_count_of(&self) -> nat {
        4
    }

    /// Return a 128-bit hash
    fn finish128(&self) -> (r: Hash128) {
        self.0.finish128()
    }
}

} // verus!
