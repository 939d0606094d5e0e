//! The cipher engine: derives a round count from the key, runs forward rounds
//! (substitution, then permutation) to encrypt, and exactly reverses them in
//! reverse round order to decrypt, reporting each finished round to a
//! progress sink.
use vstd::prelude::*;

verus! {

use vstd::wrapping::u8_specs;
use crate::subst::{
    sub_fwd_seq,
    sub_inv_seq,
    substitute_forward,
    substitute_inverse,
    lemma_sub_seq_round_trip,
};
use crate::perm::{
    perm_fwd,
    perm_inv,
    permute_forward,
    permute_inverse,
    step_back,
    lemma_perm_round_trip,
    lemma_perm_fwd_upto_len,
    lemma_perm_inv_upto_len,
};
use crate::progress::{ProgressSink, encrypt_trace, decrypt_trace};

/// The round-count accumulator after folding in the first `i` key bytes:
/// the bitwise complement of each byte, added with 8-bit wraparound.
pub open spec fn complement_fold(key: Seq<u8>, i: nat) -> u8
    recommends
        i <= key.len(),
    decreases i,
{
    if i == 0 {
        0
    } else {
        u8_specs::wrapping_add(
            complement_fold(key, (i - 1) as nat),
            (255 - key[i as int - 1]) as u8,
        )
    }
}

/// The round count derived from a key: the wrapping sum of the complements of
/// all key bytes, complemented once more if it falls below 128.  Always in
/// `[128, 255]`, and a function of the key alone.
pub open spec fn round_count_spec(key: Seq<u8>) -> u8 {
    let acc = complement_fold(key, key.len());
    if acc < 128 {
        (255 - acc) as u8
    } else {
        acc
    }
}

/// One forward round: substitution, then permutation.
pub open spec fn enc_round(key: Seq<u8>, r: u8, c: u8, s: Seq<u8>) -> Seq<u8>
    recommends
        key.len() >= 1,
{
    perm_fwd(key, sub_fwd_seq(key, r, c, s))
}

/// One inverse round: inverse permutation, then inverse substitution.
pub open spec fn dec_round(key: Seq<u8>, r: u8, c: u8, s: Seq<u8>) -> Seq<u8>
    recommends
        key.len() >= 1,
{
    sub_inv_seq(key, r, c, perm_inv(key, s))
}

/// The buffer after the first `j` forward rounds, which use round indices
/// `0, 1, ..., j - 1` ascending.
pub open spec fn enc_upto(key: Seq<u8>, s: Seq<u8>, j: nat) -> Seq<u8>
    recommends
        key.len() >= 1,
        j <= round_count_spec(key),
    decreases j,
{
    if j == 0 {
        s
    } else {
        enc_round(key, (j - 1) as u8, round_count_spec(key), enc_upto(key, s, (j - 1) as nat))
    }
}

/// The buffer after the first `j` inverse rounds, which use round indices
/// `c - 1, c - 2, ..., c - j` descending.
pub open spec fn dec_upto(key: Seq<u8>, s: Seq<u8>, j: nat) -> Seq<u8>
    recommends
        key.len() >= 1,
        j <= round_count_spec(key),
    decreases j,
{
    if j == 0 {
        s
    } else {
        let c = round_count_spec(key);
        dec_round(key, (c - j) as u8, c, dec_upto(key, s, (j - 1) as nat))
    }
}

/// A full encryption: all `round_count_spec(key)` forward rounds.
pub open spec fn encrypt_spec(key: Seq<u8>, s: Seq<u8>) -> Seq<u8>
    recommends
        key.len() >= 1,
{
    enc_upto(key, s, round_count_spec(key) as nat)
}

/// A full decryption: all `round_count_spec(key)` inverse rounds.
pub open spec fn decrypt_spec(key: Seq<u8>, s: Seq<u8>) -> Seq<u8>
    recommends
        key.len() >= 1,
{
    dec_upto(key, s, round_count_spec(key) as nat)
}

/// One inverse round undoes one forward round run with the same round index
/// and round count.
proof fn lemma_round_round_trip(key: Seq<u8>, r: u8, c: u8, s: Seq<u8>)
    requires
        key.len() >= 1,
    ensures
        dec_round(key, r, c, enc_round(key, r, c, s)) == s,
{
    lemma_perm_round_trip(key, sub_fwd_seq(key, r, c, s));
    lemma_sub_seq_round_trip(key, r, c, s);
}

/// Undoing the last `t` rounds of a full encryption leaves the buffer as it
/// stood after the first `c - t` forward rounds.
proof fn lemma_engine_partial_round_trip(key: Seq<u8>, s: Seq<u8>, t: nat)
    requires
        key.len() >= 1,
        t <= round_count_spec(key) as nat,
    ensures
        dec_upto(key, enc_upto(key, s, round_count_spec(key) as nat), t) == enc_upto(
            key,
            s,
            (round_count_spec(key) as nat - t) as nat,
        ),
    decreases t,
{
    let c = round_count_spec(key) as nat;
    if t > 0 {
        lemma_engine_partial_round_trip(key, s, (t - 1) as nat);
        let j = (c - t + 1) as nat;
        assert(enc_upto(key, s, j) == enc_round(
            key,
            (j - 1) as u8,
            round_count_spec(key),
            enc_upto(key, s, (j - 1) as nat),
        ));
        lemma_round_round_trip(
            key,
            (c - t) as u8,
            round_count_spec(key),
            enc_upto(key, s, (c - t) as nat),
        );
    }
}

/// The central law: decrypting an encryption with the same non-empty key
/// returns every buffer unchanged, whatever its length.
pub proof fn lemma_encrypt_decrypt_round_trip(key: Seq<u8>, data: Seq<u8>)
    requires
        key.len() >= 1,
    ensures
        decrypt_spec(key, encrypt_spec(key, data)) == data,
{
    lemma_engine_partial_round_trip(key, data, round_count_spec(key) as nat);
}

/// Boundary law: under a one-byte key, where every `mod k` is constantly
/// zero, the round-trip law still holds.
pub proof fn lemma_single_byte_key_round_trip(key: Seq<u8>, data: Seq<u8>)
    requires
        key.len() == 1,
    ensures
        decrypt_spec(key, encrypt_spec(key, data)) == data,
{
    lemma_encrypt_decrypt_round_trip(key, data);
}

/// On an empty buffer every round is a no-op.
proof fn lemma_rounds_empty(key: Seq<u8>, s: Seq<u8>, j: nat)
    requires
        key.len() >= 1,
        s.len() == 0,
    ensures
        enc_upto(key, s, j) == s,
        dec_upto(key, s, j) == s,
    decreases j,
{
    if j > 0 {
        lemma_rounds_empty(key, s, (j - 1) as nat);
        let c = round_count_spec(key);
        assert(sub_fwd_seq(key, (j - 1) as u8, c, s) =~= s);
        assert(sub_inv_seq(key, (c - j) as u8, c, perm_inv(key, s)) =~= s);
    }
}

/// Boundary law: an empty buffer passes through encryption and decryption
/// unchanged; no per-byte work is owed.
pub proof fn lemma_empty_buffer_unchanged(key: Seq<u8>, data: Seq<u8>)
    requires
        key.len() >= 1,
        data.len() == 0,
    ensures
        encrypt_spec(key, data) == data,
        decrypt_spec(key, data) == data,
{
    lemma_rounds_empty(key, data, round_count_spec(key) as nat);
}

/// Forward rounds preserve the buffer's length.
proof fn lemma_enc_upto_len(key: Seq<u8>, s: Seq<u8>, j: nat)
    requires
        key.len() >= 1,
    ensures
        enc_upto(key, s, j).len() == s.len(),
    decreases j,
{
    if j > 0 {
        lemma_enc_upto_len(key, s, (j - 1) as nat);
        let prev = enc_upto(key, s, (j - 1) as nat);
        let f = sub_fwd_seq(key, (j - 1) as u8, round_count_spec(key), prev);
        if f.len() > 0 {
            lemma_perm_fwd_upto_len(key, f, f.len());
        }
    }
}

/// Inverse rounds preserve the buffer's length.
proof fn lemma_dec_upto_len(key: Seq<u8>, s: Seq<u8>, j: nat)
    requires
        key.len() >= 1,
    ensures
        dec_upto(key, s, j).len() == s.len(),
    decreases j,
{
    if j > 0 {
        lemma_dec_upto_len(key, s, (j - 1) as nat);
        let prev = dec_upto(key, s, (j - 1) as nat);
        if prev.len() > 0 {
            lemma_perm_inv_upto_len(key, prev, prev.len());
        }
    }
}

/// Derives the round count from a key: the 8-bit wrapping sum of the bitwise
/// complement of every key byte, complemented once more if below 128.
fn gen_step_number(key: &[u8]) -> (steps: u8)
    ensures
        steps == round_count_spec(key@),
        steps >= 128,
{
    let mut steps: u8 = 0;
    let n = key.len();
    for i in 0..n
        invariant
            n == key@.len(),
            steps == complement_fold(key@, i as nat),
    {
        steps = steps.wrapping_add(255 - key[i]);
    }
    if steps < 128 {
        steps = 255 - steps;
    }
    steps
}

/// The cipher engine: borrows a key and holds the round count derived from
/// it.  To change the key, build a new engine.
pub struct Dszru<'a> {
    key: &'a [u8],
    steps: u8,
}

impl<'a> Dszru<'a> {
    /// The key this engine transforms under.
    pub closed spec fn key_view(self) -> Seq<u8> {
        self.key@
    }

    /// The round count this engine runs.
    pub closed spec fn rounds(self) -> u8 {
        self.steps
    }

    /// A well-formed engine: a non-empty key, and the round count derived
    /// from that key alone.
    pub open spec fn wf(self) -> bool {
        &&& self.key_view().len() >= 1
        &&& self.rounds() == round_count_spec(self.key_view())
        &&& self.rounds() >= 128
    }

    /// Builds an engine over a non-empty key; the empty key is rejected here,
    /// before any modular arithmetic could divide by the key length.
    pub fn new(key: &'a [u8]) -> (engine: Self)
        requires
            key@.len() >= 1,
        ensures
            engine.wf(),
            engine.key_view() == key@,
    {
        Self { key, steps: gen_step_number(key) }
    }

    /// Encrypts the buffer in place: rounds `0 .. rounds()` ascending, each a
    /// forward substitution then a forward permutation, each reported to the
    /// sink after it finishes.
    pub fn encrypt<P: ProgressSink>(&self, data: &mut Vec<u8>, sink: &mut P)
        requires
            self.wf(),
        ensures
            final(data)@ == encrypt_spec(self.key_view(), old(data)@),
            final(data)@.len() == old(data)@.len(),
            final(sink).history() == old(sink).history() + encrypt_trace(self.rounds()),
    {
        let c = self.steps;
        let ghost orig = data@;
        let ghost h0 = sink.history();
        for step in 0..c
            invariant
                self.wf(),
                c == self.rounds(),
                data@ == enc_upto(self.key_view(), orig, step as nat),
                data@.len() == orig.len(),
                sink.history() == h0 + encrypt_trace(c).take(step as int),
        {
            substitute_forward(self.key, data, step, c);
            permute_forward(self.key, data);
            sink.on_round(step, c);
            proof {
                assert(data@ == enc_upto(self.key_view(), orig, (step + 1) as nat));
                lemma_enc_upto_len(self.key_view(), orig, (step + 1) as nat);
                assert(sink.history() =~= h0 + encrypt_trace(c).take(step as int + 1));
            }
        }
        proof {
            assert(encrypt_trace(c).take(c as int) =~= encrypt_trace(c));
        }
    }

    /// One backward step of the permutation cursors, as decryption walks the
    /// swap chain in reverse: the key cursor steps back circularly, and the
    /// buffer cursor steps back by the key byte now under it, modulo the
    /// buffer length.
    pub fn decrypt_byte_move_counter(
        &self,
        key_index: &mut usize,
        byte_index: &mut usize,
        data: &[u8],
    )
        requires
            self.wf(),
            data@.len() >= 1,
            *old(key_index) < self.key_view().len(),
            *old(byte_index) < data@.len(),
        ensures
            *final(key_index) == if *old(key_index) == 0 {
                self.key_view().len() - 1
            } else {
                *old(key_index) - 1
            },
            *final(key_index) < self.key_view().len(),
            *final(byte_index) == (*old(byte_index) - self.key_view()[
                *final(key_index) as int
            ] as int) % (data@.len() as int),
            *final(byte_index) < data@.len(),
    {
        step_back(self.key, key_index, byte_index, data.len())
    }

    /// Decrypts the buffer in place: rounds `rounds() - 1 .. 0` descending,
    /// each an inverse permutation then an inverse substitution, each
    /// reported to the sink after it finishes.
    pub fn decrypt<P: ProgressSink>(&self, data: &mut Vec<u8>, sink: &mut P)
        requires
            self.wf(),
            old(data)@.len() < usize::MAX,
        ensures
            final(data)@ == decrypt_spec(self.key_view(), old(data)@),
            final(data)@.len() == old(data)@.len(),
            final(sink).history() == old(sink).history() + decrypt_trace(self.rounds()),
    {
        let c = self.steps;
        let ghost orig = data@;
        let ghost h0 = sink.history();
        for s in 0..c
            invariant
                self.wf(),
                c == self.rounds(),
                data@ == dec_upto(self.key_view(), orig, s as nat),
                data@.len() == orig.len(),
                orig.len() < usize::MAX,
                sink.history() == h0 + decrypt_trace(c).take(s as int),
        {
            let r = c - 1 - s;
            permute_inverse(self.key, data);
            substitute_inverse(self.key, data, r, c);
            sink.on_round(r, c);
            proof {
                assert(data@ == dec_upto(self.key_view(), orig, (s + 1) as nat));
                lemma_dec_upto_len(self.key_view(), orig, (s + 1) as nat);
                assert(sink.history() =~= h0 + decrypt_trace(c).take(s as int + 1));
            }
        }
        proof {
            assert(decrypt_trace(c).take(c as int) =~= decrypt_trace(c));
        }
    }
}

} // verus!
