//! Fiat-Shamir transcripts over `merlin`: absorb labelled messages,
//! squeeze field challenges. The transcript is modelled by the sequence of
//! operations made on it; a challenge is a function of that sequence.

use crate::field::{be_value, fe_bytes, modulus, vals, Fe};
use merlin::Transcript as MerlinTranscript;
use vstd::prelude::*;

verus! {

/// One operation made on a transcript.
pub enum TranscriptOp {
    /// Creation, with the domain-separation label.
    Begin { label: Seq<char> },
    /// A message absorbed under a label.
    Message { label: Seq<char>, message: Seq<u8> },
    /// `len` challenge bytes squeezed under a label.
    Challenge { label: Seq<char>, len: nat },
}

#[verifier::external_type_specification]
#[verifier::external_body]
pub struct ExMerlinTranscript(MerlinTranscript);

/// The operations made on a `merlin` transcript so far, oldest first.
pub uninterp spec fn merlin_log(t: MerlinTranscript) -> Seq<TranscriptOp>;

/// The bytes `merlin` squeezes under `label` after the operations `log`.
pub uninterp spec fn merlin_challenge(log: Seq<TranscriptOp>, label: Seq<char>, len: nat) -> Seq<
    u8,
>;

/// `MerlinTranscript::new`: a transcript whose only operation is its
/// creation under `label`.
#[verifier::external_body]
fn merlin_new(label: &'static str) -> (t: MerlinTranscript)
    ensures
        merlin_log(t) == seq![TranscriptOp::Begin { label: label@ }],
{
    MerlinTranscript::new(label.as_bytes())
}

/// `MerlinTranscript::append_message`: records the labelled message. Merlin
/// encodes the message length in four bytes and panics on a longer one.
#[verifier::external_body]
fn merlin_append_message(t: &mut MerlinTranscript, label: &'static str, message: &[u8])
    requires
        message@.len() <= u32::MAX,
    ensures
        merlin_log(*final(t)) == merlin_log(*old(t)).push(
            TranscriptOp::Message { label: label@, message: message@ },
        ),
{
    t.append_message(label.as_bytes(), message)
}

/// `MerlinTranscript::challenge_bytes`: fills `dest` with the bytes that
/// the operations so far, the label and the length determine, and records
/// the squeeze. Merlin encodes the length in four bytes and panics on a
/// longer `dest`.
#[verifier::external_body]
fn merlin_challenge_bytes(t: &mut MerlinTranscript, label: &'static str, dest: &mut Vec<u8>)
    requires
        old(dest)@.len() <= u32::MAX,
    ensures
        final(dest)@ == merlin_challenge(merlin_log(*old(t)), label@, old(dest)@.len()),
        final(dest)@.len() == old(dest)@.len(),
        merlin_log(*final(t)) == merlin_log(*old(t)).push(
            TranscriptOp::Challenge { label: label@, len: old(dest)@.len() },
        ),
{
    t.challenge_bytes(label.as_bytes(), dest.as_mut_slice())
}

/// A value with a canonical byte encoding to absorb.
pub trait CanonicalBytes {
    /// The encoding.
    spec fn canonical_bytes(&self) -> Seq<u8>;

    /// Produce the encoding.
    fn serialize_compressed(&self) -> (b: Vec<u8>)
        ensures
            b@ == self.canonical_bytes(),
    ;
}

impl CanonicalBytes for Fe {
    open spec fn canonical_bytes(&self) -> Seq<u8> {
        fe_bytes(*self)
    }

    fn serialize_compressed(&self) -> (b: Vec<u8>) {
        self.to_bytes()
    }
}

/// The encodings of `values`, one after the other.
pub open spec fn concat_bytes<T: CanonicalBytes>(values: Seq<T>) -> Seq<u8>
    decreases values.len(),
{
    if values.len() == 0 {
        Seq::empty()
    } else {
        concat_bytes(values.drop_last()) + values.last().canonical_bytes()
    }
}

/// Encodings of `w` bytes each concatenate to `w` bytes per value.
pub proof fn lemma_concat_bytes_len<T: CanonicalBytes>(values: Seq<T>, w: nat)
    requires
        forall|i: int| 0 <= i < values.len() ==> (#[trigger] values[i]).canonical_bytes().len() == w,
    ensures
        concat_bytes(values).len() == w * values.len(),
    decreases values.len(),
{
    if values.len() > 0 {
        let d = values.drop_last();
        assert forall|i: int| 0 <= i < d.len() implies (#[trigger] d[i]).canonical_bytes().len() == w by {
            assert(d[i] == values[i]);
        }
        lemma_concat_bytes_len(d, w);
        assert(values.last() == values[values.len() - 1]);
        vstd::arithmetic::mul::lemma_mul_is_distributive_add(w as int, d.len() as int, 1);
    }
}

/// How many bytes a challenge squeezes: the prime's 32 bytes plus 16 more,
/// so that the reduction is statistically close to uniform.
pub open spec fn challenge_len() -> nat {
    48
}

/// The value of the challenge squeezed under `label` after `log`.
pub open spec fn challenge_value(log: Seq<TranscriptOp>, label: Seq<char>) -> int {
    be_value(merlin_challenge(log, label, challenge_len())) % modulus()
}

/// `log` after a challenge squeezed under `label`.
pub open spec fn after_challenge(log: Seq<TranscriptOp>, label: Seq<char>) -> Seq<TranscriptOp> {
    log.push(TranscriptOp::Challenge { label, len: challenge_len() })
}

/// `log` after a message absorbed under `label`.
pub open spec fn after_message(log: Seq<TranscriptOp>, label: Seq<char>, message: Seq<u8>) -> Seq<
    TranscriptOp,
> {
    log.push(TranscriptOp::Message { label, message })
}

/// The values of `n` challenges squeezed in turn under `label` after `log`.
pub open spec fn challenge_values(log: Seq<TranscriptOp>, label: Seq<char>, n: nat) -> Seq<int>
    decreases n,
{
    if n == 0 {
        Seq::empty()
    } else {
        seq![challenge_value(log, label)] + challenge_values(
            after_challenge(log, label),
            label,
            (n - 1) as nat,
        )
    }
}

/// Challenges are canonical field elements, `n` of them.
pub proof fn lemma_challenge_values_canonical(log: Seq<TranscriptOp>, label: Seq<char>, n: nat)
    ensures
        challenge_values(log, label, n).len() == n,
        crate::field::all_canonical(challenge_values(log, label, n)),
    decreases n,
{
    if n > 0 {
        lemma_challenge_values_canonical(after_challenge(log, label), label, (n - 1) as nat);
        vstd::arithmetic::div_mod::lemma_mod_bound(
            be_value(merlin_challenge(log, label, challenge_len())),
            modulus(),
        );
    }
}

/// `log` after `n` challenges squeezed in turn under `label`.
pub open spec fn after_challenges(log: Seq<TranscriptOp>, label: Seq<char>, n: nat) -> Seq<
    TranscriptOp,
>
    decreases n,
{
    if n == 0 {
        log
    } else {
        after_challenges(after_challenge(log, label), label, (n - 1) as nat)
    }
}

/// A domain-separated Fiat-Shamir transcript.
pub struct Transcript {
    inner: MerlinTranscript,
}

impl View for Transcript {
    type V = Seq<TranscriptOp>;

    closed spec fn view(&self) -> Seq<TranscriptOp> {
        merlin_log(self.inner)
    }
}

impl Transcript {
    /// A fresh transcript under the domain-separation `label`.
    pub fn new(label: &'static str) -> (t: Self)
        ensures
            t@ == seq![TranscriptOp::Begin { label: label@ }],
    {
        Transcript { inner: merlin_new(label) }
    }

    /// Absorb arbitrary bytes under `label`.
    pub fn append_message(&mut self, label: &'static str, message: &[u8])
        requires
            message@.len() <= u32::MAX,
        ensures
            final(self)@ == after_message(old(self)@, label@, message@),
    {
        merlin_append_message(&mut self.inner, label, message);
    }

    /// Absorb the encoding of `value` under `label`.
    pub fn append<T: CanonicalBytes>(&mut self, label: &'static str, value: &T)
        requires
            value.canonical_bytes().len() <= u32::MAX,
        ensures
            final(self)@ == after_message(old(self)@, label@, value.canonical_bytes()),
    {
        let buf = value.serialize_compressed();
        merlin_append_message(&mut self.inner, label, buf.as_slice());
    }

    /// Absorb the encodings of `values`, concatenated, under one `label`.
    pub fn append_slice<T: CanonicalBytes>(&mut self, label: &'static str, values: &[T])
        requires
            concat_bytes(values@).len() <= u32::MAX,
        ensures
            final(self)@ == after_message(old(self)@, label@, concat_bytes(values@)),
    {
        let mut buf: Vec<u8> = Vec::new();
        let mut i: usize = 0;
        while i < values.len()
            invariant
                i <= values@.len(),
                buf@ == concat_bytes(values@.take(i as int)),
            decreases values@.len() - i,
        {
            let b = values[i].serialize_compressed();
            let mut j: usize = 0;
            let ghost before = buf@;
            while j < b.len()
                invariant
                    j <= b@.len(),
                    buf@ == before + b@.take(j as int),
                decreases b@.len() - j,
            {
                buf.push(b[j]);
                j = j + 1;
                proof {
                    assert(buf@ =~= before + b@.take(j as int));
                }
            }
            proof {
                assert(values@.take(i + 1).drop_last() =~= values@.take(i as int));
                assert(b@.take(b@.len() as int) =~= b@);
            }
            i = i + 1;
        }
        proof {
            assert(values@.take(values@.len() as int) =~= values@);
        }
        merlin_append_message(&mut self.inner, label, buf.as_slice());
    }

    /// Squeeze one challenge: 48 bytes, read big-endian and reduced modulo
    /// the prime.
    pub fn challenge(&mut self, label: &'static str) -> (c: Fe)
        ensures
            c.v() == challenge_value(old(self)@, label@),
            final(self)@ == after_challenge(old(self)@, label@),
    {
        let bits = Fe::modulus_bit_size();
        let modulus_bytes: usize = ((bits as usize) + 7) / 8;
        let mut buf: Vec<u8> = Vec::new();
        let mut i: usize = 0;
        while i < modulus_bytes + 16
            invariant
                i <= modulus_bytes + 16,
                modulus_bytes == 32,
                buf@.len() == i,
            decreases modulus_bytes + 16 - i,
        {
            buf.push(0u8);
            i = i + 1;
        }
        merlin_challenge_bytes(&mut self.inner, label, &mut buf);
        Fe::from_be_bytes_mod_order(buf.as_slice())
    }

    /// Squeeze `n` challenges in turn under `label`.
    pub fn challenge_vec(&mut self, label: &'static str, n: usize) -> (v: Vec<Fe>)
        ensures
            vals(v@) == challenge_values(old(self)@, label@, n as nat),
            v@.len() == n,
            final(self)@ == after_challenges(old(self)@, label@, n as nat),
    {
        let mut v: Vec<Fe> = Vec::new();
        let mut i: usize = 0;
        while i < n
            invariant
                i <= n,
                v@.len() == i,
                vals(v@) + challenge_values(self@, label@, (n - i) as nat) == challenge_values(
                    old(self)@,
                    label@,
                    n as nat,
                ),
                after_challenges(self@, label@, (n - i) as nat) == after_challenges(
                    old(self)@,
                    label@,
                    n as nat,
                ),
            decreases n - i,
        {
            let ghost before = self@;
            let c = self.challenge(label);
            v.push(c);
            proof {
                assert(vals(v@) =~= vals(v@.drop_last()).push(c.v()));
            }
            i = i + 1;
        }
        proof {
            assert(vals(v@) + challenge_values(self@, label@, 0) =~= vals(v@));
        }
        v
    }
}

} // verus!
