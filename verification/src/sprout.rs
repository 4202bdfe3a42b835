//! Sprout JoinSplit descriptions and the bundle of them that a v2–v4
//! transaction carries: their values and their canonical encoding.

use crate::bytes::{lemma_subrange_join, push_bytes, take_bytes};
use crate::compact_size::{
    compact_size_bytes, compact_size_read, compact_size_read_at, compact_size_write,
    lemma_compact_size_read_canonical, lemma_compact_size_round_trip, MAX_COMPACT_SIZE,
};
use crate::error::{ReadError, WriteError};
use crate::value::{
    balance_add, balance_from_u64_le_bytes, balance_sub, balance_to_i64_le_bytes, checked_balance,
    i64_le_bytes, is_balance, is_money, u64_le_value, MAX_MONEY,
};
use vstd::bytes::*;
use vstd::prelude::*;

verus! {

/// Size in bytes of a Groth16 proof: π_A + π_B + π_C.
pub const GROTH_PROOF_SIZE: usize = 48 + 96 + 48;

/// Size in bytes of a BCTV14 ("PHGR") proof: π_A + π_A' + π_B + π_B' + π_C + π_C' + π_K + π_H
pub const PHGR_PROOF_SIZE: usize = 33 + 33 + 65 + 33 + 33 + 33 + 33 + 33;

/// Number of notes a JoinSplit spends
pub const ZC_NUM_JS_INPUTS: usize = 2;

/// Number of notes a JoinSplit creates
pub const ZC_NUM_JS_OUTPUTS: usize = 2;

/// Size in bytes of a Sprout note ciphertext
pub const NOTE_CIPHERTEXT_SIZE: usize = 601;

/// A JoinSplit proof
#[derive(Clone, Copy, PartialEq, Eq, Debug)]
#[allow(clippy::upper_case_acronyms)]
pub enum SproutProof {
    /// Groth16 (v4 transactions)
    Groth([u8; GROTH_PROOF_SIZE]),
    /// BCTV14 (v2 & v3 transactions)
    PHGR([u8; PHGR_PROOF_SIZE]),
}

/// The bytes of a proof, as the encoding carries them.
pub open spec fn proof_bytes(p: SproutProof) -> Seq<u8> {
    match p {
        SproutProof::Groth(b) => b@,
        SproutProof::PHGR(b) => b@,
    }
}

/// Whether a proof is of the proof system that `use_groth` selects.
pub open spec fn proof_matches(p: SproutProof, use_groth: bool) -> bool {
    (p is Groth) == use_groth
}

/// The length of a proof of the system that `use_groth` selects.
pub open spec fn proof_len(use_groth: bool) -> int {
    if use_groth {
        GROTH_PROOF_SIZE as int
    } else {
        PHGR_PROOF_SIZE as int
    }
}

/// The length of an encoded JoinSplit description: 304 bytes for the two
/// values (8 each), the anchor, two nullifiers, two commitments, the ephemeral
/// key, the random seed and two MACs (32 each), then the proof and two note
/// ciphertexts.
pub open spec fn js_len(use_groth: bool) -> int {
    304 + proof_len(use_groth) + 2 * NOTE_CIPHERTEXT_SIZE
}

/// What reading a JoinSplit description from the front of `s` runs into, in
/// the order of its fields: `None` when it succeeds.
pub open spec fn js_read_failure(s: Seq<u8>, use_groth: bool) -> Option<ReadError> {
    if s.len() < 8 {
        Some(ReadError::UnexpectedEof)
    } else if u64_le_value(s.subrange(0, 8)) > MAX_MONEY {
        Some(ReadError::VpubOldOutOfRange)
    } else if s.len() < 16 {
        Some(ReadError::UnexpectedEof)
    } else if u64_le_value(s.subrange(8, 16)) > MAX_MONEY {
        Some(ReadError::VpubNewOutOfRange)
    } else if s.len() < js_len(use_groth) {
        Some(ReadError::UnexpectedEof)
    } else {
        None
    }
}

/// A Sprout JoinSplit description.
///
/// Both public values are non-negative amounts of at most `MAX_MONEY`, as on
/// the wire.
#[derive(PartialEq, Eq, Debug)]
pub struct JsDescription {
    vpub_old: i64,
    vpub_new: i64,
    anchor: [u8; 32],
    nullifiers: [[u8; 32]; ZC_NUM_JS_INPUTS],
    commitments: [[u8; 32]; ZC_NUM_JS_OUTPUTS],
    ephemeral_key: [u8; 32],
    random_seed: [u8; 32],
    macs: [[u8; 32]; ZC_NUM_JS_INPUTS],
    sprout_proof: SproutProof,
    ciphertexts: [[u8; NOTE_CIPHERTEXT_SIZE]; ZC_NUM_JS_OUTPUTS],
}

impl JsDescription {
    /// Both public values lie in `0..=MAX_MONEY`.
    #[verifier::type_invariant]
    pub closed spec fn wf(self) -> bool {
        is_money(self.vpub_old as int) && is_money(self.vpub_new as int)
    }

    /// The value that enters the Sprout pool.
    pub closed spec fn spec_vpub_old(self) -> i64 {
        self.vpub_old
    }

    /// The value that leaves the Sprout pool.
    pub closed spec fn spec_vpub_new(self) -> i64 {
        self.vpub_new
    }

    /// The note commitment tree anchor.
    pub closed spec fn spec_anchor(self) -> [u8; 32] {
        self.anchor
    }

    /// The nullifiers of the input notes.
    pub closed spec fn spec_nullifiers(self) -> [[u8; 32]; ZC_NUM_JS_INPUTS] {
        self.nullifiers
    }

    /// The commitments of the output notes.
    pub closed spec fn spec_commitments(self) -> [[u8; 32]; ZC_NUM_JS_OUTPUTS] {
        self.commitments
    }

    /// The ephemeral key.
    pub closed spec fn spec_ephemeral_key(self) -> [u8; 32] {
        self.ephemeral_key
    }

    /// The random seed.
    pub closed spec fn spec_random_seed(self) -> [u8; 32] {
        self.random_seed
    }

    /// The message authentication codes.
    pub closed spec fn spec_macs(self) -> [[u8; 32]; ZC_NUM_JS_INPUTS] {
        self.macs
    }

    /// The proof.
    pub closed spec fn spec_proof(self) -> SproutProof {
        self.sprout_proof
    }

    /// The note ciphertexts.
    pub closed spec fn spec_ciphertexts(self) -> [[u8; NOTE_CIPHERTEXT_SIZE]; ZC_NUM_JS_OUTPUTS] {
        self.ciphertexts
    }

    /// The canonical encoding of this description: `vpub_old` and `vpub_new` as
    /// signed 64-bit little-endian integers, then every other field in order.
    pub closed spec fn bytes(self) -> Seq<u8> {
        i64_le_bytes(self.vpub_old) + i64_le_bytes(self.vpub_new) + self.anchor@
            + self.nullifiers[0]@ + self.nullifiers[1]@ + self.commitments[0]@
            + self.commitments[1]@ + self.ephemeral_key@ + self.random_seed@ + self.macs[0]@
            + self.macs[1]@ + proof_bytes(self.sprout_proof) + self.ciphertexts[0]@
            + self.ciphertexts[1]@
    }

    /// The net value: `vpub_new - vpub_old`.
    pub closed spec fn spec_net_value(self) -> int {
        self.vpub_new - self.vpub_old
    }
}

impl Clone for JsDescription {
    fn clone(&self) -> (r: Self)
        ensures
            r == *self,
    {
        proof {
            use_type_invariant(self);
        }
        JsDescription {
            vpub_old: self.vpub_old,
            vpub_new: self.vpub_new,
            anchor: self.anchor,
            nullifiers: self.nullifiers,
            commitments: self.commitments,
            ephemeral_key: self.ephemeral_key,
            random_seed: self.random_seed,
            macs: self.macs,
            sprout_proof: self.sprout_proof,
            ciphertexts: self.ciphertexts,
        }
    }
}

/// The length of an encoded JoinSplit description with the proof system that
/// `use_groth` selects.
pub fn js_encoded_len(use_groth: bool) -> (r: usize)
    ensures
        r == js_len(use_groth),
{
    if use_groth {
        8 + 8 + 32 + 2 * 32 + 2 * 32 + 32 + 32 + 2 * 32 + GROTH_PROOF_SIZE + 2
            * NOTE_CIPHERTEXT_SIZE
    } else {
        8 + 8 + 32 + 2 * 32 + 2 * 32 + 32 + 32 + 2 * 32 + PHGR_PROOF_SIZE + 2
            * NOTE_CIPHERTEXT_SIZE
    }
}

/// Reads the JoinSplit description that starts at `input[pos]`.
fn read_js_at(input: &[u8], pos: usize, use_groth: bool) -> (r: Result<JsDescription, ReadError>)
    requires
        pos <= input@.len(),
    ensures
        r is Ok <==> js_read_failure(input@.skip(pos as int), use_groth) is None,
        r matches Err(e) ==> js_read_failure(input@.skip(pos as int), use_groth) == Some(e),
        r matches Ok(js) ==> js.bytes() == input@.subrange(pos as int, pos + js_len(use_groth))
            && proof_matches(js.spec_proof(), use_groth) && js.wf(),
{
    let ghost s = input@.skip(pos as int);
    let avail: usize = input.len() - pos;
    if avail < 8 {
        return Err(ReadError::UnexpectedEof);
    }
    let old_bytes: [u8; 8] = take_bytes(input, pos);
    assert(old_bytes@ == s.subrange(0, 8));
    let vpub_old: i64 = match balance_from_u64_le_bytes(old_bytes) {
        Some(v) => v,
        None => {
            return Err(ReadError::VpubOldOutOfRange);
        },
    };
    if avail < 16 {
        return Err(ReadError::UnexpectedEof);
    }
    let new_bytes: [u8; 8] = take_bytes(input, pos + 8);
    assert(new_bytes@ == s.subrange(8, 16));
    let vpub_new: i64 = match balance_from_u64_le_bytes(new_bytes) {
        Some(v) => v,
        None => {
            return Err(ReadError::VpubNewOutOfRange);
        },
    };
    let len: usize = js_encoded_len(use_groth);
    if avail < len {
        return Err(ReadError::UnexpectedEof);
    }
    let anchor: [u8; 32] = take_bytes(input, pos + 16);
    let nullifiers: [[u8; 32]; 2] = [take_bytes(input, pos + 48), take_bytes(input, pos + 80)];
    let commitments: [[u8; 32]; 2] = [take_bytes(input, pos + 112), take_bytes(input, pos + 144)];
    let ephemeral_key: [u8; 32] = take_bytes(input, pos + 176);
    let random_seed: [u8; 32] = take_bytes(input, pos + 208);
    let macs: [[u8; 32]; 2] = [take_bytes(input, pos + 240), take_bytes(input, pos + 272)];
    let proof_end: usize = if use_groth {
        pos + 304 + GROTH_PROOF_SIZE
    } else {
        pos + 304 + PHGR_PROOF_SIZE
    };
    let sprout_proof = if use_groth {
        SproutProof::Groth(take_bytes(input, pos + 304))
    } else {
        SproutProof::PHGR(take_bytes(input, pos + 304))
    };
    let ciphertexts: [[u8; NOTE_CIPHERTEXT_SIZE]; 2] = [
        take_bytes(input, proof_end),
        take_bytes(input, proof_end + NOTE_CIPHERTEXT_SIZE),
    ];
    let js = JsDescription {
        vpub_old,
        vpub_new,
        anchor,
        nullifiers,
        commitments,
        ephemeral_key,
        random_seed,
        macs,
        sprout_proof,
        ciphertexts,
    };
    proof {
        let t = input@;
        let p: int = pos as int;
        lemma_auto_spec_u64_to_from_le_bytes();
        assert(i64_le_bytes(vpub_old) == t.subrange(p, p + 8));
        assert(i64_le_bytes(vpub_new) == t.subrange(p + 8, p + 16));
        assert(proof_bytes(sprout_proof) == t.subrange(p + 304, proof_end as int));
        lemma_subrange_join(t, p, p + 8, p + 16);
        lemma_subrange_join(t, p, p + 16, p + 48);
        lemma_subrange_join(t, p, p + 48, p + 80);
        lemma_subrange_join(t, p, p + 80, p + 112);
        lemma_subrange_join(t, p, p + 112, p + 144);
        lemma_subrange_join(t, p, p + 144, p + 176);
        lemma_subrange_join(t, p, p + 176, p + 208);
        lemma_subrange_join(t, p, p + 208, p + 240);
        lemma_subrange_join(t, p, p + 240, p + 272);
        lemma_subrange_join(t, p, p + 272, p + 304);
        lemma_subrange_join(t, p, p + 304, proof_end as int);
        lemma_subrange_join(t, p, proof_end as int, proof_end + 601);
        lemma_subrange_join(t, p, proof_end + 601, proof_end + 1202);
        use_type_invariant(&js);
    }
    Ok(js)
}

impl JsDescription {
    /// Reads a JoinSplit description from the front of `input`, with a Groth16
    /// proof when `use_groth` is set (v4) and a BCTV14 proof otherwise.
    ///
    /// Fails with the first problem met, in field order: input too short for
    /// `vpub_old`, `vpub_old` above `MAX_MONEY`, the same for `vpub_new`, then
    /// input too short for the rest.
    pub fn read(input: &[u8], use_groth: bool) -> (r: Result<Self, ReadError>)
        ensures
            r is Ok <==> js_read_failure(input@, use_groth) is None,
            r matches Err(e) ==> js_read_failure(input@, use_groth) == Some(e),
            r matches Ok(js) ==> js.bytes() == input@.subrange(0, js_len(use_groth))
                && proof_matches(js.spec_proof(), use_groth) && js.wf(),
    {
        assert(input@.skip(0) =~= input@);
        read_js_at(input, 0, use_groth)
    }

    /// Appends the canonical encoding of this description to `out`.
    pub fn write(&self, out: &mut Vec<u8>)
        ensures
            final(out)@ == old(out)@ + self.bytes(),
    {
        proof {
            use_type_invariant(self);
        }
        let ghost o = out@;
        push_bytes(out, &balance_to_i64_le_bytes(self.vpub_old));
        push_bytes(out, &balance_to_i64_le_bytes(self.vpub_new));
        let ghost a = i64_le_bytes(self.vpub_old) + i64_le_bytes(self.vpub_new);
        assert(out@ =~= o + a);
        push_bytes(out, &self.anchor);
        let ghost a = a + self.anchor@;
        assert(out@ =~= o + a);
        push_bytes(out, &self.nullifiers[0]);
        let ghost a = a + self.nullifiers[0]@;
        assert(out@ =~= o + a);
        push_bytes(out, &self.nullifiers[1]);
        let ghost a = a + self.nullifiers[1]@;
        assert(out@ =~= o + a);
        push_bytes(out, &self.commitments[0]);
        let ghost a = a + self.commitments[0]@;
        assert(out@ =~= o + a);
        push_bytes(out, &self.commitments[1]);
        let ghost a = a + self.commitments[1]@;
        assert(out@ =~= o + a);
        push_bytes(out, &self.ephemeral_key);
        let ghost a = a + self.ephemeral_key@;
        assert(out@ =~= o + a);
        push_bytes(out, &self.random_seed);
        let ghost a = a + self.random_seed@;
        assert(out@ =~= o + a);
        push_bytes(out, &self.macs[0]);
        let ghost a = a + self.macs[0]@;
        assert(out@ =~= o + a);
        push_bytes(out, &self.macs[1]);
        let ghost a = a + self.macs[1]@;
        assert(out@ =~= o + a);
        match &self.sprout_proof {
            SproutProof::Groth(p) => push_bytes(out, p),
            SproutProof::PHGR(p) => push_bytes(out, p),
        }
        let ghost a = a + proof_bytes(self.sprout_proof);
        assert(out@ =~= o + a);
        push_bytes(out, &self.ciphertexts[0]);
        let ghost a = a + self.ciphertexts[0]@;
        assert(out@ =~= o + a);
        push_bytes(out, &self.ciphertexts[1]);
        let ghost a = a + self.ciphertexts[1]@;
        assert(out@ =~= o + a);
    }
}

impl JsDescription {
    /// Constructs a JoinSplit description (`vpub_old` & `vpub_new` non-negative, as on the wire)
    #[allow(clippy::too_many_arguments)]
    pub fn from_parts(
        vpub_old: u64,
        vpub_new: u64,
        anchor: [u8; 32],
        nullifiers: [[u8; 32]; ZC_NUM_JS_INPUTS],
        commitments: [[u8; 32]; ZC_NUM_JS_OUTPUTS],
        ephemeral_key: [u8; 32],
        random_seed: [u8; 32],
        macs: [[u8; 32]; ZC_NUM_JS_INPUTS],
        sprout_proof: SproutProof,
        ciphertexts: [[u8; NOTE_CIPHERTEXT_SIZE]; ZC_NUM_JS_OUTPUTS],
    ) -> (r: Self)
        requires
            vpub_old <= MAX_MONEY,
            vpub_new <= MAX_MONEY,
        ensures
            r.spec_vpub_old() == vpub_old,
            r.spec_vpub_new() == vpub_new,
            r.spec_anchor() == anchor,
            r.spec_nullifiers() == nullifiers,
            r.spec_commitments() == commitments,
            r.spec_ephemeral_key() == ephemeral_key,
            r.spec_random_seed() == random_seed,
            r.spec_macs() == macs,
            r.spec_proof() == sprout_proof,
            r.spec_ciphertexts() == ciphertexts,
    {
        JsDescription {
            vpub_old: vpub_old as i64,
            vpub_new: vpub_new as i64,
            anchor,
            nullifiers,
            commitments,
            ephemeral_key,
            random_seed,
            macs,
            sprout_proof,
            ciphertexts,
        }
    }

    /// The net value for the JoinSplit. When this is positive,
    /// its value is added to the transparent value pool; when it
    /// is negative, its value is subtracted from the transparent
    /// value pool.
    pub fn net_value(&self) -> (r: i64)
        ensures
            r == self.spec_net_value(),
            is_balance(r as int),
    {
        proof {
            use_type_invariant(self);
        }
        balance_sub(self.vpub_new, self.vpub_old).unwrap()
    }

    /// Returns the value added to the Sprout pool by this JoinSplit.
    pub fn vpub_old(&self) -> (r: i64)
        ensures
            r == self.spec_vpub_old(),
            is_money(r as int),
    {
        proof {
            use_type_invariant(self);
        }
        self.vpub_old
    }

    /// Returns the value removed from the Sprout pool by this JoinSplit.
    pub fn vpub_new(&self) -> (r: i64)
        ensures
            r == self.spec_vpub_new(),
            is_money(r as int),
    {
        proof {
            use_type_invariant(self);
        }
        self.vpub_new
    }

    /// Returns the Sprout note commitment tree anchor for this JoinSplit.
    pub fn anchor(&self) -> (r: &[u8; 32])
        ensures
            *r == self.spec_anchor(),
    {
        &self.anchor
    }

    /// Returns the nullifiers for the input notes of this JoinSplit.
    pub fn nullifiers(&self) -> (r: &[[u8; 32]; ZC_NUM_JS_INPUTS])
        ensures
            *r == self.spec_nullifiers(),
    {
        &self.nullifiers
    }

    /// Returns the note commitments for the output notes of this JoinSplit.
    pub fn commitments(&self) -> (r: &[[u8; 32]; ZC_NUM_JS_OUTPUTS])
        ensures
            *r == self.spec_commitments(),
    {
        &self.commitments
    }

    /// Returns the ephemeral key used to encrypt the output notes of this JoinSplit.
    pub fn ephemeral_key(&self) -> (r: &[u8; 32])
        ensures
            *r == self.spec_ephemeral_key(),
    {
        &self.ephemeral_key
    }

    /// Returns the encrypted output notes of this JoinSplit.
    pub fn ciphertexts(&self) -> (r: &[[u8; NOTE_CIPHERTEXT_SIZE]; ZC_NUM_JS_OUTPUTS])
        ensures
            *r == self.spec_ciphertexts(),
    {
        &self.ciphertexts
    }

    /// Returns the proof of this JoinSplit.
    pub fn sprout_proof(&self) -> (r: &SproutProof)
        ensures
            *r == self.spec_proof(),
    {
        &self.sprout_proof
    }

    /// Returns the random seed for this JoinSplit.
    pub fn random_seed(&self) -> (r: &[u8; 32])
        ensures
            *r == self.spec_random_seed(),
    {
        &self.random_seed
    }

    /// Returns the message authentication codes for this JoinSplit.
    pub fn macs(&self) -> (r: &[[u8; 32]; ZC_NUM_JS_INPUTS])
        ensures
            *r == self.spec_macs(),
    {
        &self.macs
    }

    /// Returns the Groth16 proof bytes for this JoinSplit, if it uses Groth16.
    /// Returns `None` for PHGR proofs (pre-Sapling).
    pub fn groth_proof_bytes(&self) -> (r: Option<&[u8; GROTH_PROOF_SIZE]>)
        ensures
            r is Some <==> self.spec_proof() is Groth,
            r matches Some(p) ==> self.spec_proof() == SproutProof::Groth(*p),
    {
        match &self.sprout_proof {
            SproutProof::Groth(bytes) => Some(bytes),
            SproutProof::PHGR(_) => None,
        }
    }
}

/// The Sprout part of a transaction: its JoinSplits, and the key and
/// signature that bind them to the transaction.
#[derive(Debug, PartialEq, Eq)]
pub struct Bundle {
    pub joinsplits: Vec<JsDescription>,
    pub joinsplit_pubkey: [u8; 32],
    pub joinsplit_sig: [u8; 64],
}

impl View for Bundle {
    type V = (Seq<JsDescription>, Seq<u8>, Seq<u8>);

    open spec fn view(&self) -> (Seq<JsDescription>, Seq<u8>, Seq<u8>) {
        (self.joinsplits@, self.joinsplit_pubkey@, self.joinsplit_sig@)
    }
}

impl Clone for Bundle {
    fn clone(&self) -> (r: Self)
        ensures
            r@ == self@,
    {
        let mut joinsplits: Vec<JsDescription> = Vec::new();
        let mut i: usize = 0;
        while i < self.joinsplits.len()
            invariant
                i <= self.joinsplits@.len(),
                joinsplits@ == self.joinsplits@.subrange(0, i as int),
            decreases self.joinsplits@.len() - i,
        {
            joinsplits.push(self.joinsplits[i].clone());
            i += 1;
            assert(joinsplits@ =~= self.joinsplits@.subrange(0, i as int));
        }
        assert(joinsplits@ =~= self.joinsplits@);
        Bundle {
            joinsplits,
            joinsplit_pubkey: self.joinsplit_pubkey,
            joinsplit_sig: self.joinsplit_sig,
        }
    }
}

/// The encodings of a sequence of JoinSplit descriptions, one after another.
pub open spec fn js_seq_bytes(v: Seq<JsDescription>) -> Seq<u8>
    decreases v.len(),
{
    if v.len() == 0 {
        Seq::empty()
    } else {
        js_seq_bytes(v.drop_last()) + v.last().bytes()
    }
}

/// Every description of `v` keeps its public values in `0..=MAX_MONEY`.
pub open spec fn all_wf(v: Seq<JsDescription>) -> bool {
    forall|i: int| 0 <= i < v.len() ==> #[trigger] v[i].wf()
}

/// Every description of `v` carries a proof of the system that `use_groth`
/// selects.
pub open spec fn all_proofs_match(v: Seq<JsDescription>, use_groth: bool) -> bool {
    forall|i: int| 0 <= i < v.len() ==> proof_matches(#[trigger] v[i].spec_proof(), use_groth)
}

/// The encoding of a bundle: the CompactSize count of its JoinSplits, their
/// encodings, then the JoinSplit public key and signature.
pub open spec fn bundle_bytes(b: Bundle) -> Seq<u8> {
    compact_size_bytes(b.joinsplits@.len() as u64) + js_seq_bytes(b.joinsplits@)
        + b.joinsplit_pubkey@ + b.joinsplit_sig@
}

/// The encoding of the absence of a bundle: a zero count.
pub open spec fn no_bundle_bytes() -> Seq<u8> {
    compact_size_bytes(0)
}

/// What reading `count` JoinSplit descriptions from the front of `s` runs
/// into first: `None` when all are read.
pub open spec fn js_seq_read_failure(s: Seq<u8>, use_groth: bool, count: nat) -> Option<ReadError>
    decreases count,
{
    if count == 0 {
        None
    } else {
        match js_read_failure(s, use_groth) {
            Some(e) => Some(e),
            None => js_seq_read_failure(s.skip(js_len(use_groth)), use_groth, (count - 1) as nat),
        }
    }
}

/// What reading a bundle from the front of `s` runs into first: `None` when it
/// succeeds. A zero count is read as the absence of a bundle.
pub open spec fn bundle_read_failure(s: Seq<u8>, use_groth: bool) -> Option<ReadError> {
    match compact_size_read(s) {
        Err(e) => Some(e),
        Ok((n, k)) => if n == 0 {
            None
        } else {
            let rest = s.skip(k as int);
            match js_seq_read_failure(rest, use_groth, n as nat) {
                Some(e) => Some(e),
                None => if rest.len() < n * js_len(use_groth) + 32 + 64 {
                    Some(ReadError::UnexpectedEof)
                } else {
                    None
                },
            }
        },
    }
}

/// Whether the count at the front of `s` announces no JoinSplits.
pub open spec fn announces_no_bundle(s: Seq<u8>) -> bool {
    compact_size_read(s) matches Ok((n, _)) && n == 0
}

/// The successive partial sums of the net values of `v`, each checked to lie
/// in the balance range: `None` from the first one that does not.
pub open spec fn balance_fold(v: Seq<JsDescription>) -> Option<i64>
    decreases v.len(),
{
    if v.len() == 0 {
        Some(0)
    } else {
        match balance_fold(v.drop_last()) {
            None => None,
            Some(t) => checked_balance(t + v.last().spec_net_value()),
        }
    }
}

/// Once a partial sum has left the balance range, every longer one is `None`.
proof fn lemma_balance_fold_none(v: Seq<JsDescription>, i: int)
    requires
        0 <= i <= v.len(),
        balance_fold(v.subrange(0, i)) is None,
    ensures
        balance_fold(v) is None,
    decreases v.len() - i,
{
    if i < v.len() {
        assert(v.subrange(0, i + 1).drop_last() =~= v.subrange(0, i));
        lemma_balance_fold_none(v, i + 1);
    } else {
        assert(v.subrange(0, i) =~= v);
    }
}

impl Bundle {
    /// The value balance for the bundle. When this is positive,
    /// its value is added to the transparent value pool; when it
    /// is negative, its value is subtracted from the transparent
    /// value pool.
    ///
    /// `None` when a partial sum of the net values, taken in order, leaves the
    /// balance range.
    pub fn value_balance(&self) -> (r: Option<i64>)
        ensures
            r == balance_fold(self.joinsplits@),
    {
        let mut total: i64 = 0;
        let mut i: usize = 0;
        assert(self.joinsplits@.subrange(0, 0) =~= Seq::<JsDescription>::empty());
        while i < self.joinsplits.len()
            invariant
                i <= self.joinsplits@.len(),
                balance_fold(self.joinsplits@.subrange(0, i as int)) == Some(total),
                is_balance(total as int),
            decreases self.joinsplits@.len() - i,
        {
            let net: i64 = self.joinsplits[i].net_value();
            let ghost prefix = self.joinsplits@.subrange(0, i + 1);
            assert(prefix.drop_last() =~= self.joinsplits@.subrange(0, i as int));
            match balance_add(total, net) {
                Some(t) => {
                    total = t;
                },
                None => {
                    proof {
                        lemma_balance_fold_none(self.joinsplits@, i + 1);
                    }
                    return None;
                },
            }
            i += 1;
        }
        assert(self.joinsplits@.subrange(0, i as int) =~= self.joinsplits@);
        Some(total)
    }
}

/// Reads the `nJoinSplit`, `vJoinSplit`, `joinSplitPubKey` and `joinSplitSig` fields
/// (`None` if no JoinSplits; `use_groth` = v4)
///
/// A bundle that is read is the one whose encoding starts `input`; every proof
/// in it is of the system that `use_groth` selects.
pub fn read_bundle(input: &[u8], use_groth: bool) -> (r: Result<Option<Bundle>, ReadError>)
    ensures
        r is Ok <==> bundle_read_failure(input@, use_groth) is None,
        r matches Err(e) ==> bundle_read_failure(input@, use_groth) == Some(e),
        r matches Ok(ob) ==> (ob is None <==> announces_no_bundle(input@)),
        r matches Ok(Some(b)) ==> {
            &&& 0 < b.joinsplits@.len() <= MAX_COMPACT_SIZE
            &&& all_proofs_match(b.joinsplits@, use_groth)
            &&& all_wf(b.joinsplits@)
            &&& bundle_bytes(b).len() <= input@.len()
            &&& bundle_bytes(b) == input@.subrange(0, bundle_bytes(b).len() as int)
        },
{
    let (count, left): (u64, usize) = match compact_size_read_at(input, 0) {
        Ok(x) => x,
        Err(e) => {
            assert(input@.skip(0) =~= input@);
            return Err(e);
        },
    };
    assert(input@.skip(0) =~= input@);
    let ghost k: int = input.len() - left;
    proof {
        lemma_compact_size_read_canonical(input@);
    }
    if count == 0 {
        return Ok(None);
    }
    let start: usize = input.len() - left;
    let len: usize = js_encoded_len(use_groth);
    let mut joinsplits: Vec<JsDescription> = Vec::new();
    let mut pos: usize = start;
    let mut i: u64 = 0;
    let ghost rest = input@.skip(k);
    assert(input@.subrange(k, k) =~= js_seq_bytes(joinsplits@));
    while i < count
        invariant
            k == start,
            compact_size_read(input@) == Ok::<(u64, nat), ReadError>((count, k as nat)),
            compact_size_bytes(count) == input@.subrange(0, k),
            rest == input@.skip(k),
            len == js_len(use_groth),
            0 < count <= MAX_COMPACT_SIZE,
            i <= count,
            start <= pos <= input@.len(),
            pos - start == i * len,
            joinsplits@.len() == i,
            js_seq_bytes(joinsplits@) == input@.subrange(k, pos as int),
            all_proofs_match(joinsplits@, use_groth),
            all_wf(joinsplits@),
            js_seq_read_failure(rest, use_groth, count as nat) == js_seq_read_failure(
                input@.skip(pos as int),
                use_groth,
                (count - i) as nat,
            ),
        decreases count - i,
    {
        let js = match read_js_at(input, pos, use_groth) {
            Ok(js) => js,
            Err(e) => {
                proof {
                    assert(js_seq_read_failure(rest, use_groth, count as nat) == Some(e));
                }
                return Err(e);
            },
        };
        assert(input@.skip(pos as int).len() == input@.len() - pos);
        assert(pos + len <= input@.len());
        assert(input@.len() == input.len());
        let ghost old_v = joinsplits@;
        joinsplits.push(js);
        proof {
            assert(joinsplits@.drop_last() =~= old_v);
            lemma_subrange_join(input@, k, pos as int, pos + len);
            assert(input@.skip(pos as int).skip(len as int) =~= input@.skip(pos + len));
            assert((i + 1) * len == i * len + len) by (nonlinear_arith);
        }
        pos = pos + len;
        i = i + 1;
    }
    if input.len() - pos < 96 {
        proof {
            assert(rest.len() == input@.len() - k);
        }
        return Err(ReadError::UnexpectedEof);
    }
    let joinsplit_pubkey: [u8; 32] = take_bytes(input, pos);
    let joinsplit_sig: [u8; 64] = take_bytes(input, pos + 32);
    let b = Bundle { joinsplits, joinsplit_pubkey, joinsplit_sig };
    proof {
        lemma_subrange_join(input@, 0, k, pos as int);
        lemma_subrange_join(input@, 0, pos as int, pos + 32);
        lemma_subrange_join(input@, 0, pos + 32, pos + 96);
    }
    Ok(Some(b))
}

/// Writes the fields [`read_bundle`] reads
///
/// Fails, writing nothing, when the bundle holds more than `MAX_COMPACT_SIZE`
/// JoinSplits.
pub fn write_bundle(out: &mut Vec<u8>, bundle: Option<&Bundle>) -> (r: Result<(), WriteError>)
    ensures
        match bundle {
            None => r is Ok && final(out)@ == old(out)@ + no_bundle_bytes(),
            Some(b) => if b.joinsplits@.len() <= MAX_COMPACT_SIZE {
                r is Ok && final(out)@ == old(out)@ + bundle_bytes(*b)
            } else {
                r == Err::<(), WriteError>(WriteError::CompactSizeTooLarge) && final(out)@ == old(out)@
            },
        },
{
    match bundle {
        Some(b) => {
            match compact_size_write(out, b.joinsplits.len()) {
                Ok(()) => {},
                Err(e) => {
                    return Err(e);
                },
            }
            let ghost o = out@;
            let mut i: usize = 0;
            assert(b.joinsplits@.subrange(0, 0) =~= Seq::<JsDescription>::empty());
            assert(o + js_seq_bytes(Seq::<JsDescription>::empty()) =~= o);
            while i < b.joinsplits.len()
                invariant
                    i <= b.joinsplits@.len(),
                    out@ == o + js_seq_bytes(b.joinsplits@.subrange(0, i as int)),
                decreases b.joinsplits@.len() - i,
            {
                b.joinsplits[i].write(out);
                proof {
                    let sub = b.joinsplits@.subrange(0, i + 1);
                    assert(sub.drop_last() =~= b.joinsplits@.subrange(0, i as int));
                    assert(out@ =~= o + js_seq_bytes(sub));
                }
                i += 1;
            }
            assert(b.joinsplits@.subrange(0, i as int) =~= b.joinsplits@);
            push_bytes(out, &b.joinsplit_pubkey);
            push_bytes(out, &b.joinsplit_sig);
            assert(out@ =~= old(out)@ + bundle_bytes(*b));
            Ok(())
        },
        None => compact_size_write(out, 0),
    }
}

/// The layout of the encoding: every field of a description sits at a fixed
/// offset in `bytes()`, which is `js_len` bytes long for the proof system of
/// its proof; the two values are signed 64-bit little-endian integers.
pub proof fn lemma_js_layout(js: JsDescription)
    ensures
        js.bytes().len() == js_len(js.spec_proof() is Groth),
        proof_bytes(js.spec_proof()).len() == proof_len(js.spec_proof() is Groth),
        js.bytes().subrange(0, 8) == i64_le_bytes(js.spec_vpub_old()),
        js.bytes().subrange(8, 16) == i64_le_bytes(js.spec_vpub_new()),
        js.bytes().subrange(16, 48) == js.spec_anchor()@,
        js.bytes().subrange(48, 80) == js.spec_nullifiers()[0]@,
        js.bytes().subrange(80, 112) == js.spec_nullifiers()[1]@,
        js.bytes().subrange(112, 144) == js.spec_commitments()[0]@,
        js.bytes().subrange(144, 176) == js.spec_commitments()[1]@,
        js.bytes().subrange(176, 208) == js.spec_ephemeral_key()@,
        js.bytes().subrange(208, 240) == js.spec_random_seed()@,
        js.bytes().subrange(240, 272) == js.spec_macs()[0]@,
        js.bytes().subrange(272, 304) == js.spec_macs()[1]@,
        js.bytes().subrange(304, 304 + proof_len(js.spec_proof() is Groth)) == proof_bytes(
            js.spec_proof(),
        ),
        js.bytes().subrange(
            304 + proof_len(js.spec_proof() is Groth),
            304 + proof_len(js.spec_proof() is Groth) + 601,
        ) == js.spec_ciphertexts()[0]@,
        js.bytes().subrange(
            304 + proof_len(js.spec_proof() is Groth) + 601,
            304 + proof_len(js.spec_proof() is Groth) + 1202,
        ) == js.spec_ciphertexts()[1]@,
{
    lemma_auto_spec_u64_to_from_le_bytes();
    let b = js.bytes();
    let q: int = proof_len(js.sprout_proof is Groth) as int;
    assert(b.subrange(0, 8) =~= i64_le_bytes(js.vpub_old));
    assert(b.subrange(8, 16) =~= i64_le_bytes(js.vpub_new));
    assert(b.subrange(16, 48) =~= js.anchor@);
    assert(b.subrange(48, 80) =~= js.nullifiers[0]@);
    assert(b.subrange(80, 112) =~= js.nullifiers[1]@);
    assert(b.subrange(112, 144) =~= js.commitments[0]@);
    assert(b.subrange(144, 176) =~= js.commitments[1]@);
    assert(b.subrange(176, 208) =~= js.ephemeral_key@);
    assert(b.subrange(208, 240) =~= js.random_seed@);
    assert(b.subrange(240, 272) =~= js.macs[0]@);
    assert(b.subrange(272, 304) =~= js.macs[1]@);
    assert(b.subrange(304, 304 + q) =~= proof_bytes(js.sprout_proof));
    assert(b.subrange(304 + q, 304 + q + 601) =~= js.ciphertexts[0]@);
    assert(b.subrange(304 + q + 601, 304 + q + 1202) =~= js.ciphertexts[1]@);
}

/// The net value of a description is `vpub_new - vpub_old`, and lies in the
/// balance range.
pub proof fn lemma_net_value(js: JsDescription)
    requires
        js.wf(),
    ensures
        js.spec_net_value() == js.spec_vpub_new() - js.spec_vpub_old(),
        is_balance(js.spec_net_value()),
        is_money(js.spec_vpub_old() as int),
        is_money(js.spec_vpub_new() as int),
{
}

/// A description is read back from its own encoding, whatever follows it:
/// reading `js.bytes() + rest` succeeds and takes exactly `js.bytes()`.
pub proof fn law_js_round_trip(js: JsDescription, use_groth: bool, rest: Seq<u8>)
    requires
        js.wf(),
        proof_matches(js.spec_proof(), use_groth),
    ensures
        js_read_failure(js.bytes() + rest, use_groth) is None,
        js.bytes().len() == js_len(use_groth),
        (js.bytes() + rest).subrange(0, js_len(use_groth)) == js.bytes(),
{
    lemma_js_layout(js);
    lemma_auto_spec_u64_to_from_le_bytes();
    let s = js.bytes() + rest;
    assert(s.subrange(0, 8) =~= js.bytes().subrange(0, 8));
    assert(s.subrange(8, 16) =~= js.bytes().subrange(8, 16));
    assert(s.subrange(0, js_len(use_groth)) =~= js.bytes());
}

/// The encoding of a description determines it: two descriptions with the
/// same encoding are equal.
pub proof fn law_js_encoding_determines(a: JsDescription, b: JsDescription)
    requires
        a.wf(),
        b.wf(),
        a.bytes() == b.bytes(),
    ensures
        a == b,
{
    lemma_js_layout(a);
    lemma_js_layout(b);
    lemma_auto_spec_u64_to_from_le_bytes();
    assert((a.sprout_proof is Groth) == (b.sprout_proof is Groth));
    assert(u64_le_value(i64_le_bytes(a.vpub_old)) == a.vpub_old as u64);
    assert(u64_le_value(i64_le_bytes(b.vpub_old)) == b.vpub_old as u64);
    assert(u64_le_value(i64_le_bytes(a.vpub_new)) == a.vpub_new as u64);
    assert(u64_le_value(i64_le_bytes(b.vpub_new)) == b.vpub_new as u64);
    assert(a.anchor =~= b.anchor);
    assert(a.nullifiers[0] =~= b.nullifiers[0]);
    assert(a.nullifiers[1] =~= b.nullifiers[1]);
    assert(a.nullifiers =~= b.nullifiers);
    assert(a.commitments[0] =~= b.commitments[0]);
    assert(a.commitments[1] =~= b.commitments[1]);
    assert(a.commitments =~= b.commitments);
    assert(a.ephemeral_key =~= b.ephemeral_key);
    assert(a.random_seed =~= b.random_seed);
    assert(a.macs[0] =~= b.macs[0]);
    assert(a.macs[1] =~= b.macs[1]);
    assert(a.macs =~= b.macs);
    assert(a.ciphertexts[0] =~= b.ciphertexts[0]);
    assert(a.ciphertexts[1] =~= b.ciphertexts[1]);
    assert(a.ciphertexts =~= b.ciphertexts);
    match (a.sprout_proof, b.sprout_proof) {
        (SproutProof::Groth(p), SproutProof::Groth(q)) => {
            assert(p =~= q);
        },
        (SproutProof::PHGR(p), SproutProof::PHGR(q)) => {
            assert(p =~= q);
        },
        _ => {},
    }
}

/// The encodings of descriptions that all carry proofs of one system take
/// `js_len` bytes each.
proof fn lemma_js_seq_len(v: Seq<JsDescription>, use_groth: bool)
    requires
        all_proofs_match(v, use_groth),
    ensures
        js_seq_bytes(v).len() == v.len() * js_len(use_groth),
    decreases v.len(),
{
    if v.len() > 0 {
        lemma_js_seq_len(v.drop_last(), use_groth);
        lemma_js_layout(v.last());
        assert(proof_matches(v[v.len() - 1].spec_proof(), use_groth));
        assert(v.len() * js_len(use_groth) == (v.len() - 1) * js_len(use_groth) + js_len(use_groth))
            by (nonlinear_arith);
    }
}

/// The encodings of a non-empty sequence of descriptions start with that of
/// its first description.
proof fn lemma_js_seq_front(v: Seq<JsDescription>)
    requires
        v.len() > 0,
    ensures
        js_seq_bytes(v) == v[0].bytes() + js_seq_bytes(v.drop_first()),
    decreases v.len(),
{
    if v.len() == 1 {
        assert(v.drop_last() =~= Seq::<JsDescription>::empty());
        assert(v.drop_first() =~= Seq::<JsDescription>::empty());
        assert(js_seq_bytes(v) =~= v[0].bytes() + js_seq_bytes(v.drop_first()));
    } else {
        lemma_js_seq_front(v.drop_last());
        assert(v.drop_last().drop_first() =~= v.drop_first().drop_last());
        assert(v.drop_first().last() == v.last());
        assert(js_seq_bytes(v) =~= v[0].bytes() + js_seq_bytes(v.drop_first()));
    }
}

/// Descriptions are read back, one after another, from their encodings.
proof fn lemma_js_seq_read_ok(v: Seq<JsDescription>, use_groth: bool, tail: Seq<u8>)
    requires
        all_wf(v),
        all_proofs_match(v, use_groth),
    ensures
        js_seq_read_failure(js_seq_bytes(v) + tail, use_groth, v.len()) is None,
    decreases v.len(),
{
    if v.len() > 0 {
        lemma_js_seq_front(v);
        let first = v[0];
        let more = js_seq_bytes(v.drop_first()) + tail;
        assert(js_seq_bytes(v) + tail =~= first.bytes() + more);
        assert(first.wf() && proof_matches(first.spec_proof(), use_groth));
        law_js_round_trip(first, use_groth, more);
        assert((first.bytes() + more).skip(js_len(use_groth)) =~= more);
        assert(all_wf(v.drop_first()) && all_proofs_match(v.drop_first(), use_groth)) by {
            assert forall|i: int| 0 <= i < v.drop_first().len() implies #[trigger] v.drop_first()[i].wf()
                && proof_matches(v.drop_first()[i].spec_proof(), use_groth) by {
                assert(v.drop_first()[i] == v[i + 1]);
            }
        }
        lemma_js_seq_read_ok(v.drop_first(), use_groth, tail);
    }
}

/// Descriptions of one proof system whose encodings agree are the same.
proof fn lemma_js_seq_injective(v1: Seq<JsDescription>, v2: Seq<JsDescription>, use_groth: bool)
    requires
        v1.len() == v2.len(),
        all_wf(v1),
        all_wf(v2),
        all_proofs_match(v1, use_groth),
        all_proofs_match(v2, use_groth),
        js_seq_bytes(v1) == js_seq_bytes(v2),
    ensures
        v1 == v2,
    decreases v1.len(),
{
    if v1.len() > 0 {
        let p1 = v1.drop_last();
        let p2 = v2.drop_last();
        lemma_js_seq_len(p1, use_groth);
        lemma_js_seq_len(p2, use_groth);
        let a = js_seq_bytes(p1);
        let n: int = a.len() as int;
        assert(js_seq_bytes(p1) == js_seq_bytes(v1).subrange(0, n));
        assert(js_seq_bytes(p2) == js_seq_bytes(v2).subrange(0, n));
        assert(v1.last().bytes() == js_seq_bytes(v1).subrange(n, js_seq_bytes(v1).len() as int));
        assert(v2.last().bytes() == js_seq_bytes(v2).subrange(n, js_seq_bytes(v2).len() as int));
        assert(v1[v1.len() - 1].wf() && v2[v2.len() - 1].wf());
        law_js_encoding_determines(v1.last(), v2.last());
        lemma_js_seq_injective(p1, p2, use_groth);
        assert(v1 =~= v2) by {
            assert forall|i: int| 0 <= i < v1.len() implies v1[i] == v2[i] by {
                if i < v1.len() - 1 {
                    assert(p1[i] == v1[i]);
                    assert(p2[i] == v2[i]);
                }
            }
        }
    }
}

/// A bundle is read back from what `write_bundle` writes for it, whatever
/// follows: reading succeeds and finds JoinSplits. With `law_bundle_encoding_determines`
/// and the contract of `read_bundle`, the bundle read is the one written.
///
/// Holds for bundles with at least one JoinSplit, all of the proof system that
/// `use_groth` selects; a bundle with no JoinSplit is written as a zero count
/// and read back as no bundle.
pub proof fn law_bundle_round_trip(b: Bundle, use_groth: bool, rest: Seq<u8>)
    requires
        all_wf(b.joinsplits@),
        all_proofs_match(b.joinsplits@, use_groth),
        0 < b.joinsplits@.len() <= MAX_COMPACT_SIZE,
    ensures
        bundle_read_failure(bundle_bytes(b) + rest, use_groth) is None,
        !announces_no_bundle(bundle_bytes(b) + rest),
{
    let v = b.joinsplits@;
    let n: u64 = v.len() as u64;
    let tail = b.joinsplit_pubkey@ + b.joinsplit_sig@ + rest;
    let after = js_seq_bytes(v) + tail;
    let s = bundle_bytes(b) + rest;
    assert(s =~= compact_size_bytes(n) + after);
    lemma_compact_size_round_trip(n, after);
    let k: int = compact_size_bytes(n).len() as int;
    assert(s.skip(k) =~= after);
    lemma_js_seq_read_ok(v, use_groth, tail);
    lemma_js_seq_len(v, use_groth);
}

/// No bundle is written as a zero count, and a zero count is read back as no
/// bundle, whatever follows.
pub proof fn law_no_bundle_round_trip(use_groth: bool, rest: Seq<u8>)
    ensures
        bundle_read_failure(no_bundle_bytes() + rest, use_groth) is None,
        announces_no_bundle(no_bundle_bytes() + rest),
{
    lemma_compact_size_round_trip(0, rest);
}

/// Input that is read as no bundle starts with the encoding of no bundle: the
/// zero count is canonical.
pub proof fn law_no_bundle_canonical(s: Seq<u8>)
    requires
        announces_no_bundle(s),
    ensures
        s.subrange(0, 1) == no_bundle_bytes(),
{
    lemma_compact_size_read_canonical(s);
}

/// Where the parts of a bundle sit in input that starts with its encoding.
proof fn lemma_bundle_layout(b: Bundle, use_groth: bool, s: Seq<u8>)
    requires
        all_proofs_match(b.joinsplits@, use_groth),
        b.joinsplits@.len() <= MAX_COMPACT_SIZE,
        bundle_bytes(b).len() <= s.len(),
        bundle_bytes(b) == s.subrange(0, bundle_bytes(b).len() as int),
    ensures
        ({
            let k: int = compact_size_bytes(b.joinsplits@.len() as u64).len() as int;
            let m: int = b.joinsplits@.len() * js_len(use_groth);
            &&& compact_size_read(s) == Ok::<(u64, nat), ReadError>(
                (b.joinsplits@.len() as u64, k as nat),
            )
            &&& js_seq_bytes(b.joinsplits@) == s.subrange(k, k + m)
            &&& b.joinsplit_pubkey@ == s.subrange(k + m, k + m + 32)
            &&& b.joinsplit_sig@ == s.subrange(k + m + 32, k + m + 96)
        }),
{
    let v = b.joinsplits@;
    let n: u64 = v.len() as u64;
    let l: int = bundle_bytes(b).len() as int;
    let after = js_seq_bytes(v) + b.joinsplit_pubkey@ + b.joinsplit_sig@ + s.skip(l);
    assert(s =~= s.subrange(0, l) + s.skip(l));
    assert(bundle_bytes(b) + s.skip(l) =~= compact_size_bytes(n) + after);
    lemma_compact_size_round_trip(n, after);
    lemma_js_seq_len(v, use_groth);
    let k: int = compact_size_bytes(n).len() as int;
    let m: int = js_seq_bytes(v).len() as int;
    assert(js_seq_bytes(v) =~= s.subrange(k, k + m));
    assert(b.joinsplit_pubkey@ =~= s.subrange(k + m, k + m + 32));
    assert(b.joinsplit_sig@ =~= s.subrange(k + m + 32, k + m + 96));
}

/// The encoding of a bundle determines it: two bundles whose encodings both
/// start `s` are equal, provided each has between one and `MAX_COMPACT_SIZE`
/// JoinSplits, all of the proof system that `use_groth` selects.
pub proof fn law_bundle_encoding_determines(b1: Bundle, b2: Bundle, use_groth: bool, s: Seq<u8>)
    requires
        all_wf(b1.joinsplits@),
        all_wf(b2.joinsplits@),
        all_proofs_match(b1.joinsplits@, use_groth),
        all_proofs_match(b2.joinsplits@, use_groth),
        0 < b1.joinsplits@.len() <= MAX_COMPACT_SIZE,
        0 < b2.joinsplits@.len() <= MAX_COMPACT_SIZE,
        bundle_bytes(b1).len() <= s.len(),
        bundle_bytes(b2).len() <= s.len(),
        bundle_bytes(b1) == s.subrange(0, bundle_bytes(b1).len() as int),
        bundle_bytes(b2) == s.subrange(0, bundle_bytes(b2).len() as int),
    ensures
        b1@ == b2@,
{
    lemma_bundle_layout(b1, use_groth, s);
    lemma_bundle_layout(b2, use_groth, s);
    lemma_js_seq_injective(b1.joinsplits@, b2.joinsplits@, use_groth);
}

/// What `read_bundle` gives back of what `write_bundle` wrote: any bundle that
/// the contract of `read_bundle` allows it to return on `bundle_bytes(b) + rest`
/// is `b`.
///
/// Holds for bundles with between one and `MAX_COMPACT_SIZE` JoinSplits, all
/// of the proof system that `use_groth` selects.
pub proof fn law_read_bundle_after_write(b: Bundle, use_groth: bool, rest: Seq<u8>, read: Bundle)
    requires
        all_wf(b.joinsplits@),
        all_proofs_match(b.joinsplits@, use_groth),
        0 < b.joinsplits@.len() <= MAX_COMPACT_SIZE,
        all_wf(read.joinsplits@),
        all_proofs_match(read.joinsplits@, use_groth),
        0 < read.joinsplits@.len() <= MAX_COMPACT_SIZE,
        bundle_bytes(read).len() <= (bundle_bytes(b) + rest).len(),
        bundle_bytes(read) == (bundle_bytes(b) + rest).subrange(0, bundle_bytes(read).len() as int),
    ensures
        read@ == b@,
{
    let s = bundle_bytes(b) + rest;
    assert(bundle_bytes(b) =~= s.subrange(0, bundle_bytes(b).len() as int));
    law_bundle_encoding_determines(b, read, use_groth, s);
}

/// What `JsDescription::read` gives back of what `JsDescription::write`
/// wrote: any description that the contract of `read` allows it to return on
/// `js.bytes() + rest` is `js`.
pub proof fn law_js_read_after_write(js: JsDescription, use_groth: bool, rest: Seq<u8>, read: JsDescription)
    requires
        js.wf(),
        proof_matches(js.spec_proof(), use_groth),
        read.wf(),
        read.bytes() == (js.bytes() + rest).subrange(0, js_len(use_groth)),
    ensures
        read == js,
{
    law_js_round_trip(js, use_groth, rest);
    law_js_encoding_determines(read, js);
}

/// The encoding carries a proof's bytes as they are, in order: for a Groth16
/// proof `b`, bytes 304..496 of the encoding are `b`; for a BCTV14 proof `b`,
/// bytes 304..600 are `b`. The encoding is then 1698 or 1802 bytes long.
pub proof fn law_proof_in_encoding(js: JsDescription)
    ensures
        js.spec_proof() matches SproutProof::Groth(b) ==> js.bytes().subrange(
            304,
            304 + GROTH_PROOF_SIZE,
        ) == b@ && js.bytes().len() == 304 + GROTH_PROOF_SIZE + 2 * NOTE_CIPHERTEXT_SIZE,
        js.spec_proof() matches SproutProof::PHGR(b) ==> js.bytes().subrange(
            304,
            304 + PHGR_PROOF_SIZE,
        ) == b@ && js.bytes().len() == 304 + PHGR_PROOF_SIZE + 2 * NOTE_CIPHERTEXT_SIZE,
{
    lemma_js_layout(js);
}

/// A description read from `input` (one whose encoding starts `input`, as the
/// contract of `JsDescription::read` gives it) holds the proof bytes that
/// `input` carries after the first 304 bytes, in order.
pub proof fn law_read_proof_bytes(input: Seq<u8>, js: JsDescription, use_groth: bool)
    requires
        js_len(use_groth) <= input.len(),
        proof_matches(js.spec_proof(), use_groth),
        js.bytes() == input.subrange(0, js_len(use_groth)),
    ensures
        js.spec_proof() matches SproutProof::Groth(b) ==> b@ == input.subrange(
            304,
            304 + GROTH_PROOF_SIZE,
        ),
        js.spec_proof() matches SproutProof::PHGR(b) ==> b@ == input.subrange(
            304,
            304 + PHGR_PROOF_SIZE,
        ),
{
    law_proof_in_encoding(js);
    match js.spec_proof() {
        SproutProof::Groth(b) => {
            assert(input.subrange(0, js_len(use_groth)).subrange(304, 304 + GROTH_PROOF_SIZE)
                =~= input.subrange(304, 304 + GROTH_PROOF_SIZE));
        },
        SproutProof::PHGR(b) => {
            assert(input.subrange(0, js_len(use_groth)).subrange(304, 304 + PHGR_PROOF_SIZE)
                =~= input.subrange(304, 304 + PHGR_PROOF_SIZE));
        },
    }
}

/// The value balance of a bundle with no JoinSplits is zero.
pub proof fn law_value_balance_empty()
    ensures
        balance_fold(Seq::<JsDescription>::empty()) == Some(0i64),
{
}

/// The value balance of a bundle with a single JoinSplit is that JoinSplit's
/// `vpub_new - vpub_old`, which a well-formed JoinSplit keeps in the balance
/// range.
pub proof fn law_value_balance_single(js: JsDescription)
    requires
        js.wf(),
    ensures
        balance_fold(seq![js]) == Some((js.spec_vpub_new() - js.spec_vpub_old()) as i64),
{
    let v = seq![js];
    assert(v.drop_last() =~= Seq::<JsDescription>::empty());
    assert(balance_fold(v.drop_last()) == Some(0i64));
    assert(v.last() == js);
    assert(is_balance(js.spec_net_value()));
}

/// Appending a JoinSplit to a bundle adds exactly its `vpub_new - vpub_old`
/// to the value balance when the new total stays in the balance range, and
/// gives `None` when it leaves it or when the balance was already `None`.
pub proof fn law_value_balance_push(v: Seq<JsDescription>, js: JsDescription)
    ensures
        balance_fold(v.push(js)) == (match balance_fold(v) {
            None => None,
            Some(t) => if is_balance(t + js.spec_vpub_new() - js.spec_vpub_old()) {
                Some((t + js.spec_vpub_new() - js.spec_vpub_old()) as i64)
            } else {
                None
            },
        }),
{
    assert(v.push(js).drop_last() =~= v);
}

} // verus!
