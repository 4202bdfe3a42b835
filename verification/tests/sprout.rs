use zcash_primitives::compact_size::MAX_COMPACT_SIZE;
use zcash_primitives::error::ReadError;
use zcash_primitives::sprout::{
    js_encoded_len, read_bundle, write_bundle, Bundle, JsDescription, SproutProof,
    GROTH_PROOF_SIZE, NOTE_CIPHERTEXT_SIZE, PHGR_PROOF_SIZE,
};
use zcash_primitives::value::MAX_MONEY;
use zcash_protocol::value::Zatoshis;

fn joinsplit(proof: SproutProof) -> JsDescription {
    JsDescription::from_parts(
        Zatoshis::from_u64(5).unwrap().into_u64(),
        Zatoshis::ZERO.into_u64(),
        [1; 32],
        [[2; 32], [3; 32]],
        [[4; 32], [5; 32]],
        [6; 32],
        [7; 32],
        [[8; 32], [9; 32]],
        proof,
        [[10; NOTE_CIPHERTEXT_SIZE], [11; NOTE_CIPHERTEXT_SIZE]],
    )
}

fn joinsplit_with_values(vpub_old: u64, vpub_new: u64) -> JsDescription {
    JsDescription::from_parts(
        vpub_old,
        vpub_new,
        [1; 32],
        [[2; 32], [3; 32]],
        [[4; 32], [5; 32]],
        [6; 32],
        [7; 32],
        [[8; 32], [9; 32]],
        SproutProof::Groth([12; GROTH_PROOF_SIZE]),
        [[10; NOTE_CIPHERTEXT_SIZE], [11; NOTE_CIPHERTEXT_SIZE]],
    )
}

fn bundle_of(joinsplits: Vec<JsDescription>) -> Bundle {
    Bundle {
        joinsplits,
        joinsplit_pubkey: [14; 32],
        joinsplit_sig: [15; 64],
    }
}

fn encode(js: &JsDescription) -> Vec<u8> {
    let mut out = Vec::new();
    js.write(&mut out);
    out
}

/// Round-trips under both proof systems; no JoinSplits = a single zero count
#[test]
fn bundle_round_trips_from_parts() {
    for (proof, use_groth) in [
        (SproutProof::Groth([12; GROTH_PROOF_SIZE]), true),
        (SproutProof::PHGR([13; PHGR_PROOF_SIZE]), false),
    ] {
        let bundle = Bundle {
            joinsplits: vec![joinsplit(proof.clone()), joinsplit(proof)],
            joinsplit_pubkey: [14; 32],
            joinsplit_sig: [15; 64],
        };

        let mut encoding = Vec::new();
        write_bundle(&mut encoding, Some(&bundle)).unwrap();
        let read = read_bundle(&encoding[..], use_groth).unwrap();
        assert_eq!(read.as_ref(), Some(&bundle));
        assert_eq!(read.unwrap().value_balance(), bundle.value_balance());
    }

    let mut empty = Vec::new();
    write_bundle(&mut empty, None).unwrap();
    assert_eq!(empty, [0]);
    assert_eq!(read_bundle(&empty[..], true).unwrap(), None);
}

#[test]
fn js_encoded_lengths() {
    assert_eq!(js_encoded_len(true), 1698);
    assert_eq!(js_encoded_len(false), 1802);
    let groth = joinsplit(SproutProof::Groth([12; GROTH_PROOF_SIZE]));
    let phgr = joinsplit(SproutProof::PHGR([13; PHGR_PROOF_SIZE]));
    assert_eq!(encode(&groth).len(), 1698);
    assert_eq!(encode(&phgr).len(), 1802);
}

#[test]
fn js_encoding_layout() {
    let js = joinsplit_with_values(5, 7);
    let bytes = encode(&js);
    assert_eq!(&bytes[0..8], &5i64.to_le_bytes());
    assert_eq!(&bytes[8..16], &7i64.to_le_bytes());
    assert_eq!(&bytes[16..48], &[1u8; 32]);
    assert_eq!(&bytes[48..80], &[2u8; 32]);
    assert_eq!(&bytes[80..112], &[3u8; 32]);
    assert_eq!(&bytes[112..144], &[4u8; 32]);
    assert_eq!(&bytes[144..176], &[5u8; 32]);
    assert_eq!(&bytes[176..208], &[6u8; 32]);
    assert_eq!(&bytes[208..240], &[7u8; 32]);
    assert_eq!(&bytes[240..272], &[8u8; 32]);
    assert_eq!(&bytes[272..304], &[9u8; 32]);
    assert_eq!(&bytes[304..496], &[12u8; GROTH_PROOF_SIZE][..]);
    assert_eq!(&bytes[496..1097], &[10u8; NOTE_CIPHERTEXT_SIZE][..]);
    assert_eq!(&bytes[1097..1698], &[11u8; NOTE_CIPHERTEXT_SIZE][..]);
}

#[test]
fn js_round_trip_with_trailing_bytes() {
    for (proof, use_groth) in [
        (SproutProof::Groth([12; GROTH_PROOF_SIZE]), true),
        (SproutProof::PHGR([13; PHGR_PROOF_SIZE]), false),
    ] {
        let js = joinsplit(proof);
        let mut bytes = encode(&js);
        bytes.extend_from_slice(&[0xaa; 10]);
        let read = JsDescription::read(&bytes, use_groth).unwrap();
        assert_eq!(read, js);
        assert_eq!(encode(&read), bytes[..bytes.len() - 10].to_vec());
    }
}

#[test]
fn js_read_values_from_bytes() {
    let js = joinsplit_with_values(MAX_MONEY, 123_456);
    let read = JsDescription::read(&encode(&js), true).unwrap();
    assert_eq!(read.vpub_old(), 2_100_000_000_000_000);
    assert_eq!(read.vpub_new(), 123_456);
}

#[test]
fn js_read_errors() {
    let js = joinsplit_with_values(5, 7);
    let bytes = encode(&js);

    assert_eq!(JsDescription::read(&bytes[..7], true), Err(ReadError::UnexpectedEof));
    assert_eq!(JsDescription::read(&bytes[..15], true), Err(ReadError::UnexpectedEof));
    assert_eq!(JsDescription::read(&bytes[..1697], true), Err(ReadError::UnexpectedEof));
    // A Groth-sized encoding is too short for a PHGR proof.
    assert_eq!(JsDescription::read(&bytes, false), Err(ReadError::UnexpectedEof));

    let mut bad_old = bytes.clone();
    bad_old[0..8].copy_from_slice(&(MAX_MONEY + 1).to_le_bytes());
    assert_eq!(JsDescription::read(&bad_old, true), Err(ReadError::VpubOldOutOfRange));
    // The out-of-range value is reported before the input runs out.
    assert_eq!(JsDescription::read(&bad_old[..8], true), Err(ReadError::VpubOldOutOfRange));

    let mut bad_new = bytes.clone();
    bad_new[8..16].copy_from_slice(&(-1i64).to_le_bytes());
    assert_eq!(JsDescription::read(&bad_new, true), Err(ReadError::VpubNewOutOfRange));
}

#[test]
fn js_net_value_and_getters() {
    let js = joinsplit_with_values(5, 7);
    assert_eq!(js.net_value(), 2);
    assert_eq!(js.vpub_old(), 5);
    assert_eq!(js.vpub_new(), 7);
    assert_eq!(js.anchor(), &[1; 32]);
    assert_eq!(js.nullifiers(), &[[2; 32], [3; 32]]);
    assert_eq!(js.commitments(), &[[4; 32], [5; 32]]);
    assert_eq!(js.ephemeral_key(), &[6; 32]);
    assert_eq!(js.random_seed(), &[7; 32]);
    assert_eq!(js.macs(), &[[8; 32], [9; 32]]);
    assert_eq!(js.ciphertexts()[0], [10; NOTE_CIPHERTEXT_SIZE]);
    assert_eq!(js.ciphertexts()[1], [11; NOTE_CIPHERTEXT_SIZE]);
    assert_eq!(js.sprout_proof(), &SproutProof::Groth([12; GROTH_PROOF_SIZE]));

    let outgoing = joinsplit_with_values(MAX_MONEY, 0);
    assert_eq!(outgoing.net_value(), -2_100_000_000_000_000);
}

#[test]
fn groth_proof_bytes_by_proof_system() {
    let groth = joinsplit(SproutProof::Groth([12; GROTH_PROOF_SIZE]));
    assert_eq!(groth.groth_proof_bytes(), Some(&[12; GROTH_PROOF_SIZE]));
    let phgr = joinsplit(SproutProof::PHGR([13; PHGR_PROOF_SIZE]));
    assert_eq!(phgr.groth_proof_bytes(), None);
}

#[test]
fn value_balance_sums_net_values() {
    let bundle = bundle_of(vec![joinsplit_with_values(5, 0), joinsplit_with_values(0, 12)]);
    assert_eq!(bundle.value_balance(), Some(7));
    assert_eq!(bundle_of(vec![]).value_balance(), Some(0));
}

#[test]
fn value_balance_out_of_range() {
    let bundle = bundle_of(vec![
        joinsplit_with_values(0, MAX_MONEY),
        joinsplit_with_values(0, MAX_MONEY),
    ]);
    assert_eq!(bundle.value_balance(), None);
    // A partial sum out of range makes the whole balance `None`, even where a
    // later net value would bring the total back into range.
    let bundle = bundle_of(vec![
        joinsplit_with_values(0, MAX_MONEY),
        joinsplit_with_values(0, MAX_MONEY),
        joinsplit_with_values(MAX_MONEY, 0),
    ]);
    assert_eq!(bundle.value_balance(), None);
}

#[test]
fn bundle_encoding_layout() {
    let bundle = bundle_of(vec![joinsplit_with_values(5, 7), joinsplit_with_values(1, 2)]);
    let mut out = vec![0xee];
    write_bundle(&mut out, Some(&bundle)).unwrap();
    assert_eq!(out.len(), 1 + 1 + 2 * 1698 + 32 + 64);
    assert_eq!(out[0], 0xee);
    assert_eq!(out[1], 2);
    assert_eq!(&out[2..1700], &encode(&bundle.joinsplits[0])[..]);
    assert_eq!(&out[1700..3398], &encode(&bundle.joinsplits[1])[..]);
    assert_eq!(&out[3398..3430], &[14u8; 32]);
    assert_eq!(&out[3430..3494], &[15u8; 64]);
}

#[test]
fn bundle_round_trip_with_three_byte_count() {
    let joinsplits: Vec<JsDescription> = (0..253u64).map(|i| joinsplit_with_values(i, 0)).collect();
    let bundle = bundle_of(joinsplits);
    let mut out = Vec::new();
    write_bundle(&mut out, Some(&bundle)).unwrap();
    assert_eq!(&out[..3], &[253, 253, 0]);
    out.extend_from_slice(&[1, 2, 3]);
    let read = read_bundle(&out, true).unwrap().unwrap();
    assert_eq!(read, bundle);
    assert_eq!(read.value_balance(), Some(-(252 * 253 / 2)));
}

#[test]
fn empty_bundle_is_written_as_no_bundle() {
    let mut out = Vec::new();
    write_bundle(&mut out, Some(&bundle_of(vec![]))).unwrap();
    assert_eq!(out[0], 0);
    assert_eq!(out.len(), 1 + 32 + 64);
    assert_eq!(read_bundle(&out, true), Ok(None));
}

#[test]
fn bundle_read_errors() {
    assert_eq!(read_bundle(&[], true), Err(ReadError::UnexpectedEof));
    assert_eq!(read_bundle(&[253, 0], true), Err(ReadError::UnexpectedEof));
    // Non-canonical counts.
    assert_eq!(read_bundle(&[253, 1, 0], true), Err(ReadError::InvalidCompactSize));
    assert_eq!(read_bundle(&[254, 0xff, 0xff, 0, 0], true), Err(ReadError::InvalidCompactSize));
    assert_eq!(
        read_bundle(&[255, 0, 0, 0, 0, 1, 0, 0, 0], true),
        Err(ReadError::InvalidCompactSize)
    );
    // A canonical count above the consensus bound.
    let too_many = (MAX_COMPACT_SIZE + 1).to_le_bytes();
    assert_eq!(
        read_bundle(&[254, too_many[0], too_many[1], too_many[2], too_many[3]], true),
        Err(ReadError::InvalidCompactSize)
    );
    // A count of one with no description after it.
    assert_eq!(read_bundle(&[1], true), Err(ReadError::UnexpectedEof));

    let bundle = bundle_of(vec![joinsplit_with_values(5, 7)]);
    let mut out = Vec::new();
    write_bundle(&mut out, Some(&bundle)).unwrap();
    // Missing signature bytes.
    assert_eq!(read_bundle(&out[..out.len() - 1], true), Err(ReadError::UnexpectedEof));
    // The description's value is checked before anything after it.
    let mut bad = out.clone();
    bad[1..9].copy_from_slice(&(MAX_MONEY + 1).to_le_bytes());
    assert_eq!(read_bundle(&bad[..20], true), Err(ReadError::VpubOldOutOfRange));
    let mut bad = out.clone();
    bad[9..17].copy_from_slice(&(MAX_MONEY + 1).to_le_bytes());
    assert_eq!(read_bundle(&bad, true), Err(ReadError::VpubNewOutOfRange));
}

#[test]
fn zero_count_is_canonical_no_bundle() {
    assert_eq!(read_bundle(&[0, 9, 9, 9], false), Ok(None));
}

#[test]
fn cloned_bundle_is_equal() {
    let bundle = bundle_of(vec![joinsplit_with_values(5, 7)]);
    assert_eq!(bundle.clone(), bundle);
    assert_eq!(bundle.joinsplits[0].clone(), bundle.joinsplits[0]);
}
