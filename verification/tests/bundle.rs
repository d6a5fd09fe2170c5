use qumbra_wallet::bundle::{
    checksum_preimage, encoded_part, BundleError, BundleFacts, DiscoveryReading, MerkleWitness,
    RiderReading, WitnessBundle, CHECKSUM_LEN, WITNESS_BUNDLE_MAGIC,
};
use qumbra_wallet::random::os_rng;
use qumbra_wallet::send::{
    build_bundle, check_position, choose_inputs, invented_dummy, total, BuildContext,
    BuildMaterial, BuildRefusal, ChosenInput, InputPlan, Spendable,
};

const DEPTH: usize = 4;
const POSTED_FEE: u64 = 1_000_000;
const ANCHOR: [u64; 4] = [0x0A, 0x0B, 0x0C, 0x0D];
const ABSENT_RIDER: [u8; 1] = [0];

fn cm(b: u8) -> [u8; 32] {
    [b; 32]
}

fn witness() -> MerkleWitness {
    MerkleWitness { siblings: vec![[6; 4]; DEPTH], path_bits: vec![false; DEPTH] }
}

fn facts(rider: &[u8], name_fee: u64) -> BundleFacts {
    BundleFacts {
        posted_fee: POSTED_FEE,
        rider: Ok(RiderReading { canonical: rider.to_vec(), name_fee }),
        roots: [ANCHOR, ANCHOR],
        output_rho: [[21; 4], [22; 4]],
        discovery: Ok(DiscoveryReading {
            recipients: vec![vec![cm(1)], vec![cm(2)]],
            payloads: 2,
        }),
        output_cm: [cm(1), cm(2)],
    }
}

fn chosen(position: Option<u64>) -> ChosenInput {
    ChosenInput { sk: [8; 4], d: [1, 2], position, witness: witness() }
}

fn material(first: ChosenInput, second: ChosenInput, rider: &[u8], name_fee: u64) -> BuildMaterial {
    let dummy = invented_dummy(&mut os_rng());
    assert_eq!(dummy.value, 0);
    BuildMaterial {
        first,
        second,
        dummy_rho: dummy.rho,
        dummy_rseed: dummy.rseed,
        recipient_rkm: [31; 4],
        change_rkm: [32; 4],
        output_rho: [[21; 4], [22; 4]],
        output_rseed: [[41; 4], [42; 4]],
        discovery: Some(vec![9, 9, 9]),
        rider: rider.to_vec(),
        facts: facts(rider, name_fee),
    }
}

fn root() -> [u8; 32] {
    let mut r = [0u8; 32];
    for (i, lane) in ANCHOR.iter().enumerate() {
        r[8 * i..8 * i + 8].copy_from_slice(&lane.to_le_bytes());
    }
    r
}

fn context(anchor_count: u64) -> BuildContext {
    BuildContext {
        amount: 4_000_000,
        anchor_count,
        anchor_root: root(),
        anchor_tip_height: 9,
        recipient_short: "qs1recipient".to_string(),
        output_range: Some((2, 9)),
        spent_covered: Some((0, 9)),
    }
}

fn note(value: u64) -> Spendable {
    Spendable { div_index: 0, value, rho: [3; 4], rseed: [5; 4] }
}

fn dummy() -> ChosenInput {
    let input = invented_dummy(&mut os_rng());
    ChosenInput { sk: input.sk, d: input.d, position: None, witness: witness() }
}

fn bundle_with_rider(rider: &[u8], name_fee: u64) -> WitnessBundle {
    let notes = [note(1_000_000_000)];
    let plan = choose_inputs(&notes, 4_000_000, POSTED_FEE, name_fee).expect("one note covers");
    assert_eq!(plan.second, None);
    build_bundle(
        &plan,
        &notes,
        context(1),
        material(chosen(Some(0)), dummy(), rider, name_fee),
    )
    .ok()
    .expect("a valid bundle")
}

fn bundle() -> WitnessBundle {
    bundle_with_rider(&ABSENT_RIDER, 0)
}

/// A stand-in for the chain's hash: any fold that an edit changes will do.
fn checksum(encoded: &[u8]) -> [u8; 32] {
    let mut acc = [0x5Au8; 32];
    for (i, b) in checksum_preimage(encoded).iter().enumerate() {
        let k = i % 32;
        acc[k] = acc[k].wrapping_mul(37).wrapping_add(*b).rotate_left(1);
        acc[(k + 7) % 32] ^= *b;
    }
    acc
}

fn to_bytes(b: &WitnessBundle) -> Vec<u8> {
    b.to_bytes(&checksum(&b.encode()))
}

fn from_bytes(bytes: &[u8], facts: &BundleFacts) -> Result<WitnessBundle, BundleError> {
    WitnessBundle::from_bytes(bytes, &checksum(&encoded_part(bytes)), DEPTH, facts)
}

fn plain(bytes: &[u8]) -> Result<WitnessBundle, BundleError> {
    from_bytes(bytes, &facts(&ABSENT_RIDER, 0))
}

#[test]
fn witness_bundle_v1_round_trips_byte_for_byte_and_rejects_unknown_versions() {
    let b = bundle();
    let bytes = to_bytes(&b);
    let back = plain(&bytes).ok().expect("v1 decodes");
    assert_eq!(to_bytes(&back), bytes, "one canonical encoding");
    assert_eq!(back.anchor(), b.anchor());
    let nfs = [cm(0x51), cm(0x52)];
    assert_eq!(back.real_nullifiers(&nfs), b.real_nullifiers(&nfs));
    assert_eq!(back.real_nullifiers(&nfs), vec![cm(0x51)], "the dummy's is not a real one");

    let mut future = bytes;
    future[WITNESS_BUNDLE_MAGIC.len()] = 0x7f;
    assert_eq!(
        plain(&future).err().expect("future version refuses"),
        BundleError::UnknownVersion(0x7f),
    );
}

#[test]
fn witness_bundle_zeroize_clears_typed_spend_authority() {
    let mut bundle = bundle();
    bundle.zeroize();
    assert!(bundle.inputs.iter().all(|input| {
        input.sk == [0; 4]
            && input.value == 0
            && input.rho == [0; 4]
            && input.rseed == [0; 4]
            && input.d == [0; 2]
    }));
    assert!(bundle.witnesses.iter().all(|w| {
        w.siblings == vec![[0; 4]; DEPTH] && w.path_bits == vec![false; DEPTH]
    }));
    assert!(bundle.outputs.iter().all(|output| {
        output.value == 0 && output.rkm == [0; 4] && output.rho == [0; 4] && output.rseed == [0; 4]
    }));
    assert_eq!(bundle.anchor, [0; 4]);
    assert!(bundle.discovery.is_empty());
    assert!(bundle.rider.is_empty());
    assert!(bundle.recipient_short.is_empty());
    assert_eq!(bundle.real_inputs, 0);
    assert_eq!(bundle.amount, 0);
    assert_eq!(bundle.fee, 0);
    assert_eq!(bundle.change_value, 0);
    assert_eq!(bundle.anchor_tip_height, 0);
    assert!(!bundle.allowed_scan_verdicts_only);
    assert_eq!(bundle.output_range, None);
    assert_eq!(bundle.spent_covered, None);
    assert!(bundle.validate(&facts(&ABSENT_RIDER, 0)).is_err(), "a wiped bundle is refused");
}

#[test]
fn name_service_rider_is_selected_and_round_trips_with_its_fee() {
    let rider = [2u8, 5, b'a', b'l', b'i', b'c', b'e'];
    let name_fee = 250_000;
    let bundle = bundle_with_rider(&rider, name_fee);
    let expected_fee = POSTED_FEE + name_fee;
    assert_eq!(bundle.fee, expected_fee);
    assert_eq!(bundle.rider, rider);
    assert_eq!(
        bundle.outputs[1].value,
        1_000_000_000 - bundle.amount - expected_fee,
        "the rider's fee changes the outputs"
    );

    let encoded = to_bytes(&bundle);
    let decoded = from_bytes(&encoded, &facts(&rider, name_fee))
        .ok()
        .expect("a bundle with a rider decodes");
    assert_eq!(to_bytes(&decoded), encoded, "rider encoding stays canonical");
    assert_eq!(decoded.rider, rider);

    let mut mismatched = decoded;
    mismatched.rider = ABSENT_RIDER.to_vec();
    let err = from_bytes(&to_bytes(&mismatched), &facts(&ABSENT_RIDER, 0))
        .err()
        .expect("a rider and its selected fee cannot be separated");
    assert!(err.message().contains("name-service fee"), "{}", err.message());
}

#[test]
fn serialized_witness_bundle_detects_any_accidental_edit() {
    let good = to_bytes(&bundle());
    let sum = checksum(&encoded_part(&good));
    let mut bytes = good.clone();
    bytes[WITNESS_BUNDLE_MAGIC.len() + 7] ^= 1;
    assert_eq!(plain(&bytes).err().expect("edit refuses"), BundleError::ChecksumMismatch);
    let mut tail = good.clone();
    let last = tail.len() - 1;
    tail[last] ^= 1;
    assert_eq!(
        WitnessBundle::read_bytes(&tail, &sum, DEPTH).err().expect("an edited checksum refuses"),
        BundleError::ChecksumMismatch
    );
    assert_eq!(good.len() - encoded_part(&good).len(), CHECKSUM_LEN);
}

#[test]
fn hand_built_bundle_cannot_bypass_the_complete_or_shadowed_gate() {
    let mut hand_built = bundle();
    hand_built.allowed_scan_verdicts_only = false;
    let err = from_bytes(&to_bytes(&hand_built), &facts(&ABSENT_RIDER, 0))
        .err()
        .expect("missing verdicts refuse");
    assert_eq!(err, BundleError::PhaseOneVerdictMissing);
    assert!(err.message().contains("scan-verdict-unchecked"));
}

#[test]
fn hand_built_bundle_cannot_bypass_nullifier_coverage() {
    let mut hand_built = bundle();
    hand_built.spent_covered = Some((2, 8));
    let err = from_bytes(&to_bytes(&hand_built), &facts(&ABSENT_RIDER, 0))
        .err()
        .expect("coverage gap refuses");
    assert_eq!(
        err,
        BundleError::NullifierCoverageMissing { covered: Some((2, 8)), outputs: Some((2, 9)) }
    );
    assert!(err.message().contains("nullifier-coverage-missing"));
}

#[test]
fn a_hand_built_path_that_does_not_reach_the_anchor_is_refused_before_proof() {
    let mut hand_built = bundle();
    hand_built.witnesses[0].siblings[0][0] ^= 1;
    let mut elsewhere = facts(&ABSENT_RIDER, 0);
    elsewhere.roots[0] = [1; 4];
    let err = from_bytes(&to_bytes(&hand_built), &elsewhere)
        .err()
        .expect("bad path refuses");
    assert!(
        err.message().contains("does not fold to the declared anchor"),
        "{}",
        err.message()
    );
}

#[test]
fn bytes_that_are_no_bundle_are_malformed() {
    let short = plain(&[0; 12]).err().unwrap();
    assert!(short.message().contains("shorter than its header"), "{}", short.message());
    let mut alien = to_bytes(&bundle());
    alien[0] = 0;
    let err = plain(&alien).err().unwrap();
    assert!(err.message().contains("magic is absent"), "{}", err.message());
}

#[test]
fn a_bundle_that_does_not_balance_is_refused() {
    let mut b = bundle();
    b.inputs[0].value += 1;
    let err = b.validate(&facts(&ABSENT_RIDER, 0)).unwrap_err();
    assert!(err.message().contains("balance does not close"), "{}", err.message());

    let mut b = bundle();
    b.real_inputs = 3;
    let err = b.validate(&facts(&ABSENT_RIDER, 0)).unwrap_err();
    assert!(err.message().contains("real input count 3"), "{}", err.message());

    let mut b = bundle();
    b.inputs[1].value = 1;
    let err = b.validate(&facts(&ABSENT_RIDER, 0)).unwrap_err();
    assert!(err.message().contains("dummy input carries non-zero value"), "{}", err.message());
}

fn build_send(
    notes: &[Spendable],
    amount: u64,
    positions: &[Option<u64>],
    anchor_count: u64,
) -> Result<(InputPlan, WitnessBundle), BuildRefusal> {
    let plan = choose_inputs(notes, amount, POSTED_FEE, 0)?;
    let second = match plan.second {
        Some(j) => chosen(positions[j]),
        None => dummy(),
    };
    let mut ctx = context(anchor_count);
    ctx.amount = amount;
    let m = material(chosen(positions[plan.first]), second, &ABSENT_RIDER, 0);
    let b = build_bundle(&plan, notes, ctx, m)?;
    Ok((plan, b))
}

#[test]
fn a_note_outside_the_anchor_is_refused_before_any_proof() {
    let note = Spendable { div_index: 0, value: 10_000_000, rho: [3; 4], rseed: [5; 4] };
    let err = match build_send(&[note], 4_000_000, &[Some(2)], 2) {
        Err(e) => e.message(),
        Ok(_) => panic!("a note outside the anchor must refuse, not prove"),
    };
    assert!(err.contains("position 2"), "{err}");
    assert!(err.contains("outside the anchor at 2 leaves"), "{err}");
    assert!(err.contains("not finalized yet"), "{err}");
    assert!(err.contains("not possible YET"), "the state is temporary and says so: {err}");
    assert_eq!(check_position(Some(1), 2), Ok(1));
}

#[test]
fn two_notes_that_cannot_cover_are_refused_with_the_bucket_reason() {
    let small = |v| Spendable { div_index: 0, value: v, rho: [1; 4], rseed: [2; 4] };
    let notes = [small(10), small(10), small(10_000_000)];
    let err = match build_send(&notes, 5_000_000, &[None, None, None], 0) {
        Err(e) => e.message(),
        Ok(_) => panic!("an empty tree cannot witness anything"),
    };
    assert!(err.contains("not in the supplied tree"), "{err}");

    let err = choose_inputs(&notes[..2], 5_000_000, POSTED_FEE, 0).unwrap_err();
    assert_eq!(
        err,
        BuildRefusal::CannotCover {
            need: 6_000_000,
            amount: 5_000_000,
            fee: POSTED_FEE,
            have: 20
        }
    );
    assert!(err.message().contains("at most TWO notes"), "{}", err.message());
}

#[test]
fn the_fewest_notes_that_cover_are_taken_largest_first() {
    let v = |n: u64| note(n);
    let notes = [v(3_000_000), v(7_000_000), v(6_000_000)];
    let one = choose_inputs(&notes, 5_500_000, POSTED_FEE, 0).unwrap();
    assert_eq!((one.first, one.second, one.change), (1, None, 500_000));
    let (two, b) = build_send(&notes, 10_000_000, &[Some(0), Some(1), Some(2)], 3).ok().unwrap();
    assert_eq!((two.first, two.second, two.change), (1, Some(2), 2_000_000));
    assert_eq!(b.real_inputs, 2);
    assert!(!b.used_dummy());
    assert_eq!((b.inputs[0].value, b.inputs[1].value), (7_000_000, 6_000_000));
    assert_eq!((b.inputs[1].rho, b.inputs[1].rseed), ([3; 4], [5; 4]), "the notes themselves");
    assert_eq!(b.anchor(), root());
    assert_eq!(total(&notes), 16_000_000);
    assert_eq!(
        choose_inputs(&notes, 1, u64::MAX, 1).unwrap_err(),
        BuildRefusal::FeeOverflow
    );
    assert_eq!(
        choose_inputs(&notes, u64::MAX, POSTED_FEE, 0).unwrap_err(),
        BuildRefusal::AmountOverflow
    );
}

#[test]
fn a_recipient_that_cannot_be_sealed_to_is_refused() {
    let notes = [note(10_000_000)];
    let plan = choose_inputs(&notes, 4_000_000, POSTED_FEE, 0).unwrap();
    let mut m = material(chosen(Some(0)), dummy(), &ABSENT_RIDER, 0);
    m.discovery = None;
    assert!(matches!(
        build_bundle(&plan, &notes, context(1), m).err().unwrap(),
        BuildRefusal::NoEncapsulationKey
    ));
}
