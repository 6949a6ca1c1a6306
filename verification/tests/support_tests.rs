use chain_relay::btreemap::StableBTreeMap;
use chain_relay::ecc::{EccCurve, EccCurveType};
use chain_relay::ecdsa::{IDkgTranscriptParams, QuadrupleId, QuadrupleInCreation};
use chain_relay::sampling::RngSampler;
use chain_relay::sync::{FirstKSampler, Sampler};

#[test]
fn iterate_leaf() {
    let mut btree = StableBTreeMap::new(1, 1);

    // Fill a single node's worth of entries.
    for i in 0..11u8 {
        btree.insert(vec![i], vec![i + 1]).unwrap();
    }

    let mut i = 0;
    let mut iter = btree.iter();
    while let Some((key, value)) = iter.next() {
        assert_eq!(key, vec![i]);
        assert_eq!(value, vec![i + 1]);
        i += 1;
    }

    assert_eq!(i, 11u8);
}

#[test]
fn iterate_children() {
    let mut btree = StableBTreeMap::new(1, 1);

    // Insert the elements in reverse order.
    for i in (0..100).rev() {
        btree.insert(vec![i], vec![i + 1]).unwrap();
    }

    // Iteration should be in ascending order.
    let mut i = 0;
    let mut iter = btree.iter();
    while let Some((key, value)) = iter.next() {
        assert_eq!(key, vec![i]);
        assert_eq!(value, vec![i + 1]);
        i += 1;
    }

    assert_eq!(i, 100);
}

#[test]
fn insert_replaces_and_bounds_sizes() {
    let mut btree = StableBTreeMap::new(2, 2);
    assert_eq!(btree.insert(vec![1], vec![9]), Ok(None));
    assert_eq!(btree.insert(vec![1], vec![8]), Ok(Some(vec![9])));
    assert_eq!(btree.len(), 1);
    assert_eq!(btree.get(&vec![1]), Some(&vec![8]));
    assert!(btree.insert(vec![1, 2, 3], vec![0]).is_err());
    assert!(btree.insert(vec![1], vec![0, 1, 2]).is_err());
}

#[test]
fn curve_parameters() {
    let k256 = EccCurveType::K256;
    let p256 = EccCurveType::P256;
    assert_eq!(k256.scalar_bits(), 256);
    assert_eq!(k256.scalar_bytes(), 32);
    assert_eq!(p256.field_bits(), 256);
    assert_eq!(p256.field_bytes(), 32);
    assert_eq!(k256.security_level(), 128);
    assert_eq!(EccCurveType::all(), vec![EccCurveType::K256, EccCurveType::P256]);
    let curve = EccCurve::new(EccCurveType::P256);
    assert_eq!(curve.curve_type(), EccCurveType::P256);
}

#[test]
fn quadruple_bookkeeping() {
    assert_eq!(QuadrupleId(4).increment(), QuadrupleId(5));

    let kappa = IDkgTranscriptParams { transcript_id: 1 };
    let lambda = IDkgTranscriptParams { transcript_id: 2 };
    let mut quadruple = QuadrupleInCreation::new(kappa, lambda);
    assert_eq!(
        quadruple.iter_transcript_configs_in_creation(),
        vec![kappa, lambda]
    );

    let unmask = IDkgTranscriptParams { transcript_id: 3 };
    quadruple.unmask_kappa_config = Some(unmask);
    assert_eq!(
        quadruple.iter_transcript_configs_in_creation(),
        vec![kappa, lambda, unmask]
    );
}

#[test]
fn samplers_pick_distinct_positions() {
    let mut first_k = FirstKSampler;
    assert_eq!(first_k.sample_indices(5, 3), vec![0, 1, 2]);
    assert_eq!(first_k.sample_indices(2, 8), vec![0, 1]);

    let mut rng = RngSampler::new(7);
    let picks = rng.sample_indices(5, 3);
    assert_eq!(picks.len(), 3);
    for (a, x) in picks.iter().enumerate() {
        assert!(*x < 5);
        for (b, y) in picks.iter().enumerate() {
            assert!(a == b || x != y);
        }
    }
    // All positions come back when more are requested than exist.
    let mut all = rng.sample_indices(4, 9);
    all.sort();
    assert_eq!(all, vec![0, 1, 2, 3]);
}
