use sigil_core::fragmentation::{
    FragmentBundle, FragmentError, FragmentPolicy, OpaqueFragment, CAPABILITY_LEN,
};

#[test]
fn default_policy_recovers_from_eight_missing_pieces() {
    let ciphertext = (0..80_000).map(|i| (i % 251) as u8).collect::<Vec<_>>();
    let bundle = FragmentBundle::split(&ciphertext, FragmentPolicy::default()).unwrap();
    let available = bundle.fragments()[8..].to_vec();

    assert_eq!(available.len(), 12);
    assert_eq!(bundle.manifest().reconstruct(&available).unwrap(), ciphertext);
}

#[test]
fn fragment_order_is_not_required_for_reconstruction() {
    let ciphertext = vec![0xA5; 19_003];
    let bundle = FragmentBundle::split(&ciphertext, FragmentPolicy::new(6, 4).unwrap()).unwrap();
    let mut available = bundle.fragments().to_vec();
    available.reverse();
    available.truncate(6);

    assert_eq!(bundle.manifest().reconstruct(&available).unwrap(), ciphertext);
}

#[test]
fn network_fragment_does_not_expose_shard_index() {
    let bundle = FragmentBundle::split(&[7u8; 4096], FragmentPolicy::new(4, 2).unwrap()).unwrap();
    for fragment in bundle.fragments() {
        assert_eq!(fragment.capability().as_bytes().len(), CAPABILITY_LEN);
        assert_eq!(fragment.payload().len(), bundle.manifest().shard_len());
    }
}

#[test]
fn corrupted_data_piece_is_detected_by_manifest_digest() {
    let ciphertext = (0..5000).map(|i| (i % 239) as u8).collect::<Vec<_>>();
    let bundle = FragmentBundle::split(&ciphertext, FragmentPolicy::new(4, 2).unwrap()).unwrap();
    let (manifest, fragments) = bundle.into_parts();

    let data_capability = manifest.capability_at(0).unwrap();
    let corrupted: Vec<OpaqueFragment> = fragments
        .iter()
        .map(|fragment| {
            if *fragment.capability() == data_capability {
                let mut payload = fragment.payload().to_vec();
                payload[0] ^= 0x40;
                OpaqueFragment::new(*fragment.capability(), payload)
            } else {
                fragment.clone()
            }
        })
        .collect();

    assert_eq!(
        manifest.reconstruct(&corrupted),
        Err(FragmentError::DigestMismatch)
    );
}

#[test]
fn fewer_than_threshold_fragments_are_rejected() {
    let bundle = FragmentBundle::split(&[3u8; 10_000], FragmentPolicy::new(5, 3).unwrap()).unwrap();
    assert_eq!(
        bundle.manifest().reconstruct(&bundle.fragments()[..4]),
        Err(FragmentError::InsufficientFragments)
    );
}

#[test]
fn policy_bounds_are_enforced() {
    assert_eq!(FragmentPolicy::new(1, 1), Err(FragmentError::InvalidPolicy));
    assert_eq!(FragmentPolicy::new(2, 0), Err(FragmentError::InvalidPolicy));
    assert_eq!(FragmentPolicy::new(200, 56), Err(FragmentError::InvalidPolicy));
    assert_eq!(FragmentPolicy::new(usize::MAX, 1), Err(FragmentError::InvalidPolicy));
    let largest = FragmentPolicy::new(200, 55).unwrap();
    assert_eq!(largest.total_shards(), 255);
    let smallest = FragmentPolicy::new(2, 1).unwrap();
    assert_eq!((smallest.data_shards(), smallest.parity_shards()), (2, 1));
    let default = FragmentPolicy::default();
    assert_eq!((default.data_shards(), default.parity_shards(), default.total_shards()), (12, 8, 20));
}

#[test]
fn empty_ciphertext_is_not_split() {
    assert_eq!(
        FragmentBundle::split(&[], FragmentPolicy::default()).unwrap_err(),
        FragmentError::EmptyCiphertext
    );
}

#[test]
fn split_shapes_follow_the_policy() {
    let bundle = FragmentBundle::split(&[1u8; 1001], FragmentPolicy::new(10, 3).unwrap()).unwrap();
    let manifest = bundle.manifest();
    assert_eq!(manifest.required_fragments(), 10);
    assert_eq!(manifest.total_fragments(), 13);
    assert_eq!(manifest.shard_len(), 101);
    assert_eq!(bundle.fragments().len(), 13);
    assert!(manifest.capability_at(12).is_some());
    assert!(manifest.capability_at(13).is_none());
    let mut capabilities: Vec<_> = bundle.fragments().iter().map(|f| *f.capability().as_bytes()).collect();
    capabilities.sort();
    capabilities.dedup();
    assert_eq!(capabilities.len(), 13);
}

#[test]
fn one_byte_object_roundtrips_through_any_threshold_subset() {
    let bundle = FragmentBundle::split(&[0xC3], FragmentPolicy::new(2, 2).unwrap()).unwrap();
    let fragments = bundle.fragments();
    for a in 0..4 {
        for b in 0..4 {
            if a != b {
                let chosen = vec![fragments[a].clone(), fragments[b].clone()];
                assert_eq!(bundle.manifest().reconstruct(&chosen), Ok(vec![0xC3]));
            }
        }
    }
}

#[test]
fn repeated_unknown_and_misshapen_fragments_are_rejected() {
    let bundle = FragmentBundle::split(&[9u8; 300], FragmentPolicy::new(3, 2).unwrap()).unwrap();
    let fragments = bundle.fragments();
    let manifest = bundle.manifest();

    let repeated = vec![fragments[0].clone(), fragments[0].clone(), fragments[1].clone()];
    assert_eq!(manifest.reconstruct(&repeated), Err(FragmentError::DuplicateFragment));

    let other = FragmentBundle::split(&[9u8; 300], FragmentPolicy::new(3, 2).unwrap()).unwrap();
    let unknown = vec![fragments[0].clone(), fragments[1].clone(), other.fragments()[0].clone()];
    assert_eq!(manifest.reconstruct(&unknown), Err(FragmentError::UnknownFragment));

    let short = OpaqueFragment::new(*fragments[2].capability(), vec![0u8; 5]);
    let misshapen = vec![fragments[0].clone(), fragments[1].clone(), short];
    assert_eq!(manifest.reconstruct(&misshapen), Err(FragmentError::InvalidFragmentLength));
}

#[test]
fn fragment_error_messages() {
    assert_eq!(FragmentError::EmptyCiphertext.message(), "ciphertext cannot be empty");
    assert_eq!(FragmentError::InvalidPolicy.message(), "invalid fragment policy");
    assert_eq!(FragmentError::InsufficientFragments.message(), "not enough fragments to reconstruct");
    assert_eq!(FragmentError::UnknownFragment.message(), "fragment capability is not in the manifest");
    assert_eq!(FragmentError::DuplicateFragment.message(), "duplicate fragment");
    assert_eq!(FragmentError::InvalidFragmentLength.message(), "fragment length does not match manifest");
    assert_eq!(FragmentError::CodingFailure.message(), "erasure coding failed");
    assert_eq!(FragmentError::DigestMismatch.message(), "reconstructed ciphertext digest mismatch");
}

#[test]
fn rebuilt_object_has_exactly_the_split_length() {
    for len in [1usize, 11, 12, 13, 4095] {
        let ciphertext: Vec<u8> = (0..len).map(|i| (i % 7) as u8).collect();
        let bundle = FragmentBundle::split(&ciphertext, FragmentPolicy::default()).unwrap();
        let rebuilt = bundle.manifest().reconstruct(&bundle.fragments()[5..17]).unwrap();
        assert_eq!(rebuilt.len(), len);
        assert_eq!(rebuilt, ciphertext);
    }
}
