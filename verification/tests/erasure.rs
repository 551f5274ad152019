use chaincord::erasure::{
    assign_holders, blob_id_for, blob_id_from_digest, encode, handoff_indices, indices_to_pull,
    missing_indices, my_shard_indices, pick_handoff_target, pick_repair_target, plan_archive,
    reconstruct, swarm_archive_status, under_replicated, ArchiveStatus, TOTAL_SHARDS,
};

#[test]
fn encode_roundtrip_and_loss() {
    let data = b"hello community archive payload for erasure coding";
    let shards = encode(data).expect("encode");
    assert_eq!(shards.len(), TOTAL_SHARDS);

    let mut pieces: Vec<Option<Vec<u8>>> = shards.into_iter().map(Some).collect();
    // Drop two shards (parity budget).
    pieces[1] = None;
    pieces[5] = None;
    let out = reconstruct(&mut pieces).expect("reconstruct");
    assert_eq!(out, data);
}

#[test]
fn assign_is_stable_and_covers_all() {
    let holders = assign_holders(&["bb".into(), "aa".into(), "cc".into()]);
    assert_eq!(holders.len(), TOTAL_SHARDS);
    assert_eq!(holders[0], "aa");
    assert_eq!(holders[1], "bb");
    assert_eq!(holders[2], "cc");
    assert_eq!(holders[3], "aa");
    let solo = assign_holders(&["only".into()]);
    assert!(solo.iter().all(|h| h == "only"));
}

#[test]
fn handoff_lists_my_shards_when_peers_online() {
    let holders = assign_holders(&["aa".into(), "bb".into()]);
    let mine = handoff_indices("aa", &holders, &["bb".into()]);
    assert!(!mine.is_empty());
    assert!(mine.iter().all(|&i| holders[i] == "aa"));
    assert!(handoff_indices("aa", &holders, &[]).is_empty());
}

#[test]
fn pick_target_skips_self() {
    assert_eq!(
        pick_handoff_target("aa", "aa", &["aa".into(), "bb".into(), "cc".into()]),
        Some("bb".into())
    );
    assert_eq!(pick_handoff_target("aa", "aa", &["aa".into()]), None);
}

#[test]
fn pull_and_under_replicated() {
    assert_eq!(indices_to_pull(&[0, 1], &[1, 2, 3]), vec![2, 3]);
    assert_eq!(missing_indices(&[0, 2]), vec![1, 3, 4, 5]);
    let copies = [2, 1, 0, 2, 1, 1];
    assert_eq!(under_replicated(&copies, 3, 2), vec![1, 2, 4, 5]);
    assert!(under_replicated(&[1, 1, 1, 1, 1, 1], 1, 2).is_empty());
}

#[test]
fn repair_target_prefers_peer_without_shard() {
    let inv = vec![("bb".to_string(), vec![0u8, 1]), ("cc".to_string(), vec![2u8])];
    assert_eq!(
        pick_repair_target("aa", &["bb".into(), "cc".into()], &inv, 0),
        Some("cc".into())
    );
}

#[test]
fn swarm_status_pending_vs_lost() {
    assert_eq!(swarm_archive_status(3, 0, 0), ArchiveStatus::Live);
    assert_eq!(swarm_archive_status(0, 4, 1), ArchiveStatus::PendingK);
    assert_eq!(swarm_archive_status(0, 1, 0), ArchiveStatus::PendingK);
    assert_eq!(swarm_archive_status(0, 0, 0), ArchiveStatus::Lost);
}

#[test]
fn encode_rejects_empty_archive() {
    assert_eq!(encode(&[]).unwrap_err(), "empty archive");
}

#[test]
fn shards_have_length_header_and_padding() {
    let data: Vec<u8> = (1..=10).collect();
    let shards = encode(&data).unwrap();
    // ceil(10 / 4) = 3 bytes of payload per shard, after a 4-byte length.
    for s in &shards {
        assert_eq!(s.len(), 7);
    }
    assert_eq!(shards[0], vec![0, 0, 0, 10, 1, 2, 3]);
    assert_eq!(shards[3], vec![0, 0, 0, 10, 10, 0, 0]);
}

#[test]
fn reconstruct_from_any_four_shards() {
    let data: Vec<u8> = (0..200u32).map(|i| (i * 7 % 251) as u8).collect();
    let shards = encode(&data).unwrap();
    for a in 0..TOTAL_SHARDS {
        for b in (a + 1)..TOTAL_SHARDS {
            let mut pieces: Vec<Option<Vec<u8>>> = shards.iter().cloned().map(Some).collect();
            pieces[a] = None;
            pieces[b] = None;
            assert_eq!(reconstruct(&mut pieces).unwrap(), data);
            assert!(pieces.iter().all(|p| p.is_some()));
        }
    }
}

#[test]
fn reconstruct_errors() {
    let shards = encode(b"abcdefgh").unwrap();
    let mut short: Vec<Option<Vec<u8>>> = shards.iter().cloned().map(Some).take(5).collect();
    assert_eq!(reconstruct(&mut short).unwrap_err(), "wrong shard count");
    let mut three: Vec<Option<Vec<u8>>> = shards.iter().cloned().map(Some).collect();
    three[0] = None;
    three[2] = None;
    three[4] = None;
    assert_eq!(reconstruct(&mut three).unwrap_err(), "need more shards");
    let mut uneven: Vec<Option<Vec<u8>>> = shards.iter().cloned().map(Some).collect();
    uneven[1] = None;
    uneven[3].as_mut().unwrap().push(9);
    let before = uneven.clone();
    assert!(reconstruct(&mut uneven).is_err());
    assert_eq!(uneven, before);
}

#[test]
fn blob_id_is_a_digest_prefix() {
    // SHA-256("abc") = ba7816bf8f01cfea414140de5dae2223b00361a396177a9cb410ff61f20015ad
    assert_eq!(blob_id_for(b"abc"), "ba7816bf8f01cfea414140de5dae2223");
    let digest: Vec<u8> = (0..16u8).collect();
    assert_eq!(blob_id_from_digest(&digest), "000102030405060708090a0b0c0d0e0f");
}

#[test]
fn plan_archive_combines_shards_holders_and_id() {
    let plan = plan_archive(b"abc", &["m2".into(), " m1 ".into(), "".into()]).unwrap();
    assert_eq!(plan.shards.len(), TOTAL_SHARDS);
    assert_eq!(plan.holders, vec!["m1", "m2", "m1", "m2", "m1", "m2"]);
    assert_eq!(plan.blob_id, "ba7816bf8f01cfea414140de5dae2223");
    assert!(plan_archive(b"", &[]).is_err());
}

#[test]
fn holders_without_members_are_empty() {
    let none = assign_holders(&["  ".into()]);
    assert_eq!(none, vec![String::new(); TOTAL_SHARDS]);
    let dup = assign_holders(&["b".into(), "a".into(), "b".into(), " a".into()]);
    assert_eq!(dup, vec!["a", "b", "a", "b", "a", "b"]);
}

#[test]
fn shard_ownership_and_handoff() {
    let holders: Vec<String> = vec!["a", "b", "a", "c", "a", "b"].into_iter().map(String::from).collect();
    assert_eq!(my_shard_indices("a", &holders), vec![0, 2, 4]);
    assert!(handoff_indices("a", &holders, &["a".into()]).is_empty());
    assert_eq!(handoff_indices("a", &holders, &["a".into(), "c".into()]), vec![0, 2, 4]);
    assert_eq!(
        pick_handoff_target("me", "own", &["own".into(), "me".into()]),
        Some("own".into())
    );
    assert_eq!(
        pick_handoff_target("me", "own", &["zz".into(), "own".into(), "me".into(), "yy".into()]),
        Some("yy".into())
    );
}

#[test]
fn replica_targets_and_repair() {
    assert_eq!(under_replicated(&[0, 0, 1], 5, 0), vec![0, 1]);
    assert_eq!(under_replicated(&[1, 2, 3, 4, 5, 6, 0], 9, 9), vec![0, 1, 2, 3, 4, 5]);
    assert_eq!(pick_repair_target("aa", &["aa".into()], &[], 1), None);
    let inv = vec![("bb".to_string(), vec![1u8]), ("cc".to_string(), vec![1u8])];
    assert_eq!(
        pick_repair_target("aa", &["cc".into(), "bb".into()], &inv, 1),
        Some("bb".into())
    );
    assert_eq!(indices_to_pull(&[], &[5, 9, 5, 0]), vec![0, 5]);
}

#[test]
fn reconstruct_names_the_shape_fault() {
    let shards = encode(b"some archive bytes to split").expect("encode");
    let mut empty: Vec<Option<Vec<u8>>> = shards.iter().cloned().map(Some).collect();
    empty[0] = None;
    empty[2] = Some(vec![]);
    let before = empty.clone();
    assert_eq!(reconstruct(&mut empty).unwrap_err(), "The first shard provided is of zero length");
    assert_eq!(empty, before);
    let mut uneven: Vec<Option<Vec<u8>>> = shards.iter().cloned().map(Some).collect();
    uneven[1] = None;
    uneven[3] = Some(vec![1, 2]);
    assert_eq!(
        reconstruct(&mut uneven).unwrap_err(),
        "At least one of the provided shards is not of the correct size"
    );
}
