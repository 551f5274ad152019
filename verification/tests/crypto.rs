use base64::Engine;
use chaincord::crypto::{
    canonical_genesis, check_legacy_invite, create_community, decode_invite, encode_invite,
    open_chat, pack_invite, seal_chat, seal_chat_with, unpack_invite, verify_community,
    verify_ed25519, Community, DecodedInvite, Genesis, Identity, Invite,
};

fn compact(d: Result<DecodedInvite, String>) -> Invite {
    match d.expect("decoded") {
        DecodedInvite::Compact(inv) => inv,
        DecodedInvite::Json(_) => panic!("expected a compact invite"),
    }
}

#[test]
fn canonical_genesis_keeps_name_owner_created_at_order() {
    let genesis = Genesis {
        name: "sala".into(),
        owner: "aa".into(),
        created_at: 42,
    };
    let canonical = canonical_genesis(&genesis);
    let name_at = canonical.find("\"name\"").unwrap();
    let owner_at = canonical.find("\"owner\"").unwrap();
    let created_at = canonical.find("\"createdAt\"").unwrap();
    assert!(name_at < owner_at);
    assert!(owner_at < created_at);
    assert_eq!(canonical, r#"{"name":"sala","owner":"aa","createdAt":42}"#);
}

#[test]
fn canonical_genesis_escapes_like_json() {
    let genesis = Genesis {
        name: "a\"b\\c\nd\u{1}".into(),
        owner: "x/y".into(),
        created_at: -7,
    };
    assert_eq!(
        canonical_genesis(&genesis),
        "{\"name\":\"a\\\"b\\\\c\\nd\\u0001\",\"owner\":\"x/y\",\"createdAt\":-7}"
    );
}

#[test]
fn invite_roundtrip_ignores_whitespace_and_url_safe_base64() {
    let owner = Identity::generate();
    let community = create_community(&owner, "  Chaincord  ");
    assert!(verify_community(&community));
    assert_eq!(community.genesis.name, "Chaincord");
    let invite = Invite::new(community.clone(), vec!["ws://127.0.0.1:7340".into()], vec![]);
    let encoded = encode_invite(&invite);
    assert!(encoded.starts_with("cc/"));
    assert!(encoded.len() < 360, "compact invite should stay short, got {}", encoded.len());
    let wrapped = encoded
        .chars()
        .enumerate()
        .flat_map(|(i, c)| if i > 0 && i % 16 == 0 { vec!['\n', c] } else { vec![c] })
        .collect::<String>();
    let decoded = compact(decode_invite(&wrapped));
    assert_eq!(decoded.community.id, community.id);
    assert_eq!(decoded.peers, invite.peers);
    assert!(decoded.relays.is_empty());
    assert_eq!(decoded.community.genesis.name, "Chaincord");

    let decoded_prefix = compact(decode_invite(&encoded));
    assert_eq!(decoded_prefix.community.id, community.id);

    let wrapped_msg = format!(
        "Convite Chaincord — {}\nAbra o app → Entrar com convite e cole isto:\n{}",
        community.genesis.name, encoded
    );
    let from_msg = compact(decode_invite(&wrapped_msg));
    assert_eq!(from_msg.community.id, community.id);
}

#[test]
fn invite_carries_custom_relay() {
    let owner = Identity::generate();
    let community = create_community(&owner, "sala");
    let invite = Invite::new(
        community.clone(),
        vec!["ws://127.0.0.1:7340".into()],
        vec!["wss://broker.example/mqtt".into()],
    );
    let encoded = encode_invite(&invite);
    let body = encoded.strip_prefix("cc/").expect("prefix");
    let packed = base64::engine::general_purpose::URL_SAFE_NO_PAD.decode(body).expect("b64");
    assert_eq!(packed.first().copied(), Some(3));
    let decoded = compact(decode_invite(&encoded));
    assert_eq!(decoded.relays, vec!["wss://broker.example/mqtt".to_string()]);
    assert_eq!(decoded.peers, invite.peers);
    assert_eq!(decoded.community.id, community.id);
}

fn legacy_json(c: &Community, v: u8, peers: &[&str]) -> String {
    let peers: Vec<String> = peers.iter().map(|p| format!("\"{p}\"")).collect();
    format!(
        "{{\"v\":{v},\"community\":{{\"id\":\"{}\",\"genesis\":{{\"name\":\"{}\",\"owner\":\"{}\",\"createdAt\":{}}},\"signature\":\"{}\",\"liveKey\":\"{}\"}},\"peers\":[{}]}}",
        c.id,
        c.genesis.name,
        c.genesis.owner,
        c.genesis.created_at,
        c.signature,
        c.live_key,
        peers.join(",")
    )
}

#[test]
fn legacy_json_invite_still_decodes() {
    let owner = Identity::generate();
    let community = create_community(&owner, "legado");
    let json = legacy_json(&community, 1, &["ws://192.168.0.2:7340"]);
    let legacy = base64::engine::general_purpose::STANDARD.encode(json.as_bytes());
    match decode_invite(&legacy).expect("legacy invite") {
        DecodedInvite::Json(bytes) => assert_eq!(bytes, json.as_bytes()),
        DecodedInvite::Compact(_) => panic!("expected the JSON form"),
    }
    let invite = Invite {
        v: 1,
        community: community.clone(),
        peers: vec!["ws://192.168.0.2:7340".into()],
        relays: vec![],
    };
    let checked = check_legacy_invite(invite).expect("legacy invite checks out");
    assert_eq!(checked.community.id, community.id);
    assert_eq!(checked.peers, vec!["ws://192.168.0.2:7340".to_string()]);
}

#[test]
fn decode_invite_rejects_tampered_community() {
    let owner = Identity::generate();
    let mut community = create_community(&owner, "sala");
    community.genesis.name = "outra".into();
    let invite = Invite {
        v: 1,
        community,
        peers: vec![],
        relays: vec![],
    };
    assert!(check_legacy_invite(invite).is_err());
    assert!(decode_invite("nao-e-base64%%").is_err());
}

#[test]
fn seal_and_open_chat_roundtrip() {
    let identity = Identity::generate();
    let live_key = hex::encode([7u8; 32]);
    let body = br#"{"channel":"general","text":"oi","ts":99}"#;
    let wire = seal_chat(&identity, &live_key, body).expect("seal");
    let opened = open_chat(&live_key, &wire).expect("open");
    assert_eq!(opened, body.to_vec());
    assert_eq!(wire.sender, identity.public_hex());
    assert_eq!(wire.kind, "chat");
    assert!(open_chat(&hex::encode([8u8; 32]), &wire).is_none());
}

#[test]
fn identity_survives_secret_hex() {
    let first = Identity::generate();
    let restored = Identity::from_secret_hex(&first.secret_hex()).expect("secret");
    assert_eq!(first.public_hex(), restored.public_hex());
    assert_eq!(first.public_hex().len(), 64);
}

#[test]
fn secret_hex_errors() {
    assert_eq!(Identity::from_secret_hex("abc").err(), Some("Odd number of digits".to_string()));
    assert_eq!(Identity::from_secret_hex("abcd").err(), Some("chave secreta invalida".to_string()));
    assert!(Identity::from_secret_hex("zz").is_err());
}

#[test]
fn invite_versions_follow_relays() {
    let owner = Identity::generate();
    let community = create_community(&owner, "sala");
    assert_eq!(Invite::new(community.clone(), vec![], vec!["".into()]).v, 2);
    let inv = Invite::new(community, vec![], vec!["".into(), "wss://r".into()]);
    assert_eq!(inv.v, 3);
    assert_eq!(inv.relays, vec!["wss://r".to_string()]);
}

#[test]
fn pack_rejects_bad_names_and_keys() {
    let owner = Identity::generate();
    let mut community = create_community(&owner, "sala");
    let good = Invite::new(community.clone(), vec![], vec![]);
    let packed = pack_invite(&good).expect("packs");
    assert_eq!(packed[0], 2);
    assert_eq!(packed[1], 4);
    let back = unpack_invite(&packed).expect("unpacks");
    assert_eq!(back.community, good.community);
    let mut extra = packed.clone();
    extra.push(0);
    assert_eq!(unpack_invite(&extra).err(), Some("convite invalido".to_string()));
    community.genesis.name = "x".repeat(65);
    let long = Invite::new(community.clone(), vec![], vec![]);
    assert_eq!(pack_invite(&long).err(), Some("nome da comunidade invalido".to_string()));
    community.genesis.name = "ok".into();
    community.live_key = "00".into();
    let short_key = Invite::new(community, vec![], vec![]);
    assert_eq!(pack_invite(&short_key).err(), Some("convite invalido".to_string()));
}

#[test]
fn signatures_check_against_the_owner() {
    let owner = Identity::generate();
    let sig = owner.sign(b"hello");
    assert!(verify_ed25519(&owner.public_hex(), b"hello", &sig));
    assert!(!verify_ed25519(&owner.public_hex(), b"hullo", &sig));
    assert!(!verify_ed25519("zz", b"hello", &sig));
}

#[test]
fn sealing_with_a_fixed_nonce_is_repeatable() {
    let identity = Identity::generate();
    let key = hex::encode([1u8; 32]);
    let a = seal_chat_with(&identity, &key, b"{}", &[5u8; 24]).unwrap();
    let b = seal_chat_with(&identity, &key, b"{}", &[5u8; 24]).unwrap();
    assert_eq!(a, b);
    assert_eq!(a.nonce, hex::encode([5u8; 24]));
    assert_eq!(seal_chat_with(&identity, "abc", b"{}", &[5u8; 24]).err(), Some("chave invalida".to_string()));
}

#[test]
fn non_ascii_secret_is_an_invalid_character_not_odd_length() {
    let err = Identity::from_secret_hex("é").err().expect("error");
    assert_ne!(err, "Odd number of digits");
    assert!(err.starts_with("Invalid character"));
}

#[test]
fn sealing_with_a_valid_key_succeeds() {
    let id = Identity::generate();
    let key = "07".repeat(32);
    assert!(seal_chat(&id, &key, b"{}").is_ok());
    assert!(seal_chat(&id, &key, b"").is_ok());
    assert_eq!(seal_chat(&id, "zz", b"{}").err(), Some("chave invalida".to_string()));
}

#[test]
fn invite_after_other_text_decodes() {
    let owner = Identity::generate();
    let c = create_community(&owner, "  Chaincord  ");
    let inv = Invite::new(c.clone(), vec!["ws://192.168.1.5:7340".to_string()], vec![]);
    let text = encode_invite(&inv);
    let share = format!("Convite Chaincord — entra na comunidade, cole isto:\n{text}");
    match decode_invite(&share).expect("decoded") {
        DecodedInvite::Compact(d) => {
            assert_eq!(d.community.id, c.id);
            assert_eq!(d.peers, inv.peers);
        }
        DecodedInvite::Json(_) => panic!("expected a compact invite"),
    }
}
