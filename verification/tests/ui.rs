use chaincord::crypto::{create_community, encode_invite, Identity, Invite};
use chaincord::peer::{PeerProfile, Presence};
use chaincord::ui::{
    call_room, direct_peer_keys, parked_profiles, snapshot_live_call, snapshot_profiles,
    snapshot_voice, sort_communities, ui_state, LiveView, ParkedView, UiCommunity,
};

fn s(v: &str) -> String {
    v.to_string()
}

#[test]
fn voice_snapshot_sorts_people() {
    let voice = vec![(s("lobby"), vec![s("bob"), s("alice"), s("bob")])];
    assert_eq!(snapshot_voice(&voice), vec![(s("lobby"), vec![s("alice"), s("bob")])]);
}

#[test]
fn live_call_needs_a_community_and_a_seat() {
    let owner = Identity::generate();
    let community = create_community(&owner, "live");
    let mut inner = Presence::new("me-key");
    assert!(snapshot_live_call(Some(&community), &inner, 0).is_none());
    inner.voice.push((s("lobby"), vec![s("me-key"), s("bb")]));
    assert_eq!(call_room(&inner.voice, "me-key"), Some(s("lobby")));
    assert!(snapshot_live_call(None, &inner, 0).is_none());
    let call = snapshot_live_call(Some(&community), &inner, 0).expect("in a call");
    assert_eq!(call.room, "lobby");
    assert_eq!(call.community_id, community.id);
    assert_eq!(call.community_name, "live");
}

#[test]
fn profile_snapshot_shows_live_status_and_self() {
    let mut inner = Presence::new("me-key");
    inner.status = s("dnd");
    let mut p = PeerProfile::new();
    p.sharing_screen = true;
    p.status = s("busy");
    inner.profiles.push((s("aa"), p));
    inner.last_seen.push((s("aa"), 100));
    let profiles = snapshot_profiles(&inner, 200);
    let me = profiles.iter().find(|(k, _)| k == "me-key").unwrap();
    assert_eq!(me.1.status, "busy");
    let aa = profiles.iter().find(|(k, _)| k == "aa").unwrap();
    assert_eq!(aa.1.status, "busy");
    assert!(!aa.1.sharing_screen);
}

#[test]
fn communities_are_listed_by_lowercase_name() {
    let list = vec![
        UiCommunity { id: s("1"), name: s("beta") },
        UiCommunity { id: s("2"), name: s("Alpha") },
        UiCommunity { id: s("3"), name: s("gamma") },
        UiCommunity { id: s("4"), name: s("alpha") },
    ];
    let out = sort_communities(list);
    let ids: Vec<String> = out.iter().map(|c| c.id.clone()).collect();
    assert_eq!(ids, vec![s("2"), s("4"), s("1"), s("3")]);
    assert!(sort_communities(Vec::new()).is_empty());
}

#[test]
fn only_direct_links_are_shown_as_peers() {
    let keys = vec![
        s("ws://10.0.0.2:7000"),
        s("relay"),
        s("relay:mqtt://x"),
        s("pending:abc"),
        s("ws://10.0.0.3:7000"),
    ];
    assert_eq!(
        direct_peer_keys(&keys),
        vec![s("ws://10.0.0.2:7000"), s("ws://10.0.0.3:7000")]
    );
}

#[test]
fn parked_community_shows_everyone_offline() {
    let mut bob = PeerProfile::new();
    bob.status = s("online");
    bob.sharing_screen = true;
    bob.display_name = s("Bob");
    let out = parked_profiles(&[(s("bob"), bob)]);
    assert_eq!(out.len(), 1);
    assert_eq!(out[0].0, "bob");
    assert_eq!(out[0].1.status, "offline");
    assert!(!out[0].1.sharing_screen);
    assert_eq!(out[0].1.display_name, "Bob");
}

fn empty_live() -> LiveView {
    LiveView {
        invite: None,
        peers: vec![],
        text_channels: vec![],
        call_rooms: vec![],
        voice: vec![],
        profiles: vec![],
        archive_bytes: 0,
        archive_messages: 0,
        seed_sent: 0,
        seed_total: 0,
        seed_active: false,
        seeding: vec![],
        archive_status: s("none"),
    }
}

#[test]
fn ui_state_without_a_community_is_blank() {
    let st = ui_state(s("pk"), s("me"), s(""), s("ws://a"), vec![s("ws://a")], vec![], None, None, empty_live());
    assert_eq!(st.public_key, "pk");
    assert_eq!(st.display_name, "me");
    assert_eq!(st.community_name, "");
    assert_eq!(st.community_id, "");
    assert_eq!(st.invite, "");
    assert_eq!(st.owner_key, "");
    assert_eq!(st.archive_status, "none");
    assert_eq!(st.listen_urls, vec![s("ws://a")]);
}

#[test]
fn ui_state_shows_the_live_community() {
    let owner = Identity::generate();
    let community = create_community(&owner, "Live One");
    let inv = Invite::new(community.clone(), vec![s("ws://127.0.0.1:7340")], vec![]);
    let mut live = empty_live();
    live.invite = Some(inv.clone());
    live.peers = vec![s("aa")];
    live.text_channels = vec![s("general")];
    live.seed_sent = 3;
    live.seed_total = 6;
    live.seed_active = true;
    live.archive_status = s("pending");
    let st = ui_state(s("pk"), s("me"), s(""), s(""), vec![], vec![], None, None, live);
    assert_eq!(st.community_name, "Live One");
    assert_eq!(st.community_id, community.id);
    assert_eq!(st.owner_key, community.genesis.owner);
    assert_eq!(st.invite, encode_invite(&inv));
    assert!(st.invite.starts_with("cc/"));
    assert_eq!(st.peers, vec![s("aa")]);
    assert_eq!(st.text_channels, vec![s("general")]);
    assert_eq!((st.seed_sent, st.seed_total, st.seed_active), (3, 6, true));
    assert_eq!(st.archive_status, "pending");
}

#[test]
fn ui_state_overlays_a_viewed_community() {
    let owner = Identity::generate();
    let live_c = create_community(&owner, "Live One");
    let viewed_c = create_community(&owner, "Viewed");
    let mut live = empty_live();
    live.invite = Some(Invite::new(live_c, vec![], vec![]));
    live.peers = vec![s("aa")];
    live.voice = vec![(s("lobby"), vec![s("aa")])];
    live.seeding = vec![s("aa")];
    live.archive_status = s("lost");
    let mut p = PeerProfile::new();
    p.display_name = s("Bob");
    p.status = s("online");
    p.sharing_screen = true;
    let inv = Invite::new(viewed_c.clone(), vec![], vec![s("wss://broker.example/mqtt")]);
    let parked = ParkedView {
        invite: inv.clone(),
        text_channels: vec![s("general"), s("memes")],
        call_rooms: vec![s("lobby")],
        profiles: vec![(s("bb"), p)],
        archive_messages: 7,
        archive_bytes: 900,
    };
    let st = ui_state(s("pk"), s("me"), s(""), s(""), vec![], vec![], None, Some(parked), live);
    assert_eq!(st.community_name, "Viewed");
    assert_eq!(st.community_id, viewed_c.id);
    assert_eq!(st.invite, encode_invite(&inv));
    assert!(st.peers.is_empty());
    assert!(st.voice.is_empty());
    assert!(st.seeding.is_empty());
    assert_eq!(st.text_channels, vec![s("general"), s("memes")]);
    assert_eq!(st.call_rooms, vec![s("lobby")]);
    assert_eq!((st.archive_messages, st.archive_bytes), (7, 900));
    assert_eq!((st.seed_sent, st.seed_total, st.seed_active), (1, 1, false));
    assert_eq!(st.archive_status, "live");
    let bob = &st.profiles.iter().find(|(k, _)| k == "bb").unwrap().1;
    assert_eq!(bob.display_name, "Bob");
    assert_eq!(bob.status, "offline");
    assert!(!bob.sharing_screen);
}
