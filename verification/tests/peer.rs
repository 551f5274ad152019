use chaincord::crypto::now_ms;
use chaincord::peer::{
    apply_presence, apply_voice_action, drop_disconnected_peer, drop_from_voice, ensure_general,
    expire_stale_presence, frame_matches_community, ignore_relay_offline, live_profiles,
    live_status, mark_peer_offline, mark_voice_left, merge_unique, merge_voice_rooms,
    normalize_status, normalize_voice, peer_in_voice, recently_voice_joined, seated_in_call,
    seed_progress, seeding_visible, slug_name, touch_seen, viewed_community_id, voice_is_busy,
    voice_left_held, PeerProfile, Presence, PresenceFrame, PRESENCE_TTL_MS,
};

fn sample() -> Presence {
    Presence::new("me-key")
}

fn s(v: &str) -> String {
    v.to_string()
}

fn room<'a>(p: &'a Presence, name: &str) -> Option<&'a Vec<String>> {
    p.voice.iter().find(|(r, _)| r == name).map(|(_, people)| people)
}

fn in_room(p: &Presence, name: &str, pk: &str) -> bool {
    room(p, name).is_some_and(|people| people.iter().any(|x| x == pk))
}

fn profile<'a>(p: &'a Presence, pk: &str) -> Option<&'a PeerProfile> {
    p.profiles.iter().rev().find(|(k, _)| k == pk).map(|(_, v)| v)
}

fn frame(pk: &str) -> PresenceFrame {
    PresenceFrame {
        public_key: s(pk),
        display_name: String::new(),
        avatar: String::new(),
        muted: None,
        deafened: None,
        sharing_screen: None,
        status: None,
    }
}

fn snapshot(rooms: &[(&str, &[&str])]) -> Vec<(String, Vec<String>)> {
    rooms
        .iter()
        .map(|(r, people)| (s(r), people.iter().map(|p| s(p)).collect()))
        .collect()
}

#[test]
fn slug_normalizes_room_names() {
    assert_eq!(slug_name("Lobby"), "lobby");
    assert_eq!(slug_name("  Sala Principal  "), "sala-principal");
    assert_eq!(slug_name("***"), "room");
}

#[test]
fn ensure_general_is_first_and_unique() {
    let mut channels = vec![s("random")];
    ensure_general(&mut channels);
    assert_eq!(channels[0], "general");
    ensure_general(&mut channels);
    assert_eq!(channels.iter().filter(|c| *c == "general").count(), 1);
}

#[test]
fn merge_unique_slugs_and_dedupes() {
    let mut rooms = vec![s("lobby")];
    merge_unique(&mut rooms, &[s("Lobby"), s("hangout")]);
    assert_eq!(rooms, vec![s("lobby"), s("hangout")]);
}

#[test]
fn normalize_voice_merges_lobby_casings() {
    let mut inner = sample();
    inner.voice.push((s("Lobby"), vec![s("alice")]));
    inner.voice.push((s("lobby"), vec![s("bob")]));
    normalize_voice(&mut inner.voice);
    assert_eq!(inner.voice.len(), 1);
    assert!(in_room(&inner, "lobby", "alice"));
    assert!(in_room(&inner, "lobby", "bob"));
}

#[test]
fn empty_voice_state_does_not_wipe_roster() {
    let mut inner = sample();
    inner.voice.push((s("lobby"), vec![s("alice")]));
    merge_voice_rooms(&mut inner, &snapshot(&[("lobby", &[])]), "", now_ms());
    assert!(in_room(&inner, "lobby", "alice"));
}

#[test]
fn voice_state_extends_existing_room() {
    let mut inner = sample();
    inner.voice.push((s("lobby"), vec![s("alice")]));
    inner.last_seen.push((s("bob"), now_ms()));
    merge_voice_rooms(&mut inner, &snapshot(&[("Lobby", &["bob"])]), "", now_ms());
    assert!(in_room(&inner, "lobby", "alice"));
    assert!(in_room(&inner, "lobby", "bob"));
}

#[test]
fn empty_voice_rooms_are_not_busy() {
    let mut inner = sample();
    inner.voice.push((s("lobby"), Vec::new()));
    assert!(!voice_is_busy(&inner.voice));
    inner.voice[0].1.push(s("alice"));
    assert!(voice_is_busy(&inner.voice));
}

#[test]
fn voice_join_slugs_room_and_moves_peer() {
    let mut inner = sample();
    inner.voice.push((s("lobby"), vec![s("alice")]));
    apply_voice_action(&mut inner, "Lobby", "join", "alice", now_ms());
    apply_voice_action(&mut inner, "Hangout", "join", "alice", now_ms());
    assert!(room(&inner, "lobby").is_some());
    assert!(!in_room(&inner, "lobby", "alice"));
    assert!(in_room(&inner, "hangout", "alice"));
}

#[test]
fn voice_leave_is_not_undone_by_stale_snapshot() {
    let mut inner = sample();
    inner.voice.push((s("lobby"), vec![s("alice"), s("bob")]));
    apply_voice_action(&mut inner, "lobby", "leave", "alice", now_ms());
    assert!(!in_room(&inner, "lobby", "alice"));
    merge_voice_rooms(&mut inner, &snapshot(&[("lobby", &["alice", "bob"])]), "bob", now_ms());
    assert!(!in_room(&inner, "lobby", "alice"));
    assert!(in_room(&inner, "lobby", "bob"));
    apply_voice_action(&mut inner, "lobby", "join", "alice", now_ms());
    assert!(in_room(&inner, "lobby", "alice"));
}

#[test]
fn voice_snapshot_from_peer_in_room_drops_leavers() {
    let mut inner = sample();
    inner.voice.push((s("lobby"), vec![s("alice"), s("bob"), s("carol")]));
    merge_voice_rooms(&mut inner, &snapshot(&[("lobby", &["bob", "carol"])]), "bob", now_ms());
    assert!(!in_room(&inner, "lobby", "alice"));
    assert!(in_room(&inner, "lobby", "bob"));
    assert!(in_room(&inner, "lobby", "carol"));
}

#[test]
fn voice_snapshot_keeps_recent_joiner_missing_from_peer() {
    let mut inner = sample();
    apply_voice_action(&mut inner, "lobby", "join", "alice", now_ms());
    apply_voice_action(&mut inner, "lobby", "join", "bob", now_ms());
    merge_voice_rooms(&mut inner, &snapshot(&[("lobby", &["bob"])]), "bob", now_ms());
    assert!(in_room(&inner, "lobby", "alice"));
}

#[test]
fn json_str_reads_nested_presence_names() {
    let mut inner = sample();
    let mut f = frame("aa");
    f.display_name = s("Ana");
    apply_presence(&mut inner, &f, false, now_ms());
    assert_eq!(profile(&inner, "aa").unwrap().display_name, "Ana");
}

#[test]
fn presence_carries_screen_share_and_keeps_it_unless_set() {
    let mut inner = sample();
    inner.voice.push((s("lobby"), vec![s("aa")]));
    let mut f = frame("aa");
    f.display_name = s("Ana");
    f.sharing_screen = Some(true);
    apply_presence(&mut inner, &f, false, now_ms());
    assert!(profile(&inner, "aa").unwrap().sharing_screen);
    let mut g = frame("aa");
    g.display_name = s("Ana");
    apply_presence(&mut inner, &g, false, now_ms());
    assert!(profile(&inner, "aa").unwrap().sharing_screen);
    let mut h = frame("aa");
    h.sharing_screen = Some(false);
    apply_presence(&mut inner, &h, false, now_ms());
    assert!(!profile(&inner, "aa").unwrap().sharing_screen);
}

#[test]
fn sharing_screen_ignored_when_peer_not_in_voice() {
    let mut inner = sample();
    let mut f = frame("aa");
    f.display_name = s("Ana");
    f.sharing_screen = Some(true);
    apply_presence(&mut inner, &f, false, now_ms());
    assert!(!profile(&inner, "aa").unwrap().sharing_screen);
}

#[test]
fn leaving_voice_clears_sharing_screen() {
    let mut inner = sample();
    inner.voice.push((s("lobby"), vec![s("aa")]));
    let mut p = PeerProfile::new();
    p.display_name = s("Ana");
    p.sharing_screen = true;
    inner.profiles.push((s("aa"), p));
    drop_from_voice(&mut inner, "aa");
    assert!(!profile(&inner, "aa").unwrap().sharing_screen);
    assert!(!peer_in_voice(&inner.voice, "aa"));
}

#[test]
fn voice_state_from_peer_overrides_leave_hold() {
    let mut inner = sample();
    mark_voice_left(&mut inner, "bob", now_ms());
    assert!(voice_left_held(&inner, "bob", now_ms()));
    merge_voice_rooms(&mut inner, &snapshot(&[("lobby", &["bob"])]), "bob", now_ms());
    assert!(in_room(&inner, "lobby", "bob"));
    assert!(!voice_left_held(&inner, "bob", now_ms()));
}

#[test]
fn stale_members_are_offline_until_heartbeat() {
    let mut inner = sample();
    let mut p = PeerProfile::new();
    p.display_name = s("Ana");
    inner.profiles.push((s("aa"), p));
    let now = 1_000_000;
    assert_eq!(live_status(&inner, "aa", now), "offline");
    inner.last_seen.push((s("aa"), now));
    inner.profiles[0].1.status = s("away");
    assert_eq!(live_status(&inner, "aa", now), "away");
    expire_stale_presence(&mut inner, now + PRESENCE_TTL_MS + 1);
    assert_eq!(live_status(&inner, "aa", now + PRESENCE_TTL_MS + 1), "offline");
}

#[test]
fn socket_drop_removes_peer_from_call() {
    let mut inner = sample();
    let mut p = PeerProfile::new();
    p.display_name = s("Ana");
    p.status = s("online");
    inner.profiles.push((s("aa"), p));
    inner.voice.push((s("lobby"), vec![s("aa"), s("bb")]));
    inner.last_seen.push((s("aa"), now_ms()));
    let leaves = drop_disconnected_peer(&mut inner, "aa");
    assert_eq!(leaves, vec![(s("aa"), s("lobby"))]);
    assert!(!in_room(&inner, "lobby", "aa"));
    assert!(in_room(&inner, "lobby", "bb"));
    assert_eq!(live_status(&inner, "aa", now_ms()), "offline");
}

#[test]
fn stale_presence_does_not_kick_call() {
    let mut inner = sample();
    let mut p = PeerProfile::new();
    p.display_name = s("Ana");
    inner.profiles.push((s("aa"), p));
    inner.voice.push((s("lobby"), vec![s("aa"), s("bb")]));
    inner.last_seen.push((s("aa"), 10));
    let leaves = expire_stale_presence(&mut inner, 10 + PRESENCE_TTL_MS + 1);
    assert!(in_room(&inner, "lobby", "aa"));
    assert!(in_room(&inner, "lobby", "bb"));
    assert!(leaves.is_empty());
    assert_eq!(live_status(&inner, "aa", 10 + PRESENCE_TTL_MS + 1), "offline");
}

#[test]
fn voice_state_does_not_duplicate_across_rooms() {
    let mut inner = sample();
    inner.last_seen.push((s("alice"), now_ms()));
    inner.voice.push((s("currall"), vec![s("alice")]));
    merge_voice_rooms(&mut inner, &snapshot(&[("sala", &["alice"])]), "", now_ms());
    assert!(in_room(&inner, "currall", "alice"));
    assert!(!in_room(&inner, "sala", "alice"));
}

#[test]
fn voice_state_seats_offline_looking_peer_once() {
    let mut inner = sample();
    let mut p = PeerProfile::new();
    p.display_name = s("Ana");
    p.status = s("offline");
    inner.profiles.push((s("aa"), p));
    inner.voice.push((s("lobby"), vec![s("bb")]));
    merge_voice_rooms(&mut inner, &snapshot(&[("lobby", &["aa", "bb"])]), "", now_ms());
    assert!(in_room(&inner, "lobby", "aa"));
    assert!(in_room(&inner, "lobby", "bb"));
}

#[test]
fn remote_voice_cannot_put_self_back_in_call() {
    let mut inner = sample();
    let me = inner.me.clone();
    inner.voice.push((s("lobby"), vec![s("bb")]));
    merge_voice_rooms(&mut inner, &snapshot(&[("lobby", &[me.as_str(), "bb"])]), "", now_ms());
    assert!(!in_room(&inner, "lobby", &me));
    apply_voice_action(&mut inner, "lobby", "join", &me, now_ms());
    assert!(!in_room(&inner, "lobby", &me));
    apply_voice_action(&mut inner, "lobby", "leave", "bb", now_ms());
    assert!(!in_room(&inner, "lobby", "bb"));
}

#[test]
fn explicit_offline_presence_keeps_call_seat() {
    let mut inner = sample();
    inner.voice.push((s("lobby"), vec![s("aa")]));
    let mut f = frame("aa");
    f.display_name = s("Ana");
    f.status = Some(s("offline"));
    let rooms = apply_presence(&mut inner, &f, false, now_ms());
    assert!(rooms.is_empty());
    assert!(in_room(&inner, "lobby", "aa"));
}

#[test]
fn presence_snapshot_does_not_revive_ghosts() {
    let mut inner = sample();
    let mut f = frame("ghost");
    f.display_name = s("Velho");
    apply_presence(&mut inner, &f, true, now_ms());
    assert_eq!(live_status(&inner, "ghost", now_ms()), "offline");
    let mut g = frame("live");
    g.display_name = s("Ana");
    g.status = Some(s("busy"));
    apply_presence(&mut inner, &g, true, now_ms());
    assert_eq!(live_status(&inner, "live", now_ms()), "busy");
    let people = live_profiles(&inner, now_ms(), false);
    assert!(!people.iter().any(|(k, _)| k == "ghost"));
    let live = people.iter().rev().find(|(k, _)| k == "live").unwrap();
    assert_eq!(live.1.status, "busy");
}

#[test]
fn explicit_offline_presence_drops_last_seen() {
    let mut inner = sample();
    let mut f = frame("aa");
    f.display_name = s("Ana");
    f.status = Some(s("online"));
    apply_presence(&mut inner, &f, false, now_ms());
    let mut g = frame("aa");
    g.status = Some(s("offline"));
    apply_presence(&mut inner, &g, false, now_ms());
    assert_eq!(live_status(&inner, "aa", now_ms()), "offline");
}

#[test]
fn seed_card_hidden_when_idle_even_with_offline_members() {
    let seeding: Vec<String> = Vec::new();
    let seeded = vec![(s("aaa"), 10u32)];
    assert!(!seeding_visible(&seeding));
    assert_eq!(seed_progress("me-key", &seeding, &seeded, 10, 1_000), (1_000, 1_000));
}

#[test]
fn seed_progress_ignores_offline_profiles() {
    let seeding = vec![s("p0")];
    let seeded = vec![(s("p1"), 8u32)];
    assert!(seeding_visible(&seeding));
    assert_eq!(seed_progress("me-key", &seeding, &seeded, 8, 400), (400, 800));
}

#[test]
fn seed_progress_idle_without_jobs_is_full_not_half() {
    let seeding: Vec<String> = Vec::new();
    let seeded: Vec<(String, u32)> = Vec::new();
    assert!(!seeding_visible(&seeding));
    assert_eq!(seed_progress("me-key", &seeding, &seeded, 4, 200), (1, 1));
}

#[test]
fn mqtt_will_is_ignored_while_peer_was_just_seen() {
    let mut inner = sample();
    let now = now_ms();
    inner.last_seen.push((s("aa"), now));
    assert!(ignore_relay_offline(&inner, "aa", true, Some("offline"), now));
    assert!(!ignore_relay_offline(&inner, "aa", false, Some("offline"), now));
    assert!(!ignore_relay_offline(&inner, "aa", true, Some("online"), now));
    inner.last_seen.push((s("aa"), 1));
    assert!(!ignore_relay_offline(&inner, "aa", true, Some("offline"), now));
}

#[test]
fn stamps_and_matches_community_id() {
    let id = "c0ffee";
    assert!(frame_matches_community(Some(id), id));
    assert!(!frame_matches_community(Some(id), "other"));
    assert!(frame_matches_community(None, id));
    assert!(frame_matches_community(Some(""), id));
}

#[test]
fn viewed_id_keeps_the_live_community_while_in_a_call() {
    let mut inner = sample();
    let me = inner.me.clone();
    inner.voice.push((s("lobby"), vec![me]));
    assert!(seated_in_call(&inner));
    assert_eq!(viewed_community_id(Some("viewed"), Some("live")), Some(s("viewed")));
    assert_eq!(viewed_community_id(Some(""), Some("live")), Some(s("live")));
    assert_eq!(viewed_community_id(None, None), None);
}

#[test]
fn touch_and_mark_offline() {
    let mut inner = sample();
    touch_seen(&mut inner, "aa", 500);
    assert_eq!(inner.last_seen, vec![(s("aa"), 500)]);
    touch_seen(&mut inner, "me-key", 600);
    touch_seen(&mut inner, "", 600);
    assert_eq!(inner.last_seen.len(), 1);
    inner.profiles.push((s("aa"), PeerProfile::new()));
    inner.profiles[0].1.status = s("online");
    inner.voice.push((s("lobby"), vec![s("aa")]));
    let rooms = mark_peer_offline(&mut inner, "aa");
    assert!(rooms.is_empty());
    assert!(inner.last_seen.is_empty());
    assert_eq!(profile(&inner, "aa").unwrap().status, "offline");
    assert!(in_room(&inner, "lobby", "aa"));
}

#[test]
fn statuses_normalize() {
    assert_eq!(normalize_status("idle"), "away");
    assert_eq!(normalize_status("dnd"), "busy");
    assert_eq!(normalize_status(""), "online");
    assert_eq!(normalize_status("whatever"), "online");
    assert_eq!(normalize_status("offline"), "offline");
}

#[test]
fn join_grace_and_leave_hold_windows() {
    let mut inner = sample();
    apply_voice_action(&mut inner, "lobby", "join", "aa", 1_000);
    assert!(recently_voice_joined(&inner, "aa", 1_000 + 7_999));
    assert!(!recently_voice_joined(&inner, "aa", 1_000 + 8_000));
    mark_voice_left(&mut inner, "aa", 2_000);
    assert!(voice_left_held(&inner, "aa", 2_000 + 1_799_999));
    assert!(!voice_left_held(&inner, "aa", 2_000 + 1_800_000));
    assert!(!in_room(&inner, "lobby", "aa"));
}

#[test]
fn live_profiles_strip_avatars_and_include_self() {
    let mut inner = sample();
    inner.display_name = s("Me");
    inner.avatar = s("img");
    let mut p = PeerProfile::new();
    p.avatar = s("pic");
    p.status = s("busy");
    inner.profiles.push((s("aa"), p));
    inner.last_seen.push((s("aa"), 100));
    let people = live_profiles(&inner, 200, true);
    let me = people.iter().find(|(k, _)| k == "me-key").unwrap();
    assert_eq!(me.1.display_name, "Me");
    assert_eq!(me.1.avatar, "");
    assert_eq!(me.1.status, "online");
    let aa = people.iter().find(|(k, _)| k == "aa").unwrap();
    assert_eq!(aa.1.avatar, "");
    assert_eq!(aa.1.status, "busy");
}
