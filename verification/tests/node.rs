use chaincord::erasure::encode;
use chaincord::node::{
    add_listen_url_to, add_room_to, archive_members, bump_seeded, chat_channel, chat_text,
    clear_own_seat, gossip_urls, history_size, known_from_invite, leave_plan,
    load_session_presence, next_community_index, online_member_pks, refresh_session_peers,
    remember_outbox, repair_plan, restore_archive, restore_pieces, seed_plan,
    session_text_channels, switch_plan, take_own_seat, LeavePlan, RepairStep, SeedPlan,
    SwitchPlan,
};
use chaincord::node::{accept_remote, note_seen};
use chaincord::peer::{PeerProfile, Presence};
use chaincord::ui::UiMessage;
use chaincord::node::{handoff_acked, note_pushed_shard, wants_history};
use chaincord::node::{chat_target, ChatTarget};

fn s(v: &str) -> String {
    v.to_string()
}

fn strings(v: &[&str]) -> Vec<String> {
    v.iter().map(|x| x.to_string()).collect()
}

fn profile(status: &str) -> PeerProfile {
    let mut p = PeerProfile::new();
    p.status = s(status);
    p
}

fn message(text: &str, sender: &str, channel: &str) -> UiMessage {
    UiMessage {
        sender: s(sender),
        text: s(text),
        ts: 1,
        channel: s(channel),
        is_self: false,
        community_id: s("c1"),
    }
}

fn step(st: &RepairStep) -> (bool, u8, String) {
    match st {
        RepairStep::Push(i, p) => (true, *i, p.clone()),
        RepairStep::Pull(i, p) => (false, *i, p.clone()),
    }
}

#[test]
fn gossip_falls_back_to_listen_url_and_drops_loopback() {
    let known = strings(&[
        "ws://127.0.0.1:7000",
        "ws://10.0.0.2:7001",
        "ws://192.168.1.5:7000",
        "not a url",
    ]);
    let out = gossip_urls(&[], "ws://192.168.1.5:7000", &known);
    assert_eq!(out, strings(&["ws://192.168.1.5:7000", "ws://10.0.0.2:7001"]));
}

#[test]
fn gossip_keeps_own_urls_first_without_loopback() {
    let own = strings(&["ws://127.0.0.1:7000", "ws://192.168.1.5:7000"]);
    let known = strings(&["ws://192.168.1.9:7000", "ws://192.168.1.9:7000"]);
    let out = gossip_urls(&own, "ws://127.0.0.1:7000", &known);
    assert_eq!(out, strings(&["ws://192.168.1.5:7000", "ws://192.168.1.9:7000"]));
}

#[test]
fn leaving_a_call_unseats_only_me() {
    let mut p = Presence::new("me");
    p.sharing_screen = true;
    p.voice = vec![
        (s("Lounge"), strings(&["me", "bob"])),
        (s("x"), strings(&["me"])),
        (s("y"), strings(&["carol"])),
    ];
    let mut rooms = clear_own_seat(&mut p);
    rooms.sort();
    assert_eq!(rooms, strings(&["Lounge", "x"]));
    assert!(!p.sharing_screen);
    assert!(p.voice.iter().all(|(_, people)| !people.iter().any(|x| x == "me")));
    assert!(p
        .voice
        .iter()
        .any(|(r, people)| r == "lounge" && people == &strings(&["bob"])));
    assert!(p
        .voice
        .iter()
        .any(|(r, people)| r == "y" && people == &strings(&["carol"])));
}

#[test]
fn adding_rooms_uses_room_names_once() {
    let mut text = strings(&["general"]);
    let mut calls: Vec<String> = Vec::new();
    assert_eq!(add_room_to("call", "Game Night", &mut text, &mut calls), "game-night");
    assert_eq!(add_room_to("call", "game night", &mut text, &mut calls), "game-night");
    assert_eq!(calls, strings(&["game-night"]));
    assert_eq!(add_room_to("text", "General", &mut text, &mut calls), "general");
    assert_eq!(add_room_to("text", "Dev Talk", &mut text, &mut calls), "dev-talk");
    assert_eq!(text, strings(&["general", "dev-talk"]));
    assert_eq!(calls, strings(&["game-night"]));
}

#[test]
fn stored_room_list_without_general_gets_no_general() {
    let mut text = strings(&["news"]);
    let mut calls: Vec<String> = Vec::new();
    add_room_to("text", "general", &mut text, &mut calls);
    assert_eq!(text, strings(&["news"]));
}

#[test]
fn seed_plan_cases() {
    assert_eq!(seed_plan("", "me", 0, 5, true, None), SeedPlan::Skip);
    assert_eq!(seed_plan("me", "me", 0, 5, true, None), SeedPlan::Skip);
    assert_eq!(seed_plan("bob", "me", 5, 5, true, None), SeedPlan::Settle);
    assert_eq!(seed_plan("bob", "me", 1, 5, false, None), SeedPlan::Settle);
    assert_eq!(seed_plan("bob", "me", 1, 5, true, Some(5)), SeedPlan::Done);
    assert_eq!(seed_plan("bob", "me", 1, 5, true, Some(4)), SeedPlan::Send);
    assert_eq!(seed_plan("bob", "me", 1, 5, true, None), SeedPlan::Send);
}

#[test]
fn online_members_are_sorted_and_exclude_me() {
    let mut p = Presence::new("me");
    p.profiles = vec![
        (s("carol"), profile("offline")),
        (s("bob"), profile("online")),
        (s("me"), profile("online")),
        (s("erin"), profile("away")),
    ];
    let links = strings(&["dave", "me", "bob", "carol"]);
    let out = online_member_pks(&p, &links);
    assert_eq!(out, strings(&["bob", "carol", "dave", "erin"]));
}

#[test]
fn later_profile_entry_wins_for_online() {
    let mut p = Presence::new("me");
    p.profiles = vec![(s("bob"), profile("online")), (s("bob"), profile("offline"))];
    assert!(online_member_pks(&p, &[]).is_empty());
}

#[test]
fn repair_pushes_own_shards_to_smallest_peer() {
    let online = strings(&["c", "b"]);
    let plan = repair_plan("a", &online, "blob1", &[0, 1, 2, 3, 4, 5], &[]);
    let got: Vec<(bool, u8, String)> = plan.iter().map(step).collect();
    let want: Vec<(bool, u8, String)> = (0u8..6).map(|i| (true, i, s("b"))).collect();
    assert_eq!(got, want);
}

#[test]
fn repair_prefers_a_peer_without_the_shard() {
    let online = strings(&["b", "c"]);
    let adverts = vec![(s("b"), s("blob1"), vec![0u8])];
    let plan = repair_plan("a", &online, "blob1", &[0], &adverts);
    let got: Vec<(bool, u8, String)> = plan.iter().map(step).collect();
    // Shard 0 has two copies (mine and b's); with three online the target is two.
    assert!(got.iter().all(|(_, i, _)| *i != 0));
    let plan = repair_plan("a", &strings(&["b", "c", "d", "e"]), "blob1", &[0], &adverts);
    let got: Vec<(bool, u8, String)> = plan.iter().map(step).collect();
    assert_eq!(got, vec![]);
}

#[test]
fn repair_pulls_from_first_advertiser_of_the_same_archive() {
    let online = strings(&["b"]);
    let adverts = vec![
        (s("c"), s("other"), vec![2u8]),
        (s("b"), s("blob1"), vec![0u8, 1]),
        (s("d"), s("blob1"), vec![1u8]),
    ];
    let plan = repair_plan("a", &online, "blob1", &[], &adverts);
    let got: Vec<(bool, u8, String)> = plan.iter().map(step).collect();
    assert_eq!(got, vec![(false, 0, s("b"))]);
}

#[test]
fn repair_without_archive_does_nothing() {
    let plan = repair_plan("a", &strings(&["b"]), "", &[0, 1], &[]);
    assert!(plan.is_empty());
}

#[test]
fn restore_pieces_needs_four_entries_and_last_wins() {
    assert!(restore_pieces(&[(0, vec![1]), (1, vec![2]), (2, vec![3])]).is_none());
    let held = vec![
        (0u8, vec![1u8]),
        (1, vec![2]),
        (2, vec![3]),
        (7, vec![9]),
        (0, vec![5]),
    ];
    let pieces = restore_pieces(&held).expect("pieces");
    assert_eq!(
        pieces,
        vec![Some(vec![5u8]), Some(vec![2]), Some(vec![3]), None, None, None]
    );
}

#[test]
fn restore_archive_from_any_four_shards() {
    let data: Vec<u8> = (0u8..200).collect();
    let shards = encode(&data).expect("encode");
    let held: Vec<(u8, Vec<u8>)> = vec![
        (0, shards[0].clone()),
        (2, shards[2].clone()),
        (4, shards[4].clone()),
        (5, shards[5].clone()),
    ];
    assert_eq!(restore_archive(&held), Some(data.clone()));
    let three: Vec<(u8, Vec<u8>)> = held[..3].to_vec();
    assert_eq!(restore_archive(&three), None);
    let dup: Vec<(u8, Vec<u8>)> = vec![
        (0, shards[0].clone()),
        (0, shards[0].clone()),
        (2, shards[2].clone()),
        (4, shards[4].clone()),
    ];
    assert_eq!(restore_archive(&dup), None);
}

#[test]
fn archive_members_add_me_once() {
    let mut p = Presence::new("a");
    p.profiles = vec![(s("b"), profile("online")), (s("a"), profile("online"))];
    let mut m = archive_members(&p);
    m.sort();
    assert_eq!(m, strings(&["a", "b"]));
    p.profiles = vec![(s("c"), profile("offline"))];
    let mut m = archive_members(&p);
    m.sort();
    assert_eq!(m, strings(&["a", "c"]));
}

#[test]
fn history_size_counts_utf8_bytes() {
    let msgs = vec![message("héllo", "ab", "general"), message("", "", "")];
    assert_eq!(history_size(&msgs), (2, 6 + 2 + 7 + 24 + 24));
    assert_eq!(history_size(&[]), (0, 0));
}

#[test]
fn bump_seeded_records_peers_one_short() {
    let mut p = Presence::new("a");
    p.profiles = vec![
        (s("b"), profile("online")),
        (s("c"), profile("online")),
        (s("a"), profile("online")),
    ];
    let mut seeded = vec![(s("b"), 4u32), (s("d"), 1)];
    bump_seeded(&p, &mut seeded, 5);
    let get = |v: &Vec<(String, u32)>, k: &str| v.iter().rev().find(|(x, _)| x == k).map(|(_, n)| *n);
    assert_eq!(get(&seeded, "b"), Some(5));
    assert_eq!(get(&seeded, "c"), None);
    assert_eq!(get(&seeded, "d"), Some(1));
    bump_seeded(&p, &mut seeded, 1);
    assert_eq!(get(&seeded, "c"), Some(1));
    assert_eq!(get(&seeded, "a"), None);
}

#[test]
fn outbox_keeps_last_eighty_distinct_frames() {
    let mut q: Vec<String> = Vec::new();
    for i in 0..81 {
        remember_outbox(&mut q, &format!("frame-{i}"));
    }
    assert_eq!(q.len(), 80);
    assert_eq!(q[0], "frame-1");
    assert_eq!(q[79], "frame-80");
    remember_outbox(&mut q, "frame-40");
    assert_eq!(q.len(), 80);
    assert_eq!(q[79], "frame-80");
    remember_outbox(&mut q, "");
    assert_eq!(q[79], "frame-80");
    let big = "x".repeat(48001);
    remember_outbox(&mut q, &big);
    assert_eq!(q[79], "frame-80");
    let edge = "y".repeat(48000);
    remember_outbox(&mut q, &edge);
    assert_eq!(q[79], edge);
}

#[test]
fn listen_urls_are_added_once_when_dialable() {
    let mut urls: Vec<String> = Vec::new();
    assert!(add_listen_url_to(&mut urls, "ws://192.168.1.5:7000"));
    assert!(!add_listen_url_to(&mut urls, "ws://192.168.1.5:7000"));
    assert!(!add_listen_url_to(&mut urls, ""));
    assert!(!add_listen_url_to(&mut urls, "http://192.168.1.5:7000"));
    assert!(add_listen_url_to(&mut urls, "ws://127.0.0.1:7000"));
    assert_eq!(urls, strings(&["ws://192.168.1.5:7000", "ws://127.0.0.1:7000"]));
}

#[test]
fn loaded_profiles_show_offline_and_voice_is_cleared() {
    let mut p = Presence::new("me");
    p.voice = vec![(s("lounge"), strings(&["bob"]))];
    p.last_seen = vec![(s("bob"), 5)];
    let mut bob = profile("online");
    bob.display_name = s("Bob");
    bob.sharing_screen = true;
    load_session_presence(&mut p, &[(s("bob"), bob)]);
    assert_eq!(p.profiles.len(), 1);
    assert_eq!(p.profiles[0].0, "bob");
    assert_eq!(p.profiles[0].1.status, "offline");
    assert_eq!(p.profiles[0].1.display_name, "Bob");
    assert!(p.profiles[0].1.sharing_screen);
    assert!(p.voice.is_empty());
    assert!(p.last_seen.is_empty());
    assert_eq!(p.me, "me");
}

#[test]
fn stored_text_channels_default_to_general() {
    assert_eq!(session_text_channels(Vec::new()), strings(&["general"]));
    assert_eq!(session_text_channels(strings(&["a"])), strings(&["a"]));
}

#[test]
fn joining_a_call_moves_my_seat_and_adds_the_room() {
    let mut p = Presence::new("me");
    p.voice = vec![(s("lounge"), strings(&["me", "bob"]))];
    let mut calls = strings(&["lounge"]);
    let (room, added) = take_own_seat(&mut p, &mut calls, "Game Night");
    assert_eq!(room, "game-night");
    assert!(added);
    assert_eq!(calls, strings(&["lounge", "game-night"]));
    assert!(p
        .voice
        .iter()
        .any(|(r, people)| r == "game-night" && people == &strings(&["me"])));
    assert!(p
        .voice
        .iter()
        .any(|(r, people)| r == "lounge" && people == &strings(&["bob"])));
    let (_, added) = take_own_seat(&mut p, &mut calls, "lounge");
    assert!(!added);
    assert_eq!(calls, strings(&["lounge", "game-night"]));
}

#[test]
fn chat_text_is_trimmed_and_blank_is_nothing() {
    assert_eq!(chat_text("  hi there \n"), Some(s("hi there")));
    assert_eq!(chat_text("   "), None);
    assert_eq!(chat_text(""), None);
}

#[test]
fn chat_goes_to_known_channel_or_general() {
    let text = strings(&["general", "dev-talk"]);
    assert_eq!(chat_channel("Dev Talk", &text), "dev-talk");
    assert_eq!(chat_channel("random", &text), "general");
    assert_eq!(chat_channel("dev-talk", &[]), "general");
}

#[test]
fn leave_plan_cases() {
    let online = strings(&["b", "owner", "c"]);
    let holders = strings(&["me", "b", "c", "me", "b", "c"]);
    assert!(matches!(
        leave_plan(None, Some("x"), false, false, "me", "owner", &online, Some(&holders)),
        LeavePlan::Stay
    ));
    assert!(matches!(
        leave_plan(Some("y"), Some("x"), true, false, "me", "owner", &online, Some(&holders)),
        LeavePlan::ForgetViewed
    ));
    match leave_plan(Some("x"), Some("x"), true, false, "me", "owner", &online, Some(&holders)) {
        LeavePlan::HandOff(t) => assert_eq!(t, "b"),
        _ => panic!("expected a hand-off"),
    }
    match leave_plan(Some("x"), Some("x"), false, false, "me", "b", &strings(&["b"]), Some(&holders)) {
        LeavePlan::HandOff(t) => assert_eq!(t, "b"),
        _ => panic!("expected a hand-off to the owner"),
    }
    assert!(matches!(
        leave_plan(Some("x"), Some("x"), false, true, "me", "owner", &online, Some(&holders)),
        LeavePlan::Leave
    ));
    assert!(matches!(
        leave_plan(Some("x"), Some("x"), false, false, "me", "owner", &[], Some(&holders)),
        LeavePlan::Leave
    ));
    assert!(matches!(
        leave_plan(Some("x"), Some("x"), false, false, "me", "owner", &online, None),
        LeavePlan::Leave
    ));
    let not_mine = strings(&["b", "c", "b", "c", "b", "c"]);
    assert!(matches!(
        leave_plan(Some("x"), Some("x"), false, false, "me", "owner", &online, Some(&not_mine)),
        LeavePlan::Leave
    ));
    assert!(matches!(
        leave_plan(Some("x"), Some("x"), false, false, "me", "owner", &strings(&["me"]), Some(&holders)),
        LeavePlan::Leave
    ));
}

#[test]
fn a_new_invite_refreshes_stored_peers() {
    let mut known = strings(&["ws://10.0.0.1:7000"]);
    let mut invite = strings(&["ws://10.0.0.9:7000"]);
    let mut relays = strings(&["mqtt://a"]);
    refresh_session_peers(
        &mut known,
        &mut invite,
        &mut relays,
        &strings(&["ws://10.0.0.1:7000", "", "ws://10.0.0.2:7000"]),
        &[],
    );
    assert_eq!(known, strings(&["ws://10.0.0.1:7000", "ws://10.0.0.2:7000"]));
    assert_eq!(invite, strings(&["ws://10.0.0.1:7000", "", "ws://10.0.0.2:7000"]));
    assert_eq!(relays, strings(&["mqtt://a"]));
    refresh_session_peers(&mut known, &mut invite, &mut relays, &[], &strings(&["mqtt://b"]));
    assert_eq!(invite, strings(&["ws://10.0.0.1:7000", "", "ws://10.0.0.2:7000"]));
    assert_eq!(relays, strings(&["mqtt://b"]));
}

#[test]
fn invite_peers_become_known_when_dialable_and_not_self() {
    let own = strings(&["ws://192.168.1.5:7000"]);
    let peers = strings(&[
        "ws://192.168.1.5:7000",
        "ws://192.168.1.7:7000",
        "ws://192.168.1.7:7000",
        "http://192.168.1.8:7000",
        "",
    ]);
    let out = known_from_invite(&peers, "ws://0.0.0.0:7000", &own, 7000);
    assert_eq!(out, strings(&["ws://192.168.1.7:7000"]));
}

#[test]
fn switch_plan_cases() {
    assert_eq!(switch_plan(Some("a"), "a", true, false), SwitchPlan::ViewLive);
    assert_eq!(switch_plan(Some("a"), "b", false, false), SwitchPlan::NotFound);
    assert_eq!(switch_plan(None, "b", true, true), SwitchPlan::ViewOnly);
    assert_eq!(switch_plan(Some("a"), "b", false, true), SwitchPlan::Activate);
}

#[test]
fn next_community_is_first_by_lowercase_name() {
    assert_eq!(next_community_index(&[]), None);
    let names = strings(&["beta", "Alpha", "alpha", "Gamma"]);
    assert_eq!(next_community_index(&names), Some(1));
    let names = strings(&["b", "a"]);
    assert_eq!(next_community_index(&names), Some(1));
}

#[test]
fn frames_are_noted_once_within_the_window() {
    let mut order: Vec<u64> = Vec::new();
    assert!(!note_seen(&mut order, 7));
    assert!(note_seen(&mut order, 7));
    for h in 100..2100u64 {
        assert!(!note_seen(&mut order, h));
    }
    assert_eq!(order.len(), 2000);
    assert_eq!(order[0], 100);
    assert!(!note_seen(&mut order, 7));
}

#[test]
fn remote_frames_pass_the_gate_only_when_current() {
    assert!(accept_remote(3, 3, "chat", false, Some("c1"), None));
    assert!(accept_remote(3, 3, "chat", false, Some("c1"), Some("")));
    assert!(accept_remote(3, 3, "chat", false, Some("c1"), Some("c1")));
    assert!(!accept_remote(3, 3, "chat", false, Some("c1"), Some("c2")));
    assert!(!accept_remote(3, 2, "chat", false, Some("c1"), None));
    assert!(!accept_remote(3, 3, "chat", true, Some("c1"), None));
    assert!(accept_remote(3, 3, "rtc", true, Some("c1"), None));
    assert!(!accept_remote(3, 3, "rtc", false, None, None));
}

#[test]
fn owner_hub_takes_own_urls_only_for_a_local_hub() {
    let own = strings(&["ws://192.168.1.5:7000"]);
    let mut relays = strings(&["ws://127.0.0.1:7000"]);
    assert!(chaincord::node::uses_local_hub(&relays, "ws://0.0.0.0:7000", &own, 7000));
    assert!(!chaincord::node::refresh_owner_hub(&mut relays, false, "ws://0.0.0.0:7000", &own, 7000));
    assert_eq!(relays, strings(&["ws://127.0.0.1:7000"]));
    assert!(chaincord::node::refresh_owner_hub(&mut relays, true, "ws://0.0.0.0:7000", &own, 7000));
    assert_eq!(relays, strings(&["ws://192.168.1.5:7000"]));
    let mut remote = strings(&["mqtt://broker.example:1883"]);
    assert!(!chaincord::node::refresh_owner_hub(&mut remote, true, "ws://0.0.0.0:7000", &own, 7000));
    assert_eq!(remote, strings(&["mqtt://broker.example:1883"]));
    let mut none: Vec<String> = Vec::new();
    assert!(chaincord::node::refresh_owner_hub(&mut none, true, "ws://0.0.0.0:7000", &own, 7000));
}

#[test]
fn link_keys_are_remembered_for_direct_links() {
    let mut links: Vec<(String, String)> = Vec::new();
    chaincord::node::remember_link_pk(&mut links, Some("ws://10.0.0.2:7000"), "bob");
    chaincord::node::remember_link_pk(&mut links, Some("relay:x"), "carol");
    chaincord::node::remember_link_pk(&mut links, None, "dave");
    chaincord::node::remember_link_pk(&mut links, Some("ws://10.0.0.3:7000"), "");
    assert_eq!(links, vec![(s("ws://10.0.0.2:7000"), s("bob"))]);
    chaincord::node::remember_link_pk(&mut links, Some("ws://10.0.0.2:7000"), "erin");
    assert_eq!(links, vec![(s("ws://10.0.0.2:7000"), s("erin"))]);
}

#[test]
fn pushed_shards_update_the_pusher_inventory() {
    let mut inv: Vec<(String, (String, Vec<u8>))> = vec![(s("b"), (s("blob1"), vec![4u8, 1]))];
    note_pushed_shard(&mut inv, "b", "blob1", 2);
    assert_eq!(inv, vec![(s("b"), (s("blob1"), vec![1u8, 2, 4]))]);
    note_pushed_shard(&mut inv, "b", "blob1", 2);
    note_pushed_shard(&mut inv, "b", "other", 5);
    assert_eq!(inv, vec![(s("b"), (s("blob1"), vec![1u8, 2, 4]))]);
    note_pushed_shard(&mut inv, "c", "blob1", 0);
    note_pushed_shard(&mut inv, "", "blob1", 3);
    assert_eq!(
        inv,
        vec![(s("b"), (s("blob1"), vec![1u8, 2, 4])), (s("c"), (s("blob1"), vec![0u8]))]
    );
}

#[test]
fn handoff_ack_and_history_requests() {
    assert!(handoff_acked(Some(("blob1", "b")), "blob1", "b"));
    assert!(handoff_acked(Some(("blob1", "b")), "blob1", ""));
    assert!(!handoff_acked(Some(("blob1", "b")), "blob1", "c"));
    assert!(!handoff_acked(Some(("blob1", "b")), "blob2", "b"));
    assert!(!handoff_acked(None, "blob1", "b"));
    assert!(wants_history(5, 3));
    assert!(!wants_history(3, 3));
}

#[test]
fn chat_goes_to_the_viewed_or_the_live_community() {
    let first = "Join or create a community first.";
    assert_eq!(chat_target(None, Some("live"), true), Err(s(first)));
    assert_eq!(chat_target(Some("other"), Some("live"), false), Err(s("community not found")));
    assert_eq!(chat_target(Some("other"), Some("live"), true), Ok(ChatTarget::Viewed));
    assert_eq!(chat_target(Some("other"), None, true), Ok(ChatTarget::Viewed));
    assert_eq!(chat_target(None, None, false), Err(s(first)));
    assert_eq!(chat_target(Some("live"), Some("live"), false), Ok(ChatTarget::Live));
}
