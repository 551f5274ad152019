use chaincord::crypto::{ChatPlain, WireMessage};
use chaincord::frames::{forward_to, on_chat_plain, on_frame, Action, Frame, HistoryItem, NodeState};
use chaincord::peer::{Presence, PresenceFrame};
use chaincord::ui::UiMessage;

fn s(v: &str) -> String {
    v.to_string()
}

fn strings(v: &[&str]) -> Vec<String> {
    v.iter().map(|x| x.to_string()).collect()
}

fn node() -> NodeState {
    NodeState {
        link_gen: 1,
        live_id: Some(s("cid")),
        live_key: s(""),
        listen_url: s("ws://10.0.0.5:7340"),
        listen_urls: strings(&["ws://10.0.0.5:7340"]),
        listen_port: 7340,
        presence: Presence::new("me"),
        text_channels: strings(&["general"]),
        call_rooms: vec![],
        known_peer_urls: vec![],
        links: strings(&["ws://10.0.0.7:7340", "relay", "relay:b", "ws://10.0.0.8:7340"]),
        link_pks: vec![],
        seen: vec![],
        shard_inventory: vec![],
        handoff_wait: None,
        archive_messages: 3,
        held_blob: s(""),
        held: vec![],
    }
}

fn presence_of(pk: &str, status: Option<&str>) -> PresenceFrame {
    PresenceFrame {
        public_key: s(pk),
        display_name: s("Bob"),
        avatar: s(""),
        muted: None,
        deafened: None,
        sharing_screen: None,
        status: status.map(s),
    }
}

#[test]
fn frames_go_to_every_link_but_their_origin() {
    let links = node().links;
    assert_eq!(forward_to(&links, None), links);
    assert_eq!(
        forward_to(&links, Some("ws://10.0.0.7:7340")),
        strings(&["relay", "relay:b", "ws://10.0.0.8:7340"])
    );
    assert_eq!(forward_to(&links, Some("relay")), strings(&["ws://10.0.0.7:7340", "ws://10.0.0.8:7340"]));
    assert_eq!(forward_to(&links, Some("relay:b")), strings(&["ws://10.0.0.7:7340", "ws://10.0.0.8:7340"]));
}

#[test]
fn layout_merges_and_is_passed_on() {
    let mut n = node();
    let f = Frame::Layout { text_channels: strings(&["memes"]), call_rooms: strings(&["lobby"]) };
    let acts = on_frame(&mut n, &f, Some("cid"), Some("relay"), 1, 10, 0);
    assert_eq!(n.text_channels, strings(&["general", "memes"]));
    assert_eq!(n.call_rooms, strings(&["lobby"]));
    assert_eq!(
        acts,
        vec![
            Action::EmitState,
            Action::PersistSession,
            Action::Forward(strings(&["ws://10.0.0.7:7340", "ws://10.0.0.8:7340"])),
        ]
    );
}

#[test]
fn repeats_old_links_and_other_communities_are_dropped() {
    let mut n = node();
    let f = Frame::Layout { text_channels: strings(&["memes"]), call_rooms: vec![] };
    assert!(on_frame(&mut n, &f, None, None, 0, 10, 0).is_empty());
    assert!(n.seen.is_empty());
    assert!(!on_frame(&mut n, &f, None, None, 1, 10, 0).is_empty());
    assert!(on_frame(&mut n, &f, None, None, 1, 10, 0).is_empty());
    assert!(on_frame(&mut n, &f, Some("other"), None, 1, 11, 0).is_empty());
    let mut lone = node();
    lone.live_id = None;
    assert!(on_frame(&mut lone, &f, None, None, 1, 12, 0).is_empty());
}

#[test]
fn repeated_call_signals_still_reach_the_interface() {
    let mut n = node();
    let first = on_frame(&mut n, &Frame::Rtc, None, Some("ws://10.0.0.7:7340"), 1, 5, 0);
    assert_eq!(
        first,
        vec![Action::EmitRtc, Action::Forward(strings(&["relay", "relay:b", "ws://10.0.0.8:7340"]))]
    );
    let again = on_frame(&mut n, &Frame::Rtc, None, Some("ws://10.0.0.7:7340"), 1, 5, 0);
    assert_eq!(again, vec![Action::EmitRtc]);
}

#[test]
fn own_chat_echo_is_dropped() {
    let mut n = node();
    let wire = WireMessage {
        kind: s("chat"),
        sender: s("me"),
        nonce: s("00"),
        ciphertext: s("00"),
        signature: s("00"),
        community_id: s("cid"),
    };
    assert!(on_frame(&mut n, &Frame::Chat { wire }, Some("cid"), Some("relay"), 1, 1, 0).is_empty());
    let bad = WireMessage {
        kind: s("chat"),
        sender: s("bb"),
        nonce: s("zz"),
        ciphertext: s("00"),
        signature: s("00"),
        community_id: s("cid"),
    };
    assert!(on_frame(&mut n, &Frame::Chat { wire: bad }, Some("cid"), Some("relay"), 1, 2, 0).is_empty());
}

#[test]
fn an_opened_chat_is_stored_and_passed_on() {
    let mut n = node();
    let plain = ChatPlain { channel: s("general"), text: s("oi"), ts: 99 };
    let acts = on_chat_plain(&mut n, "bb", &plain, Some("ws://10.0.0.8:7340"), 500);
    assert_eq!(
        acts,
        vec![
            Action::Store(UiMessage {
                sender: s("bb"),
                text: s("oi"),
                ts: 99,
                channel: s("general"),
                is_self: false,
                community_id: s("cid"),
            }),
            Action::Forward(strings(&["ws://10.0.0.7:7340", "relay", "relay:b"])),
        ]
    );
    assert_eq!(n.presence.last_seen, vec![(s("bb"), 500)]);
}

#[test]
fn hello_from_a_member_is_answered() {
    let mut n = node();
    let hello = Frame::Hello {
        community_id: s("cid"),
        listen_url: s("ws://10.0.0.9:7340"),
        listen_urls: strings(&["ws://127.0.0.1:7340", "ws://10.0.0.9:7340"]),
        history_count: 10,
        presence: presence_of("bb", Some("online")),
    };
    let acts = on_frame(&mut n, &hello, Some("cid"), Some("pending:0"), 1, 1, 100);
    assert_eq!(acts[0], Action::Rekey(s("ws://10.0.0.9:7340")));
    assert!(acts.contains(&Action::SeedPeer(s("bb"), 10)));
    assert!(acts.contains(&Action::RequestHistory));
    assert!(acts.contains(&Action::SendPresenceState));
    assert_eq!(n.known_peer_urls, strings(&["ws://10.0.0.9:7340"]));
    assert!(n.link_pks.contains(&(s("ws://10.0.0.9:7340"), s("bb"))));
    let mut other = node();
    let stranger = Frame::Hello {
        community_id: s("elsewhere"),
        listen_url: s("ws://10.0.0.9:7340"),
        listen_urls: vec![],
        history_count: 0,
        presence: presence_of("bb", None),
    };
    assert!(on_frame(&mut other, &stranger, None, None, 1, 1, 100).is_empty());
}

#[test]
fn shard_frames_for_others_are_passed_on() {
    let mut n = node();
    let f = Frame::ShardNeed { to: s("cc"), public_key: s("bb"), blob_id: s("blob"), indices: vec![1] };
    let acts = on_frame(&mut n, &f, None, Some("relay"), 1, 1, 0);
    assert_eq!(acts, vec![Action::Forward(strings(&["ws://10.0.0.7:7340", "ws://10.0.0.8:7340"]))]);
    let mine = Frame::ShardNeed { to: s("me"), public_key: s("bb"), blob_id: s("blob"), indices: vec![1, 4] };
    let acts = on_frame(&mut n, &mine, None, Some("relay"), 1, 2, 0);
    assert_eq!(acts, vec![Action::PushShards(s("bb"), s("blob"), vec![1, 4])]);
}

#[test]
fn a_pushed_shard_is_stored_and_acknowledged() {
    let mut n = node();
    let f = Frame::ShardPush { to: s("me"), blob_id: s("blob"), from: s("bb"), index: 2, data: s("AQID") };
    let acts = on_frame(&mut n, &f, None, Some("ws://10.0.0.7:7340"), 1, 1, 0);
    assert_eq!(
        acts,
        vec![
            Action::StoreShard(s("blob"), 2, vec![1, 2, 3]),
            Action::Ack(s("blob"), 2, s("bb"), false),
            Action::RefreshArchive,
            Action::EmitState,
            Action::AdvertiseShards,
        ]
    );
    assert_eq!(n.shard_inventory, vec![(s("bb"), (s("blob"), vec![2]))]);
    let bad = Frame::ShardPush { to: s(""), blob_id: s("blob"), from: s("bb"), index: 6, data: s("AQID") };
    assert!(on_frame(&mut n, &bad, None, None, 1, 2, 0).is_empty());
}

#[test]
fn a_handoff_ack_ends_the_wait() {
    let mut n = node();
    n.handoff_wait = Some((s("blob"), s("bb")));
    let other = Frame::ShardAck { to: s("me"), blob_id: s("blob"), from: s("cc") };
    assert!(on_frame(&mut n, &other, None, None, 1, 1, 0).is_empty());
    assert!(n.handoff_wait.is_some());
    let ack = Frame::ShardAck { to: s("me"), blob_id: s("blob"), from: s("bb") };
    assert!(on_frame(&mut n, &ack, None, None, 1, 2, 0).is_empty());
    assert!(n.handoff_wait.is_none());
}

#[test]
fn history_keeps_messages_with_sender_and_text() {
    let mut n = node();
    let items = vec![
        HistoryItem { sender: s("me"), text: s("hi"), ts: 1, channel: s("general") },
        HistoryItem { sender: s(""), text: s("lost"), ts: 2, channel: s("general") },
        HistoryItem { sender: s("bb"), text: s(""), ts: 3, channel: s("general") },
    ];
    let acts = on_frame(&mut n, &Frame::History { messages: Some(items) }, None, None, 1, 1, 0);
    let expected = UiMessage {
        sender: s("me"),
        text: s("hi"),
        ts: 1,
        channel: s("general"),
        is_self: true,
        community_id: s("cid"),
    };
    assert_eq!(acts, vec![Action::MergeHistory(vec![expected]), Action::RefreshArchive, Action::EmitState]);
}

#[test]
fn relay_offline_for_a_peer_just_heard_is_ignored() {
    let mut n = node();
    n.presence.last_seen.push((s("bb"), 1_000));
    let f = Frame::Presence { presence: presence_of("bb", Some("offline")) };
    assert!(on_frame(&mut n, &f, None, Some("relay"), 1, 1, 2_000).is_empty());
    let acts = on_frame(&mut n, &f, None, Some("ws://10.0.0.7:7340"), 1, 2, 2_000);
    assert_eq!(acts[0], Action::ForgetShards(s("bb")));
}
