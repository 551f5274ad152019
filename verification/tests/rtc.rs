use chaincord::rtc::{
    forward_peers, linear_to_ulaw, mix_ulaw_frame, parse_usize_str, polite, slot_peer,
    take_mix_frame, ulaw_to_linear, video_is_screen, wanted_peers, MixBuf, FRAME_SAMPLES,
};
use chaincord::rtc::{bye_is_stale, next_last_sig, note_signal, offer_taken, rtc_frame_accepted};
use chaincord::rtc::{rtp_append, rtp_boundary, MAX_VIDEO_FRAME};

#[test]
fn camera_mid_is_not_screen() {
    assert!(!video_is_screen(Some("1"), "chaincord", "cam"));
    assert!(!video_is_screen(None, "chaincord", "cam"));
    assert!(!video_is_screen(Some("0"), "chaincord", "cam"));
}

#[test]
fn second_video_mid_or_name_is_screen() {
    assert!(video_is_screen(Some("2"), "chaincord", "screen"));
    assert!(video_is_screen(Some("5"), "chaincord", "v1"));
    assert!(!video_is_screen(Some("4"), "chaincord", "v0"));
    assert!(video_is_screen(Some("1"), "screen-share", "track"));
    assert!(video_is_screen(None, "chaincord", "display"));
    assert!(!video_is_screen(Some("1"), "chaincord", "v0"));
}

#[test]
fn mix_adds_two_talkers_instead_of_concatenating() {
    let mut buf = MixBuf {
        acc: [0; FRAME_SAMPLES],
    };
    mix_ulaw_frame(&mut buf, &[linear_to_ulaw(1000); FRAME_SAMPLES]);
    mix_ulaw_frame(&mut buf, &[linear_to_ulaw(1000); FRAME_SAMPLES]);
    let frame = take_mix_frame(&mut buf);
    assert!(frame[0] > 1000);
    assert_eq!(buf.acc[0], 0);
}

#[test]
fn star_leaves_only_dial_the_hub() {
    let others = vec!["bb".into(), "cc".into()];
    assert_eq!(wanted_peers("aa", &others, Some("aa")), others);
    assert_eq!(wanted_peers("bb", &others, Some("aa")), vec!["aa".to_string()]);
    assert_eq!(forward_peers("aa", "bb", "aa", &others), vec!["cc".to_string()]);
    assert_eq!(slot_peer(4, "aa", &["cc".into()]), "cc");
}

#[test]
fn mu_law_known_values() {
    assert_eq!(linear_to_ulaw(0), 0xFF);
    assert_eq!(linear_to_ulaw(-1), 0x7F);
    assert_eq!(linear_to_ulaw(i16::MAX), 0x80);
    assert_eq!(linear_to_ulaw(i16::MIN), 0x00);
    assert_eq!(ulaw_to_linear(0xFF), 0);
    assert_eq!(ulaw_to_linear(0x7F), 0);
    assert_eq!(ulaw_to_linear(0x80), 32124);
    assert_eq!(ulaw_to_linear(0x00), -32124);
    for u in 0..=255u8 {
        if u != 0x7F {
            assert_eq!(linear_to_ulaw(ulaw_to_linear(u)), u);
        }
    }
}

#[test]
fn mixer_saturates_and_clamps() {
    let mut buf = MixBuf { acc: [0; FRAME_SAMPLES] };
    buf.acc[0] = i32::MAX - 10;
    buf.acc[1] = 40000;
    mix_ulaw_frame(&mut buf, &[0x80, 0xFF]);
    assert_eq!(buf.acc[0], i32::MAX);
    assert_eq!(buf.acc[1], 40000);
    assert_eq!(buf.acc[2], 0);
    let frame = take_mix_frame(&mut buf);
    assert_eq!(frame[0], i16::MAX);
    assert_eq!(frame[1], i16::MAX);
    assert!(buf.acc.iter().all(|&a| a == 0));
}

#[test]
fn call_topology_details() {
    assert!(polite("bb", "aa"));
    assert!(!polite("aa", "bb"));
    let one = vec!["bb".to_string()];
    assert_eq!(wanted_peers("cc", &one, Some("bb")), one);
    let others = vec!["bb".to_string(), "dd".to_string()];
    assert_eq!(wanted_peers("cc", &others, Some("zz")), vec!["zz".to_string()]);
    assert_eq!(wanted_peers("cc", &others, None), others);
    assert_eq!(
        forward_peers("hub", "r", "hub", &["r".into(), "".into(), "b".into(), "a".into(), "b".into()]),
        vec!["a".to_string(), "b".to_string()]
    );
    assert_eq!(slot_peer(2, "aa", &["cc".into()]), "aa");
    assert_eq!(slot_peer(9, "aa", &["cc".into()]), "aa");
}

#[test]
fn parse_usize_matches_std() {
    for s in ["0", "+7", "12", "", "+", "-1", "1a", " 1", "18446744073709551615", "18446744073709551616"] {
        assert_eq!(parse_usize_str(s), s.parse::<usize>().ok(), "{s}");
    }
    assert!(video_is_screen(Some("+8"), "x", "y"));
    assert!(video_is_screen(None, "My DISPLAY", "y"));
}

#[test]
fn call_others_skip_me_and_blanks() {
    let peers = vec!["b".to_string(), "".to_string(), "me".to_string(), "a".to_string()];
    assert_eq!(
        chaincord::rtc::call_others("me", &peers),
        vec!["b".to_string(), "a".to_string()]
    );
}

#[test]
fn call_hub_needs_two_others() {
    let two = vec!["a".to_string(), "b".to_string()];
    let one = vec!["a".to_string()];
    assert_eq!(chaincord::rtc::call_hub(&two, Some("h".to_string())), Some("h".to_string()));
    assert_eq!(chaincord::rtc::call_hub(&one, Some("h".to_string())), None);
    assert_eq!(chaincord::rtc::call_hub(&two, None), None);
}

#[test]
fn links_not_wanted_are_dropped() {
    let existing = vec!["a".to_string(), "b".to_string(), "c".to_string()];
    let want = vec!["b".to_string()];
    assert_eq!(
        chaincord::rtc::links_to_drop(&existing, &want),
        vec!["a".to_string(), "c".to_string()]
    );
}

#[test]
fn link_extras_only_through_a_hub() {
    let others = vec!["a".to_string(), "b".to_string(), "h".to_string()];
    assert!(chaincord::rtc::link_extras(None, "a", "h", &others).is_empty());
    assert!(chaincord::rtc::link_extras(Some("h"), "a", "h", &others[..1]).is_empty());
    assert_eq!(
        chaincord::rtc::link_extras(Some("h"), "a", "h", &others),
        vec!["b".to_string()]
    );
}

#[test]
fn signaling_frames_reach_only_their_member() {
    assert!(rtc_frame_accepted("r", "me", None, 1, "r", "a", "me"));
    assert!(!rtc_frame_accepted("r", "me", None, 1, "x", "a", "me"));
    assert!(!rtc_frame_accepted("r", "me", None, 1, "r", "me", "me"));
    assert!(!rtc_frame_accepted("r", "me", None, 1, "r", "a", "b"));
    // In a star a leaf hears the hub alone.
    assert!(!rtc_frame_accepted("r", "me", Some("h"), 2, "r", "a", "me"));
    assert!(rtc_frame_accepted("r", "me", Some("h"), 2, "r", "h", "me"));
    // The hub hears everyone; with one other there is no star.
    assert!(rtc_frame_accepted("r", "h", Some("h"), 2, "r", "a", "h"));
    assert!(rtc_frame_accepted("r", "me", Some("h"), 1, "r", "a", "me"));
}

#[test]
fn stale_byes_are_ignored() {
    assert!(bye_is_stale(0, 0, Some("s1"), Some("s2")));
    assert!(!bye_is_stale(0, 0, Some("s1"), Some("s1")));
    assert!(bye_is_stale(5, 9, None, None));
    assert!(!bye_is_stale(9, 5, None, None));
    assert!(!bye_is_stale(0, 9, None, Some("s")));
}

#[test]
fn colliding_offers_go_to_the_polite_side() {
    assert!(offer_taken(false, "a", "b", true));
    assert!(!offer_taken(false, "a", "b", false));
    assert!(!offer_taken(true, "a", "b", true));
    assert!(offer_taken(true, "b", "a", true));
}

#[test]
fn signal_times_only_move_forward() {
    assert_eq!(next_last_sig(5, 9), 9);
    assert_eq!(next_last_sig(9, 5), 9);
    let mut sig: Vec<(String, i64)> = Vec::new();
    let mut sess: Vec<(String, String)> = Vec::new();
    note_signal(&mut sig, &mut sess, "a", Some("s1"), Some(10));
    note_signal(&mut sig, &mut sess, "a", None, Some(4));
    note_signal(&mut sig, &mut sess, "b", Some("s2"), Some(-3));
    assert_eq!(sig, vec![("a".to_string(), 10), ("b".to_string(), 0)]);
    assert_eq!(sess, vec![("a".to_string(), "s1".to_string()), ("b".to_string(), "s2".to_string())]);
}

#[test]
fn rtp_packets_make_frames_on_marker_and_timestamp_change() {
    let mut acc: Vec<u8> = Vec::new();
    let mut last: Option<u32> = None;
    assert_eq!(rtp_boundary(&mut acc, &mut last, 10), None);
    assert_eq!(rtp_append(&mut acc, &[1, 2], false), None);
    assert_eq!(rtp_boundary(&mut acc, &mut last, 10), None);
    assert_eq!(rtp_append(&mut acc, &[3], true), Some(vec![1, 2, 3]));
    assert!(acc.is_empty());
    assert_eq!(rtp_append(&mut acc, &[4], false), None);
    assert_eq!(rtp_boundary(&mut acc, &mut last, 11), Some(vec![4]));
    assert_eq!(last, Some(11));
    let big = vec![0u8; MAX_VIDEO_FRAME + 1];
    assert_eq!(rtp_append(&mut acc, &big, false), None);
    assert!(acc.is_empty());
}
