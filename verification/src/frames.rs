//! What a node does with each frame a peer sends it: which state it
//! changes, which frames it passes on (and to which links), and what it
//! asks of the runtime around it (acknowledgements, history requests,
//! dials, stored messages, UI updates).
use vstd::prelude::*;
use crate::crypto::{open_chat, opened_body, ChatPlain, WireMessage};
use crate::dial::{hello_dial_urls, hello_urls, is_relay_key, relay_key, unique_trimmed};
use crate::erasure::{indices_to_pull, shard_bytes};
use crate::keyed::{keyed_set, keyed_view, keys_unique};
use crate::node::{bytes_sorted, handoff_acked, note_pushed_shard, note_seen, remember_link_pk, seen_after};
use crate::peer::{
    apply_layout, apply_presence, apply_voice_action, ignore_relay_offline, merge_voice_rooms,
    merged_names, presence_applied, rooms_view, says_offline, touch_seen, urls_without_loopback,
    voice_action_applied, voice_is_busy, voice_merged, within, without_loopback, Presence, PresenceFrame,
    RELAY_OFFLINE_GRACE_MS,
};
use crate::relay::strings_view;
use crate::text::str_eq;
use crate::ui::UiMessage;

verus! {

/// What a node keeps that frames from peers read or change.
pub struct NodeState {
    /// The generation of the current set of links; frames of an older one
    /// are dropped.
    pub link_gen: u64,
    /// The live community's id and chat key, if the node has joined one.
    pub live_id: Option<String>,
    pub live_key: String,
    /// This node's own listen URLs and port.
    pub listen_url: String,
    pub listen_urls: Vec<String>,
    pub listen_port: u16,
    /// Who is there (the node's own key is `presence.me`).
    pub presence: Presence,
    pub text_channels: Vec<String>,
    pub call_rooms: Vec<String>,
    /// Peer URLs learned so far.
    pub known_peer_urls: Vec<String>,
    /// The keys of the open links (a URL, `relay`/`relay:...`, or a
    /// pending dial).
    pub links: Vec<String>,
    /// The public key heard on each direct link.
    pub link_pks: Vec<(String, String)>,
    /// Hashes of the frames seen lately.
    pub seen: Vec<u64>,
    /// The shards each peer says it holds: archive id and indices.
    pub shard_inventory: Vec<(String, (String, Vec<u8>))>,
    /// A hand-off waiting for its acknowledgement: archive id and peer.
    pub handoff_wait: Option<(String, String)>,
    /// How many messages this node's archive holds.
    pub archive_messages: u32,
    /// The archive this node holds shards of, and their indices.
    pub held_blob: String,
    pub held: Vec<u8>,
}

/// One message of a history frame.
pub struct HistoryItem {
    pub sender: String,
    pub text: String,
    pub ts: i64,
    pub channel: String,
}

/// A frame from a peer, by kind, with the fields each kind reads.
pub enum Frame {
    Hello { community_id: String, listen_url: String, listen_urls: Vec<String>, history_count: u64, presence: PresenceFrame },
    HistoryRequest { public_key: String, history_count: u64 },
    Peers { urls: Vec<String> },
    Chat { wire: WireMessage },
    Layout { text_channels: Vec<String>, call_rooms: Vec<String> },
    VoiceState { public_key: String, rooms: Option<Vec<(String, Vec<String>)>> },
    Voice { room: String, action: String, public_key: String },
    Presence { presence: PresenceFrame },
    PresenceState { people: Option<Vec<PresenceFrame>> },
    Rtc,
    History { messages: Option<Vec<HistoryItem>> },
    ShardPush { to: String, blob_id: String, from: String, index: u64, data: String },
    ShardHandoff { to: String, blob_id: String, from: String, holders: Vec<String> },
    ShardAck { to: String, blob_id: String, from: String },
    ShardHave { public_key: String, blob_id: String, indices: Vec<u8> },
    ShardNeed { to: String, public_key: String, blob_id: String, indices: Vec<u8> },
    Other,
}

/// What the runtime is asked to do after a frame.
#[derive(Debug, PartialEq, Eq)]
pub enum Action {
    /// Pass the frame on, as it came, to these links.
    Forward(Vec<String>),
    /// Show the new state in the interface.
    EmitState,
    /// Store the session (channels, rooms, profiles).
    PersistSession,
    /// Send this node's layout, voice roster, presence, or presence of
    /// everyone, to every link.
    SendLayout,
    SendVoice,
    SendPresence,
    SendPresenceState,
    /// The link the frame came on is known from now on by this URL.
    Rekey(String),
    /// Ask the link the frame came on for the chat history.
    RequestHistory,
    /// Offer the archive to a peer that holds this many messages.
    SeedPeer(String, u32),
    AdvertiseShards,
    ReconcileShards,
    RefreshArchive,
    RepairShards,
    /// Dial these URLs.
    Dial(Vec<String>),
    /// A chat body opened with the live key, from this sender, to be read.
    OpenedChat(String, Vec<u8>),
    /// Show and store a chat message.
    Store(UiMessage),
    /// Show and store those of these history messages not stored yet.
    MergeHistory(Vec<UiMessage>),
    /// Hand a call-signalling frame to the interface.
    EmitRtc,
    /// Forget the shards a peer held.
    ForgetShards(String),
    /// Store a shard: archive id, index, bytes.
    StoreShard(String, u8, Vec<u8>),
    /// Record an archive's holders.
    SetHolders(String, Vec<String>),
    /// Acknowledge a shard (archive id, index) to a peer, or to every link
    /// when the peer is not named; `true` for a whole hand-off.
    Ack(String, u8, String, bool),
    /// Ask a peer for shards of an archive.
    RequestShards(String, String, Vec<u8>),
    /// Send a peer shards of an archive.
    PushShards(String, String, Vec<u8>),
}

/// A chat message as plain values: sender, text, time, channel, whether
/// this node wrote it, community.
pub type MessageV = (Seq<char>, Seq<char>, i64, Seq<char>, bool, Seq<char>);

/// An action as plain values.
pub enum ActionV {
    Forward(Seq<Seq<char>>),
    EmitState,
    PersistSession,
    SendLayout,
    SendVoice,
    SendPresence,
    SendPresenceState,
    Rekey(Seq<char>),
    RequestHistory,
    SeedPeer(Seq<char>, u32),
    AdvertiseShards,
    ReconcileShards,
    RefreshArchive,
    RepairShards,
    Dial(Seq<Seq<char>>),
    OpenedChat(Seq<char>, Seq<u8>),
    Store(MessageV),
    MergeHistory(Seq<MessageV>),
    EmitRtc,
    ForgetShards(Seq<char>),
    StoreShard(Seq<char>, u8, Seq<u8>),
    SetHolders(Seq<char>, Seq<Seq<char>>),
    Ack(Seq<char>, u8, Seq<char>, bool),
    RequestShards(Seq<char>, Seq<char>, Seq<u8>),
    PushShards(Seq<char>, Seq<char>, Seq<u8>),
}

pub open spec fn message_view(m: UiMessage) -> MessageV {
    (m.sender@, m.text@, m.ts, m.channel@, m.is_self, m.community_id@)
}

pub open spec fn action_view(a: Action) -> ActionV {
    match a {
        Action::Forward(v) => ActionV::Forward(strings_view(v@)),
        Action::EmitState => ActionV::EmitState,
        Action::PersistSession => ActionV::PersistSession,
        Action::SendLayout => ActionV::SendLayout,
        Action::SendVoice => ActionV::SendVoice,
        Action::SendPresence => ActionV::SendPresence,
        Action::SendPresenceState => ActionV::SendPresenceState,
        Action::Rekey(u) => ActionV::Rekey(u@),
        Action::RequestHistory => ActionV::RequestHistory,
        Action::SeedPeer(pk, n) => ActionV::SeedPeer(pk@, n),
        Action::AdvertiseShards => ActionV::AdvertiseShards,
        Action::ReconcileShards => ActionV::ReconcileShards,
        Action::RefreshArchive => ActionV::RefreshArchive,
        Action::RepairShards => ActionV::RepairShards,
        Action::Dial(v) => ActionV::Dial(strings_view(v@)),
        Action::OpenedChat(s, b) => ActionV::OpenedChat(s@, b@),
        Action::Store(m) => ActionV::Store(message_view(m)),
        Action::MergeHistory(v) => ActionV::MergeHistory(v@.map_values(|m: UiMessage| message_view(m))),
        Action::EmitRtc => ActionV::EmitRtc,
        Action::ForgetShards(pk) => ActionV::ForgetShards(pk@),
        Action::StoreShard(b, i, d) => ActionV::StoreShard(b@, i, d@),
        Action::SetHolders(b, h) => ActionV::SetHolders(b@, strings_view(h@)),
        Action::Ack(b, i, to, h) => ActionV::Ack(b@, i, to@, h),
        Action::RequestShards(pk, b, v) => ActionV::RequestShards(pk@, b@, v@),
        Action::PushShards(pk, b, v) => ActionV::PushShards(pk@, b@, v@),
    }
}

/// A list of actions as plain values.
pub open spec fn actions_view(s: Seq<Action>) -> Seq<ActionV> {
    s.map_values(|a: Action| action_view(a))
}

/// The text of an optional string.
pub open spec fn opt_view(s: Option<&str>) -> Option<Seq<char>> {
    match s {
        Some(x) => Some(x@),
        None => None,
    }
}

// ---------------------------------------------------------------------------
// Passing frames on
// ---------------------------------------------------------------------------
/// Whether a frame that came on link `from` goes on to link `k`: not back
/// to its origin, and never from a relay to a relay.
pub open spec fn goes_to(k: Seq<char>, from: Option<Seq<char>>) -> bool {
    match from {
        None => true,
        Some(f) => k != f && !(relay_key(f) && relay_key(k)),
    }
}

/// The links a frame from `from` goes on to, in order.
pub open spec fn forwards(links: Seq<Seq<char>>, from: Option<Seq<char>>) -> Seq<Seq<char>>
    decreases links.len(),
{
    if links.len() == 0 {
        Seq::empty()
    } else {
        let r = forwards(links.drop_last(), from);
        if goes_to(links.last(), from) {
            r.push(links.last())
        } else {
            r
        }
    }
}

/// The links a frame that came on `from` is passed on to: every link but
/// its origin, and no relay when it came from a relay.
pub fn forward_to(links: &Vec<String>, from: Option<&str>) -> (r: Vec<String>)
    ensures
        strings_view(r@) == forwards(strings_view(links@), opt_view(from)),
{
    let ghost lv = strings_view(links@);
    let from_relay = match from {
        Some(f) => is_relay_key(f),
        None => false,
    };
    let mut out: Vec<String> = Vec::new();
    let mut i: usize = 0;
    while i < links.len()
        invariant
            i <= links.len(),
            lv == strings_view(links@),
            from_relay == (from matches Some(f) && relay_key(f@)),
            strings_view(out@) == forwards(lv.take(i as int), opt_view(from)),
        decreases links.len() - i,
    {
        let k = links[i].as_str();
        let same = match from {
            Some(f) => str_eq(k, f),
            None => false,
        };
        let skip = same || (from_relay && is_relay_key(k));
        assert(lv.take(i + 1).drop_last() =~= lv.take(i as int));
        assert(lv.take(i + 1).last() == k@);
        if !skip {
            let ghost before = strings_view(out@);
            out.push(links[i].clone());
            assert(strings_view(out@) =~= before.push(k@));
        }
        i += 1;
    }
    assert(lv.take(links.len() as int) =~= lv);
    out
}

/// A frame is never passed back to the link it came on, and a frame that
/// came from a relay never goes to a relay; every other link gets it.
pub proof fn law_forward_no_loop(links: Seq<Seq<char>>, from: Option<Seq<char>>)
    ensures
        forall|k: Seq<char>| #[trigger] forwards(links, from).contains(k) <==> (links.contains(k) && goes_to(k, from)),
        from matches Some(f) ==> !forwards(links, from).contains(f),
        from matches Some(f) && relay_key(f) ==> forall|k: Seq<char>| #[trigger] forwards(links, from).contains(k) ==> !relay_key(k),
    decreases links.len(),
{
    if links.len() > 0 {
        law_forward_no_loop(links.drop_last(), from);
        let r = forwards(links.drop_last(), from);
        assert forall|k: Seq<char>| #[trigger] forwards(links, from).contains(k) <==> (links.contains(k) && goes_to(k, from)) by {
            if links.contains(k) && goes_to(k, from) {
                let i = choose|i: int| 0 <= i < links.len() && links[i] == k;
                let fw = forwards(links, from);
                assert(fw == (if goes_to(links.last(), from) { r.push(links.last()) } else { r }));
                if i < links.len() - 1 {
                    assert(links.drop_last()[i] == k);
                    assert(r.contains(k));
                    let m = choose|m: int| 0 <= m < r.len() && r[m] == k;
                    assert(fw[m] == k);
                } else {
                    assert(fw[fw.len() - 1] == k);
                }
                assert(fw.contains(k));
            }
            if forwards(links, from).contains(k) {
                let fw = forwards(links, from);
                assert(fw == (if goes_to(links.last(), from) { r.push(links.last()) } else { r }));
                let i = choose|i: int| 0 <= i < fw.len() && fw[i] == k;
                if goes_to(links.last(), from) && i == r.len() {
                    assert(links[links.len() - 1] == k);
                } else {
                    assert(r[i] == k);
                    assert(r.contains(k));
                    let j = choose|j: int| 0 <= j < links.drop_last().len() && links.drop_last()[j] == k;
                    assert(links[j] == k);
                    assert(goes_to(k, from));
                }
                assert(links.contains(k));
                assert(goes_to(k, from));
            }
        }
    }
}

// ---------------------------------------------------------------------------
// What each kind of frame does
// ---------------------------------------------------------------------------
/// `b` is `a` but for the frames seen.
pub open spec fn unchanged(a: NodeState, b: NodeState) -> bool {
    b == (NodeState { seen: b.seen, ..a })
}

/// The link keys remembered after hearing `pk` on link `url`: a direct,
/// non-empty link and key set the entry, anything else keeps them.
pub open spec fn link_noted(o: Seq<(String, String)>, n: Seq<(String, String)>, url: Option<Seq<char>>, pk: Seq<char>) -> bool {
    if (match url {
        Some(u) => u.len() > 0 && !relay_key(u) && pk.len() > 0,
        None => false,
    }) {
        let u = url.unwrap();
        &&& keyed_view(n).dom() == keyed_view(o).dom().insert(u)
        &&& keyed_view(n)[u]@ == pk
        &&& forall|k: Seq<char>| k != u && #[trigger] keyed_view(o).contains_key(k) ==> keyed_view(n)[k] == keyed_view(o)[k]
    } else {
        n == o
    }
}

/// The inventory after peer `from` pushed shard `index` of archive `blob`.
pub open spec fn shard_noted(
    oi: Seq<(String, (String, Vec<u8>))>,
    ni: Seq<(String, (String, Vec<u8>))>,
    from: Seq<char>,
    blob: Seq<char>,
    index: u8,
) -> bool {
    let o = keyed_view(oi);
    let n = keyed_view(ni);
    if o.contains_key(from) {
        if o[from].0@ == blob && !o[from].1@.contains(index) {
            &&& n.dom() == o.dom()
            &&& n[from].0@ == blob
            &&& n[from].1@.to_multiset() == o[from].1@.push(index).to_multiset()
            &&& bytes_sorted(n[from].1@)
            &&& forall|k: Seq<char>| k != from && #[trigger] o.contains_key(k) ==> n[k] == o[k]
        } else {
            ni == oi
        }
    } else if from.len() > 0 {
        &&& n.dom() == o.dom().insert(from)
        &&& n[from].0@ == blob
        &&& n[from].1@ == seq![index]
        &&& forall|k: Seq<char>| k != from && #[trigger] o.contains_key(k) ==> n[k] == o[k]
    } else {
        ni == oi
    }
}

/// The presence after a peer was heard from: its last-seen time is `now`
/// (nothing changes for an empty key or this node's own).
pub open spec fn seen_touched(a: Presence, b: Presence, pk: Seq<char>, now: i64) -> bool {
    if pk.len() == 0 || pk == a.me@ {
        b == a
    } else {
        &&& keyed_view(b.last_seen@) == keyed_view(a.last_seen@).insert(pk, now)
        &&& b.voice@ == a.voice@
        &&& b.voice_left@ == a.voice_left@
        &&& b.voice_joined@ == a.voice_joined@
        &&& b.profiles@ == a.profiles@
        &&& crate::peer::same_self(b, a)
    }
}

/// Each presence frame of `ps` leads from one presence of `chain` to the
/// next, as a snapshot.
pub open spec fn presence_chain(chain: Seq<Presence>, ps: Seq<PresenceFrame>, now: i64) -> bool {
    &&& chain.len() == ps.len() + 1
    &&& forall|j: int| 0 <= j < ps.len() ==> presence_applied(#[trigger] chain[j], chain[j + 1], ps[j], true, now)
}

/// Presence frames taken in one after the other, as a snapshot, lead from
/// `a` to `b`.
pub open spec fn presences_applied(a: Presence, b: Presence, ps: Seq<PresenceFrame>, now: i64) -> bool {
    exists|chain: Seq<Presence>| #[trigger] presence_chain(chain, ps, now) && chain[0] == a && chain.last() == b
}

/// Whether a frame addressed `to` is for node `a`.
pub open spec fn for_me(a: NodeState, to: Seq<char>) -> bool {
    to.len() == 0 || to == a.presence.me@
}

/// The forwarding action for a frame from `from`.
pub open spec fn forward_of(a: NodeState, from: Option<Seq<char>>) -> ActionV {
    ActionV::Forward(forwards(strings_view(a.links@), from))
}

/// `dst` with each URL of `incoming` added unless it is there already.
pub open spec fn with_urls(dst: Seq<Seq<char>>, incoming: Seq<Seq<char>>) -> Seq<Seq<char>>
    decreases incoming.len(),
{
    if incoming.len() == 0 {
        dst
    } else {
        let before = with_urls(dst, incoming.drop_last());
        if before.contains(incoming.last()) {
            before
        } else {
            before.push(incoming.last())
        }
    }
}

/// The URLs a hello adds to those known: its listen URL (when it has one)
/// and its other URLs that are not loopback.
pub open spec fn hello_known(listen: Seq<char>, urls: Seq<Seq<char>>) -> Seq<Seq<char>> {
    (if listen.len() > 0 { seq![listen] } else { Seq::empty() }) + without_loopback(urls)
}

/// A hello from a member of the live community: its URLs become known,
/// its presence is taken in, its key is noted for the link it came on and
/// for its listen URL; the link is re-keyed by the listen URL (unless it is
/// a relay link); the node's state is shown, stored and sent to every
/// link; the peer is offered the archive and asked for the history when it
/// holds more; the URLs worth dialing are dialed.
pub open spec fn hello_handled(
    a: NodeState,
    b: NodeState,
    community_id: Seq<char>,
    listen: Seq<char>,
    urls: Seq<Seq<char>>,
    history_count: u64,
    p: PresenceFrame,
    from: Option<Seq<char>>,
    now: i64,
    acts: Seq<ActionV>,
) -> bool {
    if a.live_id matches Some(id) && id@ == community_id {
        let pk = p.public_key@;
        let their = #[verifier::truncate] (history_count as u32);
        let from_direct = !relay_key(
            match from {
                Some(f) => f,
                None => Seq::empty(),
            },
        );
        &&& strings_view(b.known_peer_urls@) == with_urls(strings_view(a.known_peer_urls@), hello_known(listen, urls))
        &&& presence_applied(a.presence, b.presence, p, false, now)
        &&& exists|mid: Seq<(String, String)>| #[trigger]
            link_noted(a.link_pks@, mid, from, pk) && link_noted(
                mid,
                b.link_pks@,
                if listen.len() > 0 {
                    Some(listen)
                } else {
                    None
                },
                pk,
            )
        &&& b == (NodeState {
            seen: b.seen,
            known_peer_urls: b.known_peer_urls,
            presence: b.presence,
            link_pks: b.link_pks,
            ..a
        })
        &&& acts == (if from_direct && listen.len() > 0 && from != Some(listen) {
            seq![ActionV::Rekey(listen)]
        } else {
            Seq::empty()
        }) + seq![ActionV::EmitState, ActionV::PersistSession, ActionV::SendLayout] + (if exists|room: Seq<char>|
            #[trigger] crate::peer::roster_view(b.presence.voice@).contains_key(room) && crate::peer::roster_view(
                b.presence.voice@,
            )[room] != Set::<Seq<char>>::empty() {
            seq![ActionV::SendVoice]
        } else {
            Seq::empty()
        }) + seq![
            ActionV::SendPresence,
            ActionV::SendPresenceState,
            ActionV::SeedPeer(pk, their),
            ActionV::AdvertiseShards,
            ActionV::ReconcileShards,
        ] + (if their > a.archive_messages {
            seq![ActionV::RequestHistory]
        } else {
            Seq::empty()
        }) + seq![
            ActionV::Dial(
                hello_urls(
                    a.listen_url@,
                    strings_view(a.listen_urls@),
                    a.listen_port,
                    unique_trimmed(seq![listen] + urls),
                ),
            ),
        ]
    } else {
        unchanged(a, b) && acts.len() == 0
    }
}

/// The history messages worth offering to the store: those with a sender
/// and a text, in order, marked as this node's own when `me` sent them,
/// in community `id`.
pub open spec fn history_candidates(items: Seq<HistoryItem>, me: Seq<char>, id: Seq<char>) -> Seq<MessageV>
    decreases items.len(),
{
    if items.len() == 0 {
        Seq::empty()
    } else {
        let r = history_candidates(items.drop_last(), me, id);
        let it = items.last();
        if it.sender@.len() == 0 || it.text@.len() == 0 {
            r
        } else {
            r.push((it.sender@, it.text@, it.ts, it.channel@, it.sender@ == me, id))
        }
    }
}

/// The shards of archive `blob` a node holding `held` of archive
/// `held_blob` asks for from a peer that holds `theirs`: those the peer
/// holds and it lacks, when it holds nothing or the same archive.
pub open spec fn shards_to_pull(held_blob: Seq<char>, held: Seq<u8>, blob: Seq<char>, theirs: Seq<u8>) -> Seq<u8> {
    if held_blob == blob || held_blob.len() == 0 {
        shard_bytes().filter(|i: u8| theirs.contains(i) && !held.contains(i))
    } else {
        Seq::empty()
    }
}

/// What a frame of each kind does to node `a` (frames seen aside), given
/// that it passed the checks every frame goes through.
pub open spec fn kind_handled(
    a: NodeState,
    b: NodeState,
    frame: Frame,
    from: Option<Seq<char>>,
    dup: bool,
    now: i64,
    acts: Seq<ActionV>,
) -> bool {
    let me = a.presence.me@;
    let fwd = forward_of(a, from);
    match frame {
        Frame::Hello { community_id, listen_url, listen_urls, history_count, presence } => hello_handled(
            a,
            b,
            community_id@,
            listen_url@,
            strings_view(listen_urls@),
            history_count,
            presence,
            from,
            now,
            acts,
        ),
        Frame::HistoryRequest { public_key, history_count } => unchanged(a, b) && acts == seq![
            ActionV::SeedPeer(public_key@, history_count as u32),
        ],
        Frame::Peers { urls } => unchanged(a, b) && acts == seq![ActionV::Dial(without_loopback(strings_view(urls@)))],
        Frame::Chat { wire } => unchanged(a, b) && acts == (if wire.sender@ == me {
            Seq::empty()
        } else {
            match opened_body(a.live_key@, wire) {
                Some(body) => seq![ActionV::OpenedChat(wire.sender@, body)],
                None => Seq::empty(),
            }
        }),
        Frame::Layout { text_channels, call_rooms } => {
            let merged = merged_names(strings_view(a.text_channels@), strings_view(text_channels@));
            &&& strings_view(b.text_channels@) == (if merged.contains("general"@) {
                merged
            } else {
                seq!["general"@] + merged
            })
            &&& strings_view(b.call_rooms@) == merged_names(strings_view(a.call_rooms@), strings_view(call_rooms@))
            &&& b == (NodeState { seen: b.seen, text_channels: b.text_channels, call_rooms: b.call_rooms, ..a })
            &&& acts == seq![ActionV::EmitState, ActionV::PersistSession, fwd]
        },
        Frame::VoiceState { public_key, rooms } => {
            &&& (match rooms {
                Some(r) => voice_merged(a.presence, b.presence, rooms_view(r@), public_key@, now),
                None => b.presence == a.presence,
            })
            &&& b == (NodeState { seen: b.seen, presence: b.presence, ..a })
            &&& acts == seq![ActionV::EmitState, fwd]
        },
        Frame::Voice { room, action, public_key } => {
            &&& exists|mid: Presence| #[trigger]
                voice_action_applied(a.presence, mid, room@, action@, public_key@, now) && (if action@ == "join"@ {
                    seen_touched(mid, b.presence, public_key@, now)
                } else {
                    b.presence == mid
                })
            &&& b == (NodeState { seen: b.seen, presence: b.presence, ..a })
            &&& acts == seq![ActionV::EmitState, fwd] + (if action@ == "join"@ || action@ == "leave"@ {
                seq![ActionV::SendVoice]
            } else {
                Seq::empty()
            })
        },
        Frame::Presence { presence } => {
            let pk = presence.public_key@;
            let from_relay = from matches Some(f) && relay_key(f);
            if from_relay && says_offline(presence) && pk.len() > 0 && within(
                keyed_view(a.presence.last_seen@),
                pk,
                now,
                RELAY_OFFLINE_GRACE_MS as int,
            ) {
                unchanged(a, b) && acts.len() == 0
            } else {
                &&& presence_applied(a.presence, b.presence, presence, false, now)
                &&& b == (NodeState { seen: b.seen, presence: b.presence, ..a })
                &&& acts == (if says_offline(presence) && pk.len() > 0 {
                    seq![ActionV::ForgetShards(pk)]
                } else {
                    Seq::empty()
                }) + seq![ActionV::EmitState, ActionV::PersistSession, fwd]
            }
        },
        Frame::PresenceState { people } => {
            &&& (match people {
                Some(ps) => presences_applied(a.presence, b.presence, ps@, now),
                None => b.presence == a.presence,
            })
            &&& b == (NodeState { seen: b.seen, presence: b.presence, ..a })
            &&& acts == seq![ActionV::EmitState, ActionV::PersistSession, fwd]
        },
        Frame::Rtc => unchanged(a, b) && acts == seq![ActionV::EmitRtc] + (if dup {
            Seq::empty()
        } else {
            seq![fwd]
        }),
        Frame::History { messages } => unchanged(a, b) && acts == (match messages {
            Some(items) => seq![
                ActionV::MergeHistory(history_candidates(items@, me, a.live_id.unwrap()@)),
                ActionV::RefreshArchive,
                ActionV::EmitState,
            ],
            None => Seq::empty(),
        }),
        Frame::ShardPush { to, blob_id, from: sender, index, data } => {
            let i = index as u8;
            if !for_me(a, to@) {
                unchanged(a, b) && acts == seq![fwd]
            } else if crate::crypto::b64_std_decoded(data@) is None || blob_id@.len() == 0 || i >= 6 {
                unchanged(a, b) && acts.len() == 0
            } else {
                &&& shard_noted(a.shard_inventory@, b.shard_inventory@, sender@, blob_id@, i)
                &&& b == (NodeState { seen: b.seen, shard_inventory: b.shard_inventory, ..a })
                &&& acts == seq![
                    ActionV::StoreShard(blob_id@, i, crate::crypto::b64_std_decoded(data@).unwrap()),
                    ActionV::Ack(blob_id@, i, sender@, false),
                    ActionV::RefreshArchive,
                    ActionV::EmitState,
                    ActionV::AdvertiseShards,
                ]
            }
        },
        Frame::ShardHandoff { to, blob_id, from: sender, holders } => unchanged(a, b) && acts == (if !for_me(a, to@) {
            seq![fwd]
        } else {
            (if blob_id@.len() > 0 && holders@.len() > 0 {
                seq![ActionV::SetHolders(blob_id@, strings_view(holders@))]
            } else {
                Seq::empty()
            }) + seq![ActionV::Ack(blob_id@, 255, sender@, true)]
        }),
        Frame::ShardAck { to, blob_id, from: sender } => if !for_me(a, to@) {
            unchanged(a, b) && acts == seq![fwd]
        } else {
            &&& b.handoff_wait == (match a.handoff_wait {
                Some(w) => if w.0@ == blob_id@ && (sender@.len() == 0 || sender@ == w.1@) {
                    None
                } else {
                    a.handoff_wait
                },
                None => None,
            })
            &&& b == (NodeState { seen: b.seen, handoff_wait: b.handoff_wait, ..a })
            &&& acts.len() == 0
        },
        Frame::ShardHave { public_key, blob_id, indices } => {
            let pk = public_key@;
            if pk.len() == 0 || pk == me || blob_id@.len() == 0 {
                unchanged(a, b) && acts.len() == 0
            } else {
                let need = shards_to_pull(a.held_blob@, a.held@, blob_id@, indices@);
                &&& keyed_view(b.shard_inventory@).dom() == keyed_view(a.shard_inventory@).dom().insert(pk)
                &&& keyed_view(b.shard_inventory@)[pk].0@ == blob_id@
                &&& keyed_view(b.shard_inventory@)[pk].1@ == indices@
                &&& forall|k: Seq<char>|
                    k != pk && #[trigger] keyed_view(a.shard_inventory@).contains_key(k) ==> keyed_view(
                        b.shard_inventory@,
                    )[k] == keyed_view(a.shard_inventory@)[k]
                &&& link_noted(a.link_pks@, b.link_pks@, from, pk)
                &&& b == (NodeState { seen: b.seen, shard_inventory: b.shard_inventory, link_pks: b.link_pks, ..a })
                &&& acts == (if need.len() > 0 {
                    seq![ActionV::RequestShards(pk, blob_id@, need)]
                } else {
                    Seq::empty()
                }) + seq![
                    ActionV::AdvertiseShards,
                    ActionV::RepairShards,
                    ActionV::RefreshArchive,
                    ActionV::EmitState,
                    fwd,
                ]
            }
        },
        Frame::ShardNeed { to, public_key, blob_id, indices } => unchanged(a, b) && acts == (if !for_me(a, to@) {
            seq![fwd]
        } else if public_key@.len() == 0 || blob_id@.len() == 0 || indices@.len() == 0 {
            Seq::empty()
        } else {
            seq![ActionV::PushShards(public_key@, blob_id@, indices@)]
        }),
        Frame::Other => unchanged(a, b) && acts.len() == 0,
    }
}

/// What a frame does: nothing when it came on an older link generation;
/// otherwise its hash is remembered, and it is dropped when it is a repeat
/// (but for call signalling), when the node has no live community, or when
/// it names another community; else it does what its kind does.
pub open spec fn frame_handled(
    a: NodeState,
    b: NodeState,
    frame: Frame,
    community: Option<Seq<char>>,
    from: Option<Seq<char>>,
    gen: u64,
    hash: u64,
    now: i64,
    acts: Seq<ActionV>,
) -> bool {
    if a.link_gen != gen {
        b == a && acts.len() == 0
    } else {
        let dup = a.seen@.contains(hash);
        &&& b.seen@ == seen_after(a.seen@, hash)
        &&& if (dup && !(frame is Rtc)) || a.live_id is None || !(community is None || community.unwrap().len() == 0
            || community.unwrap() == a.live_id.unwrap()@) {
            unchanged(a, b) && acts.len() == 0
        } else {
            kind_handled(a, b, frame, from, dup, now, acts)
        }
    }
}

// ---------------------------------------------------------------------------
// Handling frames
// ---------------------------------------------------------------------------
fn handle_hello(
    node: &mut NodeState,
    community_id: &str,
    listen: &str,
    urls: &Vec<String>,
    history_count: u64,
    p: &PresenceFrame,
    from: Option<&str>,
    now: i64,
) -> (r: Vec<Action>)
    ensures
        final(node).seen == old(node).seen,
        keys_unique(old(node).shard_inventory@) ==> keys_unique(final(node).shard_inventory@),
        keys_unique(old(node).link_pks@) ==> keys_unique(final(node).link_pks@),
        hello_handled(
            *old(node),
            *final(node),
            community_id@,
            listen@,
            strings_view(urls@),
            history_count,
            *p,
            opt_view(from),
            now,
            actions_view(r@),
        ),
{
    let same = match &node.live_id {
        Some(id) => str_eq(id.as_str(), community_id),
        None => false,
    };
    if !same {
        return Vec::new();
    }
    let ghost a = *node;
    let mut incoming: Vec<String> = Vec::new();
    if !listen.is_empty() {
        incoming.push(listen.to_owned());
    }
    let others = urls_without_loopback(urls.as_slice());
    let mut i: usize = 0;
    let ghost start = strings_view(incoming@);
    while i < others.len()
        invariant
            i <= others.len(),
            strings_view(incoming@) == start + strings_view(others@).take(i as int),
        decreases others.len() - i,
    {
        let ghost before = incoming@;
        incoming.push(others[i].clone());
        assert(strings_view(incoming@) =~= strings_view(before).push(others@[i as int]@));
        assert(strings_view(others@).take(i + 1) =~= strings_view(others@).take(i as int).push(others@[i as int]@));
        assert(strings_view(incoming@) =~= start + strings_view(others@).take(i + 1));
        i += 1;
    }
    proof {
        assert(strings_view(others@).take(others@.len() as int) =~= strings_view(others@));
        assert(strings_view(incoming@) =~= hello_known(listen@, strings_view(urls@)));
    }
    add_urls(&mut node.known_peer_urls, &incoming);
    apply_presence(&mut node.presence, p, false, now);
    let pk = p.public_key.as_str();
    let ghost lp0 = node.link_pks@;
    remember_link_pk(&mut node.link_pks, from, pk);
    let ghost lp1 = node.link_pks@;
    let listen_opt: Option<&str> = if listen.is_empty() { None } else { Some(listen) };
    remember_link_pk(&mut node.link_pks, listen_opt, pk);
    proof {
        assert(link_noted(lp0, lp1, opt_view(from), pk@));
        assert(link_noted(lp1, node.link_pks@, if listen@.len() > 0 { Some(listen@) } else { None }, pk@));
    }
    let their = #[verifier::truncate] (history_count as u32);
    let mut out: Vec<Action> = Vec::new();
    let from_direct = !is_relay_key(
        match from {
            Some(f) => f,
            None => "",
        },
    );
    let rekey = from_direct && !listen.is_empty() && match from {
        Some(f) => !str_eq(f, listen),
        None => true,
    };
    if rekey {
        out.push(Action::Rekey(listen.to_owned()));
    }
    out.push(Action::EmitState);
    out.push(Action::PersistSession);
    out.push(Action::SendLayout);
    let busy = voice_is_busy(&node.presence.voice);
    if busy {
        out.push(Action::SendVoice);
    }
    out.push(Action::SendPresence);
    out.push(Action::SendPresenceState);
    out.push(Action::SeedPeer(pk.to_owned(), their));
    out.push(Action::AdvertiseShards);
    out.push(Action::ReconcileShards);
    let wants = their > node.archive_messages;
    if wants {
        out.push(Action::RequestHistory);
    }
    let dial = hello_dial_urls(
        node.listen_url.as_str(),
        &node.listen_urls,
        node.listen_port,
        listen,
        urls.as_slice(),
    );
    out.push(Action::Dial(dial));
    proof {
        reveal_strlit("");
        let acts = actions_view(out@);
        let expect = (if from_direct && listen@.len() > 0 && opt_view(from) != Some(listen@) {
            seq![ActionV::Rekey(listen@)]
        } else {
            Seq::empty()
        }) + seq![ActionV::EmitState, ActionV::PersistSession, ActionV::SendLayout] + (if busy {
            seq![ActionV::SendVoice]
        } else {
            Seq::empty()
        }) + seq![
            ActionV::SendPresence,
            ActionV::SendPresenceState,
            ActionV::SeedPeer(pk@, their),
            ActionV::AdvertiseShards,
            ActionV::ReconcileShards,
        ] + (if their > a.archive_messages {
            seq![ActionV::RequestHistory]
        } else {
            Seq::empty()
        }) + seq![ActionV::Dial(strings_view(dial@))];
        assert(rekey == (from_direct && listen@.len() > 0 && opt_view(from) != Some(listen@)));
        assert(acts =~= expect);
        let fd = !relay_key(
            match opt_view(from) {
                Some(f) => f,
                None => Seq::empty(),
            },
        );
        assert(""@ =~= Seq::<char>::empty());
        assert(fd == from_direct);
        assert(acts =~= (if fd && listen@.len() > 0 && opt_view(from) != Some(listen@) {
            seq![ActionV::Rekey(listen@)]
        } else {
            Seq::empty()
        }) + seq![ActionV::EmitState, ActionV::PersistSession, ActionV::SendLayout] + (if exists|room: Seq<char>|
            #[trigger] crate::peer::roster_view(node.presence.voice@).contains_key(room) && crate::peer::roster_view(
                node.presence.voice@,
            )[room] != Set::<Seq<char>>::empty() {
            seq![ActionV::SendVoice]
        } else {
            Seq::empty()
        }) + seq![
            ActionV::SendPresence,
            ActionV::SendPresenceState,
            ActionV::SeedPeer(p.public_key@, history_count as u32),
            ActionV::AdvertiseShards,
            ActionV::ReconcileShards,
        ] + (if (history_count as u32) > a.archive_messages {
            seq![ActionV::RequestHistory]
        } else {
            Seq::empty()
        }) + seq![
            ActionV::Dial(
                hello_urls(
                    a.listen_url@,
                    strings_view(a.listen_urls@),
                    a.listen_port,
                    unique_trimmed(seq![listen@] + strings_view(urls@)),
                ),
            ),
        ]);
    }
    out
}

fn handle_presence(node: &mut NodeState, p: &PresenceFrame, from: Option<&str>, now: i64) -> (r: Vec<Action>)
    ensures
        final(node).seen == old(node).seen,
        keys_unique(old(node).shard_inventory@) ==> keys_unique(final(node).shard_inventory@),
        keys_unique(old(node).link_pks@) ==> keys_unique(final(node).link_pks@),
        kind_handled(*old(node), *final(node), Frame::Presence { presence: *p }, opt_view(from), false, now, actions_view(r@)),
{
    let from_relay = match from {
        Some(f) => is_relay_key(f),
        None => false,
    };
    let status: Option<&str> = match &p.status {
        Some(s) => Some(s.as_str()),
        None => None,
    };
    let pk = p.public_key.as_str();
    if ignore_relay_offline(&node.presence, pk, from_relay, status, now) {
        return Vec::new();
    }
    let fwd = forward_to(&node.links, from);
    apply_presence(&mut node.presence, p, false, now);
    let offline = match status {
        Some(s) => str_eq(s, "offline"),
        None => false,
    };
    let mut out: Vec<Action> = Vec::new();
    if offline && !pk.is_empty() {
        out.push(Action::ForgetShards(pk.to_owned()));
    }
    out.push(Action::EmitState);
    out.push(Action::PersistSession);
    out.push(Action::Forward(fwd));
    proof {
        reveal_strlit("offline");
        assert(actions_view(out@) =~= (if says_offline(*p) && pk@.len() > 0 {
            seq![ActionV::ForgetShards(pk@)]
        } else {
            Seq::empty()
        }) + seq![ActionV::EmitState, ActionV::PersistSession, forward_of(*old(node), opt_view(from))]);
    }
    out
}

fn handle_presence_state(node: &mut NodeState, people: &Option<Vec<PresenceFrame>>, from: Option<&str>, now: i64) -> (r: Vec<Action>)
    ensures
        final(node).seen == old(node).seen,
        keys_unique(old(node).shard_inventory@) ==> keys_unique(final(node).shard_inventory@),
        keys_unique(old(node).link_pks@) ==> keys_unique(final(node).link_pks@),
        kind_handled(
            *old(node),
            *final(node),
            Frame::PresenceState { people: *people },
            opt_view(from),
            false,
            now,
            actions_view(r@),
        ),
{
    let fwd = forward_to(&node.links, from);
    if let Some(ps) = people {
        let ghost a = node.presence;
        let ghost mut chain: Seq<Presence> = seq![a];
        let mut i: usize = 0;
        while i < ps.len()
            invariant
                i <= ps.len(),
                chain.len() == i + 1,
                chain[0] == a,
                chain.last() == node.presence,
                *node == (NodeState { presence: node.presence, ..*old(node) }),
                a == old(node).presence,
                forall|j: int| 0 <= j < i ==> presence_applied(#[trigger] chain[j], chain[j + 1], ps@[j], true, now),
            decreases ps.len() - i,
        {
            let ghost mid = node.presence;
            apply_presence(&mut node.presence, &ps[i], true, now);
            proof {
                let old_chain = chain;
                chain = chain.push(node.presence);
                assert forall|j: int| 0 <= j < i + 1 implies presence_applied(#[trigger] chain[j], chain[j + 1], ps@[j], true, now) by {
                    if j < i {
                        assert(chain[j] == old_chain[j] && chain[j + 1] == old_chain[j + 1]);
                    }
                }
            }
            i += 1;
        }
        proof {
            assert(presence_chain(chain, ps@, now));
        }
    }
    let mut out: Vec<Action> = Vec::new();
    out.push(Action::EmitState);
    out.push(Action::PersistSession);
    out.push(Action::Forward(fwd));
    assert(actions_view(out@) =~= seq![ActionV::EmitState, ActionV::PersistSession, forward_of(*old(node), opt_view(from))]);
    out
}

fn history_messages(items: &Vec<HistoryItem>, me: &str, id: &str) -> (r: Vec<UiMessage>)
    ensures
        r@.map_values(|m: UiMessage| message_view(m)) == history_candidates(items@, me@, id@),
{
    let mut out: Vec<UiMessage> = Vec::new();
    let mut i: usize = 0;
    while i < items.len()
        invariant
            i <= items.len(),
            out@.map_values(|m: UiMessage| message_view(m)) == history_candidates(items@.take(i as int), me@, id@),
        decreases items.len() - i,
    {
        let it = &items[i];
        proof {
            assert(items@.take(i + 1).drop_last() =~= items@.take(i as int));
            assert(items@.take(i + 1).last() == items@[i as int]);
        }
        if !it.sender.as_str().is_empty() && !it.text.as_str().is_empty() {
            let ghost before = out@;
            let m = UiMessage {
                sender: it.sender.clone(),
                text: it.text.clone(),
                ts: it.ts,
                channel: it.channel.clone(),
                is_self: str_eq(it.sender.as_str(), me),
                community_id: id.to_owned(),
            };
            out.push(m);
            assert(out@.map_values(|m: UiMessage| message_view(m)) =~= before.map_values(|m: UiMessage| message_view(m)).push(
                message_view(m),
            ));
        }
        i += 1;
    }
    assert(items@.take(items@.len() as int) =~= items@);
    out
}

fn handle_shard_push(
    node: &mut NodeState,
    to: &str,
    blob_id: &str,
    sender: &str,
    index: u64,
    data: &str,
    from: Option<&str>,
) -> (r: Vec<Action>)
    ensures
        final(node).seen == old(node).seen,
        keys_unique(old(node).shard_inventory@) ==> keys_unique(final(node).shard_inventory@),
        keys_unique(old(node).link_pks@) ==> keys_unique(final(node).link_pks@),
        ({
            let i = index as u8;
            let a = *old(node);
            let b = *final(node);
            let acts = actions_view(r@);
            if !for_me(a, to@) {
                unchanged(a, b) && acts == seq![forward_of(a, opt_view(from))]
            } else if crate::crypto::b64_std_decoded(data@) is None || blob_id@.len() == 0 || i >= 6 {
                unchanged(a, b) && acts.len() == 0
            } else {
                &&& shard_noted(a.shard_inventory@, b.shard_inventory@, sender@, blob_id@, i)
                &&& b == (NodeState { seen: b.seen, shard_inventory: b.shard_inventory, ..a })
                &&& acts == seq![
                    ActionV::StoreShard(blob_id@, i, crate::crypto::b64_std_decoded(data@).unwrap()),
                    ActionV::Ack(blob_id@, i, sender@, false),
                    ActionV::RefreshArchive,
                    ActionV::EmitState,
                    ActionV::AdvertiseShards,
                ]
            }
        }),
{
    if !crate::peer::addressed_to_me(to, node.presence.me.as_str()) {
        let fwd = forward_to(&node.links, from);
        let out = vec![Action::Forward(fwd)];
        assert(actions_view(out@) =~= seq![forward_of(*old(node), opt_view(from))]);
        return out;
    }
    let i = #[verifier::truncate] (index as u8);
    let bytes = match crate::crypto::b64_std_decode(data) {
        Some(b) => b,
        None => {
            return Vec::new();
        },
    };
    if blob_id.is_empty() || i >= 6 {
        return Vec::new();
    }
    note_pushed_shard(&mut node.shard_inventory, sender, blob_id, i);
    let out = vec![
        Action::StoreShard(blob_id.to_owned(), i, bytes),
        Action::Ack(blob_id.to_owned(), i, sender.to_owned(), false),
        Action::RefreshArchive,
        Action::EmitState,
        Action::AdvertiseShards,
    ];
    proof {
        assert(shard_noted(old(node).shard_inventory@, node.shard_inventory@, sender@, blob_id@, i));
        assert(actions_view(out@) =~= seq![
            ActionV::StoreShard(blob_id@, i, crate::crypto::b64_std_decoded(data@).unwrap()),
            ActionV::Ack(blob_id@, i, sender@, false),
            ActionV::RefreshArchive,
            ActionV::EmitState,
            ActionV::AdvertiseShards,
        ]);
    }
    out
}

fn handle_shard_have(node: &mut NodeState, public_key: &String, blob: &String, indices: &Vec<u8>, from: Option<&str>) -> (r: Vec<Action>)
    ensures
        final(node).seen == old(node).seen,
        keys_unique(old(node).shard_inventory@) ==> keys_unique(final(node).shard_inventory@),
        keys_unique(old(node).link_pks@) ==> keys_unique(final(node).link_pks@),
        kind_handled(
            *old(node),
            *final(node),
            Frame::ShardHave { public_key: *public_key, blob_id: *blob, indices: *indices },
            opt_view(from),
            false,
            0,
            actions_view(r@),
        ),
{
    let pk = public_key.as_str();
    let blob_id = blob.as_str();
    if pk.is_empty() || str_eq(pk, node.presence.me.as_str()) || blob_id.is_empty() {
        return Vec::new();
    }
    let fwd = forward_to(&node.links, from);
    let entry = (blob_id.to_owned(), copy_u8s(indices));
    keyed_set(&mut node.shard_inventory, pk, entry);
    remember_link_pk(&mut node.link_pks, from, pk);
    let need = if str_eq(node.held_blob.as_str(), blob_id) || node.held_blob.as_str().is_empty() {
        indices_to_pull(node.held.as_slice(), indices.as_slice())
    } else {
        Vec::new()
    };
    let mut out: Vec<Action> = Vec::new();
    let some = need.len() > 0;
    let ghost nv = need@;
    if some {
        out.push(Action::RequestShards(pk.to_owned(), blob_id.to_owned(), need));
    }
    out.push(Action::AdvertiseShards);
    out.push(Action::RepairShards);
    out.push(Action::RefreshArchive);
    out.push(Action::EmitState);
    out.push(Action::Forward(fwd));
    proof {
        assert(nv =~= shards_to_pull(old(node).held_blob@, old(node).held@, blob_id@, indices@));
        assert(link_noted(old(node).link_pks@, node.link_pks@, opt_view(from), pk@));
        assert(actions_view(out@) =~= (if nv.len() > 0 {
            seq![ActionV::RequestShards(pk@, blob_id@, nv)]
        } else {
            Seq::empty()
        }) + seq![
            ActionV::AdvertiseShards,
            ActionV::RepairShards,
            ActionV::RefreshArchive,
            ActionV::EmitState,
            forward_of(*old(node), opt_view(from)),
        ]);
    }
    out
}

/// Adds each URL of `incoming` to `dst` unless it is there already.
fn add_urls(dst: &mut Vec<String>, incoming: &Vec<String>)
    ensures
        strings_view(final(dst)@) == with_urls(strings_view(old(dst)@), strings_view(incoming@)),
{
    let ghost start = strings_view(dst@);
    let ghost inc = strings_view(incoming@);
    let mut i: usize = 0;
    while i < incoming.len()
        invariant
            i <= incoming.len(),
            inc == strings_view(incoming@),
            strings_view(dst@) == with_urls(start, inc.take(i as int)),
        decreases incoming.len() - i,
    {
        assert(inc.take(i + 1).drop_last() =~= inc.take(i as int));
        assert(inc.take(i + 1).last() == incoming@[i as int]@);
        if !crate::peer::list_contains(dst.as_slice(), incoming[i].as_str()) {
            let ghost before = strings_view(dst@);
            dst.push(incoming[i].clone());
            assert(strings_view(dst@) =~= before.push(incoming@[i as int]@));
        }
        i += 1;
    }
    assert(inc.take(incoming.len() as int) =~= inc);
}

/// A copy of a list of bytes.
fn copy_u8s(v: &Vec<u8>) -> (r: Vec<u8>)
    ensures
        r@ == v@,
{
    let mut out: Vec<u8> = Vec::new();
    let mut i: usize = 0;
    while i < v.len()
        invariant
            i <= v.len(),
            out@ == v@.take(i as int),
        decreases v.len() - i,
    {
        out.push(v[i]);
        assert(out@ =~= v@.take(i + 1));
        i += 1;
    }
    assert(v@.take(v@.len() as int) =~= v@);
    out
}

/// Handles a frame from a peer, which came on link `from` (none for a
/// pending link) naming community `community` (when it names one), with
/// the hash `hash` of its text, at `now`: the state it leaves and what the
/// runtime is to do, as `frame_handled` states.
pub fn on_frame(
    node: &mut NodeState,
    frame: &Frame,
    community: Option<&str>,
    from: Option<&str>,
    gen: u64,
    hash: u64,
    now: i64,
) -> (actions: Vec<Action>)
    ensures
        frame_handled(*old(node), *final(node), *frame, opt_view(community), opt_view(from), gen, hash, now, actions_view(actions@)),
        keys_unique(old(node).shard_inventory@) ==> keys_unique(final(node).shard_inventory@),
        keys_unique(old(node).link_pks@) ==> keys_unique(final(node).link_pks@),
{
    if node.link_gen != gen {
        return Vec::new();
    }
    let dup = note_seen(&mut node.seen, hash);
    let is_rtc = match frame {
        Frame::Rtc => true,
        _ => false,
    };
    if dup && !is_rtc {
        return Vec::new();
    }
    let live = match &node.live_id {
        Some(id) => crate::peer::frame_matches_community(community, id.as_str()),
        None => false,
    };
    if !live {
        return Vec::new();
    }
    let ghost a = *node;
    let out = match frame {
        Frame::Hello { community_id, listen_url, listen_urls, history_count, presence } => handle_hello(
            node,
            community_id.as_str(),
            listen_url.as_str(),
            listen_urls,
            *history_count,
            presence,
            from,
            now,
        ),
        Frame::HistoryRequest { public_key, history_count } => {
            let n = #[verifier::truncate] (*history_count as u32);
            let out = vec![Action::SeedPeer(public_key.clone(), n)];
            assert(actions_view(out@) =~= seq![ActionV::SeedPeer(public_key@, n)]);
            out
        },
        Frame::Peers { urls } => {
            let out = vec![Action::Dial(urls_without_loopback(urls.as_slice()))];
            assert(actions_view(out@) =~= seq![ActionV::Dial(without_loopback(strings_view(urls@)))]);
            out
        },
        Frame::Chat { wire } => {
            if str_eq(wire.sender.as_str(), node.presence.me.as_str()) {
                no_actions()
            } else {
                match open_chat(node.live_key.as_str(), wire) {
                    Some(body) => {
                        let out = vec![Action::OpenedChat(wire.sender.clone(), body)];
                        assert(actions_view(out@) =~= seq![
                            ActionV::OpenedChat(wire.sender@, opened_body(a.live_key@, *wire).unwrap()),
                        ]);
                        out
                    },
                    None => no_actions(),
                }
            }
        },
        Frame::Layout { text_channels, call_rooms } => {
            let fwd = forward_to(&node.links, from);
            apply_layout(&mut node.text_channels, &mut node.call_rooms, text_channels.as_slice(), call_rooms.as_slice());
            let out = vec![Action::EmitState, Action::PersistSession, Action::Forward(fwd)];
            assert(actions_view(out@) =~= seq![ActionV::EmitState, ActionV::PersistSession, forward_of(a, opt_view(from))]);
            out
        },
        Frame::VoiceState { public_key, rooms } => {
            let fwd = forward_to(&node.links, from);
            if let Some(r) = rooms {
                merge_voice_rooms(&mut node.presence, r.as_slice(), public_key.as_str(), now);
            }
            let out = vec![Action::EmitState, Action::Forward(fwd)];
            assert(actions_view(out@) =~= seq![ActionV::EmitState, forward_of(a, opt_view(from))]);
            out
        },
        Frame::Voice { room, action, public_key } => {
            let fwd = forward_to(&node.links, from);
            apply_voice_action(&mut node.presence, room.as_str(), action.as_str(), public_key.as_str(), now);
            let ghost mid = node.presence;
            let join = str_eq(action.as_str(), "join");
            if join {
                touch_seen(&mut node.presence, public_key.as_str(), now);
            }
            let leave = str_eq(action.as_str(), "leave");
            let mut out = vec![Action::EmitState, Action::Forward(fwd)];
            if join || leave {
                out.push(Action::SendVoice);
            }
            proof {
                assert(voice_action_applied(a.presence, mid, room@, action@, public_key@, now) && (if action@ == "join"@ {
                    seen_touched(mid, node.presence, public_key@, now)
                } else {
                    node.presence == mid
                }));
                assert(actions_view(out@) =~= seq![ActionV::EmitState, forward_of(a, opt_view(from))] + (if action@ == "join"@
                    || action@ == "leave"@ {
                    seq![ActionV::SendVoice]
                } else {
                    Seq::empty()
                }));
            }
            out
        },
        Frame::Presence { presence } => handle_presence(node, presence, from, now),
        Frame::PresenceState { people } => handle_presence_state(node, people, from, now),
        Frame::Rtc => {
            let mut out = vec![Action::EmitRtc];
            if !dup {
                out.push(Action::Forward(forward_to(&node.links, from)));
            }
            assert(actions_view(out@) =~= seq![ActionV::EmitRtc] + (if dup {
                Seq::empty()
            } else {
                seq![forward_of(a, opt_view(from))]
            }));
            out
        },
        Frame::History { messages } => match messages {
            Some(items) => {
                let id = match &node.live_id {
                    Some(id) => id.as_str(),
                    None => "",
                };
                let msgs = history_messages(items, node.presence.me.as_str(), id);
                let out = vec![Action::MergeHistory(msgs), Action::RefreshArchive, Action::EmitState];
                assert(actions_view(out@) =~= seq![
                    ActionV::MergeHistory(history_candidates(items@, a.presence.me@, a.live_id.unwrap()@)),
                    ActionV::RefreshArchive,
                    ActionV::EmitState,
                ]);
                out
            },
            None => no_actions(),
        },
        Frame::ShardPush { to, blob_id, from: sender, index, data } => handle_shard_push(
            node,
            to.as_str(),
            blob_id.as_str(),
            sender.as_str(),
            *index,
            data.as_str(),
            from,
        ),
        Frame::ShardHandoff { to, blob_id, from: sender, holders } => {
            if !crate::peer::addressed_to_me(to.as_str(), node.presence.me.as_str()) {
                let out = vec![Action::Forward(forward_to(&node.links, from))];
                assert(actions_view(out@) =~= seq![forward_of(a, opt_view(from))]);
                out
            } else {
                let mut out: Vec<Action> = Vec::new();
                let set = !blob_id.as_str().is_empty() && holders.len() > 0;
                if set {
                    out.push(Action::SetHolders(blob_id.clone(), clone_strings(holders)));
                }
                out.push(Action::Ack(blob_id.clone(), 255, sender.clone(), true));
                assert(actions_view(out@) =~= (if blob_id@.len() > 0 && holders@.len() > 0 {
                    seq![ActionV::SetHolders(blob_id@, strings_view(holders@))]
                } else {
                    Seq::empty()
                }) + seq![ActionV::Ack(blob_id@, 255, sender@, true)]);
                out
            }
        },
        Frame::ShardAck { to, blob_id, from: sender } => {
            if !crate::peer::addressed_to_me(to.as_str(), node.presence.me.as_str()) {
                let out = vec![Action::Forward(forward_to(&node.links, from))];
                assert(actions_view(out@) =~= seq![forward_of(a, opt_view(from))]);
                out
            } else {
                let acked = match &node.handoff_wait {
                    Some(w) => handoff_acked(Some((w.0.as_str(), w.1.as_str())), blob_id.as_str(), sender.as_str()),
                    None => false,
                };
                if acked {
                    node.handoff_wait = None;
                }
                Vec::new()
            }
        },
        Frame::ShardHave { public_key, blob_id, indices } => handle_shard_have(node, public_key, blob_id, indices, from),
        Frame::ShardNeed { to, public_key, blob_id, indices } => {
            if !crate::peer::addressed_to_me(to.as_str(), node.presence.me.as_str()) {
                let out = vec![Action::Forward(forward_to(&node.links, from))];
                assert(actions_view(out@) =~= seq![forward_of(a, opt_view(from))]);
                out
            } else if public_key.as_str().is_empty() || blob_id.as_str().is_empty() || indices.len() == 0 {
                no_actions()
            } else {
                let out = vec![Action::PushShards(public_key.clone(), blob_id.clone(), copy_u8s(indices))];
                assert(actions_view(out@) =~= seq![ActionV::PushShards(public_key@, blob_id@, indices@)]);
                out
            }
        },
        Frame::Other => Vec::new(),
    };
    out
}

/// No actions.
fn no_actions() -> (r: Vec<Action>)
    ensures
        actions_view(r@) == Seq::<ActionV>::empty(),
{
    let r: Vec<Action> = Vec::new();
    assert(actions_view(r@) =~= Seq::<ActionV>::empty());
    r
}

/// A copy of a list of strings.
fn clone_strings(v: &Vec<String>) -> (r: Vec<String>)
    ensures
        strings_view(r@) == strings_view(v@),
{
    let mut out: Vec<String> = Vec::new();
    let mut i: usize = 0;
    while i < v.len()
        invariant
            i <= v.len(),
            strings_view(out@) == strings_view(v@).take(i as int),
        decreases v.len() - i,
    {
        let ghost before = out@;
        out.push(v[i].clone());
        assert(strings_view(out@) =~= strings_view(before).push(v@[i as int]@));
        assert(strings_view(v@).take(i + 1) =~= strings_view(v@).take(i as int).push(v@[i as int]@));
        i += 1;
    }
    assert(strings_view(v@).take(v@.len() as int) =~= strings_view(v@));
    out
}

/// A chat message read from an opened body: it is shown and stored, its
/// sender counts as heard from at `now`, and the frame goes on to every
/// link but its origin (no relay when it came from a relay).
pub fn on_chat_plain(node: &mut NodeState, sender: &str, plain: &ChatPlain, from: Option<&str>, now: i64) -> (actions: Vec<Action>)
    ensures
        seen_touched(old(node).presence, final(node).presence, sender@, now),
        *final(node) == (NodeState { presence: final(node).presence, ..*old(node) }),
        actions_view(actions@) == seq![
            ActionV::Store(
                (
                    sender@,
                    plain.text@,
                    plain.ts,
                    plain.channel@,
                    sender@ == old(node).presence.me@,
                    match old(node).live_id {
                        Some(id) => id@,
                        None => Seq::empty(),
                    },
                ),
            ),
            forward_of(*old(node), opt_view(from)),
        ],
{
    let ghost a = *node;
    let id = match &node.live_id {
        Some(id) => id.clone(),
        None => String::new(),
    };
    let msg = UiMessage {
        sender: sender.to_owned(),
        text: plain.text.clone(),
        ts: plain.ts,
        channel: plain.channel.clone(),
        is_self: str_eq(sender, node.presence.me.as_str()),
        community_id: id,
    };
    touch_seen(&mut node.presence, sender, now);
    let fwd = forward_to(&node.links, from);
    let out = vec![Action::Store(msg), Action::Forward(fwd)];
    assert(actions_view(out@) =~= seq![ActionV::Store(message_view(msg)), forward_of(a, opt_view(from))]);
    out
}

/// A node that holds no shards, or shards of the same archive, and hears
/// that another peer holds shards of an archive, asks that peer for every
/// shard index below six that the peer lists and it lacks, before anything
/// else the frame causes.
pub proof fn law_shard_have_fetches(
    a: NodeState,
    b: NodeState,
    public_key: String,
    blob_id: String,
    indices: Vec<u8>,
    from: Option<Seq<char>>,
    gen: u64,
    hash: u64,
    now: i64,
    acts: Seq<ActionV>,
)
    requires
        frame_handled(a, b, Frame::ShardHave { public_key, blob_id, indices }, None, from, gen, hash, now, acts),
        a.link_gen == gen,
        !a.seen@.contains(hash),
        a.live_id is Some,
        public_key@.len() > 0,
        public_key@ != a.presence.me@,
        blob_id@.len() > 0,
        a.held_blob@.len() == 0 || a.held_blob@ == blob_id@,
        exists|i: u8| i < 6 && #[trigger] indices@.contains(i) && !a.held@.contains(i),
    ensures
        acts.len() == 6,
        acts[0] matches ActionV::RequestShards(pk, blob, need) && pk == public_key@ && blob == blob_id@ && (forall|i: u8|
            #[trigger] need.contains(i) <==> (i < 6 && indices@.contains(i) && !a.held@.contains(i))),
        acts[5] == forward_of(a, from),
{
    let f = |i: u8| indices@.contains(i) && !a.held@.contains(i);
    let need = shard_bytes().filter(f);
    assert(need == shards_to_pull(a.held_blob@, a.held@, blob_id@, indices@));
    let w = choose|i: u8| i < 6 && #[trigger] indices@.contains(i) && !a.held@.contains(i);
    assert(shard_bytes()[w as int] == w);
    shard_bytes().lemma_filter_contains(f, w as int);
    assert(need.len() > 0);
    assert forall|i: u8| #[trigger] need.contains(i) <==> (i < 6 && indices@.contains(i) && !a.held@.contains(i)) by {
        if need.contains(i) {
            shard_bytes().lemma_filter_contains_rev(f, i);
            let k = choose|k: int| 0 <= k < 6 && shard_bytes()[k] == i;
            let j = choose|j: int| 0 <= j < need.len() && need[j] == i;
            shard_bytes().lemma_filter_pred(f, j);
        }
        if i < 6 && indices@.contains(i) && !a.held@.contains(i) {
            assert(shard_bytes()[i as int] == i);
            shard_bytes().lemma_filter_contains(f, i as int);
        }
    }
}

} // verus!
