//! What a node decides about its community, apart from the I/O that acts on
//! it: the URLs it gossips and dials, the rooms it adds and joins, the
//! members it counts as online, the history it seeds, the frames it keeps
//! for resending, how it keeps its archive's shards replicated and restores
//! the archive from them, and what joining, switching and leaving a
//! community take.
use vstd::prelude::*;
use vstd::utf8::encode_utf8;
use crate::relay::strings_view;
use crate::ui::UiMessage;
use crate::erasure::{
    consistent, contains_u8, copy_bytes, encoded, handoff_indices, holds_shard, index_range,
    insert_sorted, inventory_view, is_least, law_archive_survives_lost_shards, others_of, padded,
    pick_handoff_target, pick_repair_target, pieces_ok, pieces_view, present_count, reconstruct,
    repair_before, replica_target, rs_rebuilt, sorted_keys, under_replicated, unpadded,
    MIN_ONLINE_REPLICAS,
};
use crate::keyed::{has_key, keyed_find, keyed_set, keyed_view, lemma_keyed_dom};
use crate::peer::{
    list_contains, loopback_url, normalize_voice, push_unique, regroup, roster_view, same_self, seat,
    seat_in, seated, slug_name, slug_of, unseat, unseat_everywhere, PeerProfile, Presence,
};

verus! {

// ---------------------------------------------------------------------------
// Gossiped URLs
// ---------------------------------------------------------------------------
/// Whether a URL is worth giving to peers: a `ws://` or `wss://` URL with a
/// port whose host is not loopback.
pub open spec fn gossip_ok(u: Seq<char>) -> bool {
    match crate::dial::ws_host_port(u) {
        Some(hp) => !crate::dial::loopback_host(hp.0),
        None => false,
    }
}

/// `acc` with each URL of `known` added in order, unless it names a
/// loopback host or is there already.
pub open spec fn with_known(acc: Seq<Seq<char>>, known: Seq<Seq<char>>) -> Seq<Seq<char>>
    decreases known.len(),
{
    if known.len() == 0 {
        acc
    } else {
        let prev = with_known(acc, known.drop_last());
        if loopback_url(known.last()) || prev.contains(known.last()) {
            prev
        } else {
            prev.push(known.last())
        }
    }
}

/// The URLs a node gossips: its listen URLs (or its one listen URL when it
/// has none), then the peer URLs it knows, each once; only those worth
/// giving stay, in that order.
pub open spec fn gossip_list(listen_urls: Seq<Seq<char>>, listen_url: Seq<char>, known: Seq<Seq<char>>) -> Seq<Seq<char>> {
    let base = if listen_urls.len() == 0 { seq![listen_url] } else { listen_urls };
    with_known(base, known).filter(|u: Seq<char>| gossip_ok(u))
}

/// The URLs to put in a `peers` frame: the node's own listen URLs (its one
/// listen URL when the list is empty), then each known peer URL once,
/// keeping only `ws://`/`wss://` URLs with a port and a host that is not
/// loopback.
pub fn gossip_urls(listen_urls: &[String], listen_url: &str, known_peer_urls: &[String]) -> (r: Vec<String>)
    ensures
        strings_view(r@) == gossip_list(strings_view(listen_urls@), listen_url@, strings_view(known_peer_urls@)),
{
    let ghost kv = strings_view(known_peer_urls@);
    let mut urls: Vec<String> = Vec::new();
    if listen_urls.is_empty() {
        urls.push(listen_url.to_owned());
        assert(strings_view(urls@) =~= seq![listen_url@]);
    } else {
        let mut j: usize = 0;
        while j < listen_urls.len()
            invariant
                j <= listen_urls.len(),
                strings_view(urls@) == strings_view(listen_urls@).take(j as int),
            decreases listen_urls.len() - j,
        {
            let ghost before = strings_view(urls@);
            urls.push(listen_urls[j].clone());
            assert(strings_view(urls@) =~= before.push(listen_urls@[j as int]@));
            assert(strings_view(listen_urls@).take(j + 1) =~= strings_view(listen_urls@).take(j as int).push(
                listen_urls@[j as int]@,
            ));
            j += 1;
        }
        assert(strings_view(listen_urls@).take(listen_urls.len() as int) =~= strings_view(listen_urls@));
    }
    let ghost base = strings_view(urls@);
    let mut i: usize = 0;
    while i < known_peer_urls.len()
        invariant
            i <= known_peer_urls.len(),
            kv == strings_view(known_peer_urls@),
            strings_view(urls@) == with_known(base, kv.take(i as int)),
        decreases known_peer_urls.len() - i,
    {
        let url = &known_peer_urls[i];
        assert(kv.take(i + 1).drop_last() =~= kv.take(i as int));
        assert(kv.take(i + 1).last() == url@);
        let lo = match crate::dial::parse_ws(url.as_str()) {
            Some(hp) => crate::dial::is_loopback_host(hp.0.as_str()),
            None => false,
        };
        if !lo && !list_contains(urls.as_slice(), url.as_str()) {
            let ghost before = strings_view(urls@);
            urls.push(url.clone());
            assert(strings_view(urls@) =~= before.push(url@));
        }
        i += 1;
    }
    assert(kv.take(known_peer_urls.len() as int) =~= kv);
    let ghost all = strings_view(urls@);
    let ghost f = |u: Seq<char>| gossip_ok(u);
    let mut out: Vec<String> = Vec::new();
    let mut k: usize = 0;
    while k < urls.len()
        invariant
            k <= urls.len(),
            all == strings_view(urls@),
            f == (|u: Seq<char>| gossip_ok(u)),
            strings_view(out@) == all.take(k as int).filter(f),
        decreases urls.len() - k,
    {
        proof {
            all.take(k as int).lemma_filter_push(all[k as int], f);
            assert(all.take(k as int).push(all[k as int]) =~= all.take(k + 1));
        }
        let keep = match crate::dial::parse_ws(urls[k].as_str()) {
            Some(hp) => !crate::dial::is_loopback_host(hp.0.as_str()),
            None => false,
        };
        if keep {
            let ghost before = strings_view(out@);
            out.push(urls[k].clone());
            assert(strings_view(out@) =~= before.push(all[k as int]));
        }
        k += 1;
    }
    assert(all.take(urls.len() as int) =~= all);
    out
}

// ---------------------------------------------------------------------------
// Leaving a call
// ---------------------------------------------------------------------------
/// The rooms of roster `r` where `pk` sits.
pub open spec fn rooms_of(r: Map<Seq<char>, Set<Seq<char>>>, pk: Seq<char>) -> Set<Seq<char>> {
    Set::new(|room: Seq<char>| r.contains_key(room) && r[room].contains(pk))
}

/// The node leaves voice: its screen share goes off, it is taken out of
/// every room and the rooms are renamed to room names. Gives the rooms it
/// sat in, so that a leave can be sent for each.
pub fn clear_own_seat(inner: &mut Presence) -> (r: Vec<String>)
    ensures
        strings_view(r@).to_set() == rooms_of(roster_view(old(inner).voice@), old(inner).me@),
        roster_view(final(inner).voice@) == regroup(unseat(roster_view(old(inner).voice@), old(inner).me@)),
        !final(inner).sharing_screen,
        final(inner).me == old(inner).me,
        final(inner).display_name == old(inner).display_name,
        final(inner).avatar == old(inner).avatar,
        final(inner).muted == old(inner).muted,
        final(inner).deafened == old(inner).deafened,
        final(inner).status == old(inner).status,
        final(inner).voice_left == old(inner).voice_left,
        final(inner).voice_joined == old(inner).voice_joined,
        final(inner).profiles == old(inner).profiles,
        final(inner).last_seen == old(inner).last_seen,
{
    inner.sharing_screen = false;
    let ghost r0 = roster_view(inner.voice@);
    let ghost me = inner.me@;
    let mut rooms: Vec<String> = Vec::new();
    let mut i: usize = 0;
    while i < inner.voice.len()
        invariant
            i <= inner.voice.len(),
            r0 == roster_view(inner.voice@),
            me == inner.me@,
            forall|room: Seq<char>|
                strings_view(rooms@).to_set().contains(room) <==> exists|j: int|
                    0 <= j < i && #[trigger] inner.voice@[j].0@ == room && strings_view(inner.voice@[j].1@).contains(me),
        decreases inner.voice.len() - i,
    {
        let ghost before = strings_view(rooms@);
        if list_contains(inner.voice[i].1.as_slice(), inner.me.as_str()) {
            let room = inner.voice[i].0.clone();
            let ghost rv = room@;
            rooms.push(room);
            proof {
                assert(strings_view(rooms@) =~= before.push(rv));
                before.lemma_push_to_set_commute(rv);
            }
        }
        proof {
            assert forall|room: Seq<char>|
                strings_view(rooms@).to_set().contains(room) <==> exists|j: int|
                    0 <= j < i + 1 && #[trigger] inner.voice@[j].0@ == room && strings_view(inner.voice@[j].1@).contains(me) by {
                if strings_view(rooms@).to_set().contains(room) && !before.to_set().contains(room) {
                    assert(inner.voice@[i as int].0@ == room);
                }
            }
        }
        i += 1;
    }
    assert(strings_view(rooms@).to_set() =~= rooms_of(r0, me));
    let me_key = inner.me.clone();
    unseat_everywhere(&mut inner.voice, me_key.as_str());
    normalize_voice(&mut inner.voice);
    rooms
}

// ---------------------------------------------------------------------------
// Adding a room
// ---------------------------------------------------------------------------
/// `list` with `name` at the end, unless it is there already.
pub open spec fn with_name(list: Seq<Seq<char>>, name: Seq<char>) -> Seq<Seq<char>> {
    if list.contains(name) {
        list
    } else {
        list.push(name)
    }
}

/// Adds a room that the user names: a call room for kind `call`, a text
/// channel for any other kind (`general` is never added twice), under its
/// room name, at the end of its list unless it is there already. Gives the
/// room name.
pub fn add_room_to(kind: &str, name: &str, text_channels: &mut Vec<String>, call_rooms: &mut Vec<String>) -> (r: String)
    ensures
        r@ == slug_of(name@),
        kind@ == "call"@ ==> strings_view(final(call_rooms)@) == with_name(strings_view(old(call_rooms)@), r@)
            && final(text_channels)@ == old(text_channels)@,
        kind@ != "call"@ ==> final(call_rooms)@ == old(call_rooms)@ && strings_view(final(text_channels)@) == (
            if r@ == "general"@ {
                strings_view(old(text_channels)@)
            } else {
                with_name(strings_view(old(text_channels)@), r@)
            }),
{
    let slug = slug_name(name);
    if crate::text::str_eq(kind, "call") {
        if !list_contains(call_rooms.as_slice(), slug.as_str()) {
            let ghost before = strings_view(call_rooms@);
            call_rooms.push(slug.clone());
            assert(strings_view(call_rooms@) =~= before.push(slug@));
        }
    } else {
        let general = crate::text::str_eq(slug.as_str(), "general");
        if !general && !list_contains(text_channels.as_slice(), slug.as_str()) {
            let ghost before = strings_view(text_channels@);
            text_channels.push(slug.clone());
            assert(strings_view(text_channels@) =~= before.push(slug@));
        }
    }
    slug
}

// ---------------------------------------------------------------------------
// Seeding history to a peer
// ---------------------------------------------------------------------------
/// What a node does when a peer says how many messages it holds.
#[derive(Clone, Copy, Debug, PartialEq, Eq, Structural)]
pub enum SeedPlan {
    /// Nothing: no key, or the node's own key.
    Skip,
    /// The peer needs nothing: record it as seeded with the node's count
    /// and stop showing it as being seeded.
    Settle,
    /// The peer was seeded with this count before: stop showing it as
    /// being seeded.
    Done,
    /// Show the peer as being seeded, send the history, then record it as
    /// seeded with the node's count.
    Send,
}

/// The plan for a peer `pk` that holds `their_count` messages, when the
/// node holds `our_count` (with `has_history` when it has any to send) and
/// recorded `seeded_count` for the peer earlier, if anything.
pub open spec fn seed_plan_of(
    pk: Seq<char>,
    me: Seq<char>,
    their_count: u32,
    our_count: u32,
    has_history: bool,
    seeded_count: Option<u32>,
) -> SeedPlan {
    if pk.len() == 0 || pk == me {
        SeedPlan::Skip
    } else if their_count >= our_count || !has_history {
        SeedPlan::Settle
    } else if (match seeded_count {
        Some(c) => c,
        None => 0u32,
    }) >= our_count {
        SeedPlan::Done
    } else {
        SeedPlan::Send
    }
}

/// Decides whether to seed a peer with this node's history: never itself or
/// a blank key; not a peer that holds as many messages, or when there is no
/// history; not a peer already seeded with this count; else send.
pub fn seed_plan(
    pk: &str,
    me: &str,
    their_count: u32,
    our_count: u32,
    has_history: bool,
    seeded_count: Option<u32>,
) -> (r: SeedPlan)
    ensures
        r == seed_plan_of(pk@, me@, their_count, our_count, has_history, seeded_count),
{
    if pk.is_empty() || crate::text::str_eq(pk, me) {
        return SeedPlan::Skip;
    }
    if their_count >= our_count || !has_history {
        return SeedPlan::Settle;
    }
    let before: u32 = match seeded_count {
        Some(c) => c,
        None => 0,
    };
    if before >= our_count {
        SeedPlan::Done
    } else {
        SeedPlan::Send
    }
}

// ---------------------------------------------------------------------------
// Members online
// ---------------------------------------------------------------------------
/// The other members a node counts as online: every peer whose profile is
/// not `offline`, and every peer on a live link; never the node itself.
pub open spec fn online_members(
    me: Seq<char>,
    profiles: Map<Seq<char>, PeerProfile>,
    links: Seq<Seq<char>>,
) -> Set<Seq<char>> {
    Set::new(
        |k: Seq<char>|
            k != me && ((profiles.contains_key(k) && profiles[k].status@ != "offline"@) || links.contains(k)),
    )
}

/// The keys of the other members online (profiles not `offline`, peers on
/// a live link `link_pks`), each once, in `String` order.
pub fn online_member_pks(inner: &Presence, link_pks: &[String]) -> (r: Vec<String>)
    ensures
        sorted_keys(strings_view(r@)),
        strings_view(r@).to_set() == online_members(inner.me@, keyed_view(inner.profiles@), strings_view(link_pks@)),
{
    let ghost me = inner.me@;
    let ghost pv = keyed_view(inner.profiles@);
    let ghost lv = strings_view(link_pks@);
    let ghost on_profile = |k: Seq<char>| pv.contains_key(k) && pv[k].status@ != "offline"@;
    let mut out: Vec<String> = Vec::new();
    let mut i: usize = 0;
    assert(strings_view(out@).to_set() =~= Set::<Seq<char>>::empty());
    while i < inner.profiles.len()
        invariant
            i <= inner.profiles.len(),
            me == inner.me@,
            pv == keyed_view(inner.profiles@),
            on_profile == (|k: Seq<char>| pv.contains_key(k) && pv[k].status@ != "offline"@),
            sorted_keys(strings_view(out@)),
            strings_view(out@).to_set() == Set::new(
                |k: Seq<char>|
                    k != me && on_profile(k) && exists|j: int| 0 <= j < i && #[trigger] inner.profiles@[j].0@ == k,
            ),
        decreases inner.profiles.len() - i,
    {
        let ghost before = strings_view(out@).to_set();
        let ghost k = inner.profiles@[i as int].0@;
        let key = &inner.profiles[i].0;
        let mut keep = false;
        if !crate::text::str_eq(key.as_str(), inner.me.as_str()) {
            match keyed_find(&inner.profiles, key.as_str()) {
                Some(j) => {
                    keep = !crate::text::str_eq(inner.profiles[j].1.status.as_str(), "offline");
                },
                None => {},
            }
        }
        proof {
            lemma_keyed_dom(inner.profiles@, k);
            assert(has_key(inner.profiles@, k));
            assert(keep == (k != me && on_profile(k)));
        }
        if keep {
            insert_sorted(&mut out, key.clone());
        }
        proof {
            assert(strings_view(out@).to_set() =~= Set::new(
                |x: Seq<char>|
                    x != me && on_profile(x) && exists|j: int| 0 <= j < i + 1 && #[trigger] inner.profiles@[j].0@ == x,
            )) by {
                assert forall|x: Seq<char>|
                    x != me && on_profile(x) && (exists|j: int| 0 <= j < i + 1 && #[trigger] inner.profiles@[j].0@ == x)
                    implies strings_view(out@).to_set().contains(x) by {
                    let j = choose|j: int| 0 <= j < i + 1 && #[trigger] inner.profiles@[j].0@ == x;
                    if j < i {
                        assert(before.contains(x));
                    }
                }
            }
        }
        i += 1;
    }
    let ghost from_profiles = strings_view(out@).to_set();
    proof {
        assert forall|k: Seq<char>| from_profiles.contains(k) <==> (k != me && on_profile(k)) by {
            lemma_keyed_dom(inner.profiles@, k);
            if k != me && on_profile(k) {
                assert(has_key(inner.profiles@, k));
                let j = choose|j: int| 0 <= j < inner.profiles@.len() && #[trigger] inner.profiles@[j].0@ == k;
                assert(exists|j: int| 0 <= j < i && #[trigger] inner.profiles@[j].0@ == k);
            }
        }
    }
    let mut m: usize = 0;
    while m < link_pks.len()
        invariant
            m <= link_pks.len(),
            me == inner.me@,
            lv == strings_view(link_pks@),
            sorted_keys(strings_view(out@)),
            strings_view(out@).to_set() == from_profiles.union(
                Set::new(|k: Seq<char>| k != me && lv.take(m as int).contains(k)),
            ),
        decreases link_pks.len() - m,
    {
        let ghost before = strings_view(out@).to_set();
        let ghost x = lv[m as int];
        assert(x == link_pks@[m as int]@);
        assert(lv.take(m + 1) =~= lv.take(m as int).push(x));
        if !crate::text::str_eq(link_pks[m].as_str(), inner.me.as_str()) {
            insert_sorted(&mut out, link_pks[m].clone());
        }
        proof {
            lv.take(m as int).lemma_push_to_set_commute(x);
            assert(strings_view(out@).to_set() =~= from_profiles.union(
                Set::new(|k: Seq<char>| k != me && lv.take(m + 1).contains(k)),
            )) by {
                assert forall|k: Seq<char>| lv.take(m + 1).contains(k) <==> (lv.take(m as int).contains(k) || k == x) by {
                    assert(lv.take(m + 1).to_set().contains(k) == lv.take(m + 1).contains(k));
                    assert(lv.take(m as int).to_set().contains(k) == lv.take(m as int).contains(k));
                }
                if x != me {
                    assert(strings_view(out@).to_set() == before.insert(x));
                } else {
                    assert(strings_view(out@).to_set() == before);
                }
                assert forall|k: Seq<char>|
                    #[trigger] strings_view(out@).to_set().contains(k) <==> (from_profiles.contains(k) || (k != me
                        && lv.take(m + 1).contains(k))) by {
                    assert(before.contains(k) <==> (from_profiles.contains(k) || (k != me && lv.take(
                        m as int,
                    ).contains(k))));
                }
            }
        }
        m += 1;
    }
    proof {
        assert(lv.take(link_pks.len() as int) =~= lv);
        assert(strings_view(out@).to_set() =~= online_members(me, pv, lv));
    }
    out
}

// ---------------------------------------------------------------------------
// Keeping shards replicated
// ---------------------------------------------------------------------------
/// Shard inventories as peers advertise them: key, archive id, indices.
pub open spec fn adverts_view(inv: Seq<(String, String, Vec<u8>)>) -> Seq<(Seq<char>, Seq<char>, Seq<u8>)> {
    inv.map_values(|e: (String, String, Vec<u8>)| (e.0@, e.1@, e.2@))
}

/// The inventories for archive `blob`, in order, by key and indices.
pub open spec fn for_blob(inv: Seq<(Seq<char>, Seq<char>, Seq<u8>)>, blob: Seq<char>) -> Seq<(Seq<char>, Seq<u8>)>
    decreases inv.len(),
{
    if inv.len() == 0 {
        Seq::empty()
    } else {
        let prev = for_blob(inv.drop_last(), blob);
        if inv.last().1 == blob {
            prev.push((inv.last().0, inv.last().2))
        } else {
            prev
        }
    }
}

/// How often `x` occurs in `s`.
pub open spec fn count_of(s: Seq<u8>, x: u8) -> nat
    decreases s.len(),
{
    if s.len() == 0 {
        0
    } else {
        count_of(s.drop_last(), x) + if s.last() == x {
            1nat
        } else {
            0nat
        }
    }
}

/// How often shard `x` is listed over all inventories.
pub open spec fn listed_count(inv: Seq<(Seq<char>, Seq<u8>)>, x: u8) -> nat
    decreases inv.len(),
{
    if inv.len() == 0 {
        0
    } else {
        listed_count(inv.drop_last(), x) + count_of(inv.last().1, x)
    }
}

/// The total length of the index lists.
pub open spec fn listed_len(inv: Seq<(Seq<char>, Seq<u8>)>) -> nat
    decreases inv.len(),
{
    if inv.len() == 0 {
        0
    } else {
        listed_len(inv.drop_last()) + inv.last().1.len()
    }
}

/// The copies of each of the six shards: the node's own plus those listed.
pub open spec fn copies_seq(mine: Seq<u8>, inv: Seq<(Seq<char>, Seq<u8>)>) -> Seq<usize> {
    Seq::new(6, |k: int| (count_of(mine, k as u8) + listed_count(inv, k as u8)) as usize)
}

/// The first inventory that lists shard `x`, by key.
pub open spec fn first_lister(inv: Seq<(Seq<char>, Seq<u8>)>, x: u8) -> Option<Seq<char>>
    decreases inv.len(),
{
    if inv.len() == 0 {
        None
    } else if inv[0].1.contains(x) {
        Some(inv[0].0)
    } else {
        first_lister(inv.drop_first(), x)
    }
}

/// Whether `v` is the online peer other than `me` that a spare copy of
/// shard `idx` goes to: it comes first in the repair order.
pub open spec fn best_repair_target(
    me: Seq<char>,
    online: Seq<Seq<char>>,
    inv: Seq<(Seq<char>, Seq<u8>)>,
    idx: u8,
    v: Seq<char>,
) -> bool {
    &&& others_of(me, online).contains(v)
    &&& forall|k: Seq<char>| #[trigger] others_of(me, online).contains(k) ==> repair_before(inv, idx, v, k)
}

/// The peer a spare copy of shard `idx` goes to, if any peer is online.
pub open spec fn repair_target(
    me: Seq<char>,
    online: Seq<Seq<char>>,
    inv: Seq<(Seq<char>, Seq<u8>)>,
    idx: u8,
) -> Option<Seq<char>> {
    if others_of(me, online) == Set::<Seq<char>>::empty() {
        None
    } else {
        Some(choose|v: Seq<char>| best_repair_target(me, online, inv, idx, v))
    }
}

/// A step that keeps a shard on enough online peers.
pub enum RepairStep {
    /// Send the node's copy of the shard to the peer.
    Push(u8, String),
    /// Ask the peer for the shard.
    Pull(u8, String),
}

/// A step as (whether it sends, shard, peer).
pub open spec fn step_view(s: RepairStep) -> (bool, u8, Seq<char>) {
    match s {
        RepairStep::Push(i, p) => (true, i, p@),
        RepairStep::Pull(i, p) => (false, i, p@),
    }
}

/// The step for weak shard `i`: send the node's own copy to the repair
/// target, or ask the first peer that lists the shard for it.
pub open spec fn step_of(
    me: Seq<char>,
    online: Seq<Seq<char>>,
    mine: Seq<u8>,
    inv: Seq<(Seq<char>, Seq<u8>)>,
    i: usize,
) -> Option<(bool, u8, Seq<char>)> {
    if mine.contains(i as u8) {
        match repair_target(me, online, inv, i as u8) {
            Some(t) => Some((true, i as u8, t)),
            None => None,
        }
    } else {
        match first_lister(inv, i as u8) {
            Some(p) => Some((false, i as u8, p)),
            None => None,
        }
    }
}

/// The steps for the weak shards, in order.
pub open spec fn steps_of(
    weak: Seq<usize>,
    me: Seq<char>,
    online: Seq<Seq<char>>,
    mine: Seq<u8>,
    inv: Seq<(Seq<char>, Seq<u8>)>,
) -> Seq<(bool, u8, Seq<char>)>
    decreases weak.len(),
{
    if weak.len() == 0 {
        Seq::empty()
    } else {
        let prev = steps_of(weak.drop_last(), me, online, mine, inv);
        match step_of(me, online, mine, inv, weak.last()) {
            Some(st) => prev.push(st),
            None => prev,
        }
    }
}

/// The shards with fewer copies than the swarm aims for, counting the node
/// itself among the online peers.
pub open spec fn weak_shards(online: Seq<Seq<char>>, mine: Seq<u8>, inv: Seq<(Seq<char>, Seq<u8>)>) -> Seq<usize> {
    index_range(6).filter(
        |i: usize| copies_seq(mine, inv)[i as int] < replica_target((online.len() + 1) as nat, MIN_ONLINE_REPLICAS as nat),
    )
}

/// The repair plan for archive `blob` (none without one).
pub open spec fn repair_plan_of(
    me: Seq<char>,
    online: Seq<Seq<char>>,
    blob: Seq<char>,
    mine: Seq<u8>,
    adverts: Seq<(Seq<char>, Seq<char>, Seq<u8>)>,
) -> Seq<(bool, u8, Seq<char>)> {
    if blob.len() == 0 {
        Seq::empty()
    } else {
        let inv = for_blob(adverts, blob);
        steps_of(weak_shards(online, mine, inv), me, online, mine, inv)
    }
}

proof fn lemma_count_le(s: Seq<u8>, x: u8)
    ensures
        count_of(s, x) <= s.len(),
    decreases s.len(),
{
    if s.len() > 0 {
        lemma_count_le(s.drop_last(), x);
    }
}

proof fn lemma_listed_le(inv: Seq<(Seq<char>, Seq<u8>)>, x: u8)
    ensures
        listed_count(inv, x) <= listed_len(inv),
    decreases inv.len(),
{
    if inv.len() > 0 {
        lemma_listed_le(inv.drop_last(), x);
        lemma_count_le(inv.last().1, x);
    }
}

proof fn lemma_listed_len_prefix(inv: Seq<(Seq<char>, Seq<u8>)>, e: int)
    requires
        0 <= e < inv.len(),
    ensures
        listed_len(inv.take(e)) + inv[e].1.len() <= listed_len(inv),
    decreases inv.len(),
{
    if e < inv.len() - 1 {
        assert(inv.drop_last().take(e) =~= inv.take(e));
        lemma_listed_len_prefix(inv.drop_last(), e);
    } else {
        assert(inv.drop_last() =~= inv.take(e));
    }
}

/// The repair order picks exactly one target.
proof fn lemma_repair_target_unique(
    me: Seq<char>,
    online: Seq<Seq<char>>,
    inv: Seq<(Seq<char>, Seq<u8>)>,
    idx: u8,
    v: Seq<char>,
)
    requires
        best_repair_target(me, online, inv, idx, v),
    ensures
        repair_target(me, online, inv, idx) == Some(v),
{
    assert(others_of(me, online).contains(v));
    assert(others_of(me, online) != Set::<Seq<char>>::empty());
    let w = choose|w: Seq<char>| best_repair_target(me, online, inv, idx, w);
    assert(best_repair_target(me, online, inv, idx, w));
    assert(repair_before(inv, idx, v, w));
    assert(repair_before(inv, idx, w, v));
    if v != w {
        if holds_shard(inv, v, idx) == holds_shard(inv, w, idx) {
            crate::text::lemma_seq_lt_asymmetric(v, w);
        }
    }
}

/// The first peer in `inv` that lists shard `x`.
fn first_lister_in(inv: &Vec<(String, Vec<u8>)>, x: u8) -> (r: Option<String>)
    ensures
        r matches Some(p) ==> first_lister(inventory_view(inv@), x) == Some(p@),
        r is None ==> first_lister(inventory_view(inv@), x) is None,
{
    let ghost iv = inventory_view(inv@);
    let mut i: usize = 0;
    assert(iv.skip(0) =~= iv);
    while i < inv.len()
        invariant
            i <= inv.len(),
            iv == inventory_view(inv@),
            first_lister(iv.skip(i as int), x) == first_lister(iv, x),
        decreases inv.len() - i,
    {
        assert(iv.skip(i as int)[0] == iv[i as int]);
        assert(iv.skip(i as int).drop_first() =~= iv.skip(i + 1));
        if contains_u8(inv[i].1.as_slice(), x) {
            return Some(inv[i].0.clone());
        }
        i += 1;
    }
    None
}

/// What a node does to keep each shard of archive `blob` on enough online
/// peers: it counts the copies of each shard (its own `mine`, and those that
/// peers advertise for this archive), and for each shard with fewer copies
/// than the swarm aims for (the node counts among the online peers) it
/// either sends its own copy to the repair target or asks the first peer
/// that lists the shard for it. No archive, no steps.
pub fn repair_plan(
    me: &str,
    online: &[String],
    blob: &str,
    mine: &[u8],
    adverts: &[(String, String, Vec<u8>)],
) -> (r: Vec<RepairStep>)
    requires
        online@.len() < usize::MAX,
        mine@.len() + listed_len(for_blob(adverts_view(adverts@), blob@)) <= usize::MAX,
    ensures
        r@.map_values(|s: RepairStep| step_view(s)) == repair_plan_of(
            me@,
            strings_view(online@),
            blob@,
            mine@,
            adverts_view(adverts@),
        ),
{
    let mut out: Vec<RepairStep> = Vec::new();
    if blob.is_empty() {
        assert(out@.map_values(|s: RepairStep| step_view(s)) =~= Seq::<(bool, u8, Seq<char>)>::empty());
        return out;
    }
    let ghost av = adverts_view(adverts@);
    let mut inv: Vec<(String, Vec<u8>)> = Vec::new();
    let mut a: usize = 0;
    while a < adverts.len()
        invariant
            a <= adverts.len(),
            av == adverts_view(adverts@),
            inventory_view(inv@) == for_blob(av.take(a as int), blob@),
        decreases adverts.len() - a,
    {
        assert(av.take(a + 1).drop_last() =~= av.take(a as int));
        assert(av.take(a + 1).last() == av[a as int]);
        if crate::text::str_eq(adverts[a].1.as_str(), blob) {
            let ghost before = inventory_view(inv@);
            let e = (adverts[a].0.clone(), copy_bytes(adverts[a].2.as_slice()));
            inv.push(e);
            assert(inventory_view(inv@) =~= before.push((av[a as int].0, av[a as int].2)));
        }
        a += 1;
    }
    assert(av.take(adverts.len() as int) =~= av);
    let ghost iv = inventory_view(inv@);
    let ghost mv = mine@;
    let mut copies: Vec<usize> = vec![0usize, 0usize, 0usize, 0usize, 0usize, 0usize];
    let mut i: usize = 0;
    while i < mine.len()
        invariant
            i <= mine.len(),
            mv == mine@,
            copies@.len() == 6,
            forall|k: int| 0 <= k < 6 ==> #[trigger] copies@[k] == count_of(mv.take(i as int), k as u8),
        decreases mine.len() - i,
    {
        assert(mv.take(i + 1).drop_last() =~= mv.take(i as int));
        let b = mine[i];
        if b < 6 {
            let bi = b as usize;
            proof {
                lemma_count_le(mv.take(i as int), b);
            }
            let c = copies[bi] + 1;
            copies.set(bi, c);
        }
        proof {
            assert forall|k: int| 0 <= k < 6 implies #[trigger] copies@[k] == count_of(mv.take(i + 1), k as u8) by {
                assert((k as u8) as int == k);
            }
        }
        i += 1;
    }
    assert(mv.take(mine.len() as int) =~= mv);
    proof {
        lemma_count_le(mv, 0);
    }
    let mut e: usize = 0;
    while e < inv.len()
        invariant
            e <= inv.len(),
            iv == inventory_view(inv@),
            mv == mine@,
            mine@.len() + listed_len(iv) <= usize::MAX,
            copies@.len() == 6,
            forall|k: int| 0 <= k < 6 ==> #[trigger] copies@[k] == count_of(mv, k as u8) + listed_count(iv.take(e as int), k as u8),
        decreases inv.len() - e,
    {
        let ghost cur = iv[e as int].1;
        assert(inv@[e as int].1@ == cur);
        proof {
            lemma_listed_len_prefix(iv, e as int);
        }
        let mut t: usize = 0;
        while t < inv[e].1.len()
            invariant
                e < inv.len(),
                t <= inv@[e as int].1@.len(),
                cur == inv@[e as int].1@,
                iv == inventory_view(inv@),
                mv == mine@,
                mine@.len() + listed_len(iv) <= usize::MAX,
                listed_len(iv.take(e as int)) + cur.len() <= listed_len(iv),
                copies@.len() == 6,
                forall|k: int|
                    0 <= k < 6 ==> #[trigger] copies@[k] == count_of(mv, k as u8) + listed_count(iv.take(e as int), k as u8)
                        + count_of(cur.take(t as int), k as u8),
            decreases inv@[e as int].1@.len() - t,
        {
            assert(cur.take(t + 1).drop_last() =~= cur.take(t as int));
            let b = inv[e].1[t];
            if b < 6 {
                let bi = b as usize;
                proof {
                    lemma_count_le(mv, b);
                    lemma_listed_le(iv.take(e as int), b);
                    lemma_count_le(cur.take(t as int), b);
                }
                let c = copies[bi] + 1;
                copies.set(bi, c);
            }
            proof {
                assert forall|k: int|
                    0 <= k < 6 implies #[trigger] copies@[k] == count_of(mv, k as u8) + listed_count(iv.take(e as int), k as u8)
                        + count_of(cur.take(t + 1), k as u8) by {
                    assert((k as u8) as int == k);
                }
            }
            t += 1;
        }
        proof {
            assert(cur.take(cur.len() as int) =~= cur);
            assert(iv.take(e + 1).drop_last() =~= iv.take(e as int));
            assert(iv.take(e + 1).last() == iv[e as int]);
        }
        e += 1;
    }
    assert(iv.take(inv.len() as int) =~= iv);
    proof {
        assert forall|k: int| 0 <= k < 6 implies #[trigger] copies@[k] == copies_seq(mv, iv)[k] by {
            lemma_count_le(mv, k as u8);
            lemma_listed_le(iv, k as u8);
        }
        assert(copies@ =~= copies_seq(mv, iv));
    }
    let n: usize = online.len() + 1;
    let weak = under_replicated(copies.as_slice(), n, MIN_ONLINE_REPLICAS);
    let ghost wv = weak@;
    let ghost ov = strings_view(online@);
    assert(wv == weak_shards(ov, mv, iv));
    proof {
        let f = |i: usize| copies_seq(mv, iv)[i as int] < replica_target((ov.len() + 1) as nat, MIN_ONLINE_REPLICAS as nat);
        assert forall|q: int| 0 <= q < wv.len() implies #[trigger] wv[q] < 6 by {
            assert(index_range(6).filter(f).contains(wv[q]));
            index_range(6).lemma_filter_contains_rev(f, wv[q]);
            let k = choose|k: int| 0 <= k < 6 && index_range(6)[k] == wv[q];
        }
    }
    let mut j: usize = 0;
    while j < weak.len()
        invariant
            j <= weak.len(),
            wv == weak@,
            iv == inventory_view(inv@),
            mv == mine@,
            ov == strings_view(online@),
            forall|q: int| 0 <= q < wv.len() ==> #[trigger] wv[q] < 6,
            out@.map_values(|s: RepairStep| step_view(s)) == steps_of(wv.take(j as int), me@, ov, mv, iv),
        decreases weak.len() - j,
    {
        let w = weak[j];
        assert(w < 6);
        assert(wv.take(j + 1).drop_last() =~= wv.take(j as int));
        assert(wv.take(j + 1).last() == w);
        let ghost before = out@.map_values(|s: RepairStep| step_view(s));
        let ib: u8 = w as u8;
        if contains_u8(mine, ib) {
            match pick_repair_target(me, online, inv.as_slice(), w) {
                Some(target) => {
                    proof {
                        assert((w % 256) as u8 == ib);
                        lemma_repair_target_unique(me@, ov, iv, ib, target@);
                    }
                    let st = RepairStep::Push(ib, target);
                    let ghost sv = step_view(st);
                    out.push(st);
                    assert(out@.map_values(|s: RepairStep| step_view(s)) =~= before.push(sv));
                },
                None => {},
            }
        } else {
            match first_lister_in(&inv, ib) {
                Some(p) => {
                    let st = RepairStep::Pull(ib, p);
                    let ghost sv = step_view(st);
                    out.push(st);
                    assert(out@.map_values(|s: RepairStep| step_view(s)) =~= before.push(sv));
                },
                None => {},
            }
        }
        j += 1;
    }
    assert(wv.take(weak.len() as int) =~= wv);
    out
}

// ---------------------------------------------------------------------------
// Restoring history from held shards
// ---------------------------------------------------------------------------
/// Held shards by index and bytes.
pub open spec fn held_view(held: Seq<(u8, Vec<u8>)>) -> Seq<(u8, Seq<u8>)> {
    held.map_values(|e: (u8, Vec<u8>)| (e.0, e.1@))
}

/// The piece for slot `k`: the bytes of the last held shard with index
/// `k`, if any.
pub open spec fn held_piece(held: Seq<(u8, Seq<u8>)>, k: int) -> Option<Seq<u8>>
    decreases held.len(),
{
    if held.len() == 0 {
        None
    } else if held.last().0 as int == k {
        Some(held.last().1)
    } else {
        held_piece(held.drop_last(), k)
    }
}

/// The six pieces that held shards give (indices past the last shard are
/// left out).
pub open spec fn held_slots(held: Seq<(u8, Seq<u8>)>) -> Seq<Option<Seq<u8>>> {
    Seq::new(6, |k: int| held_piece(held, k))
}

/// The archive that held shards give back: none from fewer than four held
/// entries, or when the pieces cannot be rebuilt or unpadded.
pub open spec fn restored(held: Seq<(u8, Seq<u8>)>) -> Option<Seq<u8>> {
    if held.len() < 4 {
        None
    } else if pieces_ok(held_slots(held)) {
        match unpadded(rs_rebuilt(held_slots(held)).take(4)) {
            Ok(b) => Some(b),
            Err(_) => None,
        }
    } else {
        None
    }
}

/// `Some` of the bytes of an `Ok` result.
pub open spec fn ok_bytes(r: Result<Seq<u8>, Seq<char>>) -> Option<Seq<u8>> {
    match r {
        Ok(b) => Some(b),
        Err(_) => None,
    }
}

/// The six pieces to rebuild an archive from, out of the shards a node
/// holds (index and bytes; a later shard for an index wins, indices past
/// the last shard are left out); none when it holds fewer than four.
pub fn restore_pieces(held: &[(u8, Vec<u8>)]) -> (r: Option<Vec<Option<Vec<u8>>>>)
    ensures
        r is None <==> held@.len() < 4,
        r matches Some(p) ==> pieces_view(p@) == held_slots(held_view(held@)),
{
    if held.len() < 4 {
        return None;
    }
    let ghost hv = held_view(held@);
    let mut pieces: Vec<Option<Vec<u8>>> = Vec::new();
    let mut k: usize = 0;
    while k < 6
        invariant
            k <= 6,
            pieces@.len() == k,
            forall|q: int| 0 <= q < k ==> #[trigger] pieces@[q] is None,
        decreases 6 - k,
    {
        pieces.push(None);
        k += 1;
    }
    let mut i: usize = 0;
    while i < held.len()
        invariant
            i <= held.len(),
            hv == held_view(held@),
            pieces@.len() == 6,
            forall|q: int| 0 <= q < 6 ==> #[trigger] pieces_view(pieces@)[q] == held_piece(hv.take(i as int), q),
        decreases held.len() - i,
    {
        assert(hv.take(i + 1).drop_last() =~= hv.take(i as int));
        assert(hv.take(i + 1).last() == hv[i as int]);
        let ghost before = pieces_view(pieces@);
        let index = held[i].0;
        if index < 6 {
            let data = copy_bytes(held[i].1.as_slice());
            pieces.set(index as usize, Some(data));
            assert(pieces_view(pieces@) =~= before.update(index as int, Some(hv[i as int].1)));
        }
        proof {
            assert forall|q: int| 0 <= q < 6 implies #[trigger] pieces_view(pieces@)[q] == held_piece(
                hv.take(i + 1),
                q,
            ) by {
                assert(before[q] == held_piece(hv.take(i as int), q));
            }
        }
        i += 1;
    }
    assert(hv.take(held.len() as int) =~= hv);
    assert(pieces_view(pieces@) =~= held_slots(hv));
    Some(pieces)
}

/// The archive bytes that the shards a node holds give back, when they
/// can be rebuilt; pieces that agree with the codeword of an archive's
/// data shards give back that archive.
pub fn restore_archive(held: &[(u8, Vec<u8>)]) -> (r: Option<Vec<u8>>)
    ensures
        (match r {
            Some(b) => Some(b@),
            None => None::<Seq<u8>>,
        }) == restored(held_view(held@)),
        forall|d: Seq<Seq<u8>>|
            held@.len() >= 4 && present_count(held_slots(held_view(held@))) >= 4 && #[trigger] consistent(
                held_slots(held_view(held@)),
                d,
            ) ==> (match r {
                Some(b) => Some(b@),
                None => None::<Seq<u8>>,
            }) == ok_bytes(unpadded(d)),
{
    let ghost o = held_slots(held_view(held@));
    match restore_pieces(held) {
        None => None,
        Some(mut pieces) => {
            assert(pieces_view(pieces@).len() == 6);
            match reconstruct(&mut pieces) {
                Ok(sealed) => Some(sealed),
                Err(_) => None,
            }
        },
    }
}

/// The members an archive is spread over: every peer with a profile, and
/// the node itself.
pub fn archive_members(inner: &Presence) -> (r: Vec<String>)
    ensures
        strings_view(r@).to_set() == keyed_view(inner.profiles@).dom().insert(inner.me@),
{
    let ghost pv = keyed_view(inner.profiles@);
    let mut out: Vec<String> = Vec::new();
    let mut i: usize = 0;
    while i < inner.profiles.len()
        invariant
            i <= inner.profiles.len(),
            out@.len() == i,
            forall|k: Seq<char>|
                #[trigger] strings_view(out@).contains(k) <==> exists|j: int|
                    0 <= j < i && #[trigger] inner.profiles@[j].0@ == k,
        decreases inner.profiles.len() - i,
    {
        let ghost before = strings_view(out@);
        let key = inner.profiles[i].0.clone();
        let ghost kv = key@;
        out.push(key);
        proof {
            assert(kv == inner.profiles@[i as int].0@);
            assert(strings_view(out@) =~= before.push(kv));
            assert forall|k: Seq<char>|
                #[trigger] strings_view(out@).contains(k) <==> exists|j: int|
                    0 <= j < i + 1 && #[trigger] inner.profiles@[j].0@ == k by {
                if strings_view(out@).contains(k) && k != kv {
                    let w = choose|w: int| 0 <= w < strings_view(out@).len() && strings_view(out@)[w] == k;
                    assert(before[w] == k);
                    assert(before.contains(k));
                }
                if k == kv {
                    assert(strings_view(out@)[i as int] == k);
                    assert(inner.profiles@[i as int].0@ == k);
                } else if exists|j: int| 0 <= j < i + 1 && #[trigger] inner.profiles@[j].0@ == k {
                    let j = choose|j: int| 0 <= j < i + 1 && #[trigger] inner.profiles@[j].0@ == k;
                    assert(j < i);
                    assert(before.contains(k));
                    let w = choose|w: int| 0 <= w < before.len() && before[w] == k;
                    assert(strings_view(out@)[w] == k);
                }
            }
        }
        i += 1;
    }
    let ghost keys = strings_view(out@);
    if !list_contains(out.as_slice(), inner.me.as_str()) {
        out.push(inner.me.clone());
    }
    proof {
        assert forall|k: Seq<char>| strings_view(out@).to_set().contains(k) <==> pv.dom().insert(inner.me@).contains(k) by {
            lemma_keyed_dom(inner.profiles@, k);
            if k != inner.me@ {
                if strings_view(out@).contains(k) {
                    let w = choose|w: int| 0 <= w < strings_view(out@).len() && strings_view(out@)[w] == k;
                    if w < keys.len() {
                        assert(keys[w] == k);
                        assert(keys.contains(k));
                    }
                }
                if keys.contains(k) {
                    let w = choose|w: int| 0 <= w < keys.len() && keys[w] == k;
                    assert(strings_view(out@)[w] == k);
                }
            } else {
                if keys.contains(k) {
                    let w = choose|w: int| 0 <= w < keys.len() && keys[w] == k;
                    assert(strings_view(out@)[w] == k);
                } else {
                    assert(strings_view(out@)[keys.len() as int] == k);
                }
            }
        }
        assert(strings_view(out@).to_set() =~= pv.dom().insert(inner.me@));
    }
    out
}

// ---------------------------------------------------------------------------
// History size and seeding records
// ---------------------------------------------------------------------------
/// The bytes a message counts for in the archive size: its text, sender
/// and channel in UTF-8, and 24 more.
pub open spec fn message_bytes(m: UiMessage) -> nat {
    encode_utf8(m.text@).len() + encode_utf8(m.sender@).len() + encode_utf8(m.channel@).len() + 24
}

/// The bytes of a history.
pub open spec fn history_bytes_of(msgs: Seq<UiMessage>) -> nat
    decreases msgs.len(),
{
    if msgs.len() == 0 {
        0
    } else {
        history_bytes_of(msgs.drop_last()) + message_bytes(msgs.last())
    }
}

/// The size of a community's history: the number of messages (as a `u32`,
/// which wraps past its range) and the bytes they count for.
pub fn history_size(messages: &[UiMessage]) -> (r: (u32, u64))
    requires
        history_bytes_of(messages@) <= u64::MAX,
    ensures
        r.0 == messages@.len() as u32,
        r.1 == history_bytes_of(messages@),
{
    let ghost mv = messages@;
    let mut bytes: u64 = 0;
    let mut i: usize = 0;
    while i < messages.len()
        invariant
            i <= messages.len(),
            mv == messages@,
            history_bytes_of(mv) <= u64::MAX,
            bytes == history_bytes_of(mv.take(i as int)),
        decreases messages.len() - i,
    {
        assert(mv.take(i + 1).drop_last() =~= mv.take(i as int));
        assert(mv.take(i + 1).last() == mv[i as int]);
        proof {
            lemma_history_prefix(mv, i + 1);
        }
        let m = &messages[i];
        let t = m.text.as_str().as_bytes().len() as u64;
        let s = m.sender.as_str().as_bytes().len() as u64;
        let c = m.channel.as_str().as_bytes().len() as u64;
        bytes = bytes + t + s + c + 24;
        i += 1;
    }
    assert(mv.take(messages.len() as int) =~= mv);
    (messages.len() as u32, bytes)
}

/// A prefix of a history has no more bytes than the whole.
proof fn lemma_history_prefix(msgs: Seq<UiMessage>, n: int)
    requires
        0 <= n <= msgs.len(),
    ensures
        history_bytes_of(msgs.take(n)) <= history_bytes_of(msgs),
    decreases msgs.len(),
{
    if n < msgs.len() {
        assert(msgs.drop_last().take(n) =~= msgs.take(n));
        lemma_history_prefix(msgs.drop_last(), n);
    } else {
        assert(msgs.take(n) =~= msgs);
    }
}

/// The seeding records after a new message takes the archive to `count`
/// messages: every other member with a profile that was seeded up to one
/// message short (or had no record, when `count` is at most one) is
/// recorded as seeded with `count`.
pub open spec fn seeded_bumped(
    seeded: Map<Seq<char>, u32>,
    me: Seq<char>,
    members: Set<Seq<char>>,
    count: u32,
) -> Map<Seq<char>, u32> {
    Map::new(
        |k: Seq<char>| seeded.contains_key(k) || (k != me && members.contains(k) && 1 >= count),
        |k: Seq<char>|
            if k != me && members.contains(k) && (if seeded.contains_key(k) {
                seeded[k] as int
            } else {
                0
            }) + 1 >= count {
                count
            } else {
                seeded[k]
            },
    )
}

/// Records the peers that a new message leaves fully seeded: each other
/// member with a profile whose record is at most one message short of the
/// archive's `count` messages is recorded with `count`.
pub fn bump_seeded(inner: &Presence, seeded: &mut Vec<(String, u32)>, count: u32)
    requires
        forall|k: Seq<char>| #[trigger] keyed_view(old(seeded)@).contains_key(k) ==> keyed_view(old(seeded)@)[k] < u32::MAX,
    ensures
        keyed_view(final(seeded)@) == seeded_bumped(
            keyed_view(old(seeded)@),
            inner.me@,
            keyed_view(inner.profiles@).dom(),
            count,
        ),
{
    let ghost orig = keyed_view(seeded@);
    let ghost me = inner.me@;
    let mut i: usize = 0;
    proof {
        assert(seeded_bumped(orig, me, Set::empty(), count) =~= orig);
    }
    while i < inner.profiles.len()
        invariant
            i <= inner.profiles.len(),
            me == inner.me@,
            keyed_view(seeded@) == seeded_bumped(
                orig,
                me,
                Set::new(|k: Seq<char>| exists|j: int| 0 <= j < i && #[trigger] inner.profiles@[j].0@ == k),
                count,
            ),
        decreases inner.profiles.len() - i,
    {
        let ghost done = Set::new(|k: Seq<char>| exists|j: int| 0 <= j < i && #[trigger] inner.profiles@[j].0@ == k);
        let ghost next = Set::new(|k: Seq<char>| exists|j: int| 0 <= j < i + 1 && #[trigger] inner.profiles@[j].0@ == k);
        let ghost kv = inner.profiles@[i as int].0@;
        assert(next =~= done.insert(kv)) by {
            assert forall|k: Seq<char>| next.contains(k) implies done.insert(kv).contains(k) by {
                let j = choose|j: int| 0 <= j < i + 1 && #[trigger] inner.profiles@[j].0@ == k;
                if j < i {
                    assert(done.contains(k));
                }
            }
            assert forall|k: Seq<char>| done.insert(kv).contains(k) implies next.contains(k) by {
                if k != kv {
                    let j = choose|j: int| 0 <= j < i && #[trigger] inner.profiles@[j].0@ == k;
                    assert(inner.profiles@[j].0@ == k);
                } else {
                    assert(inner.profiles@[i as int].0@ == k);
                }
            }
        }
        let key = &inner.profiles[i].0;
        if !crate::text::str_eq(key.as_str(), inner.me.as_str()) {
            let cur: u32 = match keyed_find(seeded, key.as_str()) {
                Some(j) => seeded[j].1,
                None => 0,
            };
            if cur as u64 + 1 >= count as u64 {
                keyed_set(seeded, key.as_str(), count);
            }
            proof {
                assert(keyed_view(seeded@) =~= seeded_bumped(orig, me, next, count));
            }
        } else {
            proof {
                assert(keyed_view(seeded@) =~= seeded_bumped(orig, me, next, count));
            }
        }
        i += 1;
    }
    proof {
        let done = Set::new(|k: Seq<char>| exists|j: int| 0 <= j < i && #[trigger] inner.profiles@[j].0@ == k);
        assert forall|k: Seq<char>| done.contains(k) <==> keyed_view(inner.profiles@).dom().contains(k) by {
            lemma_keyed_dom(inner.profiles@, k);
            if has_key(inner.profiles@, k) {
                let j = choose|j: int| 0 <= j < inner.profiles@.len() && #[trigger] inner.profiles@[j].0@ == k;
                assert(inner.profiles@[j].0@ == k);
            }
        }
        assert(done =~= keyed_view(inner.profiles@).dom());
    }
}

// ---------------------------------------------------------------------------
// The outbox
// ---------------------------------------------------------------------------
/// Frames longer than this many bytes are not kept for resending.
pub const OUTBOX_MAX_BYTES: usize = 48000;

/// How many frames the outbox keeps.
pub const OUTBOX_LEN: usize = 80;

/// The outbox after a frame is kept for resending: an empty frame, one of
/// more than 48000 bytes, or one already kept leaves it as it is; else the
/// frame goes last and only the last 80 frames stay.
pub open spec fn outbox_after(q: Seq<Seq<char>>, json: Seq<char>) -> Seq<Seq<char>> {
    if json.len() == 0 || encode_utf8(json).len() > OUTBOX_MAX_BYTES || q.contains(json) {
        q
    } else if q.len() + 1 > OUTBOX_LEN {
        q.push(json).skip(q.len() + 1 - OUTBOX_LEN)
    } else {
        q.push(json)
    }
}

/// Keeps a frame for resending to peers that connect later.
pub fn remember_outbox(outbox: &mut Vec<String>, json: &str)
    ensures
        strings_view(final(outbox)@) == outbox_after(strings_view(old(outbox)@), json@),
{
    if json.is_empty() || json.as_bytes().len() > OUTBOX_MAX_BYTES || list_contains(outbox.as_slice(), json) {
        return;
    }
    let ghost p = strings_view(outbox@).push(json@);
    let ghost before = strings_view(outbox@);
    outbox.push(json.to_owned());
    assert(strings_view(outbox@) =~= p);
    assert(p.len() == outbox@.len());
    assert(outbox@.len() == outbox.len());
    let mut dropped: usize = 0;
    while outbox.len() > OUTBOX_LEN
        invariant
            dropped <= p.len(),
            p.len() <= usize::MAX,
            strings_view(outbox@) == p.skip(dropped as int),
            outbox@.len() == p.len() - dropped,
            dropped > 0 ==> outbox@.len() >= OUTBOX_LEN,
            p.len() == before.len() + 1,
        decreases outbox.len(),
    {
        let ghost cur = strings_view(outbox@);
        outbox.remove(0);
        assert(strings_view(outbox@) =~= cur.drop_first());
        assert(p.skip(dropped as int).drop_first() =~= p.skip(dropped + 1));
        dropped += 1;
    }
    proof {
        if before.len() + 1 > OUTBOX_LEN {
            assert(dropped == before.len() + 1 - OUTBOX_LEN);
        } else {
            assert(dropped == 0);
            assert(p.skip(0) =~= p);
        }
    }
}

// ---------------------------------------------------------------------------
// Loading a stored community
// ---------------------------------------------------------------------------
/// `q` is `p` shown offline: the same profile, with status `offline`.
pub open spec fn shown_offline(p: PeerProfile, q: PeerProfile) -> bool {
    &&& q.display_name == p.display_name
    &&& q.avatar == p.avatar
    &&& q.muted == p.muted
    &&& q.deafened == p.deafened
    &&& q.sharing_screen == p.sharing_screen
    &&& q.status@ == "offline"@
}

/// Two keyed lists with the same keys in the same places, each value of the
/// second the first's shown offline, have views with the same keys, each
/// value shown offline.
proof fn lemma_keyed_offline(a: Seq<(String, PeerProfile)>, b: Seq<(String, PeerProfile)>, k: Seq<char>)
    requires
        a.len() == b.len(),
        forall|i: int| 0 <= i < a.len() ==> (#[trigger] a[i]).0@ == b[i].0@ && shown_offline(a[i].1, b[i].1),
    ensures
        keyed_view(a).contains_key(k) == keyed_view(b).contains_key(k),
        keyed_view(a).contains_key(k) ==> shown_offline(keyed_view(a)[k], keyed_view(b)[k]),
    decreases a.len(),
{
    if a.len() > 0 {
        assert forall|i: int| 0 <= i < a.len() - 1 implies (#[trigger] a.drop_last()[i]).0@ == b.drop_last()[i].0@
            && shown_offline(a.drop_last()[i].1, b.drop_last()[i].1) by {
            assert(a.drop_last()[i] == a[i]);
            assert(b.drop_last()[i] == b[i]);
        }
        assert(a[a.len() - 1].0@ == b[b.len() - 1].0@);
        lemma_keyed_offline(a.drop_last(), b.drop_last(), k);
    }
}

/// Takes in the profiles of a stored community: every peer shows offline
/// until heard from, and nobody sits in voice, left or joined voice, or
/// was seen yet.
pub fn load_session_presence(inner: &mut Presence, profiles: &[(String, PeerProfile)])
    ensures
        forall|k: Seq<char>|
            #[trigger] keyed_view(final(inner).profiles@).contains_key(k) == keyed_view(profiles@).contains_key(k),
        forall|k: Seq<char>|
            #[trigger] keyed_view(profiles@).contains_key(k) ==> shown_offline(
                keyed_view(profiles@)[k],
                keyed_view(final(inner).profiles@)[k],
            ),
        final(inner).voice@.len() == 0,
        final(inner).voice_left@.len() == 0,
        final(inner).voice_joined@.len() == 0,
        final(inner).last_seen@.len() == 0,
        crate::peer::same_self(*final(inner), *old(inner)),
{
    let mut loaded: Vec<(String, PeerProfile)> = Vec::new();
    let mut i: usize = 0;
    while i < profiles.len()
        invariant
            i <= profiles.len(),
            loaded@.len() == i,
            forall|j: int|
                0 <= j < i ==> (#[trigger] profiles@[j]).0@ == loaded@[j].0@ && shown_offline(
                    profiles@[j].1,
                    loaded@[j].1,
                ),
        decreases profiles.len() - i,
    {
        let p = &profiles[i].1;
        let q = PeerProfile {
            display_name: p.display_name.clone(),
            avatar: p.avatar.clone(),
            muted: p.muted,
            deafened: p.deafened,
            status: crate::peer::offline_status(),
            sharing_screen: p.sharing_screen,
        };
        loaded.push((profiles[i].0.clone(), q));
        i += 1;
    }
    proof {
        assert forall|k: Seq<char>| keyed_view(loaded@).contains_key(k) == keyed_view(profiles@).contains_key(k)
            && (keyed_view(profiles@).contains_key(k) ==> shown_offline(
            keyed_view(profiles@)[k],
            keyed_view(loaded@)[k],
        )) by {
            lemma_keyed_offline(profiles@, loaded@, k);
        }
    }
    inner.profiles = loaded;
    inner.voice = Vec::new();
    inner.voice_left = Vec::new();
    inner.voice_joined = Vec::new();
    inner.last_seen = Vec::new();
}

// ---------------------------------------------------------------------------
// Listen URLs
// ---------------------------------------------------------------------------
/// Adds a URL this node listens on, when it is worth dialing and new;
/// says whether it was added.
pub fn add_listen_url_to(listen_urls: &mut Vec<String>, url: &str) -> (r: bool)
    ensures
        r == (url@.len() > 0 && crate::dial::dial_ok(url@) && !strings_view(old(listen_urls)@).contains(url@)),
        r ==> strings_view(final(listen_urls)@) == strings_view(old(listen_urls)@).push(url@),
        !r ==> final(listen_urls)@ == old(listen_urls)@,
{
    if url.is_empty() || !crate::dial::should_dial(url) || list_contains(listen_urls.as_slice(), url) {
        return false;
    }
    let ghost before = strings_view(listen_urls@);
    listen_urls.push(url.to_owned());
    assert(strings_view(listen_urls@) =~= before.push(url@));
    true
}

/// The text channels of a stored community: `general` alone when it has
/// none.
pub fn session_text_channels(text_channels: Vec<String>) -> (r: Vec<String>)
    ensures
        text_channels@.len() == 0 ==> strings_view(r@) == seq!["general"@],
        text_channels@.len() > 0 ==> r@ == text_channels@,
{
    if text_channels.is_empty() {
        let r = vec!["general".to_owned()];
        assert(strings_view(r@) =~= seq!["general"@]);
        r
    } else {
        text_channels
    }
}

// ---------------------------------------------------------------------------
// Joining a call
// ---------------------------------------------------------------------------
/// The node takes a seat in the call room the user names: the room (under
/// its room name) is added to the call rooms unless there already, the node
/// leaves every other room and sits in this one, and the rooms are renamed
/// to room names. Gives the room name and whether the room was added.
pub fn take_own_seat(inner: &mut Presence, call_rooms: &mut Vec<String>, room: &str) -> (r: (String, bool))
    ensures
        r.0@ == slug_of(room@),
        r.1 == !strings_view(old(call_rooms)@).contains(r.0@),
        strings_view(final(call_rooms)@) == with_name(strings_view(old(call_rooms)@), r.0@),
        roster_view(final(inner).voice@) == regroup(
            seat(unseat(roster_view(old(inner).voice@), old(inner).me@), r.0@, old(inner).me@),
        ),
        final(inner).voice_left == old(inner).voice_left,
        final(inner).voice_joined == old(inner).voice_joined,
        final(inner).profiles == old(inner).profiles,
        final(inner).last_seen == old(inner).last_seen,
        same_self(*final(inner), *old(inner)),
{
    let slug = slug_name(room);
    let added = !list_contains(call_rooms.as_slice(), slug.as_str());
    if added {
        let ghost before = strings_view(call_rooms@);
        call_rooms.push(slug.clone());
        assert(strings_view(call_rooms@) =~= before.push(slug@));
    }
    let me = inner.me.clone();
    unseat_everywhere(&mut inner.voice, me.as_str());
    seat_in(&mut inner.voice, slug.as_str(), me.as_str());
    normalize_voice(&mut inner.voice);
    (slug, added)
}

// ---------------------------------------------------------------------------
// Sending a chat message
// ---------------------------------------------------------------------------
/// The text of a chat message as sent: trimmed; nothing is sent when it is
/// blank.
pub fn chat_text(text: &str) -> (r: Option<String>)
    ensures
        r is None <==> crate::text::trim_seq(text@).len() == 0,
        r matches Some(t) ==> t@ == crate::text::trim_seq(text@),
{
    let t = crate::text::trim_string(text);
    if t.as_str().is_empty() {
        None
    } else {
        Some(t)
    }
}

/// The channel a chat message goes to: the named channel's room name when
/// it is one of the community's text channels, else `general`.
pub fn chat_channel(channel: &str, text_channels: &[String]) -> (r: String)
    ensures
        r@ == (if strings_view(text_channels@).contains(slug_of(channel@)) {
            slug_of(channel@)
        } else {
            "general"@
        }),
{
    let slug = slug_name(channel);
    if list_contains(text_channels, slug.as_str()) {
        slug
    } else {
        "general".to_owned()
    }
}

/// Which community a chat message goes to.
#[derive(Clone, Copy, Debug, PartialEq, Eq, Structural)]
pub enum ChatTarget {
    /// The viewed community, stored but not live.
    Viewed,
    /// The live community.
    Live,
}

/// Whether two optional ids are the same.
pub open spec fn same_id(a: Option<&str>, b: Option<&str>) -> bool {
    match (a, b) {
        (Some(x), Some(y)) => x@ == y@,
        (None, None) => true,
        _ => false,
    }
}

/// Chooses the community a chat message goes to: the viewed one when it
/// is not the live one (`community not found` when it is not stored), else
/// the live one; `Join or create a community first.` without one.
pub fn chat_target(viewed: Option<&str>, live: Option<&str>, viewed_found: bool) -> (r: Result<ChatTarget, String>)
    ensures
        !same_id(viewed, live) && viewed is None ==> (r matches Err(e) && e@ == "Join or create a community first."@),
        !same_id(viewed, live) && viewed is Some && !viewed_found ==> (r matches Err(e) && e@ == "community not found"@),
        !same_id(viewed, live) && viewed is Some && viewed_found ==> r == Ok::<ChatTarget, String>(ChatTarget::Viewed),
        same_id(viewed, live) && live is None ==> (r matches Err(e) && e@ == "Join or create a community first."@),
        same_id(viewed, live) && live is Some ==> r == Ok::<ChatTarget, String>(ChatTarget::Live),
{
    let same = match (viewed, live) {
        (Some(x), Some(y)) => crate::text::str_eq(x, y),
        (None, None) => true,
        _ => false,
    };
    if !same {
        if viewed.is_none() {
            return Err("Join or create a community first.".to_owned());
        }
        if !viewed_found {
            return Err("community not found".to_owned());
        }
        return Ok(ChatTarget::Viewed);
    }
    if live.is_none() {
        return Err("Join or create a community first.".to_owned());
    }
    Ok(ChatTarget::Live)
}

// ---------------------------------------------------------------------------
// Leaving a community
// ---------------------------------------------------------------------------
/// What leaving the community a node views takes.
pub enum LeavePlan {
    /// No community is viewed: nothing to do.
    Stay,
    /// The node is in a call in another community: only the viewed one's
    /// stored copy is forgotten.
    ForgetViewed,
    /// The node's history shards go to this peer first, then it leaves.
    HandOff(String),
    /// No online peer can take the node's shards: the leave is refused with
    /// this message.
    Refuse(String),
    /// The node leaves.
    Leave,
}

/// The peer a leaving node hands its shards to: the least online key other
/// than the node and the owner, else the least other than the node.
pub open spec fn handoff_target_of(me: Seq<char>, owner: Seq<char>, online: Seq<Seq<char>>) -> Option<Seq<char>> {
    let o = others_of(me, online);
    if o == Set::<Seq<char>>::empty() {
        None
    } else if o.remove(owner) != Set::<Seq<char>>::empty() {
        Some(choose|v: Seq<char>| is_least(v, o.remove(owner)))
    } else {
        Some(choose|v: Seq<char>| is_least(v, o))
    }
}

/// Whether a leaving node holds shards that must be handed off first: it
/// holds some shard of the archive and some other peer is online.
pub open spec fn must_hand_off(me: Seq<char>, online: Seq<Seq<char>>, holders: Seq<Seq<char>>) -> bool {
    holders.contains(me) && exists|j: int| 0 <= j < online.len() && #[trigger] online[j] != me
}

/// The message a refused leave gives.
pub open spec fn refuse_text() -> Seq<char> {
    "No online peer to take your history shards. Leave anyway to risk the archive."@
}

/// The leave plan: nothing without a viewed community; only forgetting
/// the viewed community while in a call in another; a hand-off first when
/// the leave is not forced, some member is online and the node holds shards
/// of the viewed community's archive (refused when nobody can take them);
/// else a plain leave.
pub open spec fn leave_plan_is(
    r: LeavePlan,
    viewed: Option<Seq<char>>,
    live: Option<Seq<char>>,
    in_call: bool,
    force: bool,
    me: Seq<char>,
    owner: Seq<char>,
    online: Seq<Seq<char>>,
    holders: Option<Seq<Seq<char>>>,
) -> bool {
    match viewed {
        None => r is Stay,
        Some(v) => if in_call && live != Some(v) {
            r is ForgetViewed
        } else if !force && online.len() > 0 && (match holders {
            Some(h) => must_hand_off(me, online, h),
            None => false,
        }) {
            match handoff_target_of(me, owner, online) {
                Some(t) => r matches LeavePlan::HandOff(x) && x@ == t,
                None => r matches LeavePlan::Refuse(e) && e@ == refuse_text(),
            }
        } else {
            r is Leave
        },
    }
}

/// The least element of a set is unique.
proof fn lemma_least_unique(x: Seq<char>, y: Seq<char>, s: Set<Seq<char>>)
    requires
        is_least(x, s),
        is_least(y, s),
    ensures
        x == y,
{
    if x != y {
        assert(s.contains(y));
        assert(seq_lt_or_eq(x, y));
        assert(s.contains(x));
        crate::text::lemma_seq_lt_asymmetric(x, y);
    }
}

/// `x` comes before or is `y`.
spec fn seq_lt_or_eq(x: Seq<char>, y: Seq<char>) -> bool {
    x == y || crate::text::seq_lt(x, y)
}

/// Decides what leaving the viewed community takes (see `leave_plan_is`);
/// `holders` are the holders of the viewed community's archive, if it has
/// one.
pub fn leave_plan(
    viewed: Option<&str>,
    live: Option<&str>,
    in_call: bool,
    force: bool,
    me: &str,
    owner: &str,
    online: &[String],
    holders: Option<&[String]>,
) -> (r: LeavePlan)
    ensures
        leave_plan_is(
            r,
            match viewed {
                Some(v) => Some(v@),
                None => None,
            },
            match live {
                Some(v) => Some(v@),
                None => None,
            },
            in_call,
            force,
            me@,
            owner@,
            strings_view(online@),
            match holders {
                Some(h) => Some(strings_view(h@)),
                None => None,
            },
        ),
{
    let v = match viewed {
        None => {
            return LeavePlan::Stay;
        },
        Some(v) => v,
    };
    let same_live = match live {
        Some(l) => crate::text::str_eq(l, v),
        None => false,
    };
    if in_call && !same_live {
        return LeavePlan::ForgetViewed;
    }
    if force || online.len() == 0 {
        return LeavePlan::Leave;
    }
    let h = match holders {
        None => {
            return LeavePlan::Leave;
        },
        Some(h) => h,
    };
    let ghost ov = strings_view(online@);
    let ghost hv = strings_view(h@);
    assert(h@.len() == h.len());
    let need = handoff_indices(me, h, online);
    proof {
        let f = |i: usize| h@[i as int]@ == me@;
        if must_hand_off(me@, ov, hv) {
            let j = choose|j: int| 0 <= j < ov.len() && #[trigger] ov[j] != me@;
            assert(online@[j]@ != me@);
            let k = choose|k: int| 0 <= k < hv.len() && hv[k] == me@;
            assert(hv[k] == h@[k]@);
            assert(k < h@.len());
            assert((k as usize) as int == k);
            assert(index_range(h@.len())[k] == k as usize);
            assert(f(index_range(h@.len())[k]));
            index_range(h@.len()).lemma_filter_contains(f, k);
            assert(need@.len() > 0);
        } else if need@.len() > 0 {
            assert(exists|j: int| 0 <= j < online@.len() && #[trigger] online@[j]@ != me@);
            let j = choose|j: int| 0 <= j < online@.len() && #[trigger] online@[j]@ != me@;
            assert(ov[j] != me@);
            assert(need@ == index_range(h@.len()).filter(f));
            assert(index_range(h@.len()).filter(f).contains(need@[0]));
            index_range(h@.len()).lemma_filter_contains_rev(f, need@[0]);
            index_range(h@.len()).lemma_filter_pred(f, 0);
            assert(hv[need@[0] as int] == me@);
        }
    }
    if need.len() == 0 {
        return LeavePlan::Leave;
    }
    match pick_handoff_target(me, owner, online) {
        None => LeavePlan::Refuse(
            "No online peer to take your history shards. Leave anyway to risk the archive.".to_owned(),
        ),
        Some(t) => {
            proof {
                let o = others_of(me@, ov);
                if o.remove(owner@) != Set::<Seq<char>>::empty() {
                    lemma_least_unique(t@, choose|v: Seq<char>| is_least(v, o.remove(owner@)), o.remove(owner@));
                } else {
                    lemma_least_unique(t@, choose|v: Seq<char>| is_least(v, o), o);
                }
            }
            LeavePlan::HandOff(t)
        },
    }
}

// ---------------------------------------------------------------------------
// Joining and switching communities
// ---------------------------------------------------------------------------
/// Refreshes a stored community's peers from a new invite to it: every
/// non-empty invite peer becomes a known peer URL (each kept once), the
/// invite's peers replace the stored ones when there are any, and so do its
/// relays.
pub fn refresh_session_peers(
    known_peer_urls: &mut Vec<String>,
    invite_peers: &mut Vec<String>,
    relays: &mut Vec<String>,
    peers: &[String],
    new_relays: &[String],
)
    requires
        strings_view(old(known_peer_urls)@).no_duplicates(),
    ensures
        strings_view(final(known_peer_urls)@).no_duplicates(),
        strings_view(final(known_peer_urls)@).to_set() == strings_view(old(known_peer_urls)@).to_set().union(
            strings_view(peers@).to_set().filter(|u: Seq<char>| u.len() > 0),
        ),
        strings_view(final(invite_peers)@) == (if peers@.len() > 0 {
            strings_view(peers@)
        } else {
            strings_view(old(invite_peers)@)
        }),
        strings_view(final(relays)@) == (if new_relays@.len() > 0 {
            strings_view(new_relays@)
        } else {
            strings_view(old(relays)@)
        }),
{
    let ghost pv = strings_view(peers@);
    let ghost start = strings_view(known_peer_urls@).to_set();
    let mut i: usize = 0;
    while i < peers.len()
        invariant
            i <= peers.len(),
            pv == strings_view(peers@),
            strings_view(known_peer_urls@).no_duplicates(),
            strings_view(known_peer_urls@).to_set() == start.union(pv.take(i as int).to_set().filter(|u: Seq<char>| u.len() > 0)),
        decreases peers.len() - i,
    {
        let ghost x = pv[i as int];
        assert(pv.take(i + 1) =~= pv.take(i as int).push(x));
        proof {
            pv.take(i as int).lemma_push_to_set_commute(x);
        }
        if !peers[i].as_str().is_empty() {
            push_unique(known_peer_urls, &peers[i]);
        }
        assert(strings_view(known_peer_urls@).to_set() =~= start.union(
            pv.take(i + 1).to_set().filter(|u: Seq<char>| u.len() > 0),
        ));
        i += 1;
    }
    assert(pv.take(peers.len() as int) =~= pv);
    if peers.len() > 0 {
        *invite_peers = crate::peer::copy_list(peers);
    }
    if new_relays.len() > 0 {
        *relays = crate::peer::copy_list(new_relays);
    }
}

/// The peer URLs a newly joined community starts with: the invite's peers
/// worth dialing that do not reach this node itself, each once, in order.
pub open spec fn invite_known(
    peers: Seq<Seq<char>>,
    listen_url: Seq<char>,
    listen_urls: Seq<Seq<char>>,
    port: u16,
) -> Set<Seq<char>> {
    peers.to_set().filter(
        |u: Seq<char>| crate::dial::dial_ok(u) && !crate::dial::self_url(listen_url, listen_urls, port, u),
    )
}

/// The known peer URLs of a newly joined community, from its invite's
/// peers: those worth dialing that do not reach this node itself, each
/// once.
pub fn known_from_invite(peers: &[String], listen_url: &str, listen_urls: &Vec<String>, port: u16) -> (r: Vec<String>)
    ensures
        strings_view(r@).no_duplicates(),
        strings_view(r@).to_set() == invite_known(strings_view(peers@), listen_url@, strings_view(listen_urls@), port),
{
    let ghost pv = strings_view(peers@);
    let ghost keep = |u: Seq<char>|
        crate::dial::dial_ok(u) && !crate::dial::self_url(listen_url@, strings_view(listen_urls@), port, u);
    let mut out: Vec<String> = Vec::new();
    let mut i: usize = 0;
    assert(strings_view(out@).to_set() =~= pv.take(0).to_set().filter(keep));
    while i < peers.len()
        invariant
            i <= peers.len(),
            pv == strings_view(peers@),
            keep == (|u: Seq<char>|
                crate::dial::dial_ok(u) && !crate::dial::self_url(listen_url@, strings_view(listen_urls@), port, u)),
            strings_view(out@).no_duplicates(),
            strings_view(out@).to_set() == pv.take(i as int).to_set().filter(keep),
        decreases peers.len() - i,
    {
        let ghost x = pv[i as int];
        assert(pv.take(i + 1) =~= pv.take(i as int).push(x));
        proof {
            pv.take(i as int).lemma_push_to_set_commute(x);
        }
        let url = peers[i].as_str();
        if crate::dial::should_dial(url) && !crate::dial::is_self_url(listen_url, listen_urls, port, url) {
            push_unique(&mut out, &peers[i]);
        }
        assert(strings_view(out@).to_set() =~= pv.take(i + 1).to_set().filter(keep));
        i += 1;
    }
    assert(pv.take(peers.len() as int) =~= pv);
    out
}

/// What switching to a community takes.
#[derive(Clone, Copy, Debug, PartialEq, Eq, Structural)]
pub enum SwitchPlan {
    /// It is the live community: just view it.
    ViewLive,
    /// It is not stored.
    NotFound,
    /// The node is in a call: view the stored community without leaving.
    ViewOnly,
    /// Leave voice and make the stored community the live one.
    Activate,
}

/// Decides what switching to community `target` takes: viewing the live
/// one; else not found when it is not stored; else only viewing it while
/// in a call; else making it live.
pub fn switch_plan(live: Option<&str>, target: &str, in_call: bool, stored: bool) -> (r: SwitchPlan)
    ensures
        r == (if live matches Some(l) && l@ == target@ {
            SwitchPlan::ViewLive
        } else if !stored {
            SwitchPlan::NotFound
        } else if in_call {
            SwitchPlan::ViewOnly
        } else {
            SwitchPlan::Activate
        }),
{
    if let Some(l) = live {
        if crate::text::str_eq(l, target) {
            return SwitchPlan::ViewLive;
        }
    }
    if !stored {
        SwitchPlan::NotFound
    } else if in_call {
        SwitchPlan::ViewOnly
    } else {
        SwitchPlan::Activate
    }
}

/// Which stored community becomes live after the node leaves one: the one
/// whose lower-cased name comes first, the earliest in the list on a tie;
/// none when no community is stored.
pub fn next_community_index(names: &[String]) -> (r: Option<usize>)
    ensures
        r is None <==> names@.len() == 0,
        r matches Some(i) ==> {
            &&& i < names@.len()
            &&& forall|j: int|
                0 <= j < names@.len() ==> !crate::text::seq_lt(
                    crate::peer::lowercase_of(#[trigger] names@[j]@),
                    crate::peer::lowercase_of(names@[i as int]@),
                )
            &&& forall|j: int|
                0 <= j < i ==> crate::peer::lowercase_of(#[trigger] names@[j]@) != crate::peer::lowercase_of(
                    names@[i as int]@,
                )
        },
{
    if names.len() == 0 {
        return None;
    }
    let mut best: usize = 0;
    let mut best_low = crate::peer::to_lowercase(names[0].as_str());
    proof {
        crate::text::lemma_seq_lt_irreflexive(best_low@);
    }
    let mut i: usize = 1;
    while i < names.len()
        invariant
            1 <= i <= names.len(),
            best < i,
            best_low@ == crate::peer::lowercase_of(names@[best as int]@),
            forall|j: int|
                0 <= j < i ==> !crate::text::seq_lt(
                    crate::peer::lowercase_of(#[trigger] names@[j]@),
                    crate::peer::lowercase_of(names@[best as int]@),
                ),
            forall|j: int|
                0 <= j < best ==> crate::peer::lowercase_of(#[trigger] names@[j]@) != crate::peer::lowercase_of(
                    names@[best as int]@,
                ),
        decreases names.len() - i,
    {
        let low = crate::peer::to_lowercase(names[i].as_str());
        if crate::text::str_less(low.as_str(), best_low.as_str()) {
            proof {
                let nl = low@;
                assert forall|j: int| 0 <= j < i + 1 implies !crate::text::seq_lt(
                    crate::peer::lowercase_of(#[trigger] names@[j]@),
                    nl,
                ) by {
                    if j < i {
                        let lj = crate::peer::lowercase_of(names@[j]@);
                        if crate::text::seq_lt(lj, nl) {
                            crate::text::lemma_seq_lt_transitive(lj, nl, best_low@);
                        }
                    } else {
                        crate::text::lemma_seq_lt_irreflexive(nl);
                    }
                }
                assert forall|j: int| 0 <= j < i implies crate::peer::lowercase_of(#[trigger] names@[j]@) != nl by {
                    let lj = crate::peer::lowercase_of(names@[j]@);
                    if lj == nl {
                        crate::text::lemma_seq_lt_asymmetric(nl, best_low@);
                    }
                }
            }
            best = i;
            best_low = low;
        } else {
            proof {
                crate::text::lemma_seq_lt_total(low@, best_low@);
            }
        }
        i += 1;
    }
    Some(best)
}

// ---------------------------------------------------------------------------
// Frames from peers
// ---------------------------------------------------------------------------
/// How many recent frame hashes a node remembers.
pub const SEEN_LEN: usize = 2000;

/// The remembered frame hashes after frame hash `h` arrives: kept as they
/// are when `h` is among them, else `h` goes last and only the last 2000
/// stay.
pub open spec fn seen_after(order: Seq<u64>, h: u64) -> Seq<u64> {
    if order.contains(h) {
        order
    } else if order.len() + 1 > SEEN_LEN {
        order.push(h).skip(order.len() + 1 - SEEN_LEN)
    } else {
        order.push(h)
    }
}

/// Notes the hash of a frame that arrived: whether it was seen before
/// (among the last 2000 remembered).
pub fn note_seen(order: &mut Vec<u64>, h: u64) -> (r: bool)
    ensures
        r == old(order)@.contains(h),
        final(order)@ == seen_after(old(order)@, h),
{
    let mut i: usize = 0;
    while i < order.len()
        invariant
            i <= order.len(),
            forall|j: int| 0 <= j < i ==> order@[j] != h,
        decreases order.len() - i,
    {
        if order[i] == h {
            return true;
        }
        i += 1;
    }
    let ghost before = order@;
    let ghost p = order@.push(h);
    order.push(h);
    assert(order@ == p);
    assert(order@.len() == order.len());
    let mut dropped: usize = 0;
    while order.len() > SEEN_LEN
        invariant
            dropped <= p.len(),
            p.len() <= usize::MAX,
            order@ == p.skip(dropped as int),
            order@.len() == p.len() - dropped,
            dropped > 0 ==> order@.len() >= SEEN_LEN,
            p.len() == before.len() + 1,
        decreases order.len(),
    {
        let ghost cur = order@;
        order.remove(0);
        assert(order@ =~= cur.drop_first());
        assert(p.skip(dropped as int).drop_first() =~= p.skip(dropped + 1));
        dropped += 1;
    }
    proof {
        if before.len() + 1 <= SEEN_LEN {
            assert(p.skip(0) =~= p);
        }
    }
    false
}

/// Whether a frame from a peer is taken in: it arrived on the current link
/// generation, it is not a repeat (repeats of `rtc` frames still pass), the
/// node has a live community, and the frame names no other community.
pub fn accept_remote(
    link_gen: u64,
    frame_gen: u64,
    kind: &str,
    duplicate: bool,
    live_id: Option<&str>,
    frame_community: Option<&str>,
) -> (r: bool)
    ensures
        r == (link_gen == frame_gen && !(duplicate && kind@ != "rtc"@) && live_id is Some && (
        frame_community is None || frame_community.unwrap()@.len() == 0 || frame_community.unwrap()@
            == live_id.unwrap()@)),
{
    if link_gen != frame_gen {
        return false;
    }
    if duplicate && !crate::text::str_eq(kind, "rtc") {
        return false;
    }
    match live_id {
        None => false,
        Some(id) => crate::peer::frame_matches_community(frame_community, id),
    }
}

// ---------------------------------------------------------------------------
// Links and the owner's hub
// ---------------------------------------------------------------------------
/// Whether a community's relays all lead back to this node (or there are
/// none): its owner then serves as the hub itself.
pub open spec fn local_hub(relays: Seq<Seq<char>>, listen_url: Seq<char>, listen_urls: Seq<Seq<char>>, port: u16) -> bool {
    forall|i: int| 0 <= i < relays.len() ==> crate::dial::self_url(listen_url, listen_urls, port, #[trigger] relays[i])
}

/// Whether a community's relays all lead back to this node.
pub fn uses_local_hub(relays: &[String], listen_url: &str, listen_urls: &Vec<String>, port: u16) -> (r: bool)
    ensures
        r == local_hub(strings_view(relays@), listen_url@, strings_view(listen_urls@), port),
{
    let ghost rv = strings_view(relays@);
    let mut i: usize = 0;
    while i < relays.len()
        invariant
            i <= relays.len(),
            rv == strings_view(relays@),
            forall|j: int|
                0 <= j < i ==> crate::dial::self_url(listen_url@, strings_view(listen_urls@), port, #[trigger] rv[j]),
        decreases relays.len() - i,
    {
        if !crate::dial::is_self_url(listen_url, listen_urls, port, relays[i].as_str()) {
            assert(!crate::dial::self_url(listen_url@, strings_view(listen_urls@), port, rv[i as int]));
            return false;
        }
        i += 1;
    }
    true
}

/// The owner of a community whose relays lead back to itself advertises
/// its own reachable URLs as the community's relays; anyone else keeps
/// them. Says whether they changed hands.
pub fn refresh_owner_hub(
    relays: &mut Vec<String>,
    is_owner: bool,
    listen_url: &str,
    listen_urls: &Vec<String>,
    port: u16,
) -> (r: bool)
    ensures
        r == (is_owner && local_hub(strings_view(old(relays)@), listen_url@, strings_view(listen_urls@), port)),
        r ==> strings_view(final(relays)@) == crate::dial::invite_peers_of(strings_view(listen_urls@), listen_url@),
        !r ==> final(relays)@ == old(relays)@,
{
    if !is_owner || !uses_local_hub(relays.as_slice(), listen_url, listen_urls, port) {
        return false;
    }
    *relays = crate::dial::invite_peer_list(listen_urls.as_slice(), listen_url);
    true
}

/// Remembers which peer key a link belongs to: not for a missing or blank
/// link, a relay link, or a blank key.
pub fn remember_link_pk(link_pks: &mut Vec<(String, String)>, url: Option<&str>, pk: &str)
    ensures
        (match url {
            Some(u) => u@.len() > 0 && !crate::dial::relay_key(u@) && pk@.len() > 0,
            None => false,
        }) ==> {
            &&& keyed_view(final(link_pks)@).dom() == keyed_view(old(link_pks)@).dom().insert(url.unwrap()@)
            &&& keyed_view(final(link_pks)@)[url.unwrap()@]@ == pk@
            &&& forall|k: Seq<char>|
                k != url.unwrap()@ && #[trigger] keyed_view(old(link_pks)@).contains_key(k) ==> keyed_view(
                    final(link_pks)@,
                )[k] == keyed_view(old(link_pks)@)[k]
        },
        !(match url {
            Some(u) => u@.len() > 0 && !crate::dial::relay_key(u@) && pk@.len() > 0,
            None => false,
        }) ==> final(link_pks)@ == old(link_pks)@,
        crate::keyed::keys_unique(old(link_pks)@) ==> crate::keyed::keys_unique(final(link_pks)@),
{
    let u = match url {
        None => {
            return;
        },
        Some(u) => u,
    };
    if u.is_empty() || crate::dial::is_relay_key(u) || pk.is_empty() {
        return;
    }
    let v = pk.to_owned();
    keyed_set(link_pks, u, v);
    assert(keyed_view(link_pks@).dom() =~= keyed_view(old(link_pks)@).dom().insert(u@));
}

// ---------------------------------------------------------------------------
// Shard frames
// ---------------------------------------------------------------------------
/// Bytes in increasing order.
pub open spec fn bytes_sorted(s: Seq<u8>) -> bool {
    forall|i: int, j: int| 0 <= i < j < s.len() ==> s[i] <= s[j]
}

/// The same bytes in increasing order.
fn sort_bytes(v: Vec<u8>) -> (r: Vec<u8>)
    ensures
        r@.to_multiset() == v@.to_multiset(),
        bytes_sorted(r@),
{
    broadcast use vstd::seq_lib::group_to_multiset_ensures;

    let ghost orig = v@.to_multiset();
    let mut rest = v;
    let mut out: Vec<u8> = Vec::new();
    while rest.len() > 0
        invariant
            out@.to_multiset().add(rest@.to_multiset()) == orig,
            bytes_sorted(out@),
            forall|i: int, j: int| 0 <= i < out@.len() && 0 <= j < rest@.len() ==> out@[i] <= rest@[j],
        decreases rest.len(),
    {
        let mut best: usize = 0;
        let mut k: usize = 1;
        while k < rest.len()
            invariant
                1 <= k <= rest@.len(),
                best < k,
                forall|j: int| 0 <= j < k ==> rest@[best as int] <= rest@[j],
            decreases rest.len() - k,
        {
            if rest[k] < rest[best] {
                best = k;
            }
            k += 1;
        }
        let ghost r0 = rest@;
        let ghost o0 = out@;
        let picked = rest.remove(best);
        proof {
            vstd::seq_lib::to_multiset_remove(r0, best as int);
            vstd::seq_lib::to_multiset_build(o0, picked);
            vstd::seq_lib::to_multiset_contains(r0, picked);
        }
        out.push(picked);
        proof {
            assert(out@ == o0.push(picked));
            assert(out@.to_multiset() =~= o0.to_multiset().insert(picked));
            assert(out@.to_multiset().add(rest@.to_multiset()) =~= orig);
            assert forall|i: int, j: int| 0 <= i < out@.len() && 0 <= j < rest@.len() implies out@[i] <= rest@[j] by {
                let jj = if j < best { j } else { j + 1 };
                assert(rest@[j] == r0[jj]);
                if i < o0.len() {
                    assert(out@[i] == o0[i]);
                }
            }
        }
    }
    assert(rest@.to_multiset() =~= vstd::multiset::Multiset::empty());
    assert(out@.to_multiset().add(rest@.to_multiset()) =~= out@.to_multiset());
    out
}

/// A peer's advertised shards after it pushes shard `index` of archive
/// `blob` to this node: an entry for that archive without the shard gets
/// it, its indices then in increasing order; a peer without an entry gets
/// one with that shard alone (unless its key is blank); otherwise nothing
/// changes.
pub fn note_pushed_shard(inventory: &mut Vec<(String, (String, Vec<u8>))>, from: &str, blob: &str, index: u8)
    ensures
        ({
            let o = keyed_view(old(inventory)@);
            let n = keyed_view(final(inventory)@);
            if o.contains_key(from@) {
                if o[from@].0@ == blob@ && !o[from@].1@.contains(index) {
                    &&& n.dom() == o.dom()
                    &&& n[from@].0@ == blob@
                    &&& n[from@].1@.to_multiset() == o[from@].1@.push(index).to_multiset()
                    &&& bytes_sorted(n[from@].1@)
                    &&& forall|k: Seq<char>| k != from@ && #[trigger] o.contains_key(k) ==> n[k] == o[k]
                } else {
                    final(inventory)@ == old(inventory)@
                }
            } else if from@.len() > 0 {
                &&& n.dom() == o.dom().insert(from@)
                &&& n[from@].0@ == blob@
                &&& n[from@].1@ == seq![index]
                &&& forall|k: Seq<char>| k != from@ && #[trigger] o.contains_key(k) ==> n[k] == o[k]
            } else {
                final(inventory)@ == old(inventory)@
            }
        }),
        crate::keyed::keys_unique(old(inventory)@) ==> crate::keyed::keys_unique(final(inventory)@),
{
    match keyed_find(inventory, from) {
        Some(i) => {
            if crate::text::str_eq(inventory[i].1.0.as_str(), blob) && !contains_u8(inventory[i].1.1.as_slice(), index) {
                let mut list = copy_bytes(inventory[i].1.1.as_slice());
                list.push(index);
                let sorted = sort_bytes(list);
                let entry = (inventory[i].1.0.clone(), sorted);
                keyed_set(inventory, from, entry);
                assert(keyed_view(inventory@).dom() =~= keyed_view(old(inventory)@).dom());
            }
        },
        None => {
            if !from.is_empty() {
                let entry = (blob.to_owned(), vec![index]);
                keyed_set(inventory, from, entry);
                assert(keyed_view(inventory@).dom() =~= keyed_view(old(inventory)@).dom().insert(from@));
            }
        },
    }
}

/// Whether a shard acknowledgement ends the wait for a hand-off: the wait
/// is for the acknowledged archive, and the acknowledgement comes from the
/// peer waited for or names no sender.
pub fn handoff_acked(wait: Option<(&str, &str)>, blob: &str, from: &str) -> (r: bool)
    ensures
        r == (match wait {
            Some((b, pk)) => b@ == blob@ && (from@.len() == 0 || from@ == pk@),
            None => false,
        }),
{
    match wait {
        Some((b, pk)) => crate::text::str_eq(b, blob) && (from.is_empty() || crate::text::str_eq(from, pk)),
        None => false,
    }
}

/// Whether a node asks a peer that said hello for its history: the peer
/// holds more messages than the node.
pub fn wants_history(their_count: u32, our_count: u32) -> (r: bool)
    ensures
        r == (their_count > our_count),
{
    their_count > our_count
}

// ---------------------------------------------------------------------------
// Laws
// ---------------------------------------------------------------------------
/// The outbox never holds more than 80 frames nor a frame twice: keeping a
/// frame in an outbox that meets this leaves one that meets it.
pub proof fn law_outbox_bounded(q: Seq<Seq<char>>, json: Seq<char>)
    requires
        q.len() <= OUTBOX_LEN,
        q.no_duplicates(),
    ensures
        outbox_after(q, json).len() <= OUTBOX_LEN,
        outbox_after(q, json).no_duplicates(),
{
    let p = q.push(json);
    if !(json.len() == 0 || encode_utf8(json).len() > OUTBOX_MAX_BYTES || q.contains(json)) {
        assert forall|i: int, j: int| 0 <= i < j < p.len() implies p[i] != p[j] by {
            if j == q.len() {
                assert(q[i] == p[i]);
            }
        }
        if q.len() + 1 > OUTBOX_LEN {
            let t = p.skip(q.len() + 1 - OUTBOX_LEN);
            assert forall|i: int, j: int| 0 <= i < j < t.len() implies t[i] != t[j] by {
                let off = q.len() + 1 - OUTBOX_LEN;
                assert(t[i] == p[i + off]);
                assert(t[j] == p[j + off]);
            }
        }
    }
}

/// A frame that is not empty and not too long is in the outbox once kept:
/// the newest frame is never the one dropped.
pub proof fn law_outbox_keeps_frame(q: Seq<Seq<char>>, json: Seq<char>)
    requires
        json.len() > 0,
        encode_utf8(json).len() <= OUTBOX_MAX_BYTES,
    ensures
        outbox_after(q, json).contains(json),
{
    if !q.contains(json) {
        let p = q.push(json);
        assert(p[p.len() - 1] == json);
        if q.len() + 1 > OUTBOX_LEN {
            let t = p.skip(q.len() + 1 - OUTBOX_LEN);
            assert(t[t.len() - 1] == json);
        }
    }
}

/// After leaving a call the node sits in no room.
pub proof fn law_left_call_unseated(r: Map<Seq<char>, Set<Seq<char>>>, me: Seq<char>)
    ensures
        !seated(regroup(unseat(r, me)), me),
{
    let g = regroup(unseat(r, me));
    if seated(g, me) {
        let room = choose|room: Seq<char>| #[trigger] g.contains_key(room) && g[room].contains(me);
        let src = choose|src: Seq<char>|
            unseat(r, me).contains_key(src) && #[trigger] slug_of(src) == room && unseat(r, me)[src].contains(me);
        assert(!unseat(r, me)[src].contains(me));
    }
}

/// Adding a room twice leaves the lists as adding it once.
pub proof fn law_add_room_once(list: Seq<Seq<char>>, name: Seq<char>)
    ensures
        with_name(with_name(list, name), name) == with_name(list, name),
{
    if !list.contains(name) {
        assert(list.push(name)[list.len() as int] == name);
    }
}

/// The held pieces for slot `k` are the archive's shard `k`, when every held
/// shard is the archive's shard of its index.
proof fn lemma_held_piece_is_shard(held: Seq<(u8, Seq<u8>)>, shards: Seq<Seq<u8>>, k: int)
    requires
        shards.len() == 6,
        forall|i: int| 0 <= i < held.len() ==> (#[trigger] held[i]).0 < 6 && held[i].1 == shards[held[i].0 as int],
        0 <= k < 6,
    ensures
        held_piece(held, k) matches Some(b) ==> b == shards[k],
    decreases held.len(),
{
    if held.len() > 0 {
        assert forall|i: int| 0 <= i < held.len() - 1 implies (#[trigger] held.drop_last()[i]).0 < 6
            && held.drop_last()[i].1 == shards[held.drop_last()[i].0 as int] by {
            assert(held.drop_last()[i] == held[i]);
        }
        assert(held.last() == held[held.len() - 1]);
        lemma_held_piece_is_shard(held.drop_last(), shards, k);
    }
}

/// A node that holds at least four of the six shards that `encode` made of
/// an archive gets the archive back: its pieces agree with the archive's
/// data shards, which read back as the archive (so `restore_archive` gives
/// it).
pub proof fn law_restore_after_loss(data: Seq<u8>, shards: Seq<Seq<u8>>, held: Seq<(u8, Seq<u8>)>)
    requires
        0 < data.len() < 4294967296,
        encoded(data, shards),
        forall|i: int| 0 <= i < held.len() ==> (#[trigger] held[i]).0 < 6 && held[i].1 == shards[held[i].0 as int],
        present_count(held_slots(held)) >= 4,
    ensures
        consistent(held_slots(held), padded(data)),
        ok_bytes(unpadded(padded(data))) == Some(data),
{
    let pieces = held_slots(held);
    assert forall|i: int| 0 <= i < 6 && (#[trigger] pieces[i]) is Some implies pieces[i]->0 == shards[i] by {
        lemma_held_piece_is_shard(held, shards, i);
    }
    law_archive_survives_lost_shards(data, shards, pieces);
}

/// A frame hash is remembered once: notes never hold more than 2000
/// hashes nor a hash twice.
pub proof fn law_seen_bounded(order: Seq<u64>, h: u64)
    requires
        order.len() <= SEEN_LEN,
        order.no_duplicates(),
    ensures
        seen_after(order, h).len() <= SEEN_LEN,
        seen_after(order, h).no_duplicates(),
        seen_after(order, h).contains(h),
{
    if !order.contains(h) {
        let p = order.push(h);
        assert forall|i: int, j: int| 0 <= i < j < p.len() implies p[i] != p[j] by {
            if j == order.len() {
                assert(order[i] == p[i]);
            }
        }
        assert(p[p.len() - 1] == h);
        if order.len() + 1 > SEEN_LEN {
            let off = order.len() + 1 - SEEN_LEN;
            let t = p.skip(off);
            assert forall|i: int, j: int| 0 <= i < j < t.len() implies t[i] != t[j] by {
                assert(t[i] == p[i + off]);
                assert(t[j] == p[j + off]);
            }
            assert(t[t.len() - 1] == h);
        }
    }
}

} // verus!
