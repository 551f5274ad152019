//! What the user interface is shown: communities, the call the node sits
//! in, the whole state, and chat messages.
use vstd::prelude::*;
use crate::crypto::{b64_url, encode_invite, packed_invite, Community, Invite};
use crate::erasure::{insert_sorted, sorted_keys};
use crate::keyed::{keyed_view};
use crate::peer::{
    live_status, live_status_of, normalize_status, own_shown, peer_in_voice, roster_view, seated,
    status_word, PeerProfile, Presence,
};
use crate::relay::strings_view;
use crate::text::str_eq;

verus! {

/// A community the node has joined, as listed to the user.
pub struct UiCommunity {
    pub id: String,
    pub name: String,
}

/// A community stored on this node: its id and name.
pub struct CommunityInfo {
    pub id: String,
    pub name: String,
}

/// The call the node sits in: its community, room, roster and profiles.
pub struct UiLiveCall {
    pub community_id: String,
    pub community_name: String,
    pub owner_key: String,
    pub room: String,
    pub voice: Vec<(String, Vec<String>)>,
    pub profiles: Vec<(String, PeerProfile)>,
}

/// Everything the user interface shows.
pub struct UiState {
    pub public_key: String,
    pub display_name: String,
    pub avatar: String,
    pub community_name: String,
    pub community_id: String,
    pub communities: Vec<UiCommunity>,
    pub invite: String,
    pub listen_url: String,
    pub listen_urls: Vec<String>,
    pub peers: Vec<String>,
    pub text_channels: Vec<String>,
    pub call_rooms: Vec<String>,
    pub voice: Vec<(String, Vec<String>)>,
    pub profiles: Vec<(String, PeerProfile)>,
    pub owner_key: String,
    pub archive_bytes: u64,
    pub archive_messages: u32,
    pub seed_sent: u64,
    pub seed_total: u64,
    pub seed_active: bool,
    pub seeding: Vec<String>,
    pub live_call: Option<UiLiveCall>,
    pub archive_status: String,
}

/// A chat message as shown: sender, text, time, channel, whether this
/// node sent it, and its community.
#[derive(Debug, PartialEq, Eq)]
pub struct UiMessage {
    pub sender: String,
    pub text: String,
    pub ts: i64,
    pub channel: String,
    pub is_self: bool,
    pub community_id: String,
}

/// The roster as shown: each room with its people sorted, without repeats.
pub fn snapshot_voice(voice: &Vec<(String, Vec<String>)>) -> (r: Vec<(String, Vec<String>)>)
    ensures
        r@.len() == voice@.len(),
        forall|i: int| 0 <= i < r@.len() ==> {
            &&& (#[trigger] r@[i]).0@ == voice@[i].0@
            &&& sorted_keys(strings_view(r@[i].1@))
            &&& strings_view(r@[i].1@).to_set() == strings_view(voice@[i].1@).to_set()
        },
{
    let mut out: Vec<(String, Vec<String>)> = Vec::new();
    let mut i: usize = 0;
    while i < voice.len()
        invariant
            i <= voice.len(),
            out@.len() == i,
            forall|j: int| 0 <= j < i ==> {
                &&& (#[trigger] out@[j]).0@ == voice@[j].0@
                &&& sorted_keys(strings_view(out@[j].1@))
                &&& strings_view(out@[j].1@).to_set() == strings_view(voice@[j].1@).to_set()
            },
        decreases voice.len() - i,
    {
        let people = &voice[i].1;
        let ghost pv = strings_view(people@);
        let mut list: Vec<String> = Vec::new();
        let mut k: usize = 0;
        assert(pv.take(0).to_set() =~= Set::<Seq<char>>::empty());
        assert(strings_view(list@).to_set() =~= Set::<Seq<char>>::empty());
        while k < people.len()
            invariant
                k <= people.len(),
                pv == strings_view(people@),
                sorted_keys(strings_view(list@)),
                strings_view(list@).to_set() == pv.take(k as int).to_set(),
            decreases people.len() - k,
        {
            insert_sorted(&mut list, people[k].clone());
            proof {
                assert(pv.take(k + 1) =~= pv.take(k as int).push(pv[k as int]));
                pv.take(k as int).lemma_push_to_set_commute(pv[k as int]);
            }
            k += 1;
        }
        assert(pv.take(people.len() as int) =~= pv);
        out.push((voice[i].0.clone(), list));
        i += 1;
    }
    out
}

/// The room the node itself sits in, if any (the first that lists it).
pub fn call_room(voice: &Vec<(String, Vec<String>)>, me: &str) -> (r: Option<String>)
    ensures
        r matches Some(room) ==> roster_view(voice@).contains_key(room@) && roster_view(voice@)[room@].contains(me@),
        r is None <==> !seated(roster_view(voice@), me@),
{
    let mut i: usize = 0;
    while i < voice.len()
        invariant
            i <= voice.len(),
            forall|j: int| 0 <= j < i ==> !(#[trigger] strings_view(voice@[j].1@)).contains(me@),
        decreases voice.len() - i,
    {
        let mut k: usize = 0;
        let ghost pv = strings_view(voice@[i as int].1@);
        while k < voice[i].1.len()
            invariant
                i < voice.len(),
                k <= voice@[i as int].1@.len(),
                pv == strings_view(voice@[i as int].1@),
                forall|m: int| 0 <= m < k ==> pv[m] != me@,
            decreases voice@[i as int].1@.len() - k,
        {
            if str_eq(voice[i].1[k].as_str(), me) {
                proof {
                    let room = voice@[i as int].0@;
                    assert(pv[k as int] == me@);
                    assert(crate::peer::room_has(voice@, room, me@));
                    assert(crate::peer::has_room(voice@, room));
                    assert(roster_view(voice@).contains_key(room) && roster_view(voice@)[room].contains(me@));
                }
                return Some(voice[i].0.clone());
            }
            k += 1;
        }
        proof {
            if pv.contains(me@) {
                let m = choose|m: int| 0 <= m < pv.len() && pv[m] == me@;
            }
        }
        i += 1;
    }
    proof {
        if seated(roster_view(voice@), me@) {
            let room = choose|room: Seq<char>| #[trigger] roster_view(voice@).contains_key(room) && roster_view(voice@)[room].contains(me@);
            assert(crate::peer::room_has(voice@, room, me@));
            let j = choose|j: int| 0 <= j < voice@.len() && #[trigger] voice@[j].0@ == room && strings_view(voice@[j].1@).contains(me@);
            assert(!strings_view(voice@[j].1@).contains(me@));
        }
    }
    None
}

/// `q` is profile `src` as shown in the state: status `status`, screen
/// share on only while `seated`.
pub open spec fn profile_shown(q: PeerProfile, src: PeerProfile, status: Seq<char>, seated_now: bool) -> bool {
    &&& q.display_name == src.display_name
    &&& q.avatar == src.avatar
    &&& q.muted == src.muted
    &&& q.deafened == src.deafened
    &&& q.sharing_screen == (src.sharing_screen && seated_now)
    &&& q.status@ == status
}

/// Everyone's profile as the state shows it at `now`: the node's own, and
/// each peer's with its live status and its screen share only while
/// seated, as a keyed list.
pub fn snapshot_profiles(inner: &Presence, now: i64) -> (r: Vec<(String, PeerProfile)>)
    ensures
        ({
            let out = keyed_view(r@);
            let pa = keyed_view(inner.profiles@);
            &&& out.dom() == pa.dom().insert(inner.me@)
            &&& own_shown(*inner, out[inner.me@], false)
            &&& forall|k: Seq<char>| #[trigger] out.contains_key(k) && k != inner.me@ ==> profile_shown(
                out[k],
                pa[k],
                live_status_of(*inner, k, now),
                k.len() > 0 && seated(roster_view(inner.voice@), k),
            )
        }),
{
    let ghost p = *inner;
    let ghost me = inner.me@;
    let ghost pv = inner.profiles@;
    let mut out: Vec<(String, PeerProfile)> = Vec::new();
    let mut i: usize = 0;
    assert(pv.take(0) =~= Seq::<(String, PeerProfile)>::empty());
    assert(keyed_view(out@) =~= keyed_view(pv.take(0)).remove(me));
    while i < inner.profiles.len()
        invariant
            i <= inner.profiles.len(),
            pv == inner.profiles@,
            p == *inner,
            me == inner.me@,
            ({
                let m = keyed_view(out@);
                let kv = keyed_view(pv.take(i as int));
                &&& m.dom() == kv.dom().remove(me)
                &&& forall|k: Seq<char>| #[trigger] m.contains_key(k) ==> profile_shown(
                    m[k],
                    kv[k],
                    live_status_of(p, k, now),
                    k.len() > 0 && seated(roster_view(p.voice@), k),
                )
            }),
        decreases inner.profiles.len() - i,
    {
        let ghost m0 = keyed_view(out@);
        assert(pv.take(i + 1).drop_last() =~= pv.take(i as int));
        assert(pv.take(i + 1).last() == pv[i as int]);
        let ghost kv1 = keyed_view(pv.take(i + 1));
        let ghost key = pv[i as int].0@;
        if !str_eq(inner.profiles[i].0.as_str(), inner.me.as_str()) {
            let mut next = inner.profiles[i].1.duplicate();
            next.status = live_status(inner, inner.profiles[i].0.as_str(), now);
            if next.sharing_screen && !peer_in_voice(&inner.voice, inner.profiles[i].0.as_str()) {
                next.sharing_screen = false;
            }
            let ghost nx = next;
            let ghost ob = out@;
            out.push((inner.profiles[i].0.clone(), next));
            proof {
                assert(out@.drop_last() =~= ob);
                assert(keyed_view(out@) == m0.insert(key, nx));
                assert(keyed_view(out@).dom() =~= kv1.dom().remove(me));
            }
        } else {
            proof {
                assert(keyed_view(out@).dom() =~= kv1.dom().remove(me));
            }
        }
        i += 1;
    }
    assert(pv.take(pv.len() as int) =~= pv);
    let own = PeerProfile {
        display_name: inner.display_name.clone(),
        avatar: inner.avatar.clone(),
        muted: inner.muted,
        deafened: inner.deafened,
        sharing_screen: inner.sharing_screen,
        status: normalize_status(inner.status.as_str()),
    };
    let ghost ov = own;
    let ghost ob = out@;
    let ghost m1 = keyed_view(out@);
    out.push((inner.me.clone(), own));
    proof {
        assert(out@.drop_last() =~= ob);
        assert(keyed_view(out@) == m1.insert(me, ov));
        assert(keyed_view(out@).dom() =~= keyed_view(pv).dom().insert(me));
    }
    out
}

/// The call the node sits in, for the user interface: none outside a
/// community or a call.
pub fn snapshot_live_call(community: Option<&Community>, inner: &Presence, now: i64) -> (r: Option<UiLiveCall>)
    ensures
        r is Some <==> (community is Some && seated(roster_view(inner.voice@), inner.me@)),
        r matches Some(c) ==> {
            &&& c.community_id == community.unwrap().id
            &&& c.community_name == community.unwrap().genesis.name
            &&& c.owner_key == community.unwrap().genesis.owner
            &&& roster_view(inner.voice@).contains_key(c.room@)
            &&& roster_view(inner.voice@)[c.room@].contains(inner.me@)
        },
{
    let c = match community {
        Some(c) => c,
        None => {
            return None;
        },
    };
    let room = match call_room(&inner.voice, inner.me.as_str()) {
        Some(room) => room,
        None => {
            return None;
        },
    };
    Some(UiLiveCall {
        community_id: c.id.clone(),
        community_name: c.genesis.name.clone(),
        owner_key: c.genesis.owner.clone(),
        room,
        voice: snapshot_voice(&inner.voice),
        profiles: snapshot_profiles(inner, now),
    })
}

impl UiMessage {
    /// A copy of the message.
    pub fn duplicate(&self) -> (r: UiMessage)
        ensures
            r == *self,
    {
        UiMessage {
            sender: self.sender.clone(),
            text: self.text.clone(),
            ts: self.ts,
            channel: self.channel.clone(),
            is_self: self.is_self,
            community_id: self.community_id.clone(),
        }
    }
}

/// Whether `existing` holds a message with the sender, time and text of
/// `m`.
pub open spec fn seen_before(existing: Seq<UiMessage>, m: UiMessage) -> bool {
    exists|i: int|
        0 <= i < existing.len() && #[trigger] existing[i].sender@ == m.sender@ && existing[i].ts == m.ts && existing[i].text@ == m.text@
}

/// The messages of a history worth storing: with a sender and a text, and
/// not held already.
pub open spec fn history_news(existing: Seq<UiMessage>, incoming: Seq<UiMessage>) -> Seq<UiMessage>
    decreases incoming.len(),
{
    if incoming.len() == 0 {
        incoming
    } else {
        let m = incoming.last();
        let rest = history_news(existing, incoming.drop_last());
        if m.sender@.len() > 0 && m.text@.len() > 0 && !seen_before(existing, m) {
            rest.push(m)
        } else {
            rest
        }
    }
}

/// A message of a peer's history is stored exactly when it has a sender
/// and a text, and no message held already has its sender, its time and
/// its text all three; so a message at a time no held message has is always
/// stored, and the order of the history is kept.
pub proof fn law_history_news(existing: Seq<UiMessage>, incoming: Seq<UiMessage>)
    ensures
        forall|m: UiMessage|
            #[trigger] history_news(existing, incoming).contains(m) <==> (incoming.contains(m) && m.sender@.len() > 0
                && m.text@.len() > 0 && !(exists|i: int|
                0 <= i < existing.len() && existing[i].sender@ == m.sender@ && existing[i].ts == m.ts
                    && existing[i].text@ == m.text@)),
        history_news(existing, incoming).len() <= incoming.len(),
    decreases incoming.len(),
{
    if incoming.len() > 0 {
        let rest = incoming.drop_last();
        let last = incoming.last();
        law_history_news(existing, rest);
        let out = history_news(existing, incoming);
        assert forall|m: UiMessage| #[trigger] out.contains(m) <==> (incoming.contains(m) && m.sender@.len() > 0
            && m.text@.len() > 0 && !(exists|i: int|
            0 <= i < existing.len() && existing[i].sender@ == m.sender@ && existing[i].ts == m.ts
                && existing[i].text@ == m.text@)) by {
            let r = history_news(existing, rest);
            if incoming.contains(m) {
                let k = choose|k: int| 0 <= k < incoming.len() && incoming[k] == m;
                if k < incoming.len() - 1 {
                    assert(rest[k] == m);
                    assert(rest.contains(m));
                } else {
                    assert(m == last);
                }
            }
            if rest.contains(m) {
                let k = choose|k: int| 0 <= k < rest.len() && rest[k] == m;
                assert(incoming[k] == m);
            }
            if out.contains(m) {
                let k = choose|k: int| 0 <= k < out.len() && out[k] == m;
                if k < r.len() {
                    assert(r[k] == m);
                    assert(r.contains(m));
                }
            }
            if r.contains(m) && out != r {
                let k = choose|k: int| 0 <= k < r.len() && r[k] == m;
                assert(out[k] == m);
            }
            if m == last && out != r {
                assert(out[out.len() - 1] == m);
            }
        }
    }
}

/// Whether `existing` holds a message with the sender, time and text of
/// `m`.
fn held_already(existing: &[UiMessage], m: &UiMessage) -> (r: bool)
    ensures
        r == seen_before(existing@, *m),
{
    let mut i: usize = 0;
    while i < existing.len()
        invariant
            i <= existing.len(),
            forall|j: int| 0 <= j < i ==> !(#[trigger] existing@[j].sender@ == m.sender@ && existing@[j].ts == m.ts && existing@[j].text@ == m.text@),
        decreases existing.len() - i,
    {
        if str_eq(existing[i].sender.as_str(), m.sender.as_str()) && existing[i].ts == m.ts && str_eq(existing[i].text.as_str(), m.text.as_str()) {
            return true;
        }
        i += 1;
    }
    false
}

/// The messages of a peer's history worth storing, in order: those with a
/// sender and a text that this node does not hold yet.
pub fn fresh_history(existing: &[UiMessage], incoming: &[UiMessage]) -> (r: Vec<UiMessage>)
    ensures
        r@ == history_news(existing@, incoming@),
{
    let mut out: Vec<UiMessage> = Vec::new();
    let mut i: usize = 0;
    while i < incoming.len()
        invariant
            i <= incoming.len(),
            out@ == history_news(existing@, incoming@.take(i as int)),
        decreases incoming.len() - i,
    {
        assert(incoming@.take(i + 1).drop_last() =~= incoming@.take(i as int));
        assert(incoming@.take(i + 1).last() == incoming@[i as int]);
        let m = &incoming[i];
        if !m.sender.as_str().is_empty() && !m.text.as_str().is_empty() && !held_already(existing, m) {
            out.push(m.duplicate());
        }
        i += 1;
    }
    assert(incoming@.take(incoming.len() as int) =~= incoming@);
    out
}

/// The lower-cased name a community is listed by.
pub open spec fn listed_name(c: UiCommunity) -> Seq<char> {
    crate::peer::lowercase_of(c.name@)
}

/// Communities listed by lower-cased name: no entry comes after one whose
/// name comes later.
pub open spec fn listed_in_order(s: Seq<UiCommunity>) -> bool {
    forall|i: int, j: int|
        0 <= i < j < s.len() ==> !crate::text::seq_lt(listed_name(#[trigger] s[j]), listed_name(#[trigger] s[i]))
}

/// The communities as listed to the user: the same entries, ordered by
/// lower-cased name.
pub fn sort_communities(list: Vec<UiCommunity>) -> (r: Vec<UiCommunity>)
    ensures
        r@.to_multiset() == list@.to_multiset(),
        listed_in_order(r@),
{
    broadcast use vstd::seq_lib::group_to_multiset_ensures;

    let ghost orig = list@.to_multiset();
    let mut rest = list;
    let mut out: Vec<UiCommunity> = Vec::new();
    while rest.len() > 0
        invariant
            out@.to_multiset().add(rest@.to_multiset()) == orig,
            listed_in_order(out@),
            forall|i: int, j: int|
                0 <= i < out@.len() && 0 <= j < rest@.len() ==> !crate::text::seq_lt(
                    listed_name(#[trigger] rest@[j]),
                    listed_name(#[trigger] out@[i]),
                ),
        decreases rest.len(),
    {
        let mut best: usize = 0;
        let mut best_low = crate::peer::to_lowercase(rest[0].name.as_str());
        proof {
            crate::text::lemma_seq_lt_irreflexive(best_low@);
        }
        let mut k: usize = 1;
        while k < rest.len()
            invariant
                1 <= k <= rest@.len(),
                best < k,
                best_low@ == listed_name(rest@[best as int]),
                forall|j: int| 0 <= j < k ==> !crate::text::seq_lt(listed_name(#[trigger] rest@[j]), best_low@),
            decreases rest.len() - k,
        {
            let low = crate::peer::to_lowercase(rest[k].name.as_str());
            if crate::text::str_less(low.as_str(), best_low.as_str()) {
                proof {
                    assert forall|j: int| 0 <= j < k + 1 implies !crate::text::seq_lt(
                        listed_name(#[trigger] rest@[j]),
                        low@,
                    ) by {
                        if j < k {
                            let lj = listed_name(rest@[j]);
                            if crate::text::seq_lt(lj, low@) {
                                crate::text::lemma_seq_lt_transitive(lj, low@, best_low@);
                            }
                        } else {
                            crate::text::lemma_seq_lt_irreflexive(low@);
                        }
                    }
                }
                best = k;
                best_low = low;
            } else {
                proof {
                    crate::text::lemma_seq_lt_total(low@, best_low@);
                }
            }
            k += 1;
        }
        let ghost r0 = rest@;
        let ghost o0 = out@;
        let picked = rest.remove(best);
        proof {
            assert(picked == r0[best as int]);
            assert(rest@ == r0.remove(best as int));
            vstd::seq_lib::to_multiset_remove(r0, best as int);
        }
        out.push(picked);
        proof {
            assert(out@ == o0.push(picked));
            vstd::seq_lib::to_multiset_build(o0, picked);
            vstd::seq_lib::to_multiset_contains(r0, picked);
            assert(r0.to_multiset().count(picked) > 0);
            assert(out@.to_multiset() =~= o0.to_multiset().insert(picked));
            assert(out@.to_multiset().add(rest@.to_multiset()) =~= orig);
            assert forall|i: int, j: int| 0 <= i < j < out@.len() implies !crate::text::seq_lt(
                listed_name(#[trigger] out@[j]),
                listed_name(#[trigger] out@[i]),
            ) by {
                if j == o0.len() {
                    assert(out@[i] == o0[i]);
                    assert(r0[best as int] == picked);
                } else {
                    assert(out@[i] == o0[i]);
                    assert(out@[j] == o0[j]);
                }
            }
            assert forall|i: int, j: int| 0 <= i < out@.len() && 0 <= j < rest@.len() implies !crate::text::seq_lt(
                listed_name(#[trigger] rest@[j]),
                listed_name(#[trigger] out@[i]),
            ) by {
                let jj = if j < best { j } else { j + 1 };
                assert(rest@[j] == r0[jj]);
                if i < o0.len() {
                    assert(out@[i] == o0[i]);
                } else {
                    assert(out@[i] == picked);
                }
            }
        }
    }
    proof {
        assert(rest@.len() == 0);
        assert(rest@.to_multiset() =~= vstd::multiset::Multiset::empty());
        assert(out@.to_multiset().add(rest@.to_multiset()) =~= out@.to_multiset());
    }
    out
}

/// Whether a link key is a direct peer link (not a relay, not pending).
pub open spec fn direct_key(k: Seq<char>) -> bool {
    !crate::dial::relay_key(k) && !crate::text::has_prefix(k, "pending:"@)
}

/// The peers shown as connected: the keys of the direct peer links, in
/// order.
pub fn direct_peer_keys(keys: &[String]) -> (r: Vec<String>)
    ensures
        strings_view(r@) == strings_view(keys@).filter(|k: Seq<char>| direct_key(k)),
{
    let ghost kv = strings_view(keys@);
    let ghost f = |k: Seq<char>| direct_key(k);
    let mut out: Vec<String> = Vec::new();
    let mut i: usize = 0;
    while i < keys.len()
        invariant
            i <= keys.len(),
            kv == strings_view(keys@),
            f == (|k: Seq<char>| direct_key(k)),
            strings_view(out@) == kv.take(i as int).filter(f),
        decreases keys.len() - i,
    {
        proof {
            kv.take(i as int).lemma_filter_push(kv[i as int], f);
            assert(kv.take(i as int).push(kv[i as int]) =~= kv.take(i + 1));
        }
        if crate::dial::is_direct_remote_key(keys[i].as_str()) {
            let ghost before = strings_view(out@);
            out.push(keys[i].clone());
            assert(strings_view(out@) =~= before.push(kv[i as int]));
        }
        i += 1;
    }
    assert(kv.take(keys.len() as int) =~= kv);
    out
}

/// `q` is `p` as a community that is viewed but not live shows it: offline,
/// not sharing a screen.
pub open spec fn shown_parked(p: PeerProfile, q: PeerProfile) -> bool {
    &&& q.display_name == p.display_name
    &&& q.avatar == p.avatar
    &&& q.muted == p.muted
    &&& q.deafened == p.deafened
    &&& !q.sharing_screen
    &&& q.status@ == "offline"@
}

proof fn lemma_keyed_parked(a: Seq<(String, PeerProfile)>, b: Seq<(String, PeerProfile)>, k: Seq<char>)
    requires
        a.len() == b.len(),
        forall|i: int| 0 <= i < a.len() ==> (#[trigger] a[i]).0@ == b[i].0@ && shown_parked(a[i].1, b[i].1),
    ensures
        keyed_view(a).contains_key(k) == keyed_view(b).contains_key(k),
        keyed_view(a).contains_key(k) ==> shown_parked(keyed_view(a)[k], keyed_view(b)[k]),
    decreases a.len(),
{
    if a.len() > 0 {
        assert forall|i: int| 0 <= i < a.len() - 1 implies (#[trigger] a.drop_last()[i]).0@ == b.drop_last()[i].0@
            && shown_parked(a.drop_last()[i].1, b.drop_last()[i].1) by {
            assert(a.drop_last()[i] == a[i]);
            assert(b.drop_last()[i] == b[i]);
        }
        assert(a[a.len() - 1].0@ == b[b.len() - 1].0@);
        lemma_keyed_parked(a.drop_last(), b.drop_last(), k);
    }
}

/// The profiles of a community that is viewed but not live, as shown:
/// everyone offline, nobody sharing a screen.
pub fn parked_profiles(profiles: &[(String, PeerProfile)]) -> (r: Vec<(String, PeerProfile)>)
    ensures
        forall|k: Seq<char>| #[trigger] keyed_view(r@).contains_key(k) == keyed_view(profiles@).contains_key(k),
        forall|k: Seq<char>|
            #[trigger] keyed_view(profiles@).contains_key(k) ==> shown_parked(keyed_view(profiles@)[k], keyed_view(r@)[k]),
{
    let mut out: Vec<(String, PeerProfile)> = Vec::new();
    let mut i: usize = 0;
    while i < profiles.len()
        invariant
            i <= profiles.len(),
            out@.len() == i,
            forall|j: int| 0 <= j < i ==> (#[trigger] profiles@[j]).0@ == out@[j].0@ && shown_parked(profiles@[j].1, out@[j].1),
        decreases profiles.len() - i,
    {
        let p = &profiles[i].1;
        let q = PeerProfile {
            display_name: p.display_name.clone(),
            avatar: p.avatar.clone(),
            muted: p.muted,
            deafened: p.deafened,
            status: crate::peer::offline_status(),
            sharing_screen: false,
        };
        out.push((profiles[i].0.clone(), q));
        i += 1;
    }
    proof {
        assert forall|k: Seq<char>| keyed_view(out@).contains_key(k) == keyed_view(profiles@).contains_key(k)
            && (keyed_view(profiles@).contains_key(k) ==> shown_parked(keyed_view(profiles@)[k], keyed_view(out@)[k])) by {
            lemma_keyed_parked(profiles@, out@, k);
        }
    }
    out
}

/// What the interface shows of a community that is viewed but not the live
/// one, read from its stored copy.
pub struct ParkedView {
    /// Its invite, with the stored invite peers and relays.
    pub invite: Invite,
    pub text_channels: Vec<String>,
    pub call_rooms: Vec<String>,
    pub profiles: Vec<(String, PeerProfile)>,
    pub archive_messages: u32,
    pub archive_bytes: u64,
}

/// What the interface shows of the live community (none when the node has
/// joined none).
pub struct LiveView {
    /// Its invite, with the peers to give out and its relays.
    pub invite: Option<Invite>,
    /// The direct peer links.
    pub peers: Vec<String>,
    pub text_channels: Vec<String>,
    pub call_rooms: Vec<String>,
    pub voice: Vec<(String, Vec<String>)>,
    pub profiles: Vec<(String, PeerProfile)>,
    pub archive_bytes: u64,
    pub archive_messages: u32,
    pub seed_sent: u64,
    pub seed_total: u64,
    pub seed_active: bool,
    pub seeding: Vec<String>,
    pub archive_status: String,
}

/// The text of an invite whose compact form packs.
pub open spec fn invite_text(inv: Invite) -> Seq<char> {
    match packed_invite(inv) {
        Ok(b) => "cc/"@ + b64_url(b),
        Err(_) => Seq::empty(),
    }
}

/// Whether a view's invites pack.
pub open spec fn views_pack(parked: Option<ParkedView>, live: LiveView) -> bool {
    &&& (parked matches Some(p) ==> packed_invite(p.invite) is Ok)
    &&& (live.invite matches Some(i) ==> packed_invite(i) is Ok)
}

/// Everything the interface shows: the node's own identity, listen URLs,
/// stored communities and call as given; then, when a stored community
/// other than the live one is viewed, that community (its name, id, owner,
/// invite, channels and rooms, its archive size, nobody in voice, every
/// profile offline and not sharing, no direct peers, no seeding, and the
/// archive shown live); otherwise the live community (or empty names, id,
/// owner and invite without one) with its peers, channels, voice, profiles,
/// archive and seeding.
pub fn ui_state(
    public_key: String,
    display_name: String,
    avatar: String,
    listen_url: String,
    listen_urls: Vec<String>,
    communities: Vec<UiCommunity>,
    live_call: Option<UiLiveCall>,
    parked: Option<ParkedView>,
    live: LiveView,
) -> (r: UiState)
    requires
        views_pack(parked, live),
    ensures
        r.public_key == public_key,
        r.display_name == display_name,
        r.avatar == avatar,
        r.listen_url == listen_url,
        r.listen_urls == listen_urls,
        r.communities == communities,
        r.live_call == live_call,
        parked matches Some(p) ==> {
            &&& r.community_name == p.invite.community.genesis.name
            &&& r.community_id == p.invite.community.id
            &&& r.owner_key == p.invite.community.genesis.owner
            &&& r.invite@ == invite_text(p.invite)
            &&& r.peers@.len() == 0
            &&& r.text_channels == p.text_channels
            &&& r.call_rooms == p.call_rooms
            &&& r.voice@.len() == 0
            &&& (forall|k: Seq<char>| #[trigger] keyed_view(r.profiles@).contains_key(k) == keyed_view(p.profiles@).contains_key(k))
            &&& (forall|k: Seq<char>|
                #[trigger] keyed_view(p.profiles@).contains_key(k) ==> shown_parked(keyed_view(p.profiles@)[k], keyed_view(r.profiles@)[k]))
            &&& r.archive_messages == p.archive_messages
            &&& r.archive_bytes == p.archive_bytes
            &&& r.seed_sent == 1 && r.seed_total == 1 && !r.seed_active
            &&& r.seeding@.len() == 0
            &&& r.archive_status@ == "live"@
        },
        parked is None ==> {
            &&& r.community_name@ == (match live.invite {
                Some(i) => i.community.genesis.name@,
                None => Seq::<char>::empty(),
            })
            &&& r.community_id@ == (match live.invite {
                Some(i) => i.community.id@,
                None => Seq::<char>::empty(),
            })
            &&& r.owner_key@ == (match live.invite {
                Some(i) => i.community.genesis.owner@,
                None => Seq::<char>::empty(),
            })
            &&& r.invite@ == (match live.invite {
                Some(i) => invite_text(i),
                None => Seq::<char>::empty(),
            })
            &&& r.peers == live.peers
            &&& r.text_channels == live.text_channels
            &&& r.call_rooms == live.call_rooms
            &&& r.voice == live.voice
            &&& r.profiles == live.profiles
            &&& r.archive_bytes == live.archive_bytes
            &&& r.archive_messages == live.archive_messages
            &&& r.seed_sent == live.seed_sent
            &&& r.seed_total == live.seed_total
            &&& r.seed_active == live.seed_active
            &&& r.seeding == live.seeding
            &&& r.archive_status == live.archive_status
        },
{
    match parked {
        Some(p) => {
            let invite = encode_invite(&p.invite);
            let profiles = parked_profiles(p.profiles.as_slice());
            UiState {
                public_key,
                display_name,
                avatar,
                community_name: p.invite.community.genesis.name.clone(),
                community_id: p.invite.community.id.clone(),
                communities,
                invite,
                listen_url,
                listen_urls,
                peers: Vec::new(),
                text_channels: p.text_channels,
                call_rooms: p.call_rooms,
                voice: Vec::new(),
                profiles,
                owner_key: p.invite.community.genesis.owner.clone(),
                archive_bytes: p.archive_bytes,
                archive_messages: p.archive_messages,
                seed_sent: 1,
                seed_total: 1,
                seed_active: false,
                seeding: Vec::new(),
                live_call,
                archive_status: "live".to_owned(),
            }
        },
        None => {
            let (community_name, community_id, owner_key, invite) = match &live.invite {
                Some(i) => (
                    i.community.genesis.name.clone(),
                    i.community.id.clone(),
                    i.community.genesis.owner.clone(),
                    encode_invite(i),
                ),
                None => (String::new(), String::new(), String::new(), String::new()),
            };
            UiState {
                public_key,
                display_name,
                avatar,
                community_name,
                community_id,
                communities,
                invite,
                listen_url,
                listen_urls,
                peers: live.peers,
                text_channels: live.text_channels,
                call_rooms: live.call_rooms,
                voice: live.voice,
                profiles: live.profiles,
                owner_key,
                archive_bytes: live.archive_bytes,
                archive_messages: live.archive_messages,
                seed_sent: live.seed_sent,
                seed_total: live.seed_total,
                seed_active: live.seed_active,
                seeding: live.seeding,
                live_call,
                archive_status: live.archive_status,
            }
        },
    }
}

} // verus!
