//! A node's view of its community: room and channel names, who is sitting
//! in which voice room, peer presence, and which peer URLs to dial or put in
//! an invite.
use vstd::prelude::*;
use crate::text::{chars_of, push_char, str_eq, string_from_chars, trim_seq, trim_string};
use crate::relay::strings_view;
use crate::keyed::{
    has_key, keyed_find, keyed_remove, keyed_set, keyed_view, lemma_keyed_dom, lemma_keyed_map,
    lemma_keyed_update, map_entries,
};

verus! {

// ---------------------------------------------------------------------------
// Room and channel names
// ---------------------------------------------------------------------------
/// Unicode lower case of a string (`str::to_lowercase`).
pub uninterp spec fn lowercase_of(s: Seq<char>) -> Seq<char>;

/// Whether a character is alphabetic or numeric in Unicode
/// (`char::is_alphanumeric`).
pub uninterp spec fn alphanumeric(c: char) -> bool;

/// `str::to_lowercase`: the Unicode lower case of `s`; on ASCII text,
/// whose only letters with a lower case are `A`..`Z`, that is `a`..`z` in
/// their place.
#[verifier::external_body]
pub(crate) fn to_lowercase(s: &str) -> (r: String)
    ensures
        r@ == lowercase_of(s@),
        vstd::utf8::is_ascii_chars(s@) ==> r@ == s@.map_values(|c: char| crate::relay::ascii_lower(c)),
{
    s.to_lowercase()
}

/// `char::is_alphanumeric`: whether `c` has the Unicode Alphabetic or
/// Numeric property; among ASCII characters, exactly the letters and
/// digits.
#[verifier::external_body]
fn is_alphanumeric(c: char) -> (r: bool)
    ensures
        r == alphanumeric(c),
        (c as u32) < 128 ==> (r <==> (65 <= (c as u32) <= 90 || 97 <= (c as u32) <= 122 || 48 <= (c as u32) <= 57)),
{
    c.is_alphanumeric()
}

/// The characters a room name keeps: spaces become `-`, then only
/// alphanumerics, `-` and `_` stay.
pub open spec fn slug_chars(lowered: Seq<char>) -> Seq<char> {
    lowered.map_values(
        |c: char|
            if c == ' ' {
                '-'
            } else {
                c
            },
    ).filter(|c: char| alphanumeric(c) || c == '-' || c == '_')
}

/// Whether a room name keeps a character: among ASCII characters exactly
/// the letters, digits, `-` and `_`; beyond ASCII, the alphanumerics.
pub open spec fn slug_keeps(c: char) -> bool {
    if (c as u32) < 128 {
        65 <= (c as u32) <= 90 || 97 <= (c as u32) <= 122 || 48 <= (c as u32) <= 57 || c == '-' || c == '_'
    } else {
        alphanumeric(c)
    }
}

/// The characters a room name keeps, with the ASCII ones stated directly.
pub open spec fn slug_text_chars(lowered: Seq<char>) -> Seq<char> {
    lowered.map_values(
        |c: char|
            if c == ' ' {
                '-'
            } else {
                c
            },
    ).filter(|c: char| slug_keeps(c))
}

/// A room name from its lower-cased form, with the ASCII characters kept
/// stated directly: its kept characters, or `room` when none are left.
pub open spec fn slug_text(lowered: Seq<char>) -> Seq<char> {
    if slug_text_chars(lowered).len() == 0 {
        "room"@
    } else {
        slug_text_chars(lowered)
    }
}

/// The room name for an ASCII name: trimmed, ASCII lower-cased, then as
/// `slug_text`.
pub open spec fn slug_of_ascii(name: Seq<char>) -> Seq<char> {
    slug_text(trim_seq(name).map_values(|c: char| crate::relay::ascii_lower(c)))
}

/// A room name from its lower-cased form: its kept characters, or `room`
/// when none are left.
pub open spec fn slug_from(lowered: Seq<char>) -> Seq<char> {
    if slug_chars(lowered).len() == 0 {
        "room"@
    } else {
        slug_chars(lowered)
    }
}

/// The room name for what a user typed: trimmed, lower-cased, spaces to
/// dashes, only alphanumerics, `-` and `_` kept; `room` when nothing is
/// left.
pub open spec fn slug_of(name: Seq<char>) -> Seq<char> {
    slug_from(lowercase_of(trim_seq(name)))
}

/// The room name for an already lower-cased name.
pub fn slug_from_lowered(lowered: &str) -> (r: String)
    ensures
        r@ == slug_from(lowered@),
        r@ == slug_text(lowered@),
{
    let cs = chars_of(lowered);
    let ghost mapped = lowered@.map_values(
        |c: char|
            if c == ' ' {
                '-'
            } else {
                c
            },
    );
    let ghost keep = |c: char| alphanumeric(c) || c == '-' || c == '_';
    let ghost keep_text = |c: char| slug_keeps(c);
    let mut out: Vec<char> = Vec::new();
    let mut i: usize = 0;
    while i < cs.len()
        invariant
            i <= cs.len(),
            cs@ == lowered@,
            mapped == lowered@.map_values(
                |c: char|
                    if c == ' ' {
                        '-'
                    } else {
                        c
                    },
            ),
            keep == (|c: char| alphanumeric(c) || c == '-' || c == '_'),
            keep_text == (|c: char| slug_keeps(c)),
            out@ == mapped.take(i as int).filter(keep),
            out@ == mapped.take(i as int).filter(keep_text),
        decreases cs.len() - i,
    {
        let c = if cs[i] == ' ' {
            '-'
        } else {
            cs[i]
        };
        proof {
            assert(mapped[i as int] == c);
            mapped.take(i as int).lemma_filter_push(c, keep);
            mapped.take(i as int).lemma_filter_push(c, keep_text);
            assert(mapped.take(i as int).push(c) =~= mapped.take(i + 1));
        }
        let an = is_alphanumeric(c);
        if an || c == '-' || c == '_' {
            out.push(c);
        }
        proof {
            assert(keep(c) == keep_text(c));
        }
        i += 1;
    }
    assert(mapped.take(cs.len() as int) =~= mapped);
    if out.len() == 0 {
        "room".to_owned()
    } else {
        string_from_chars(out.as_slice())
    }
}

/// The room name for what a user typed.
pub fn slug_name(name: &str) -> (r: String)
    ensures
        r@ == slug_of(name@),
        vstd::utf8::is_ascii_chars(trim_seq(name@)) ==> r@ == slug_of_ascii(name@),
{
    let trimmed = trim_string(name);
    let lowered = to_lowercase(trimmed.as_str());
    slug_from_lowered(lowered.as_str())
}

/// Room names are never empty and never hold a space.
pub proof fn law_slug_shape(lowered: Seq<char>)
    ensures
        slug_from(lowered).len() > 0,
        !slug_from(lowered).contains(' '),
{
    reveal_strlit("room");
    let keep = |c: char| alphanumeric(c) || c == '-' || c == '_';
    let mapped = lowered.map_values(
        |c: char|
            if c == ' ' {
                '-'
            } else {
                c
            },
    );
    if slug_chars(lowered).len() > 0 {
        assert(slug_chars(lowered) == mapped.filter(keep));
        assert forall|i: int| 0 <= i < slug_chars(lowered).len() implies slug_chars(lowered)[i]
            != ' ' by {
            let x = slug_chars(lowered)[i];
            assert(mapped.filter(keep).contains(x));
            mapped.lemma_filter_contains_rev(keep, x);
            let j = choose|j: int| 0 <= j < mapped.len() && mapped[j] == x;
            assert(mapped[j] != ' ');
        }
    } else {
        assert("room"@[0] != ' ');
    }
}

/// Whether a character may stand in a room name as it is: `a`..`z`,
/// `0`..`9`, `-` or `_`.
pub open spec fn room_char(c: char) -> bool {
    ('a' <= c && c <= 'z') || ('0' <= c && c <= '9') || c == '-' || c == '_'
}

/// Room names keep lower-case ASCII letters, digits, `-` and `_`: a name
/// made only of them is its own room name, both from its lower-cased form
/// and as typed.
pub proof fn law_slug_keeps_plain(name: Seq<char>)
    requires
        name.len() > 0,
        forall|i: int| 0 <= i < name.len() ==> room_char(#[trigger] name[i]),
    ensures
        slug_text(name) == name,
        slug_of_ascii(name) == name,
{
    let sp = |c: char|
        if c == ' ' {
            '-'
        } else {
            c
        };
    let mapped = name.map_values(sp);
    assert(mapped =~= name);
    let keep = |c: char| slug_keeps(c);
    assert forall|i: int| 0 <= i < name.len() implies keep(#[trigger] name[i]) by {
        assert(room_char(name[i]));
    }
    lemma_filter_all(name, keep);
    assert(slug_text_chars(name) == name);
    assert(!crate::text::spec_is_whitespace(name[0]));
    assert(!crate::text::spec_is_whitespace(name.last()));
    assert(crate::text::trim_start_seq(name) == name);
    assert(crate::text::trim_end_seq(name) == name);
    assert(trim_seq(name) == name);
    let low = name.map_values(|c: char| crate::relay::ascii_lower(c));
    assert(low =~= name);
}

/// Filtering by a test every element passes keeps the whole sequence.
proof fn lemma_filter_all(s: Seq<char>, p: spec_fn(char) -> bool)
    requires
        forall|i: int| 0 <= i < s.len() ==> p(#[trigger] s[i]),
    ensures
        s.filter(p) == s,
    decreases s.len(),
{
    reveal(Seq::filter);
    if s.len() > 0 {
        lemma_filter_all(s.drop_last(), p);
        assert(s.drop_last().push(s.last()) =~= s);
    } else {
        assert(s.filter(p) =~= s);
    }
}

/// Whether `name` is in `list`.
pub(crate) fn list_contains(list: &[String], name: &str) -> (r: bool)
    ensures
        r == strings_view(list@).contains(name@),
{
    let mut i: usize = 0;
    while i < list.len()
        invariant
            i <= list.len(),
            forall|k: int| 0 <= k < i ==> list@[k]@ != name@,
        decreases list.len() - i,
    {
        if str_eq(list[i].as_str(), name) {
            assert(strings_view(list@)[i as int] == name@);
            return true;
        }
        i += 1;
    }
    proof {
        if strings_view(list@).contains(name@) {
            let k = choose|k: int| 0 <= k < list@.len() && strings_view(list@)[k] == name@;
            assert(list@[k]@ == name@);
        }
    }
    false
}

/// Puts `general` first in the channel list unless it is there already.
pub fn ensure_general(channels: &mut Vec<String>)
    ensures
        strings_view(final(channels)@) == (if strings_view(old(channels)@).contains("general"@) {
            strings_view(old(channels)@)
        } else {
            seq!["general"@] + strings_view(old(channels)@)
        }),
{
    if !list_contains(channels.as_slice(), "general") {
        let ghost before = strings_view(channels@);
        channels.insert(0, "general".to_owned());
        assert(strings_view(channels@) =~= seq!["general"@] + before);
    }
}

/// Adds each incoming room name, as a room name, unless it is there.
pub open spec fn merged_names(dst: Seq<Seq<char>>, incoming: Seq<Seq<char>>) -> Seq<Seq<char>>
    decreases incoming.len(),
{
    if incoming.len() == 0 {
        dst
    } else {
        let before = merged_names(dst, incoming.drop_last());
        let slug = slug_of(incoming.last());
        if before.contains(slug) {
            before
        } else {
            before.push(slug)
        }
    }
}

/// Adds the incoming room names to `dst`, as room names, each once.
pub fn merge_unique(dst: &mut Vec<String>, incoming: &[String])
    ensures
        strings_view(final(dst)@) == merged_names(strings_view(old(dst)@), strings_view(incoming@)),
{
    let ghost start = strings_view(dst@);
    let ghost inc = strings_view(incoming@);
    let mut i: usize = 0;
    while i < incoming.len()
        invariant
            i <= incoming.len(),
            start == strings_view(old(dst)@),
            inc == strings_view(incoming@),
            strings_view(dst@) == merged_names(start, inc.take(i as int)),
        decreases incoming.len() - i,
    {
        let slug = slug_name(incoming[i].as_str());
        proof {
            assert(inc.take(i + 1).drop_last() =~= inc.take(i as int));
            assert(inc.take(i + 1).last() == incoming@[i as int]@);
        }
        if !list_contains(dst.as_slice(), slug.as_str()) {
            let ghost before = strings_view(dst@);
            let ghost sv = slug@;
            dst.push(slug);
            assert(strings_view(dst@) =~= before.push(sv));
        }
        i += 1;
    }
    assert(inc.take(incoming.len() as int) =~= inc);
}

/// A status as shown: `away`, `busy`, `offline` or `online`, from the
/// words (English or Portuguese) that mean them; anything else is online.
pub open spec fn status_word(raw: Seq<char>) -> Seq<char> {
    if raw == "away"@ || raw == "ausente"@ || raw == "idle"@ {
        "away"@
    } else if raw == "busy"@ || raw == "ocupado"@ || raw == "dnd"@ {
        "busy"@
    } else if raw == "offline"@ {
        "offline"@
    } else {
        "online"@
    }
}

/// The shown status for a raw status word.
pub fn normalize_status(raw: &str) -> (r: String)
    ensures
        r@ == status_word(raw@),
{
    if str_eq(raw, "away") || str_eq(raw, "ausente") || str_eq(raw, "idle") {
        "away".to_owned()
    } else if str_eq(raw, "busy") || str_eq(raw, "ocupado") || str_eq(raw, "dnd") {
        "busy".to_owned()
    } else if str_eq(raw, "offline") {
        "offline".to_owned()
    } else {
        "online".to_owned()
    }
}

/// The status of a peer not heard from.
pub fn offline_status() -> (r: String)
    ensures
        r@ == "offline"@,
{
    "offline".to_owned()
}

// ---------------------------------------------------------------------------
// The voice roster
// ---------------------------------------------------------------------------
/// Whether some entry for `room` lists `pk`.
pub open spec fn room_has(v: Seq<(String, Vec<String>)>, room: Seq<char>, pk: Seq<char>) -> bool {
    exists|i: int|
        0 <= i < v.len() && #[trigger] v[i].0@ == room && strings_view(v[i].1@).contains(pk)
}

/// Whether some entry is for `room`.
pub open spec fn has_room(v: Seq<(String, Vec<String>)>, room: Seq<char>) -> bool {
    exists|i: int| 0 <= i < v.len() && #[trigger] v[i].0@ == room
}

/// The roster: each room, with who sits in it.
pub open spec fn roster_view(v: Seq<(String, Vec<String>)>) -> Map<Seq<char>, Set<Seq<char>>> {
    Map::new(|room: Seq<char>| has_room(v, room), |room: Seq<char>| Set::new(|pk: Seq<char>| room_has(v, room, pk)))
}

/// The roster with `pk` out of every room; the rooms stay.
pub open spec fn unseat(r: Map<Seq<char>, Set<Seq<char>>>, pk: Seq<char>) -> Map<Seq<char>, Set<Seq<char>>> {
    Map::new(|room: Seq<char>| r.contains_key(room), |room: Seq<char>| r[room].remove(pk))
}

/// The roster with `pk` added to `room` (made if missing).
pub open spec fn seat(r: Map<Seq<char>, Set<Seq<char>>>, room: Seq<char>, pk: Seq<char>) -> Map<Seq<char>, Set<Seq<char>>> {
    r.insert(room, (if r.contains_key(room) { r[room] } else { Set::empty() }).insert(pk))
}

/// Whether `pk` sits in some room.
pub open spec fn seated(r: Map<Seq<char>, Set<Seq<char>>>, pk: Seq<char>) -> bool {
    exists|room: Seq<char>| #[trigger] r.contains_key(room) && r[room].contains(pk)
}

/// The roster with each room renamed to its room name, rooms that come to
/// the same name merged.
pub open spec fn regroup(r: Map<Seq<char>, Set<Seq<char>>>) -> Map<Seq<char>, Set<Seq<char>>> {
    Map::new(
        |k: Seq<char>| exists|room: Seq<char>| r.contains_key(room) && #[trigger] slug_of(room) == k,
        |k: Seq<char>|
            Set::new(
                |pk: Seq<char>|
                    exists|room: Seq<char>|
                        r.contains_key(room) && #[trigger] slug_of(room) == k && r[room].contains(pk),
            ),
    )
}

/// A copy of a list of strings.
pub(crate) fn copy_list(v: &[String]) -> (r: Vec<String>)
    ensures
        strings_view(r@) == strings_view(v@),
{
    let mut out: Vec<String> = Vec::new();
    let mut i: usize = 0;
    while i < v.len()
        invariant
            i <= v.len(),
            strings_view(out@) == strings_view(v@).take(i as int),
        decreases v.len() - i,
    {
        let s = v[i].clone();
        let ghost before = strings_view(out@);
        let ghost sv = s@;
        out.push(s);
        assert(strings_view(out@) =~= before.push(sv));
        assert(strings_view(v@).take(i + 1) =~= strings_view(v@).take(i as int).push(sv));
        i += 1;
    }
    assert(strings_view(v@).take(v.len() as int) =~= strings_view(v@));
    out
}

/// A copy of a list without `pk`.
fn list_without(v: &[String], pk: &str) -> (r: Vec<String>)
    ensures
        strings_view(r@).to_set() == strings_view(v@).to_set().remove(pk@),
{
    let mut out: Vec<String> = Vec::new();
    let mut i: usize = 0;
    while i < v.len()
        invariant
            i <= v.len(),
            strings_view(out@).to_set() == strings_view(v@).take(i as int).to_set().remove(pk@),
        decreases v.len() - i,
    {
        let ghost before = strings_view(out@);
        let ghost x = v@[i as int]@;
        assert(strings_view(v@).take(i + 1) =~= strings_view(v@).take(i as int).push(x));
        if !str_eq(v[i].as_str(), pk) {
            let s = v[i].clone();
            out.push(s);
            assert(strings_view(out@) =~= before.push(x));
        }
        proof {
            strings_view(v@).take(i as int).lemma_push_to_set_commute(x);
            before.lemma_push_to_set_commute(x);
        }
        assert(strings_view(out@).to_set() =~= strings_view(v@).take(i + 1).to_set().remove(pk@));
        i += 1;
    }
    assert(strings_view(v@).take(v.len() as int) =~= strings_view(v@));
    out
}

/// Takes `pk` out of every room.
pub fn unseat_everywhere(voice: &mut Vec<(String, Vec<String>)>, pk: &str)
    ensures
        roster_view(final(voice)@) == unseat(roster_view(old(voice)@), pk@),
{
    let mut old_v: Vec<(String, Vec<String>)> = Vec::new();
    core::mem::swap(voice, &mut old_v);
    let ghost o = old_v@;
    let mut i: usize = 0;
    while i < old_v.len()
        invariant
            i <= old_v.len(),
            o == old_v@,
            voice@.len() == i,
            forall|j: int| 0 <= j < i ==> #[trigger] voice@[j].0@ == o[j].0@,
            forall|j: int| 0 <= j < i ==> #[trigger] strings_view(voice@[j].1@).to_set() == strings_view(o[j].1@).to_set().remove(pk@),
        decreases old_v.len() - i,
    {
        let room = old_v[i].0.clone();
        let people = list_without(old_v[i].1.as_slice(), pk);
        let ghost before = voice@;
        let ghost e = (room, people);
        voice.push((room, people));
        assert(voice@ == before.push(e));
        assert(voice@[i as int] == e);
        assert(forall|j: int| 0 <= j < i ==> voice@[j] == before[j]);
        assert(strings_view(voice@[i as int].1@).to_set() == strings_view(o[i as int].1@).to_set().remove(pk@));
        assert(voice@[i as int].0@ == o[i as int].0@);
        assert forall|j: int| 0 <= j < i + 1 implies #[trigger] strings_view(voice@[j].1@).to_set() == strings_view(o[j].1@).to_set().remove(pk@) by {
            if j < i {
                assert(voice@[j] == before[j]);
                assert(strings_view(before[j].1@).to_set() == strings_view(o[j].1@).to_set().remove(pk@));
            }
        }
        assert forall|j: int| 0 <= j < i + 1 implies #[trigger] voice@[j].0@ == o[j].0@ by {
            if j < i {
                assert(voice@[j] == before[j]);
            }
        }
        i += 1;
    }
    proof {
        let a = roster_view(voice@);
        let b = unseat(roster_view(o), pk@);
        assert forall|room: Seq<char>| a.contains_key(room) <==> b.contains_key(room) by {
            if has_room(voice@, room) {
                let j = choose|j: int| 0 <= j < voice@.len() && #[trigger] voice@[j].0@ == room;
                assert(o[j].0@ == room);
            }
            if has_room(o, room) {
                let j = choose|j: int| 0 <= j < o.len() && #[trigger] o[j].0@ == room;
                assert(voice@[j].0@ == room);
            }
        }
        assert forall|room: Seq<char>| #[trigger] a.contains_key(room) implies a[room] =~= b[room] by {
            assert forall|x: Seq<char>| a[room].contains(x) <==> b[room].contains(x) by {
                if room_has(voice@, room, x) {
                    let j = choose|j: int| 0 <= j < voice@.len() && #[trigger] voice@[j].0@ == room && strings_view(voice@[j].1@).contains(x);
                    assert(strings_view(voice@[j].1@).to_set().contains(x));
                    assert(strings_view(o[j].1@).to_set().contains(x));
                    assert(room_has(o, room, x));
                }
                if room_has(o, room, x) && x != pk@ {
                    let j = choose|j: int| 0 <= j < o.len() && #[trigger] o[j].0@ == room && strings_view(o[j].1@).contains(x);
                    assert(strings_view(o[j].1@).to_set().contains(x));
                    assert(strings_view(voice@[j].1@).to_set().contains(x));
                    assert(strings_view(voice@[j].1@).contains(x));
                    assert(voice@[j].0@ == room);
                    assert(room_has(voice@, room, x));
                }
            }
        }
        assert(a =~= b);
    }
}

/// Where the first entry for `room` sits, if any.
fn find_room(voice: &Vec<(String, Vec<String>)>, room: &str) -> (r: Option<usize>)
    ensures
        r matches Some(i) ==> i < voice@.len() && voice@[i as int].0@ == room@,
        r is None ==> !has_room(voice@, room@),
{
    let mut i: usize = 0;
    while i < voice.len()
        invariant
            i <= voice.len(),
            forall|j: int| 0 <= j < i ==> #[trigger] voice@[j].0@ != room@,
        decreases voice.len() - i,
    {
        if str_eq(voice[i].0.as_str(), room) {
            return Some(i);
        }
        i += 1;
    }
    proof {
        if has_room(voice@, room@) {
            let j = choose|j: int| 0 <= j < voice@.len() && #[trigger] voice@[j].0@ == room@;
            assert(voice@[j].0@ != room@);
        }
    }
    None
}

/// The roster after one entry is replaced by one for the same room with
/// `pk` added.
proof fn lemma_roster_add(v: Seq<(String, Vec<String>)>, i: int, e: (String, Vec<String>), pk: Seq<char>)
    requires
        0 <= i < v.len(),
        e.0@ == v[i].0@,
        strings_view(e.1@).to_set() == strings_view(v[i].1@).to_set().insert(pk),
    ensures
        roster_view(v.update(i, e)) == seat(roster_view(v), v[i].0@, pk),
{
    let w = v.update(i, e);
    let a = roster_view(w);
    let b = seat(roster_view(v), v[i].0@, pk);
    assert(has_room(v, v[i].0@));
    assert forall|room: Seq<char>| a.contains_key(room) <==> b.contains_key(room) by {
        if has_room(w, room) {
            let j = choose|j: int| 0 <= j < w.len() && #[trigger] w[j].0@ == room;
            assert(v[j].0@ == room);
        }
        if has_room(v, room) {
            let j = choose|j: int| 0 <= j < v.len() && #[trigger] v[j].0@ == room;
            assert(w[j].0@ == room);
        }
    }
    assert forall|room: Seq<char>| #[trigger] a.contains_key(room) implies a[room] =~= b[room] by {
        assert forall|x: Seq<char>| a[room].contains(x) <==> b[room].contains(x) by {
            if room_has(w, room, x) {
                let j = choose|j: int| 0 <= j < w.len() && #[trigger] w[j].0@ == room && strings_view(w[j].1@).contains(x);
                if j == i {
                    assert(strings_view(e.1@).to_set().contains(x));
                    if x != pk {
                        assert(strings_view(v[i].1@).to_set().contains(x));
                        assert(strings_view(v[i].1@).contains(x));
                        assert(v[i].0@ == room);
                        assert(room_has(v, room, x));
                    }
                } else {
                    assert(v[j] == w[j]);
                    assert(v[j].0@ == room && strings_view(v[j].1@).contains(x));
                    assert(room_has(v, room, x));
                }
            }
            if room_has(v, room, x) {
                let j = choose|j: int| 0 <= j < v.len() && #[trigger] v[j].0@ == room && strings_view(v[j].1@).contains(x);
                if j == i {
                    assert(strings_view(v[i].1@).to_set().contains(x));
                    assert(strings_view(e.1@).to_set().contains(x));
                    assert(strings_view(w[i].1@).contains(x));
                    assert(w[i].0@ == room);
                } else {
                    assert(w[j] == v[j]);
                    assert(w[j].0@ == room && strings_view(w[j].1@).contains(x));
                }
                assert(room_has(w, room, x));
            }
            if room == v[i].0@ && x == pk {
                assert(strings_view(e.1@).to_set().contains(x));
                assert(strings_view(w[i].1@).contains(x));
                assert(room_has(w, room, x));
            }
        }
    }
    assert(a =~= b);
}

/// The roster after an entry for a room is pushed.
proof fn lemma_roster_push(v: Seq<(String, Vec<String>)>, e: (String, Vec<String>))
    ensures
        roster_view(v.push(e)) == roster_view(v).insert(
            e.0@,
            (if roster_view(v).contains_key(e.0@) {
                roster_view(v)[e.0@]
            } else {
                Set::empty()
            }).union(strings_view(e.1@).to_set()),
        ),
{
    let w = v.push(e);
    let a = roster_view(w);
    let b = roster_view(v).insert(
        e.0@,
        (if roster_view(v).contains_key(e.0@) {
            roster_view(v)[e.0@]
        } else {
            Set::empty()
        }).union(strings_view(e.1@).to_set()),
    );
    assert(w[v.len() as int] == e);
    assert forall|room: Seq<char>| a.contains_key(room) <==> b.contains_key(room) by {
        if has_room(w, room) {
            let j = choose|j: int| 0 <= j < w.len() && #[trigger] w[j].0@ == room;
            if j < v.len() {
                assert(v[j].0@ == room);
            }
        }
        if has_room(v, room) {
            let j = choose|j: int| 0 <= j < v.len() && #[trigger] v[j].0@ == room;
            assert(w[j].0@ == room);
        }
    }
    assert forall|room: Seq<char>| #[trigger] a.contains_key(room) implies a[room] =~= b[room] by {
        assert forall|x: Seq<char>| a[room].contains(x) <==> b[room].contains(x) by {
            if room_has(w, room, x) {
                let j = choose|j: int| 0 <= j < w.len() && #[trigger] w[j].0@ == room && strings_view(w[j].1@).contains(x);
                if j < v.len() {
                    assert(w[j] == v[j]);
                    assert(room_has(v, room, x));
                } else {
                    assert(strings_view(e.1@).to_set().contains(x));
                }
            }
            if room_has(v, room, x) {
                let j = choose|j: int| 0 <= j < v.len() && #[trigger] v[j].0@ == room && strings_view(v[j].1@).contains(x);
                assert(w[j] == v[j]);
                assert(room_has(w, room, x));
            }
            if room == e.0@ && strings_view(e.1@).to_set().contains(x) {
                assert(strings_view(w[v.len() as int].1@).contains(x));
                assert(room_has(w, room, x));
            }
        }
    }
    assert(a =~= b);
}

/// Puts `pk` in `room`, making the room if it is missing.
pub fn seat_in(voice: &mut Vec<(String, Vec<String>)>, room: &str, pk: &str)
    ensures
        roster_view(final(voice)@) == seat(roster_view(old(voice)@), room@, pk@),
{
    match find_room(voice, room) {
        Some(i) => {
            let ghost before = voice@;
            let mut e = voice.remove(i);
            let ghost e0 = e;
            if !list_contains(e.1.as_slice(), pk) {
                let ghost people = strings_view(e.1@);
                e.1.push(pk.to_owned());
                assert(strings_view(e.1@) =~= people.push(pk@));
                proof {
                    people.lemma_push_to_set_commute(pk@);
                }
            } else {
                assert(strings_view(e.1@).to_set() =~= strings_view(e.1@).to_set().insert(pk@));
            }
            voice.insert(i, e);
            assert(voice@ =~= before.update(i as int, e));
            proof {
                lemma_roster_add(before, i as int, e, pk@);
            }
        },
        None => {
            let ghost before = voice@;
            let e = (room.to_owned(), vec![pk.to_owned()]);
            voice.push(e);
            proof {
                lemma_roster_push(before, e);
                assert(strings_view(e.1@) =~= Seq::<Seq<char>>::empty().push(pk@));
                Seq::<Seq<char>>::empty().lemma_push_to_set_commute(pk@);
                assert(Seq::<Seq<char>>::empty().to_set() =~= Set::<Seq<char>>::empty());
                assert(!roster_view(before).contains_key(room@));
                assert(Set::<Seq<char>>::empty().union(Set::<Seq<char>>::empty().insert(pk@))
                    =~= Set::<Seq<char>>::empty().insert(pk@));
                assert(roster_view(voice@) =~= seat(roster_view(before), room@, pk@));
            }
        },
    }
}

/// Makes `room` in the roster if it is missing, with nobody in it.
fn ensure_room(voice: &mut Vec<(String, Vec<String>)>, room: &str)
    ensures
        roster_view(final(voice)@) == (if roster_view(old(voice)@).contains_key(room@) {
            roster_view(old(voice)@)
        } else {
            roster_view(old(voice)@).insert(room@, Set::empty())
        }),
{
    match find_room(voice, room) {
        Some(i) => {
            assert(has_room(voice@, room@));
        },
        None => {
            let ghost before = voice@;
            let e = (room.to_owned(), Vec::<String>::new());
            voice.push(e);
            proof {
                lemma_roster_push(before, e);
                assert(strings_view(e.1@) =~= Seq::<Seq<char>>::empty());
                assert(strings_view(e.1@).to_set() =~= Set::<Seq<char>>::empty());
                assert(!roster_view(before).contains_key(room@));
                assert(Set::<Seq<char>>::empty().union(Set::<Seq<char>>::empty())
                    =~= Set::<Seq<char>>::empty());
                assert(roster_view(voice@) =~= roster_view(before).insert(room@, Set::empty()));
            }
        },
    }
}

/// Regrouping a roster with one more entry adds its people under its room
/// name.
proof fn lemma_regroup_push(v: Seq<(String, Vec<String>)>, e: (String, Vec<String>))
    ensures
        ({
            let g = regroup(roster_view(v));
            let k = slug_of(e.0@);
            regroup(roster_view(v.push(e))) == g.insert(
                k,
                (if g.contains_key(k) {
                    g[k]
                } else {
                    Set::empty()
                }).union(strings_view(e.1@).to_set()),
            )
        }),
{
    let r = roster_view(v);
    let r2 = roster_view(v.push(e));
    lemma_roster_push(v, e);
    let g = regroup(r);
    let k = slug_of(e.0@);
    let a = regroup(r2);
    let b = g.insert(
        k,
        (if g.contains_key(k) {
            g[k]
        } else {
            Set::empty()
        }).union(strings_view(e.1@).to_set()),
    );
    assert(r2.contains_key(e.0@));
    assert forall|key: Seq<char>| a.contains_key(key) <==> b.contains_key(key) by {
        if a.contains_key(key) {
            let room = choose|room: Seq<char>| r2.contains_key(room) && #[trigger] slug_of(room) == key;
            if room != e.0@ {
                assert(r.contains_key(room));
            }
        }
        if g.contains_key(key) {
            let room = choose|room: Seq<char>| r.contains_key(room) && #[trigger] slug_of(room) == key;
            assert(r2.contains_key(room));
        }
    }
    assert forall|key: Seq<char>| #[trigger] a.contains_key(key) implies a[key] =~= b[key] by {
        assert forall|x: Seq<char>| a[key].contains(x) <==> b[key].contains(x) by {
            if a[key].contains(x) {
                let room = choose|room: Seq<char>| r2.contains_key(room) && #[trigger] slug_of(room) == key && r2[room].contains(x);
                if room == e.0@ {
                    if r.contains_key(room) && r[room].contains(x) {
                        assert(g[key].contains(x));
                    }
                } else {
                    assert(r.contains_key(room) && r[room].contains(x));
                    assert(g[key].contains(x));
                }
            }
            if g.contains_key(key) && g[key].contains(x) {
                let room = choose|room: Seq<char>| r.contains_key(room) && #[trigger] slug_of(room) == key && r[room].contains(x);
                assert(r2.contains_key(room) && r2[room].contains(x));
            }
            if key == k && strings_view(e.1@).to_set().contains(x) {
                assert(r2[e.0@].contains(x));
            }
        }
    }
    assert(a =~= b);
}

/// Renames every room to its room name, merging rooms that meet.
pub fn normalize_voice(voice: &mut Vec<(String, Vec<String>)>)
    ensures
        roster_view(final(voice)@) == regroup(roster_view(old(voice)@)),
{
    let mut old_v: Vec<(String, Vec<String>)> = Vec::new();
    core::mem::swap(voice, &mut old_v);
    let ghost o = old_v@;
    proof {
        assert(o.take(0) =~= Seq::<(String, Vec<String>)>::empty());
        assert(roster_view(voice@) =~= regroup(roster_view(o.take(0))));
    }
    let mut i: usize = 0;
    while i < old_v.len()
        invariant
            i <= old_v.len(),
            o == old_v@,
            roster_view(voice@) == regroup(roster_view(o.take(i as int))),
        decreases old_v.len() - i,
    {
        let key = slug_name(old_v[i].0.as_str());
        let ghost g = roster_view(voice@);
        let ghost k = key@;
        ensure_room(voice, key.as_str());
        let ghost base = if g.contains_key(k) {
            g[k]
        } else {
            Set::<Seq<char>>::empty()
        };
        let ghost people = strings_view(old_v@[i as int].1@);
        let mut j: usize = 0;
        assert(people.take(0) =~= Seq::<Seq<char>>::empty());
        assert(people.take(0).to_set() =~= Set::<Seq<char>>::empty());
        assert(base.union(people.take(0).to_set()) =~= base);
        proof {
            if g.contains_key(k) {
                assert(g.insert(k, base) =~= g);
            }
        }
        assert(roster_view(voice@) =~= g.insert(k, base.union(people.take(0).to_set())));
        while j < old_v[i].1.len()
            invariant
                i < old_v.len(),
                o == old_v@,
                j <= old_v@[i as int].1.len(),
                people == strings_view(old_v@[i as int].1@),
                roster_view(voice@) == g.insert(k, base.union(people.take(j as int).to_set())),
                key@ == k,
            decreases old_v@[i as int].1.len() - j,
        {
            let ghost x = people[j as int];
            seat_in(voice, key.as_str(), old_v[i].1[j].as_str());
            proof {
                assert(people.take(j + 1) =~= people.take(j as int).push(x));
                people.take(j as int).lemma_push_to_set_commute(x);
                assert(base.union(people.take(j + 1).to_set()) =~= base.union(
                    people.take(j as int).to_set(),
                ).insert(x));
                assert(roster_view(voice@) =~= g.insert(k, base.union(people.take(j + 1).to_set())));
            }
            j += 1;
        }
        proof {
            assert(people.take(people.len() as int) =~= people);
            assert(o.take(i + 1) =~= o.take(i as int).push(o[i as int]));
            lemma_regroup_push(o.take(i as int), o[i as int]);
        }
        i += 1;
    }
    assert(o.take(o.len() as int) =~= o);
}

/// Whether `pk` sits in some room of the roster.
fn roster_seats(voice: &Vec<(String, Vec<String>)>, pk: &str) -> (r: bool)
    ensures
        r == seated(roster_view(voice@), pk@),
{
    let mut i: usize = 0;
    while i < voice.len()
        invariant
            i <= voice.len(),
            forall|j: int| 0 <= j < i ==> !(#[trigger] strings_view(voice@[j].1@)).contains(pk@),
        decreases voice.len() - i,
    {
        if list_contains(voice[i].1.as_slice(), pk) {
            proof {
                let room = voice@[i as int].0@;
                assert(room_has(voice@, room, pk@));
                assert(roster_view(voice@).contains_key(room));
                assert(roster_view(voice@)[room].contains(pk@));
            }
            return true;
        }
        i += 1;
    }
    proof {
        if seated(roster_view(voice@), pk@) {
            let room = choose|room: Seq<char>| #[trigger] roster_view(voice@).contains_key(room) && roster_view(voice@)[room].contains(pk@);
            assert(room_has(voice@, room, pk@));
            let j = choose|j: int| 0 <= j < voice@.len() && #[trigger] voice@[j].0@ == room && strings_view(voice@[j].1@).contains(pk@);
            assert(!strings_view(voice@[j].1@).contains(pk@));
        }
    }
    false
}

/// Whether a peer sits in some voice room (no one has an empty key).
pub fn peer_in_voice(voice: &Vec<(String, Vec<String>)>, pk: &str) -> (r: bool)
    ensures
        r == (pk@.len() > 0 && seated(roster_view(voice@), pk@)),
{
    !pk.is_empty() && roster_seats(voice, pk)
}

/// Whether anyone sits in any voice room.
pub fn voice_is_busy(voice: &Vec<(String, Vec<String>)>) -> (r: bool)
    ensures
        r == exists|room: Seq<char>|
            #[trigger] roster_view(voice@).contains_key(room) && roster_view(voice@)[room] != Set::<Seq<char>>::empty(),
{
    let mut i: usize = 0;
    while i < voice.len()
        invariant
            i <= voice.len(),
            forall|j: int| 0 <= j < i ==> (#[trigger] voice@[j].1@).len() == 0,
        decreases voice.len() - i,
    {
        if voice[i].1.len() > 0 {
            proof {
                let room = voice@[i as int].0@;
                let x = voice@[i as int].1@[0]@;
                assert(strings_view(voice@[i as int].1@)[0] == x);
                assert(room_has(voice@, room, x));
                assert(roster_view(voice@).contains_key(room));
                assert(roster_view(voice@)[room].contains(x));
            }
            return true;
        }
        i += 1;
    }
    proof {
        assert forall|room: Seq<char>| #[trigger] roster_view(voice@).contains_key(room) implies roster_view(voice@)[room] == Set::<Seq<char>>::empty() by {
            assert forall|x: Seq<char>| !roster_view(voice@)[room].contains(x) by {
                if room_has(voice@, room, x) {
                    let j = choose|j: int| 0 <= j < voice@.len() && #[trigger] voice@[j].0@ == room && strings_view(voice@[j].1@).contains(x);
                    assert(voice@[j].1@.len() == 0);
                }
            }
            assert(roster_view(voice@)[room] =~= Set::<Seq<char>>::empty());
        }
    }
    false
}

// ---------------------------------------------------------------------------
// Presence
// ---------------------------------------------------------------------------
/// Milliseconds a peer stays online after the last sign of life.
pub const PRESENCE_TTL_MS: i64 = 90000;

/// Milliseconds during which a fresh voice join is not undone by a snapshot
/// that misses it.
pub const VOICE_JOIN_GRACE_MS: i64 = 8000;

/// Milliseconds during which a voice leave is not undone by a stale
/// snapshot.
pub const VOICE_LEAVE_HOLD_MS: i64 = 1800000;

/// A peer's profile as this node sees it.
pub struct PeerProfile {
    pub display_name: String,
    pub avatar: String,
    pub muted: bool,
    pub deafened: bool,
    pub status: String,
    pub sharing_screen: bool,
}

impl PeerProfile {
    /// An empty profile of a peer not heard from.
    pub fn new() -> (r: PeerProfile)
        ensures
            r.display_name@ == Seq::<char>::empty(),
            r.avatar@ == Seq::<char>::empty(),
            !r.muted,
            !r.deafened,
            r.status@ == "offline"@,
            !r.sharing_screen,
    {
        PeerProfile {
            display_name: String::new(),
            avatar: String::new(),
            muted: false,
            deafened: false,
            status: offline_status(),
            sharing_screen: false,
        }
    }

    /// A copy of the profile.
    pub fn duplicate(&self) -> (r: PeerProfile)
        ensures
            r == *self,
    {
        PeerProfile {
            display_name: self.display_name.clone(),
            avatar: self.avatar.clone(),
            muted: self.muted,
            deafened: self.deafened,
            status: self.status.clone(),
            sharing_screen: self.sharing_screen,
        }
    }
}

/// What this node knows of the people of its community: its own key and
/// status, the voice roster, when peers left or joined voice, their
/// profiles, and when each was last heard from.
pub struct Presence {
    pub me: String,
    pub display_name: String,
    pub avatar: String,
    pub muted: bool,
    pub deafened: bool,
    pub status: String,
    pub sharing_screen: bool,
    pub voice: Vec<(String, Vec<String>)>,
    pub voice_left: Vec<(String, i64)>,
    pub voice_joined: Vec<(String, i64)>,
    pub profiles: Vec<(String, PeerProfile)>,
    pub last_seen: Vec<(String, i64)>,
}

impl Presence {
    /// A node that knows nobody yet.
    pub fn new(me: &str) -> (r: Presence)
        ensures
            r.me@ == me@,
            r.status@ == "online"@,
            !r.sharing_screen,
            roster_view(r.voice@) == Map::<Seq<char>, Set<Seq<char>>>::empty(),
            keyed_view(r.voice_left@) == Map::<Seq<char>, i64>::empty(),
            keyed_view(r.voice_joined@) == Map::<Seq<char>, i64>::empty(),
            keyed_view(r.profiles@) == Map::<Seq<char>, PeerProfile>::empty(),
            keyed_view(r.last_seen@) == Map::<Seq<char>, i64>::empty(),
    {
        let r = Presence {
            me: me.to_owned(),
            display_name: String::new(),
            avatar: String::new(),
            muted: false,
            deafened: false,
            status: "online".to_owned(),
            sharing_screen: false,
            voice: Vec::new(),
            voice_left: Vec::new(),
            voice_joined: Vec::new(),
            profiles: Vec::new(),
            last_seen: Vec::new(),
        };
        assert(roster_view(r.voice@) =~= Map::<Seq<char>, Set<Seq<char>>>::empty());
        r
    }
}

/// `a - b`, held within the range of `i64`.
pub open spec fn sat_sub(a: i64, b: i64) -> int {
    if a - b > i64::MAX {
        i64::MAX as int
    } else if a - b < i64::MIN {
        i64::MIN as int
    } else {
        a - b
    }
}

/// `a - b`, held within the range of `i64` (`i64::saturating_sub`).
pub fn saturating_sub(a: i64, b: i64) -> (r: i64)
    ensures
        r == sat_sub(a, b),
{
    let d: i128 = a as i128 - b as i128;
    if d > i64::MAX as i128 {
        i64::MAX
    } else if d < i64::MIN as i128 {
        i64::MIN
    } else {
        d as i64
    }
}

/// Whether a time map holds `pk` at a time less than `window` before `now`.
pub open spec fn within(m: Map<Seq<char>, i64>, pk: Seq<char>, now: i64, window: int) -> bool {
    m.contains_key(pk) && sat_sub(now, m[pk]) < window
}

/// A profile with its screen share off.
pub open spec fn sharing_off(p: PeerProfile) -> PeerProfile {
    PeerProfile { sharing_screen: false, ..p }
}

/// The profiles with `pk`'s screen share off, if it has a profile.
pub open spec fn profiles_sharing_off(m: Map<Seq<char>, PeerProfile>, pk: Seq<char>) -> Map<Seq<char>, PeerProfile> {
    if m.contains_key(pk) {
        m.insert(pk, sharing_off(m[pk]))
    } else {
        m
    }
}

/// Turns off `pk`'s screen share, if it has a profile.
fn profile_sharing_off(profiles: &mut Vec<(String, PeerProfile)>, pk: &str)
    ensures
        keyed_view(final(profiles)@) == profiles_sharing_off(keyed_view(old(profiles)@), pk@),
{
    match keyed_find(profiles, pk) {
        Some(i) => {
            let ghost before = profiles@;
            let mut e = profiles.remove(i);
            e.1.sharing_screen = false;
            proof {
                lemma_keyed_update(before, i as int, e);
            }
            profiles.insert(i, e);
            assert(profiles@ =~= before.update(i as int, e));
        },
        None => {},
    }
}

/// Whether a peer left voice less than `VOICE_LEAVE_HOLD_MS` ago.
pub fn voice_left_held(inner: &Presence, pk: &str, now: i64) -> (r: bool)
    ensures
        r == within(keyed_view(inner.voice_left@), pk@, now, VOICE_LEAVE_HOLD_MS as int),
{
    match keyed_find(&inner.voice_left, pk) {
        Some(i) => saturating_sub(now, inner.voice_left[i].1) < VOICE_LEAVE_HOLD_MS,
        None => false,
    }
}

/// Whether a peer joined voice less than `VOICE_JOIN_GRACE_MS` ago.
pub fn recently_voice_joined(inner: &Presence, pk: &str, now: i64) -> (r: bool)
    ensures
        r == within(keyed_view(inner.voice_joined@), pk@, now, VOICE_JOIN_GRACE_MS as int),
{
    match keyed_find(&inner.voice_joined, pk) {
        Some(i) => saturating_sub(now, inner.voice_joined[i].1) < VOICE_JOIN_GRACE_MS,
        None => false,
    }
}

/// Notes that a peer joined voice at `now`: a join ends any leave hold.
pub fn note_voice_join(inner: &mut Presence, pk: &str, now: i64)
    ensures
        keyed_view(final(inner).voice_left@) == keyed_view(old(inner).voice_left@).remove(pk@),
        keyed_view(final(inner).voice_joined@) == keyed_view(old(inner).voice_joined@).insert(pk@, now),
        final(inner).voice@ == old(inner).voice@,
        final(inner).profiles@ == old(inner).profiles@,
        final(inner).last_seen@ == old(inner).last_seen@,
        same_self(*final(inner), *old(inner)),
{
    keyed_remove(&mut inner.voice_left, pk);
    keyed_set(&mut inner.voice_joined, pk, now);
}

/// Takes a peer out of voice: the rooms it sat in, in roster order (none
/// for an empty key); its screen share goes off and the rooms are renamed
/// to room names.
pub fn drop_from_voice(inner: &mut Presence, pk: &str) -> (r: Vec<String>)
    ensures
        pk@.len() == 0 ==> r@.len() == 0 && *final(inner) == *old(inner),
        pk@.len() > 0 ==> {
            &&& strings_view(r@).to_set() == Set::new(|room: Seq<char>| roster_view(old(inner).voice@).contains_key(room) && roster_view(old(inner).voice@)[room].contains(pk@))
            &&& roster_view(final(inner).voice@) == regroup(unseat(roster_view(old(inner).voice@), pk@))
            &&& keyed_view(final(inner).profiles@) == profiles_sharing_off(keyed_view(old(inner).profiles@), pk@)
            &&& final(inner).voice_left@ == old(inner).voice_left@
            &&& final(inner).voice_joined@ == old(inner).voice_joined@
            &&& final(inner).last_seen@ == old(inner).last_seen@
            &&& same_self(*final(inner), *old(inner))
        },
{
    if pk.is_empty() {
        return Vec::new();
    }
    let ghost r0 = roster_view(inner.voice@);
    let mut rooms: Vec<String> = Vec::new();
    let mut i: usize = 0;
    while i < inner.voice.len()
        invariant
            i <= inner.voice.len(),
            r0 == roster_view(inner.voice@),
            forall|room: Seq<char>| strings_view(rooms@).to_set().contains(room) <==> exists|j: int| 0 <= j < i && #[trigger] inner.voice@[j].0@ == room && strings_view(inner.voice@[j].1@).contains(pk@),
        decreases inner.voice.len() - i,
    {
        let ghost before = strings_view(rooms@);
        if list_contains(inner.voice[i].1.as_slice(), pk) {
            let room = inner.voice[i].0.clone();
            let ghost rv = room@;
            rooms.push(room);
            proof {
                assert(strings_view(rooms@) =~= before.push(rv));
                before.lemma_push_to_set_commute(rv);
            }
        }
        proof {
            assert forall|room: Seq<char>| strings_view(rooms@).to_set().contains(room) <==> exists|j: int| 0 <= j < i + 1 && #[trigger] inner.voice@[j].0@ == room && strings_view(inner.voice@[j].1@).contains(pk@) by {
                if strings_view(rooms@).to_set().contains(room) && !before.to_set().contains(room) {
                    assert(inner.voice@[i as int].0@ == room);
                }
            }
        }
        i += 1;
    }
    proof {
        assert(strings_view(rooms@).to_set() =~= Set::new(|room: Seq<char>| r0.contains_key(room) && r0[room].contains(pk@)));
    }
    unseat_everywhere(&mut inner.voice, pk);
    profile_sharing_off(&mut inner.profiles, pk);
    normalize_voice(&mut inner.voice);
    rooms
}

/// The node's own fields are those of `b`.
pub open spec fn same_self(a: Presence, b: Presence) -> bool {
    &&& a.me == b.me
    &&& a.display_name == b.display_name
    &&& a.avatar == b.avatar
    &&& a.muted == b.muted
    &&& a.deafened == b.deafened
    &&& a.status == b.status
    &&& a.sharing_screen == b.sharing_screen
}

/// A profile whose screen share stays on only while its peer is seated
/// (or it is the node's own).
pub open spec fn scrubbed(me: Seq<char>, r: Map<Seq<char>, Set<Seq<char>>>, k: Seq<char>, p: PeerProfile) -> PeerProfile {
    PeerProfile { sharing_screen: p.sharing_screen && (k == me || seated(r, k)), ..p }
}

/// The profiles, screen shares of unseated peers off.
pub open spec fn scrub_view(me: Seq<char>, r: Map<Seq<char>, Set<Seq<char>>>, m: Map<Seq<char>, PeerProfile>) -> Map<Seq<char>, PeerProfile> {
    Map::new(|k: Seq<char>| m.contains_key(k), |k: Seq<char>| scrubbed(me, r, k, m[k]))
}

/// Screen shares only make sense while seated: turns off those of peers
/// (and of this node) not in any voice room.
pub fn scrub_unseated_sharing(inner: &mut Presence)
    ensures
        keyed_view(final(inner).profiles@) == scrub_view(old(inner).me@, roster_view(old(inner).voice@), keyed_view(old(inner).profiles@)),
        final(inner).sharing_screen == (old(inner).sharing_screen && seated(roster_view(old(inner).voice@), old(inner).me@)),
        final(inner).voice@ == old(inner).voice@,
        final(inner).voice_left@ == old(inner).voice_left@,
        final(inner).voice_joined@ == old(inner).voice_joined@,
        final(inner).last_seen@ == old(inner).last_seen@,
        final(inner).me == old(inner).me,
        final(inner).display_name == old(inner).display_name,
        final(inner).avatar == old(inner).avatar,
        final(inner).muted == old(inner).muted,
        final(inner).deafened == old(inner).deafened,
        final(inner).status == old(inner).status,
{
    let ghost r = roster_view(inner.voice@);
    let ghost me = inner.me@;
    let ghost f = |k: Seq<char>, p: PeerProfile| scrubbed(me, r, k, p);
    let ghost o = inner.profiles@;
    let mut i: usize = 0;
    while i < inner.profiles.len()
        invariant
            i <= inner.profiles.len(),
            inner.profiles@.len() == o.len(),
            r == roster_view(inner.voice@),
            me == inner.me@,
            inner.voice == old(inner).voice,
            inner.voice_left == old(inner).voice_left,
            inner.voice_joined == old(inner).voice_joined,
            inner.last_seen == old(inner).last_seen,
            same_self(*inner, *old(inner)),
            o == old(inner).profiles@,
            f == (|k: Seq<char>, p: PeerProfile| scrubbed(me, r, k, p)),
            forall|j: int| 0 <= j < i ==> #[trigger] inner.profiles@[j] == (o[j].0, f(o[j].0@, o[j].1)),
            forall|j: int| i <= j < o.len() ==> #[trigger] inner.profiles@[j] == o[j],
        decreases inner.profiles.len() - i,
    {
        let ghost before = inner.profiles@;
        let mut e = inner.profiles.remove(i);
        let keep = str_eq(e.0.as_str(), inner.me.as_str()) || roster_seats(&inner.voice, e.0.as_str());
        if !keep {
            e.1.sharing_screen = false;
        }
        assert(e == (o[i as int].0, f(o[i as int].0@, o[i as int].1)));
        inner.profiles.insert(i, e);
        assert(inner.profiles@ =~= before.update(i as int, e));
        i += 1;
    }
    proof {
        assert(inner.profiles@ =~= map_entries(o, f));
        lemma_keyed_map(o, f);
        assert(keyed_view(inner.profiles@) =~= scrub_view(me, r, keyed_view(o)));
    }
    if !roster_seats(&inner.voice, inner.me.as_str()) {
        inner.sharing_screen = false;
    }
}

/// Notes that a peer left voice at `now` (not the node itself, nor an
/// empty key): a leave hold starts, the join grace ends, and it is taken
/// out of its room.
pub fn mark_voice_left(inner: &mut Presence, pk: &str, now: i64)
    ensures
        (pk@.len() == 0 || pk@ == old(inner).me@) ==> *final(inner) == *old(inner),
        !(pk@.len() == 0 || pk@ == old(inner).me@) ==> {
            &&& keyed_view(final(inner).voice_left@) == keyed_view(old(inner).voice_left@).insert(pk@, now)
            &&& keyed_view(final(inner).voice_joined@) == keyed_view(old(inner).voice_joined@).remove(pk@)
            &&& roster_view(final(inner).voice@) == regroup(unseat(roster_view(old(inner).voice@), pk@))
            &&& keyed_view(final(inner).profiles@) == profiles_sharing_off(keyed_view(old(inner).profiles@), pk@)
            &&& final(inner).last_seen@ == old(inner).last_seen@
            &&& same_self(*final(inner), *old(inner))
        },
{
    if pk.is_empty() || str_eq(pk, inner.me.as_str()) {
        return;
    }
    keyed_set(&mut inner.voice_left, pk, now);
    keyed_remove(&mut inner.voice_joined, pk);
    drop_from_voice(inner, pk);
}

/// What a voice action from a peer (`join` a room, or `leave`) leaves of
/// node `a`, in `b`: nothing moves for an empty key or the node's own key;
/// a join moves the peer to the room, a leave marks it as left; the rooms
/// are renamed to room names.
pub open spec fn voice_action_applied(a: Presence, b: Presence, room: Seq<char>, action: Seq<char>, pk: Seq<char>, now: i64) -> bool {
    if pk.len() == 0 || pk == a.me@ {
        b == a
    } else if action == "join"@ {
        &&& roster_view(b.voice@) == regroup(seat(unseat(roster_view(a.voice@), pk), slug_of(room), pk))
        &&& keyed_view(b.voice_left@) == keyed_view(a.voice_left@).remove(pk)
        &&& keyed_view(b.voice_joined@) == keyed_view(a.voice_joined@).insert(pk, now)
        &&& b.profiles@ == a.profiles@
        &&& b.last_seen@ == a.last_seen@
        &&& same_self(b, a)
    } else if action == "leave"@ {
        &&& roster_view(b.voice@) == regroup(regroup(unseat(roster_view(a.voice@), pk)))
        &&& keyed_view(b.voice_left@) == keyed_view(a.voice_left@).insert(pk, now)
        &&& keyed_view(b.voice_joined@) == keyed_view(a.voice_joined@).remove(pk)
        &&& keyed_view(b.profiles@) == profiles_sharing_off(keyed_view(a.profiles@), pk)
        &&& b.last_seen@ == a.last_seen@
        &&& same_self(b, a)
    } else {
        &&& roster_view(b.voice@) == regroup(roster_view(a.voice@))
        &&& b.voice_left@ == a.voice_left@
        &&& b.voice_joined@ == a.voice_joined@
        &&& b.profiles@ == a.profiles@
        &&& b.last_seen@ == a.last_seen@
        &&& same_self(b, a)
    }
}

/// Applies a voice action from a peer: the node's own seat only moves by
/// its own join or leave, never by a peer's message.
pub fn apply_voice_action(inner: &mut Presence, room: &str, action: &str, pk: &str, now: i64)
    ensures
        voice_action_applied(*old(inner), *final(inner), room@, action@, pk@, now),
{
    let room = slug_name(room);
    if pk.is_empty() || str_eq(pk, inner.me.as_str()) {
        return;
    }
    proof {
        reveal_strlit("join");
        reveal_strlit("leave");
        assert("join"@.len() != "leave"@.len());
    }
    if str_eq(action, "join") {
        note_voice_join(inner, pk, now);
        unseat_everywhere(&mut inner.voice, pk);
        seat_in(&mut inner.voice, room.as_str(), pk);
    } else if str_eq(action, "leave") {
        mark_voice_left(inner, pk, now);
        normalize_voice(&mut inner.voice);
        return;
    }
    normalize_voice(&mut inner.voice);
}

// ---------------------------------------------------------------------------
// Voice snapshots from peers
// ---------------------------------------------------------------------------
/// The roster, with the leave and join times: the state voice snapshots
/// update.
pub open spec fn voice_state(p: Presence) -> (Map<Seq<char>, Set<Seq<char>>>, Map<Seq<char>, i64>, Map<Seq<char>, i64>) {
    (roster_view(p.voice@), keyed_view(p.voice_left@), keyed_view(p.voice_joined@))
}

/// One peer listed in a room of a snapshot: the sender's own seat always
/// moves there; another peer is seated there only if it is not held out by
/// a recent leave and sits nowhere yet.
pub open spec fn merge_one(
    st: (Map<Seq<char>, Set<Seq<char>>>, Map<Seq<char>, i64>, Map<Seq<char>, i64>),
    room: Seq<char>,
    pk: Seq<char>,
    from: Seq<char>,
    now: i64,
) -> (Map<Seq<char>, Set<Seq<char>>>, Map<Seq<char>, i64>, Map<Seq<char>, i64>) {
    if from.len() > 0 && pk == from {
        (seat(unseat(st.0, pk), room, pk), st.1.remove(pk), st.2.insert(pk, now))
    } else if within(st.1, pk, now, VOICE_LEAVE_HOLD_MS as int) || seated(st.0, pk) {
        st
    } else {
        (seat(st.0, room, pk), st.1.remove(pk), st.2.insert(pk, now))
    }
}

/// The peers a snapshot lists in a room that this node takes in: not
/// empty, not itself.
pub open spec fn incoming(people: Seq<Seq<char>>, me: Seq<char>) -> Seq<Seq<char>> {
    people.filter(|pk: Seq<char>| pk.len() > 0 && pk != me)
}

/// The people of one room of a snapshot, in order.
pub open spec fn merge_people(
    st: (Map<Seq<char>, Set<Seq<char>>>, Map<Seq<char>, i64>, Map<Seq<char>, i64>),
    room: Seq<char>,
    people: Seq<Seq<char>>,
    from: Seq<char>,
    now: i64,
) -> (Map<Seq<char>, Set<Seq<char>>>, Map<Seq<char>, i64>, Map<Seq<char>, i64>)
    decreases people.len(),
{
    if people.len() == 0 {
        st
    } else {
        merge_one(merge_people(st, room, people.drop_last(), from, now), room, people.last(), from, now)
    }
}

/// The rooms of a snapshot, in order, each under its room name.
pub open spec fn merge_all(
    st: (Map<Seq<char>, Set<Seq<char>>>, Map<Seq<char>, i64>, Map<Seq<char>, i64>),
    rooms: Seq<(Seq<char>, Seq<Seq<char>>)>,
    me: Seq<char>,
    from: Seq<char>,
    now: i64,
) -> (Map<Seq<char>, Set<Seq<char>>>, Map<Seq<char>, i64>, Map<Seq<char>, i64>)
    decreases rooms.len(),
{
    if rooms.len() == 0 {
        st
    } else {
        merge_people(
            merge_all(st, rooms.drop_last(), me, from, now),
            slug_of(rooms.last().0),
            incoming(rooms.last().1, me),
            from,
            now,
        )
    }
}

/// A snapshot's rooms taken by their characters.
pub open spec fn rooms_view(rooms: Seq<(String, Vec<String>)>) -> Seq<(Seq<char>, Seq<Seq<char>>)> {
    rooms.map_values(|e: (String, Vec<String>)| (e.0@, strings_view(e.1@)))
}

/// The peers a snapshot from `from` shows have left: those seated in a room
/// where the snapshot places the sender but which the snapshot does not
/// list there, unless they joined within the grace period (never the node
/// itself nor the sender).
pub open spec fn leavers(
    rooms: Seq<(Seq<char>, Seq<Seq<char>>)>,
    r: Map<Seq<char>, Set<Seq<char>>>,
    joined: Map<Seq<char>, i64>,
    me: Seq<char>,
    from: Seq<char>,
    now: i64,
) -> Set<Seq<char>> {
    Set::new(|pk: Seq<char>| exists|i: int| 0 <= i < rooms.len() && #[trigger] leaves_room(rooms[i], r, joined, me, from, now, pk))
}

/// Whether a snapshot room shows that `pk` left it: the room places the
/// sender, and `pk` sits there but is not listed.
pub open spec fn leaves_room(
    entry: (Seq<char>, Seq<Seq<char>>),
    r: Map<Seq<char>, Set<Seq<char>>>,
    joined: Map<Seq<char>, i64>,
    me: Seq<char>,
    from: Seq<char>,
    now: i64,
    pk: Seq<char>,
) -> bool {
    let inc = incoming(entry.1, me);
    let room = slug_of(entry.0);
    inc.contains(from) && r.contains_key(room) && r[room].contains(pk) && leaver_ok(inc, joined, me, from, now, pk)
}

/// The roster with every peer of `s` out of every room.
pub open spec fn unseat_all(r: Map<Seq<char>, Set<Seq<char>>>, s: Set<Seq<char>>) -> Map<Seq<char>, Set<Seq<char>>> {
    Map::new(|room: Seq<char>| r.contains_key(room), |room: Seq<char>| r[room].difference(s))
}

/// A time map with every key of `s` set to `now`.
pub open spec fn stamp_all(m: Map<Seq<char>, i64>, s: Set<Seq<char>>, now: i64) -> Map<Seq<char>, i64> {
    Map::new(|k: Seq<char>| m.contains_key(k) || s.contains(k), |k: Seq<char>| if s.contains(k) { now } else { m[k] })
}

/// The profiles with the screen shares of `s` off.
pub open spec fn sharing_off_all(m: Map<Seq<char>, PeerProfile>, s: Set<Seq<char>>) -> Map<Seq<char>, PeerProfile> {
    Map::new(|k: Seq<char>| m.contains_key(k), |k: Seq<char>| if s.contains(k) { sharing_off(m[k]) } else { m[k] })
}

/// The peers of a snapshot room, as the node takes them in.
fn incoming_list(people: &[String], me: &str) -> (r: Vec<String>)
    ensures
        strings_view(r@) == incoming(strings_view(people@), me@),
{
    let ghost f = |pk: Seq<char>| pk.len() > 0 && pk != me@;
    let ghost pv = strings_view(people@);
    let mut out: Vec<String> = Vec::new();
    let mut i: usize = 0;
    while i < people.len()
        invariant
            i <= people.len(),
            pv == strings_view(people@),
            f == (|pk: Seq<char>| pk.len() > 0 && pk != me@),
            strings_view(out@) == pv.take(i as int).filter(f),
        decreases people.len() - i,
    {
        let ghost x = pv[i as int];
        proof {
            pv.take(i as int).lemma_filter_push(x, f);
            assert(pv.take(i as int).push(x) =~= pv.take(i + 1));
        }
        if !people[i].as_str().is_empty() && !str_eq(people[i].as_str(), me) {
            let ghost before = strings_view(out@);
            let c = people[i].clone();
            out.push(c);
            assert(strings_view(out@) =~= before.push(x));
        }
        i += 1;
    }
    assert(pv.take(people.len() as int) =~= pv);
    out
}

/// One peer of a snapshot room, taken in.
fn merge_one_exec(inner: &mut Presence, room: &str, pk: &str, from_pk: &str, now: i64)
    ensures
        voice_state(*final(inner)) == merge_one(voice_state(*old(inner)), room@, pk@, from_pk@, now),
        final(inner).profiles@ == old(inner).profiles@,
        final(inner).last_seen@ == old(inner).last_seen@,
        same_self(*final(inner), *old(inner)),
{
    if !from_pk.is_empty() && str_eq(pk, from_pk) {
        unseat_everywhere(&mut inner.voice, pk);
        seat_in(&mut inner.voice, room, pk);
        note_voice_join(inner, pk, now);
        return;
    }
    if voice_left_held(inner, pk, now) || roster_seats(&inner.voice, pk) {
        return;
    }
    seat_in(&mut inner.voice, room, pk);
    note_voice_join(inner, pk, now);
}

/// Whether a peer joined voice within the grace period.
fn joined_recently(joined: &Vec<(String, i64)>, pk: &str, now: i64) -> (r: bool)
    ensures
        r == within(keyed_view(joined@), pk@, now, VOICE_JOIN_GRACE_MS as int),
{
    match keyed_find(joined, pk) {
        Some(i) => saturating_sub(now, joined[i].1) < VOICE_JOIN_GRACE_MS,
        None => false,
    }
}

/// Whether a seated peer counts as having left, for a snapshot room that
/// lists `inc`.
pub open spec fn leaver_ok(
    inc: Seq<Seq<char>>,
    joined: Map<Seq<char>, i64>,
    me: Seq<char>,
    from: Seq<char>,
    now: i64,
    pk: Seq<char>,
) -> bool {
    !inc.contains(pk) && pk.len() > 0 && pk != me && pk != from && !within(
        joined,
        pk,
        now,
        VOICE_JOIN_GRACE_MS as int,
    )
}

/// Pushing onto a list of strings adds to its set.
proof fn lemma_strings_push_set(v: Seq<Seq<char>>, x: Seq<char>, pk: Seq<char>)
    ensures
        v.push(x).to_set().contains(pk) <==> (v.to_set().contains(pk) || pk == x),
        v.push(x).contains(pk) <==> (v.contains(pk) || pk == x),
{
    v.lemma_push_to_set_commute(x);
    if v.push(x).contains(pk) && pk != x {
        let w = choose|w: int| 0 <= w < v.push(x).len() && v.push(x)[w] == pk;
        assert(v[w] == pk);
    }
    if v.contains(pk) {
        let w = choose|w: int| 0 <= w < v.len() && v[w] == pk;
        assert(v.push(x)[w] == pk);
    }
    if pk == x {
        assert(v.push(x)[v.len() as int] == pk);
    }
}

/// The peers seated in `room` that a snapshot listing `inc` there shows
/// have left.
fn room_leavers(
    voice: &Vec<(String, Vec<String>)>,
    joined: &Vec<(String, i64)>,
    room: &str,
    inc: &[String],
    me: &str,
    from_pk: &str,
    now: i64,
) -> (r: Vec<String>)
    ensures
        forall|pk: Seq<char>| #[trigger] strings_view(r@).to_set().contains(pk) <==> (roster_view(voice@).contains_key(room@) && roster_view(voice@)[room@].contains(pk)
            && leaver_ok(strings_view(inc@), keyed_view(joined@), me@, from_pk@, now, pk)),
{
    let ghost incv = strings_view(inc@);
    let ghost jv = keyed_view(joined@);
    let mut out: Vec<String> = Vec::new();
    let mut i: usize = 0;
    while i < voice.len()
        invariant
            i <= voice.len(),
            incv == strings_view(inc@),
            jv == keyed_view(joined@),
            forall|pk: Seq<char>| #[trigger] strings_view(out@).to_set().contains(pk) <==> (leaver_ok(incv, jv, me@, from_pk@, now, pk) && exists|j: int| 0 <= j < i && #[trigger] voice@[j].0@ == room@ && strings_view(voice@[j].1@).contains(pk)),
        decreases voice.len() - i,
    {
        if str_eq(voice[i].0.as_str(), room) {
            let people = &voice[i].1;
            let ghost pv = strings_view(people@);
            let mut k: usize = 0;
            let ghost base = strings_view(out@).to_set();
            while k < people.len()
                invariant
                    k <= people.len(),
                    i < voice.len(),
                    people@ == voice@[i as int].1@,
                    pv == strings_view(people@),
                    voice@[i as int].0@ == room@,
                    incv == strings_view(inc@),
                    jv == keyed_view(joined@),
                    forall|pk: Seq<char>| #[trigger] strings_view(out@).to_set().contains(pk) <==> (base.contains(pk) || (leaver_ok(incv, jv, me@, from_pk@, now, pk) && pv.take(k as int).contains(pk))),
                decreases people.len() - k,
            {
                let ghost x = pv[k as int];
                let ghost before = strings_view(out@);
                assert(pv.take(k + 1) =~= pv.take(k as int).push(x));
                let cond = !list_contains(inc, people[k].as_str()) && !people[k].as_str().is_empty()
                    && !str_eq(people[k].as_str(), me) && !str_eq(people[k].as_str(), from_pk)
                    && !joined_recently(joined, people[k].as_str(), now);
                assert(cond == leaver_ok(incv, jv, me@, from_pk@, now, x));
                if cond {
                    out.push(people[k].clone());
                    assert(strings_view(out@) =~= before.push(x));
                }
                proof {
                    assert forall|pk: Seq<char>| #[trigger] strings_view(out@).to_set().contains(pk) <==> (base.contains(pk) || (leaver_ok(incv, jv, me@, from_pk@, now, pk) && pv.take(k + 1).contains(pk))) by {
                        lemma_strings_push_set(before, x, pk);
                        lemma_strings_push_set(pv.take(k as int), x, pk);
                    }
                }
                k += 1;
            }
            proof {
                assert(pv.take(pv.len() as int) =~= pv);
                assert forall|pk: Seq<char>| #[trigger] strings_view(out@).to_set().contains(pk) <==> (leaver_ok(incv, jv, me@, from_pk@, now, pk) && exists|j: int| 0 <= j < i + 1 && #[trigger] voice@[j].0@ == room@ && strings_view(voice@[j].1@).contains(pk)) by {
                    if leaver_ok(incv, jv, me@, from_pk@, now, pk) && exists|j: int| 0 <= j < i + 1 && #[trigger] voice@[j].0@ == room@ && strings_view(voice@[j].1@).contains(pk) {
                        let j = choose|j: int| 0 <= j < i + 1 && #[trigger] voice@[j].0@ == room@ && strings_view(voice@[j].1@).contains(pk);
                        if j == i {
                            assert(pv.contains(pk));
                        } else {
                            assert(base.contains(pk));
                        }
                    }
                }
            }
        } else {
            proof {
                assert forall|pk: Seq<char>| #[trigger] strings_view(out@).to_set().contains(pk) <==> (leaver_ok(incv, jv, me@, from_pk@, now, pk) && exists|j: int| 0 <= j < i + 1 && #[trigger] voice@[j].0@ == room@ && strings_view(voice@[j].1@).contains(pk)) by {
                    if exists|j: int| 0 <= j < i + 1 && #[trigger] voice@[j].0@ == room@ && strings_view(voice@[j].1@).contains(pk) {
                        let j = choose|j: int| 0 <= j < i + 1 && #[trigger] voice@[j].0@ == room@ && strings_view(voice@[j].1@).contains(pk);
                        assert(j != i);
                    }
                }
            }
        }
        i += 1;
    }
    proof {
        assert forall|pk: Seq<char>| #[trigger] strings_view(out@).to_set().contains(pk) <==> (roster_view(voice@).contains_key(room@) && roster_view(voice@)[room@].contains(pk)
            && leaver_ok(incv, jv, me@, from_pk@, now, pk)) by {
            if strings_view(out@).to_set().contains(pk) {
                let j = choose|j: int| 0 <= j < voice.len() && #[trigger] voice@[j].0@ == room@ && strings_view(voice@[j].1@).contains(pk);
                assert(has_room(voice@, room@));
                assert(room_has(voice@, room@, pk));
            }
        }
    }
    out
}

/// The peers a snapshot from `from_pk` shows have left.
fn collect_leavers(inner: &Presence, rooms: &[(String, Vec<String>)], from_pk: &str, now: i64) -> (r: Vec<String>)
    ensures
        strings_view(r@).to_set() == leavers(rooms_view(rooms@), roster_view(inner.voice@), keyed_view(inner.voice_joined@), inner.me@, from_pk@, now),
{
    let ghost rv = rooms_view(rooms@);
    let ghost r0 = roster_view(inner.voice@);
    let ghost j0 = keyed_view(inner.voice_joined@);
    let ghost me = inner.me@;
    let mut out: Vec<String> = Vec::new();
    let mut i: usize = 0;
    while i < rooms.len()
        invariant
            i <= rooms.len(),
            rv == rooms_view(rooms@),
            r0 == roster_view(inner.voice@),
            j0 == keyed_view(inner.voice_joined@),
            me == inner.me@,
            forall|pk: Seq<char>| strings_view(out@).to_set().contains(pk) <==> leavers(rv.take(i as int), r0, j0, me, from_pk@, now).contains(pk),
        decreases rooms.len() - i,
    {
        let room = slug_name(rooms[i].0.as_str());
        let inc = incoming_list(rooms[i].1.as_slice(), inner.me.as_str());
        assert(rv[i as int] == (rooms@[i as int].0@, strings_view(rooms@[i as int].1@)));
        let ghost before = strings_view(out@);
        let ghost entry = rv[i as int];
        let found = list_contains(inc.as_slice(), from_pk);
        if found {
            let more = room_leavers(&inner.voice, &inner.voice_joined, room.as_str(), inc.as_slice(), inner.me.as_str(), from_pk, now);
            let ghost mv = strings_view(more@);
            let mut k: usize = 0;
            while k < more.len()
                invariant
                    k <= more.len(),
                    mv == strings_view(more@),
                    forall|pk: Seq<char>| #[trigger] strings_view(out@).to_set().contains(pk) <==> (before.to_set().contains(pk) || mv.take(k as int).contains(pk)),
                decreases more.len() - k,
            {
                let ghost b2 = strings_view(out@);
                let ghost x = mv[k as int];
                out.push(more[k].clone());
                proof {
                    assert(strings_view(out@) =~= b2.push(x));
                    assert(mv.take(k + 1) =~= mv.take(k as int).push(x));
                    assert forall|pk: Seq<char>| #[trigger] strings_view(out@).to_set().contains(pk) <==> (before.to_set().contains(pk) || mv.take(k + 1).contains(pk)) by {
                        lemma_strings_push_set(b2, x, pk);
                        lemma_strings_push_set(mv.take(k as int), x, pk);
                    }
                }
                k += 1;
            }
            proof {
                assert(mv.take(mv.len() as int) =~= mv);
                assert forall|pk: Seq<char>| mv.to_set().contains(pk) == mv.contains(pk) by {}
            }
        }
        proof {
            assert forall|pk: Seq<char>| #[trigger] strings_view(out@).to_set().contains(pk) <==> (before.to_set().contains(pk) || leaves_room(entry, r0, j0, me, from_pk@, now, pk)) by {
                if found {
                    assert(strings_view(inc@) == incoming(entry.1, me));
                    assert(room@ == slug_of(entry.0));
                } else {
                    assert(!incoming(entry.1, me).contains(from_pk@));
                }
            }
            assert forall|pk: Seq<char>| #[trigger] strings_view(out@).to_set().contains(pk) <==> leavers(rv.take(i + 1), r0, j0, me, from_pk@, now).contains(pk) by {
                let a = rv.take(i as int);
                let b = rv.take(i + 1);
                if leavers(b, r0, j0, me, from_pk@, now).contains(pk) {
                    let w = choose|w: int| 0 <= w < b.len() && #[trigger] leaves_room(b[w], r0, j0, me, from_pk@, now, pk);
                    if w < i {
                        assert(a[w] == b[w]);
                        assert(leavers(a, r0, j0, me, from_pk@, now).contains(pk));
                    } else {
                        assert(b[w] == entry);
                    }
                }
                if leavers(a, r0, j0, me, from_pk@, now).contains(pk) {
                    let w = choose|w: int| 0 <= w < a.len() && #[trigger] leaves_room(a[w], r0, j0, me, from_pk@, now, pk);
                    assert(a[w] == b[w]);
                    assert(leaves_room(b[w], r0, j0, me, from_pk@, now, pk));
                }
                if leaves_room(entry, r0, j0, me, from_pk@, now, pk) {
                    assert(b[i as int] == entry);
                    assert(leaves_room(b[i as int], r0, j0, me, from_pk@, now, pk));
                }
            }
        }
        i += 1;
    }
    proof {
        assert(rv.take(rooms.len() as int) =~= rv);
        assert(strings_view(out@).to_set() =~= leavers(rv, r0, j0, me, from_pk@, now));
    }
    out
}

/// The roster regrouped `n` times over.
pub open spec fn regroup_times(r: Map<Seq<char>, Set<Seq<char>>>, n: nat) -> Map<Seq<char>, Set<Seq<char>>>
    decreases n,
{
    if n == 0 {
        r
    } else {
        regroup(regroup_times(r, (n - 1) as nat))
    }
}

/// Taking a peer out commutes with regrouping.
proof fn lemma_unseat_regroup(r: Map<Seq<char>, Set<Seq<char>>>, pk: Seq<char>)
    ensures
        unseat(regroup(r), pk) == regroup(unseat(r, pk)),
{
    let a = unseat(regroup(r), pk);
    let b = regroup(unseat(r, pk));
    assert forall|k: Seq<char>| a.contains_key(k) <==> b.contains_key(k) by {
        if a.contains_key(k) {
            let room = choose|room: Seq<char>| r.contains_key(room) && #[trigger] slug_of(room) == k;
            assert(unseat(r, pk).contains_key(room));
        }
        if b.contains_key(k) {
            let room = choose|room: Seq<char>| unseat(r, pk).contains_key(room) && #[trigger] slug_of(room) == k;
            assert(r.contains_key(room));
        }
    }
    assert forall|k: Seq<char>| #[trigger] a.contains_key(k) implies a[k] =~= b[k] by {
        assert forall|x: Seq<char>| a[k].contains(x) <==> b[k].contains(x) by {
            if a[k].contains(x) {
                let room = choose|room: Seq<char>| r.contains_key(room) && #[trigger] slug_of(room) == k && r[room].contains(x);
                assert(unseat(r, pk)[room].contains(x));
            }
            if b[k].contains(x) {
                let room = choose|room: Seq<char>| unseat(r, pk).contains_key(room) && #[trigger] slug_of(room) == k && unseat(r, pk)[room].contains(x);
                assert(r[room].contains(x));
            }
        }
    }
    assert(a =~= b);
}

/// Taking a peer out commutes with regrouping any number of times.
proof fn lemma_unseat_regroup_times(r: Map<Seq<char>, Set<Seq<char>>>, pk: Seq<char>, n: nat)
    ensures
        unseat(regroup_times(r, n), pk) == regroup_times(unseat(r, pk), n),
    decreases n,
{
    if n > 0 {
        lemma_unseat_regroup_times(r, pk, (n - 1) as nat);
        lemma_unseat_regroup(regroup_times(r, (n - 1) as nat), pk);
    }
}

/// Regrouping keeps who is seated.
proof fn lemma_regroup_seated(r: Map<Seq<char>, Set<Seq<char>>>, pk: Seq<char>)
    ensures
        seated(regroup(r), pk) == seated(r, pk),
{
    let g = regroup(r);
    if seated(r, pk) {
        let room = choose|room: Seq<char>| #[trigger] r.contains_key(room) && r[room].contains(pk);
        let k = slug_of(room);
        assert(g.contains_key(k));
        assert(g[k].contains(pk));
    }
    if seated(g, pk) {
        let k = choose|k: Seq<char>| #[trigger] g.contains_key(k) && g[k].contains(pk);
        let room = choose|room: Seq<char>| r.contains_key(room) && #[trigger] slug_of(room) == k && r[room].contains(pk);
        assert(r.contains_key(room) && r[room].contains(pk));
    }
}

/// Regrouping any number of times keeps who is seated.
proof fn lemma_regroup_times_seated(r: Map<Seq<char>, Set<Seq<char>>>, pk: Seq<char>, n: nat)
    ensures
        seated(regroup_times(r, n), pk) == seated(r, pk),
    decreases n,
{
    if n > 0 {
        lemma_regroup_times_seated(r, pk, (n - 1) as nat);
        lemma_regroup_seated(regroup_times(r, (n - 1) as nat), pk);
    }
}

/// Seating and unseating touch only the peer moved.
proof fn lemma_seated_moves(r: Map<Seq<char>, Set<Seq<char>>>, room: Seq<char>, x: Seq<char>, pk: Seq<char>)
    ensures
        seated(seat(r, room, x), pk) == (seated(r, pk) || pk == x),
        seated(unseat(r, x), pk) == (seated(r, pk) && pk != x),
{
    let s = seat(r, room, x);
    let u = unseat(r, x);
    if seated(r, pk) {
        let k = choose|k: Seq<char>| #[trigger] r.contains_key(k) && r[k].contains(pk);
        assert(s.contains_key(k) && s[k].contains(pk));
        if pk != x {
            assert(u.contains_key(k) && u[k].contains(pk));
        }
    }
    if pk == x {
        assert(s.contains_key(room) && s[room].contains(pk));
    }
    if seated(s, pk) && pk != x {
        let k = choose|k: Seq<char>| #[trigger] s.contains_key(k) && s[k].contains(pk);
        if k == room && !r.contains_key(room) {
            assert(s[k] == Set::<Seq<char>>::empty().insert(x));
        }
        assert(r.contains_key(k) && r[k].contains(pk));
    }
    if seated(u, pk) {
        let k = choose|k: Seq<char>| #[trigger] u.contains_key(k) && u[k].contains(pk);
        assert(r.contains_key(k) && r[k].contains(pk));
    }
}

/// Taking no one out leaves the roster.
proof fn lemma_unseat_all_empty(r: Map<Seq<char>, Set<Seq<char>>>)
    ensures
        unseat_all(r, Set::empty()) == r,
{
    let a = unseat_all(r, Set::empty());
    assert forall|k: Seq<char>| #[trigger] a.contains_key(k) implies a[k] =~= r[k] by {}
    assert(a =~= r);
}

/// Taking a set of peers out, then one more, takes out the set with it.
proof fn lemma_unseat_all_insert(r: Map<Seq<char>, Set<Seq<char>>>, s: Set<Seq<char>>, pk: Seq<char>)
    ensures
        unseat(unseat_all(r, s), pk) == unseat_all(r, s.insert(pk)),
{
    let a = unseat(unseat_all(r, s), pk);
    let b = unseat_all(r, s.insert(pk));
    assert forall|k: Seq<char>| #[trigger] a.contains_key(k) implies a[k] =~= b[k] by {}
    assert(a =~= b);
}

/// The peers a snapshot from `from` marks as left, once its rooms are
/// taken in (`st`): none unless the sender is another peer.
pub open spec fn snapshot_leavers(
    rooms: Seq<(Seq<char>, Seq<Seq<char>>)>,
    st: (Map<Seq<char>, Set<Seq<char>>>, Map<Seq<char>, i64>, Map<Seq<char>, i64>),
    me: Seq<char>,
    from: Seq<char>,
    now: i64,
) -> Set<Seq<char>> {
    if from.len() > 0 && from != me {
        leavers(rooms, st.0, st.2, me, from, now)
    } else {
        Set::empty()
    }
}

/// What a voice snapshot from `from` leaves of node `a`, in `b`: the
/// snapshot's rooms are taken in room by room; then, when the sender is
/// another peer, everyone the snapshot shows has left the sender's rooms
/// is marked as left; the rooms are renamed to room names (once per
/// leaver and once more) and screen shares of unseated peers go off.
pub open spec fn voice_merged(
    a: Presence,
    b: Presence,
    rooms: Seq<(Seq<char>, Seq<Seq<char>>)>,
    from: Seq<char>,
    now: i64,
) -> bool {
    let st = merge_all(voice_state(a), rooms, a.me@, from, now);
    let drop = snapshot_leavers(rooms, st, a.me@, from, now);
    &&& exists|n: nat| n >= 1 && roster_view(b.voice@) == #[trigger] regroup_times(unseat_all(st.0, drop), n)
    &&& keyed_view(b.voice_left@) == stamp_all(st.1, drop, now)
    &&& keyed_view(b.voice_joined@) == st.2.remove_keys(drop)
    &&& keyed_view(b.profiles@) == scrub_view(a.me@, roster_view(b.voice@), sharing_off_all(keyed_view(a.profiles@), drop))
    &&& b.sharing_screen == (a.sharing_screen && seated(roster_view(b.voice@), a.me@))
    &&& b.last_seen@ == a.last_seen@
    &&& b.me == a.me
    &&& b.display_name == a.display_name
    &&& b.avatar == a.avatar
    &&& b.muted == a.muted
    &&& b.deafened == a.deafened
    &&& b.status == a.status
}

/// Takes in a voice snapshot (each room with the peers in it) sent by
/// `from_pk` (empty when the sender is unknown).
pub fn merge_voice_rooms(inner: &mut Presence, rooms: &[(String, Vec<String>)], from_pk: &str, now: i64)
    ensures
        voice_merged(*old(inner), *final(inner), rooms_view(rooms@), from_pk@, now),
{
    let ghost a = *inner;
    let ghost rv = rooms_view(rooms@);
    let ghost me = inner.me@;
    let mut i: usize = 0;
    assert(rv.take(0) =~= Seq::<(Seq<char>, Seq<Seq<char>>)>::empty());
    while i < rooms.len()
        invariant
            i <= rooms.len(),
            rv == rooms_view(rooms@),
            me == a.me@,
            voice_state(*inner) == merge_all(voice_state(a), rv.take(i as int), me, from_pk@, now),
            inner.profiles@ == a.profiles@,
            inner.last_seen@ == a.last_seen@,
            same_self(*inner, a),
        decreases rooms.len() - i,
    {
        let room = slug_name(rooms[i].0.as_str());
        let inc = incoming_list(rooms[i].1.as_slice(), inner.me.as_str());
        let ghost st0 = voice_state(*inner);
        let ghost incv = strings_view(inc@);
        proof {
            assert(rv[i as int] == (rooms@[i as int].0@, strings_view(rooms@[i as int].1@)));
            assert(rv.take(i + 1).drop_last() =~= rv.take(i as int));
            assert(rv.take(i + 1).last() == rv[i as int]);
            assert(incv.take(0) =~= Seq::<Seq<char>>::empty());
        }
        let mut j: usize = 0;
        while j < inc.len()
            invariant
                j <= inc.len(),
                incv == strings_view(inc@),
                me == a.me@,
                voice_state(*inner) == merge_people(st0, room@, incv.take(j as int), from_pk@, now),
                inner.profiles@ == a.profiles@,
                inner.last_seen@ == a.last_seen@,
                same_self(*inner, a),
            decreases inc.len() - j,
        {
            merge_one_exec(inner, room.as_str(), inc[j].as_str(), from_pk, now);
            proof {
                assert(incv.take(j + 1).drop_last() =~= incv.take(j as int));
                assert(incv.take(j + 1).last() == incv[j as int]);
            }
            j += 1;
        }
        proof {
            assert(incv.take(incv.len() as int) =~= incv);
        }
        i += 1;
    }
    proof {
        assert(rv.take(rooms.len() as int) =~= rv);
    }
    let ghost st = voice_state(*inner);
    let ghost r1 = st.0;
    let ghost p1 = keyed_view(inner.profiles@);
    let ghost mut n: nat = 1;
    let ghost mut dset: Set<Seq<char>> = Set::empty();
    if !from_pk.is_empty() && !str_eq(from_pk, inner.me.as_str()) {
        let drop = collect_leavers(inner, rooms, from_pk, now);
        let ghost dv = strings_view(drop@);
        let mut k: usize = 0;
        proof {
            assert(dv.take(0).to_set() =~= Set::<Seq<char>>::empty());
            lemma_unseat_all_empty(r1);
            assert(stamp_all(st.1, Set::empty(), now) =~= st.1);
            assert(st.2.remove_keys(Set::empty()) =~= st.2);
            assert(sharing_off_all(p1, Set::empty()) =~= p1);
        }
        while k < drop.len()
            invariant
                k <= drop.len(),
                dv == strings_view(drop@),
                dv.to_set() == leavers(rv, r1, st.2, me, from_pk@, now),
                me == a.me@,
                from_pk@.len() > 0,
                from_pk@ != me,
                roster_view(inner.voice@) == regroup_times(unseat_all(r1, dv.take(k as int).to_set()), k as nat),
                keyed_view(inner.voice_left@) == stamp_all(st.1, dv.take(k as int).to_set(), now),
                keyed_view(inner.voice_joined@) == st.2.remove_keys(dv.take(k as int).to_set()),
                keyed_view(inner.profiles@) == sharing_off_all(p1, dv.take(k as int).to_set()),
                inner.last_seen@ == a.last_seen@,
                same_self(*inner, a),
            decreases drop.len() - k,
        {
            let ghost x = dv[k as int];
            let ghost dk = dv.take(k as int).to_set();
            proof {
                assert(dv.to_set().contains(x));
                assert(dv.take(k + 1) =~= dv.take(k as int).push(x));
                dv.take(k as int).lemma_push_to_set_commute(x);
                let w = choose|w: int| 0 <= w < rv.len() && #[trigger] leaves_room(rv[w], r1, st.2, me, from_pk@, now, x);
                assert(leaves_room(rv[w], r1, st.2, me, from_pk@, now, x));
            }
            mark_voice_left(inner, drop[k].as_str(), now);
            proof {
                lemma_unseat_regroup_times(unseat_all(r1, dk), x, k as nat);
                lemma_unseat_all_insert(r1, dk, x);
                assert(keyed_view(inner.voice_left@) =~= stamp_all(st.1, dk.insert(x), now));
                assert(keyed_view(inner.voice_joined@) =~= st.2.remove_keys(dk.insert(x)));
                assert(keyed_view(inner.profiles@) =~= sharing_off_all(p1, dk.insert(x)));
            }
            k += 1;
        }
        proof {
            assert(dv.take(drop.len() as int) =~= dv);
        }
        proof {
            n = drop.len() as nat + 1;
            dset = dv.to_set();
        }
        normalize_voice(&mut inner.voice);
    } else {
        proof {
            lemma_unseat_all_empty(r1);
            assert(stamp_all(st.1, Set::empty(), now) =~= st.1);
            assert(st.2.remove_keys(Set::empty()) =~= st.2);
            assert(sharing_off_all(p1, Set::empty()) =~= p1);
        }
        normalize_voice(&mut inner.voice);
        assert(regroup_times(r1, 0) == r1);
    }
    scrub_unseated_sharing(inner);
    proof {
        let sd = snapshot_leavers(rv, st, a.me@, from_pk@, now);
        assert(st == merge_all(voice_state(a), rv, a.me@, from_pk@, now));
        assert(dset == sd);
        assert(roster_view(inner.voice@) == regroup_times(unseat_all(st.0, sd), n));
        assert(voice_merged(a, *inner, rv, from_pk@, now));
    }
}

// ---------------------------------------------------------------------------
// Laws of the voice roster
// ---------------------------------------------------------------------------
/// The peers a snapshot room brings in are never the node itself nor an
/// empty key.
proof fn lemma_incoming_excludes(people: Seq<Seq<char>>, me: Seq<char>)
    ensures
        !incoming(people, me).contains(me),
{
    broadcast use vstd::seq_lib::group_filter_ensures;

    if incoming(people, me).contains(me) {
        let i = choose|i: int| 0 <= i < incoming(people, me).len() && incoming(people, me)[i] == me;
        assert(incoming(people, me)[i] == me);
    }
}

/// Taking a set of peers out keeps the seat of anyone else.
proof fn lemma_unseat_all_seated(r: Map<Seq<char>, Set<Seq<char>>>, s: Set<Seq<char>>, pk: Seq<char>)
    ensures
        seated(unseat_all(r, s), pk) == (seated(r, pk) && !s.contains(pk)),
{
    let u = unseat_all(r, s);
    if seated(r, pk) && !s.contains(pk) {
        let k = choose|k: Seq<char>| #[trigger] r.contains_key(k) && r[k].contains(pk);
        assert(u.contains_key(k) && u[k].contains(pk));
    }
    if seated(u, pk) {
        let k = choose|k: Seq<char>| #[trigger] u.contains_key(k) && u[k].contains(pk);
        assert(r.contains_key(k) && r[k].contains(pk));
    }
}

/// Leavers are never the node itself nor the sender.
proof fn lemma_leavers_exclude(
    rooms: Seq<(Seq<char>, Seq<Seq<char>>)>,
    st: (Map<Seq<char>, Set<Seq<char>>>, Map<Seq<char>, i64>, Map<Seq<char>, i64>),
    me: Seq<char>,
    from: Seq<char>,
    now: i64,
)
    ensures
        !snapshot_leavers(rooms, st, me, from, now).contains(me),
        !snapshot_leavers(rooms, st, me, from, now).contains(from),
{
    if from.len() > 0 && from != me {
        let d = leavers(rooms, st.0, st.2, me, from, now);
        if d.contains(me) {
            let w = choose|w: int| 0 <= w < rooms.len() && #[trigger] leaves_room(rooms[w], st.0, st.2, me, from, now, me);
        }
        if d.contains(from) {
            let w = choose|w: int| 0 <= w < rooms.len() && #[trigger] leaves_room(rooms[w], st.0, st.2, me, from, now, from);
        }
    }
}

/// One merged peer moves only its own seat and leave time.
proof fn lemma_merge_one_other(
    st: (Map<Seq<char>, Set<Seq<char>>>, Map<Seq<char>, i64>, Map<Seq<char>, i64>),
    room: Seq<char>,
    x: Seq<char>,
    from: Seq<char>,
    now: i64,
    pk: Seq<char>,
)
    requires
        x != pk,
    ensures
        seated(merge_one(st, room, x, from, now).0, pk) == seated(st.0, pk),
        merge_one(st, room, x, from, now).1.contains_key(pk) == st.1.contains_key(pk),
        st.1.contains_key(pk) ==> merge_one(st, room, x, from, now).1[pk] == st.1[pk],
{
    lemma_seated_moves(st.0, room, x, pk);
    lemma_seated_moves(unseat(st.0, x), room, x, pk);
}

/// The peers of a room that do not list `pk` leave its seat and leave time.
proof fn lemma_merge_people_other(
    st: (Map<Seq<char>, Set<Seq<char>>>, Map<Seq<char>, i64>, Map<Seq<char>, i64>),
    room: Seq<char>,
    people: Seq<Seq<char>>,
    from: Seq<char>,
    now: i64,
    pk: Seq<char>,
)
    requires
        !people.contains(pk),
    ensures
        seated(merge_people(st, room, people, from, now).0, pk) == seated(st.0, pk),
    decreases people.len(),
{
    if people.len() > 0 {
        let rest = people.drop_last();
        if rest.contains(pk) {
            let i = choose|i: int| 0 <= i < rest.len() && rest[i] == pk;
            assert(people[i] == pk);
        }
        assert(people[people.len() - 1] == people.last());
        lemma_merge_people_other(st, room, rest, from, now, pk);
        lemma_merge_one_other(merge_people(st, room, rest, from, now), room, people.last(), from, now, pk);
    }
}

/// Taking in a snapshot's rooms never moves the node's own seat.
proof fn lemma_merge_all_own_seat(
    st: (Map<Seq<char>, Set<Seq<char>>>, Map<Seq<char>, i64>, Map<Seq<char>, i64>),
    rooms: Seq<(Seq<char>, Seq<Seq<char>>)>,
    me: Seq<char>,
    from: Seq<char>,
    now: i64,
)
    ensures
        seated(merge_all(st, rooms, me, from, now).0, me) == seated(st.0, me),
    decreases rooms.len(),
{
    if rooms.len() > 0 {
        lemma_merge_all_own_seat(st, rooms.drop_last(), me, from, now);
        lemma_incoming_excludes(rooms.last().1, me);
        lemma_merge_people_other(
            merge_all(st, rooms.drop_last(), me, from, now),
            slug_of(rooms.last().0),
            incoming(rooms.last().1, me),
            from,
            now,
            me,
        );
    }
}

/// A voice snapshot from a peer never seats nor unseats the node itself:
/// only its own join or leave does.
pub proof fn law_snapshot_keeps_own_seat(
    a: Presence,
    b: Presence,
    rooms: Seq<(Seq<char>, Seq<Seq<char>>)>,
    from: Seq<char>,
    now: i64,
)
    requires
        voice_merged(a, b, rooms, from, now),
    ensures
        seated(roster_view(b.voice@), a.me@) == seated(roster_view(a.voice@), a.me@),
{
    let st = merge_all(voice_state(a), rooms, a.me@, from, now);
    let drop = snapshot_leavers(rooms, st, a.me@, from, now);
    lemma_merge_all_own_seat(voice_state(a), rooms, a.me@, from, now);
    lemma_leavers_exclude(rooms, st, a.me@, from, now);
    lemma_unseat_all_seated(st.0, drop, a.me@);
    let n = choose|n: nat| n >= 1 && roster_view(b.voice@) == #[trigger] regroup_times(unseat_all(st.0, drop), n);
    lemma_regroup_times_seated(unseat_all(st.0, drop), a.me@, n);
}

/// A voice action from a peer never seats nor unseats the node itself.
pub proof fn law_peer_action_keeps_own_seat(
    a: Presence,
    b: Presence,
    room: Seq<char>,
    action: Seq<char>,
    pk: Seq<char>,
    now: i64,
)
    requires
        voice_action_applied(a, b, room, action, pk, now),
    ensures
        seated(roster_view(b.voice@), a.me@) == seated(roster_view(a.voice@), a.me@),
{
    let r = roster_view(a.voice@);
    let me = a.me@;
    if !(pk.len() == 0 || pk == me) {
        lemma_seated_moves(r, slug_of(room), pk, me);
        lemma_seated_moves(unseat(r, pk), slug_of(room), pk, me);
        lemma_regroup_seated(seat(unseat(r, pk), slug_of(room), pk), me);
        lemma_regroup_seated(unseat(r, pk), me);
        lemma_regroup_seated(regroup(unseat(r, pk)), me);
        lemma_regroup_seated(r, me);
    }
}

/// The sender's word holds once it is taken in: seated, with no leave
/// hold.
pub open spec fn sender_holds(
    st: (Map<Seq<char>, Set<Seq<char>>>, Map<Seq<char>, i64>, Map<Seq<char>, i64>),
    from: Seq<char>,
) -> bool {
    seated(st.0, from) && !st.1.contains_key(from)
}

/// Taking in a room keeps the sender's word, and gives it when the room
/// lists the sender.
proof fn lemma_merge_people_sender(
    st: (Map<Seq<char>, Set<Seq<char>>>, Map<Seq<char>, i64>, Map<Seq<char>, i64>),
    room: Seq<char>,
    people: Seq<Seq<char>>,
    from: Seq<char>,
    now: i64,
)
    requires
        from.len() > 0,
        people.contains(from) || sender_holds(st, from),
    ensures
        sender_holds(merge_people(st, room, people, from, now), from),
    decreases people.len(),
{
    if people.len() > 0 {
        let rest = people.drop_last();
        let x = people.last();
        let m = merge_people(st, room, rest, from, now);
        if x == from {
            lemma_seated_moves(unseat(m.0, x), room, x, from);
        } else {
            let i = choose|i: int| 0 <= i < people.len() && people[i] == from || sender_holds(st, from);
            if !sender_holds(st, from) {
                assert(i < rest.len());
                assert(rest[i] == from);
            }
            lemma_merge_people_sender(st, room, rest, from, now);
            lemma_merge_one_other(m, room, x, from, now, from);
        }
    }
}

/// Taking in a snapshot's rooms gives the sender's word when some room
/// lists it.
proof fn lemma_merge_all_sender(
    st: (Map<Seq<char>, Set<Seq<char>>>, Map<Seq<char>, i64>, Map<Seq<char>, i64>),
    rooms: Seq<(Seq<char>, Seq<Seq<char>>)>,
    me: Seq<char>,
    from: Seq<char>,
    now: i64,
    i: int,
)
    requires
        from.len() > 0,
        0 <= i < rooms.len(),
        incoming(rooms[i].1, me).contains(from),
    ensures
        sender_holds(merge_all(st, rooms, me, from, now), from),
    decreases rooms.len(),
{
    let rest = rooms.drop_last();
    let m = merge_all(st, rest, me, from, now);
    let inc = incoming(rooms.last().1, me);
    if i == rooms.len() - 1 {
        lemma_merge_people_sender(m, slug_of(rooms.last().0), inc, from, now);
    } else {
        assert(rest[i] == rooms[i]);
        lemma_merge_all_sender(st, rest, me, from, now, i);
        lemma_merge_people_sender(m, slug_of(rooms.last().0), inc, from, now);
    }
}

/// A peer's own word on its seat wins: after a snapshot from `from` that
/// lists `from` in one of its rooms, `from` is seated, and no leave hold
/// is kept for it.
pub proof fn law_sender_seat_wins(
    a: Presence,
    b: Presence,
    rooms: Seq<(Seq<char>, Seq<Seq<char>>)>,
    from: Seq<char>,
    now: i64,
    i: int,
)
    requires
        voice_merged(a, b, rooms, from, now),
        from.len() > 0,
        0 <= i < rooms.len(),
        incoming(rooms[i].1, a.me@).contains(from),
    ensures
        seated(roster_view(b.voice@), from),
        !keyed_view(b.voice_left@).contains_key(from),
{
    let st = merge_all(voice_state(a), rooms, a.me@, from, now);
    let drop = snapshot_leavers(rooms, st, a.me@, from, now);
    lemma_merge_all_sender(voice_state(a), rooms, a.me@, from, now, i);
    lemma_leavers_exclude(rooms, st, a.me@, from, now);
    lemma_unseat_all_seated(st.0, drop, from);
    let n = choose|n: nat| n >= 1 && roster_view(b.voice@) == #[trigger] regroup_times(unseat_all(st.0, drop), n);
    lemma_regroup_times_seated(unseat_all(st.0, drop), from, n);
}

/// `pk` is held out of voice: it left within the hold and sits nowhere.
pub open spec fn held_out(
    st: (Map<Seq<char>, Set<Seq<char>>>, Map<Seq<char>, i64>, Map<Seq<char>, i64>),
    pk: Seq<char>,
    now: i64,
) -> bool {
    within(st.1, pk, now, VOICE_LEAVE_HOLD_MS as int) && !seated(st.0, pk)
}

/// Taking in a room that is not `pk`'s own snapshot keeps `pk` held out.
proof fn lemma_merge_people_held(
    st: (Map<Seq<char>, Set<Seq<char>>>, Map<Seq<char>, i64>, Map<Seq<char>, i64>),
    room: Seq<char>,
    people: Seq<Seq<char>>,
    from: Seq<char>,
    now: i64,
    pk: Seq<char>,
)
    requires
        pk != from,
        held_out(st, pk, now),
    ensures
        held_out(merge_people(st, room, people, from, now), pk, now),
    decreases people.len(),
{
    if people.len() > 0 {
        let rest = people.drop_last();
        lemma_merge_people_held(st, room, rest, from, now, pk);
        let m = merge_people(st, room, rest, from, now);
        if people.last() != pk {
            lemma_merge_one_other(m, room, people.last(), from, now, pk);
        }
    }
}

/// Taking in a snapshot's rooms keeps `pk` held out, unless `pk` sent it.
proof fn lemma_merge_all_held(
    st: (Map<Seq<char>, Set<Seq<char>>>, Map<Seq<char>, i64>, Map<Seq<char>, i64>),
    rooms: Seq<(Seq<char>, Seq<Seq<char>>)>,
    me: Seq<char>,
    from: Seq<char>,
    now: i64,
    pk: Seq<char>,
)
    requires
        pk != from,
        held_out(st, pk, now),
    ensures
        held_out(merge_all(st, rooms, me, from, now), pk, now),
    decreases rooms.len(),
{
    if rooms.len() > 0 {
        lemma_merge_all_held(st, rooms.drop_last(), me, from, now, pk);
        lemma_merge_people_held(
            merge_all(st, rooms.drop_last(), me, from, now),
            slug_of(rooms.last().0),
            incoming(rooms.last().1, me),
            from,
            now,
            pk,
        );
    }
}

/// A leave is not undone by a stale snapshot: a peer that left voice
/// within the hold and sits nowhere stays out of every room after a
/// snapshot that some other peer sent.
pub proof fn law_leave_hold_stands(
    a: Presence,
    b: Presence,
    rooms: Seq<(Seq<char>, Seq<Seq<char>>)>,
    from: Seq<char>,
    now: i64,
    pk: Seq<char>,
)
    requires
        voice_merged(a, b, rooms, from, now),
        pk != from,
        within(keyed_view(a.voice_left@), pk, now, VOICE_LEAVE_HOLD_MS as int),
        !seated(roster_view(a.voice@), pk),
    ensures
        !seated(roster_view(b.voice@), pk),
{
    let st = merge_all(voice_state(a), rooms, a.me@, from, now);
    let drop = snapshot_leavers(rooms, st, a.me@, from, now);
    lemma_merge_all_held(voice_state(a), rooms, a.me@, from, now, pk);
    lemma_unseat_all_seated(st.0, drop, pk);
    let n = choose|n: nat| n >= 1 && roster_view(b.voice@) == #[trigger] regroup_times(unseat_all(st.0, drop), n);
    lemma_regroup_times_seated(unseat_all(st.0, drop), pk, n);
}

/// No one sits in two rooms.
pub open spec fn single_seat(r: Map<Seq<char>, Set<Seq<char>>>) -> bool {
    forall|pk: Seq<char>, x: Seq<char>, y: Seq<char>|
        r.contains_key(x) && r.contains_key(y) && #[trigger] r[x].contains(pk) && #[trigger] r[y].contains(pk) ==> x == y
}

/// Seating someone who sits nowhere, taking people out, and regrouping
/// keep everyone in at most one room.
proof fn lemma_single_seat_steps(r: Map<Seq<char>, Set<Seq<char>>>, room: Seq<char>, x: Seq<char>, s: Set<Seq<char>>)
    requires
        single_seat(r),
    ensures
        !seated(r, x) ==> single_seat(seat(r, room, x)),
        single_seat(unseat(r, x)),
        single_seat(unseat_all(r, s)),
        single_seat(regroup(r)),
{
    let t = seat(r, room, x);
    if !seated(r, x) {
        assert forall|pk: Seq<char>, a: Seq<char>, b: Seq<char>|
            t.contains_key(a) && t.contains_key(b) && #[trigger] t[a].contains(pk) && #[trigger] t[b].contains(pk) implies a == b by {
            if pk == x {
                if a != room {
                    assert(r.contains_key(a) && r[a].contains(x));
                }
                if b != room {
                    assert(r.contains_key(b) && r[b].contains(x));
                }
            } else {
                if a == room && !r.contains_key(room) {
                    assert(t[a] == Set::<Seq<char>>::empty().insert(x));
                }
                if b == room && !r.contains_key(room) {
                    assert(t[b] == Set::<Seq<char>>::empty().insert(x));
                }
                assert(r[a].contains(pk) && r[b].contains(pk));
            }
        }
    }
    let u = unseat(r, x);
    assert forall|pk: Seq<char>, a: Seq<char>, b: Seq<char>|
        u.contains_key(a) && u.contains_key(b) && #[trigger] u[a].contains(pk) && #[trigger] u[b].contains(pk) implies a == b by {
        assert(r[a].contains(pk) && r[b].contains(pk));
    }
    let v = unseat_all(r, s);
    assert forall|pk: Seq<char>, a: Seq<char>, b: Seq<char>|
        v.contains_key(a) && v.contains_key(b) && #[trigger] v[a].contains(pk) && #[trigger] v[b].contains(pk) implies a == b by {
        assert(r[a].contains(pk) && r[b].contains(pk));
    }
    let g = regroup(r);
    assert forall|pk: Seq<char>, a: Seq<char>, b: Seq<char>|
        g.contains_key(a) && g.contains_key(b) && #[trigger] g[a].contains(pk) && #[trigger] g[b].contains(pk) implies a == b by {
        let ra = choose|room: Seq<char>| r.contains_key(room) && #[trigger] slug_of(room) == a && r[room].contains(pk);
        let rb = choose|room: Seq<char>| r.contains_key(room) && #[trigger] slug_of(room) == b && r[room].contains(pk);
        assert(r[ra].contains(pk) && r[rb].contains(pk));
    }
}

/// Regrouping any number of times keeps everyone in at most one room.
proof fn lemma_single_seat_regroup_times(r: Map<Seq<char>, Set<Seq<char>>>, n: nat)
    requires
        single_seat(r),
    ensures
        single_seat(regroup_times(r, n)),
    decreases n,
{
    if n > 0 {
        lemma_single_seat_regroup_times(r, (n - 1) as nat);
        lemma_single_seat_steps(regroup_times(r, (n - 1) as nat), Seq::empty(), Seq::empty(), Set::empty());
    }
}

/// Taking in a room keeps everyone in at most one room.
proof fn lemma_single_seat_merge_people(
    st: (Map<Seq<char>, Set<Seq<char>>>, Map<Seq<char>, i64>, Map<Seq<char>, i64>),
    room: Seq<char>,
    people: Seq<Seq<char>>,
    from: Seq<char>,
    now: i64,
)
    requires
        single_seat(st.0),
    ensures
        single_seat(merge_people(st, room, people, from, now).0),
    decreases people.len(),
{
    if people.len() > 0 {
        lemma_single_seat_merge_people(st, room, people.drop_last(), from, now);
        let m = merge_people(st, room, people.drop_last(), from, now);
        let x = people.last();
        lemma_single_seat_steps(m.0, room, x, Set::empty());
        lemma_single_seat_steps(unseat(m.0, x), room, x, Set::empty());
        lemma_seated_moves(m.0, room, x, x);
    }
}

/// Taking in a snapshot's rooms keeps everyone in at most one room.
proof fn lemma_single_seat_merge_all(
    st: (Map<Seq<char>, Set<Seq<char>>>, Map<Seq<char>, i64>, Map<Seq<char>, i64>),
    rooms: Seq<(Seq<char>, Seq<Seq<char>>)>,
    me: Seq<char>,
    from: Seq<char>,
    now: i64,
)
    requires
        single_seat(st.0),
    ensures
        single_seat(merge_all(st, rooms, me, from, now).0),
    decreases rooms.len(),
{
    if rooms.len() > 0 {
        lemma_single_seat_merge_all(st, rooms.drop_last(), me, from, now);
        lemma_single_seat_merge_people(
            merge_all(st, rooms.drop_last(), me, from, now),
            slug_of(rooms.last().0),
            incoming(rooms.last().1, me),
            from,
            now,
        );
    }
}

/// A voice snapshot never puts anyone in two rooms.
pub proof fn law_snapshot_single_seat(
    a: Presence,
    b: Presence,
    rooms: Seq<(Seq<char>, Seq<Seq<char>>)>,
    from: Seq<char>,
    now: i64,
)
    requires
        voice_merged(a, b, rooms, from, now),
        single_seat(roster_view(a.voice@)),
    ensures
        single_seat(roster_view(b.voice@)),
{
    let st = merge_all(voice_state(a), rooms, a.me@, from, now);
    let drop = snapshot_leavers(rooms, st, a.me@, from, now);
    lemma_single_seat_merge_all(voice_state(a), rooms, a.me@, from, now);
    lemma_single_seat_steps(st.0, Seq::empty(), Seq::empty(), drop);
    let n = choose|n: nat| n >= 1 && roster_view(b.voice@) == #[trigger] regroup_times(unseat_all(st.0, drop), n);
    lemma_single_seat_regroup_times(unseat_all(st.0, drop), n);
}

/// A voice action never puts anyone in two rooms.
pub proof fn law_peer_action_single_seat(
    a: Presence,
    b: Presence,
    room: Seq<char>,
    action: Seq<char>,
    pk: Seq<char>,
    now: i64,
)
    requires
        voice_action_applied(a, b, room, action, pk, now),
        single_seat(roster_view(a.voice@)),
    ensures
        single_seat(roster_view(b.voice@)),
{
    let r = roster_view(a.voice@);
    if !(pk.len() == 0 || pk == a.me@) {
        lemma_single_seat_steps(r, slug_of(room), pk, Set::empty());
        lemma_single_seat_steps(unseat(r, pk), slug_of(room), pk, Set::empty());
        lemma_seated_moves(r, slug_of(room), pk, pk);
        lemma_single_seat_steps(seat(unseat(r, pk), slug_of(room), pk), Seq::empty(), Seq::empty(), Set::empty());
        lemma_single_seat_steps(regroup(unseat(r, pk)), Seq::empty(), Seq::empty(), Set::empty());
    }
}

// ---------------------------------------------------------------------------
// Liveness of peers
// ---------------------------------------------------------------------------
/// Milliseconds during which a relay's "offline" for a peer is ignored
/// after the peer was last heard from.
pub const RELAY_OFFLINE_GRACE_MS: i64 = 45000;

/// The status a peer shows at `now`: the node's own status word for
/// itself; `offline` for a peer not heard from within the TTL; otherwise
/// its status word (`online` when it reported none or `offline`).
pub open spec fn live_status_of(p: Presence, pk: Seq<char>, now: i64) -> Seq<char> {
    if pk == p.me@ {
        status_word(p.status@)
    } else {
        let ls = keyed_view(p.last_seen@);
        let last: i64 = if ls.contains_key(pk) {
            ls[pk]
        } else {
            0
        };
        if last == 0 || sat_sub(now, last) > PRESENCE_TTL_MS as int {
            "offline"@
        } else {
            let pr = keyed_view(p.profiles@);
            let raw = if pr.contains_key(pk) {
                pr[pk].status@
            } else {
                "online"@
            };
            if raw == "offline"@ || raw.len() == 0 {
                "online"@
            } else {
                status_word(raw)
            }
        }
    }
}

/// The status a peer shows at `now`.
pub fn live_status(inner: &Presence, pk: &str, now: i64) -> (r: String)
    ensures
        r@ == live_status_of(*inner, pk@, now),
{
    if str_eq(pk, inner.me.as_str()) {
        return normalize_status(inner.status.as_str());
    }
    let last: i64 = match keyed_find(&inner.last_seen, pk) {
        Some(i) => inner.last_seen[i].1,
        None => 0,
    };
    if last == 0 || saturating_sub(now, last) > PRESENCE_TTL_MS {
        return offline_status();
    }
    let known = keyed_find(&inner.profiles, pk);
    let raw_offline = match known {
        Some(i) => str_eq(inner.profiles[i].1.status.as_str(), "offline") || inner.profiles[i].1.status.as_str().is_empty(),
        None => false,
    };
    if raw_offline {
        return "online".to_owned();
    }
    match known {
        Some(i) => normalize_status(inner.profiles[i].1.status.as_str()),
        None => {
            proof {
                reveal_strlit("online");
                reveal_strlit("offline");
                assert("online"@.len() != "offline"@.len());
            }
            normalize_status("online")
        },
    }
}

/// `q` is profile `p` gone offline: the same name, avatar and flags,
/// status `offline`, screen share off.
pub open spec fn gone_offline(p: PeerProfile, q: PeerProfile) -> bool {
    &&& q.display_name == p.display_name
    &&& q.avatar == p.avatar
    &&& q.muted == p.muted
    &&& q.deafened == p.deafened
    &&& q.status@ == "offline"@
    &&& !q.sharing_screen
}

/// `b` is the profiles `a` with those of the peers in `s` gone offline.
pub open spec fn profiles_gone_offline(a: Map<Seq<char>, PeerProfile>, b: Map<Seq<char>, PeerProfile>, s: Set<Seq<char>>) -> bool {
    &&& b.dom() == a.dom()
    &&& forall|k: Seq<char>| #[trigger] b.contains_key(k) ==> if s.contains(k) {
        gone_offline(a[k], b[k])
    } else {
        b[k] == a[k]
    }
}

/// Marks `pk`'s profile, if any, offline with its screen share off.
fn profile_offline(profiles: &mut Vec<(String, PeerProfile)>, pk: &str)
    ensures
        profiles_gone_offline(keyed_view(old(profiles)@), keyed_view(final(profiles)@), set![pk@]),
{
    match keyed_find(profiles, pk) {
        Some(i) => {
            let ghost before = profiles@;
            let mut e = profiles.remove(i);
            e.1.status = offline_status();
            e.1.sharing_screen = false;
            proof {
                lemma_keyed_update(before, i as int, e);
            }
            profiles.insert(i, e);
            assert(profiles@ =~= before.update(i as int, e));
            assert(keyed_view(profiles@).dom() =~= keyed_view(before).dom());
        },
        None => {
            assert(keyed_view(profiles@).dom() =~= keyed_view(old(profiles)@).dom());
        },
    }
}

/// Marks a peer offline: it is no longer counted as heard from, and its
/// profile shows `offline` with its screen share off. Its voice seat stays:
/// a relay's will or a blip in presence must not pull anyone out of a call
/// (a voice leave is its own message). Names no rooms.
pub fn mark_peer_offline(inner: &mut Presence, pk: &str) -> (r: Vec<String>)
    ensures
        r@.len() == 0,
        keyed_view(final(inner).last_seen@) == keyed_view(old(inner).last_seen@).remove(pk@),
        profiles_gone_offline(keyed_view(old(inner).profiles@), keyed_view(final(inner).profiles@), set![pk@]),
        final(inner).voice@ == old(inner).voice@,
        final(inner).voice_left@ == old(inner).voice_left@,
        final(inner).voice_joined@ == old(inner).voice_joined@,
        same_self(*final(inner), *old(inner)),
{
    keyed_remove(&mut inner.last_seen, pk);
    profile_offline(&mut inner.profiles, pk);
    Vec::new()
}

/// A peer whose direct link dropped (not the node itself, nor an empty
/// key): marked offline and taken out of voice; each room it left is named
/// with it.
#[verifier::spinoff_prover]
pub fn drop_disconnected_peer(inner: &mut Presence, pk: &str) -> (r: Vec<(String, String)>)
    ensures
        (pk@.len() == 0 || pk@ == old(inner).me@) ==> r@.len() == 0 && *final(inner) == *old(inner),
        !(pk@.len() == 0 || pk@ == old(inner).me@) ==> {
            &&& forall|i: int| 0 <= i < r@.len() ==> (#[trigger] r@[i]).0@ == pk@
            &&& forall|room: Seq<char>| (exists|i: int| 0 <= i < r@.len() && #[trigger] r@[i].1@ == room) <==> (roster_view(old(inner).voice@).contains_key(room) && roster_view(old(inner).voice@)[room].contains(pk@))
            &&& roster_view(final(inner).voice@) == regroup(unseat(roster_view(old(inner).voice@), pk@))
            &&& keyed_view(final(inner).last_seen@) == keyed_view(old(inner).last_seen@).remove(pk@)
            &&& profiles_gone_offline(keyed_view(old(inner).profiles@), keyed_view(final(inner).profiles@), set![pk@])
            &&& final(inner).voice_left@ == old(inner).voice_left@
            &&& final(inner).voice_joined@ == old(inner).voice_joined@
            &&& same_self(*final(inner), *old(inner))
        },
{
    if pk.is_empty() || str_eq(pk, inner.me.as_str()) {
        return Vec::new();
    }
    let ghost r0 = roster_view(inner.voice@);
    mark_peer_offline(inner, pk);
    let ghost p1 = keyed_view(inner.profiles@);
    let rooms = drop_from_voice(inner, pk);
    proof {
        assert forall|k: Seq<char>| #[trigger] keyed_view(inner.profiles@).contains_key(k) implies (if set![pk@].contains(k) {
            gone_offline(keyed_view(old(inner).profiles@)[k], keyed_view(inner.profiles@)[k])
        } else {
            keyed_view(inner.profiles@)[k] == keyed_view(old(inner).profiles@)[k]
        }) by {
            assert(p1.contains_key(k));
        }
        assert(keyed_view(inner.profiles@).dom() =~= keyed_view(old(inner).profiles@).dom());
    }
    let ghost rv = strings_view(rooms@);
    let mut out: Vec<(String, String)> = Vec::new();
    let mut i: usize = 0;
    while i < rooms.len()
        invariant
            i <= rooms.len(),
            rv == strings_view(rooms@),
            out@.len() == i,
            forall|j: int| 0 <= j < i ==> (#[trigger] out@[j]).0@ == pk@ && out@[j].1@ == rv[j],
        decreases rooms.len() - i,
    {
        out.push((pk.to_owned(), rooms[i].clone()));
        i += 1;
    }
    proof {
        assert forall|room: Seq<char>| (exists|j: int| 0 <= j < out@.len() && #[trigger] out@[j].1@ == room) <==> rv.to_set().contains(room) by {
            if exists|j: int| 0 <= j < out@.len() && #[trigger] out@[j].1@ == room {
                let j = choose|j: int| 0 <= j < out@.len() && #[trigger] out@[j].1@ == room;
                assert(rv[j] == room);
            }
            if rv.to_set().contains(room) {
                let j = choose|j: int| 0 <= j < rv.len() && rv[j] == room;
                assert(out@[j].1@ == room);
            }
        }
        assert(rv.to_set() == Set::new(|room: Seq<char>| r0.contains_key(room) && r0[room].contains(pk@)));
        assert forall|room: Seq<char>| (exists|j: int| 0 <= j < out@.len() && #[trigger] out@[j].1@ == room) <==> (r0.contains_key(room) && r0[room].contains(pk@)) by {
            assert(rv.to_set().contains(room) == (r0.contains_key(room) && r0[room].contains(pk@)));
        }
        assert(roster_view(inner.voice@) == regroup(unseat(r0, pk@)));
        assert(keyed_view(inner.last_seen@) == keyed_view(old(inner).last_seen@).remove(pk@));
        assert(same_self(*inner, *old(inner)));
        assert(profiles_gone_offline(keyed_view(old(inner).profiles@), keyed_view(inner.profiles@), set![pk@]));
        assert(inner.voice_left@ == old(inner).voice_left@);
        assert(inner.voice_joined@ == old(inner).voice_joined@);
        assert(forall|i: int| 0 <= i < out@.len() ==> (#[trigger] out@[i]).0@ == pk@);
    }
    out
}

/// The peers whose presence has expired at `now`: heard from last more
/// than the TTL ago (never the node itself).
pub open spec fn stale_peers(p: Presence, now: i64) -> Set<Seq<char>> {
    let ls = keyed_view(p.last_seen@);
    Set::new(|k: Seq<char>| ls.contains_key(k) && k != p.me@ && sat_sub(now, ls[k]) > PRESENCE_TTL_MS as int)
}

/// The peers whose presence has expired at `now`.
fn collect_stale(inner: &Presence, now: i64) -> (r: Vec<String>)
    ensures
        strings_view(r@).to_set() == stale_peers(*inner, now),
{
    let ghost st = stale_peers(*inner, now);
    let ghost lv = inner.last_seen@;
    let mut out: Vec<String> = Vec::new();
    let mut i: usize = 0;
    while i < inner.last_seen.len()
        invariant
            i <= inner.last_seen.len(),
            lv == inner.last_seen@,
            st == stale_peers(*inner, now),
            forall|x: Seq<char>| #[trigger] strings_view(out@).to_set().contains(x) <==> (st.contains(x) && exists|e: int| 0 <= e < i && #[trigger] lv[e].0@ == x),
        decreases inner.last_seen.len() - i,
    {
        let key = &inner.last_seen[i].0;
        let ghost kv = key@;
        let ghost before = strings_view(out@);
        let hit = match keyed_find(&inner.last_seen, key.as_str()) {
            Some(j) => !str_eq(key.as_str(), inner.me.as_str()) && saturating_sub(now, inner.last_seen[j].1) > PRESENCE_TTL_MS,
            None => false,
        };
        proof {
            lemma_keyed_dom(lv, kv);
            assert(has_key(lv, kv));
            assert(hit == st.contains(kv));
        }
        if hit {
            out.push(key.clone());
            proof {
                assert(strings_view(out@) =~= before.push(kv));
            }
        }
        proof {
            assert forall|x: Seq<char>| #[trigger] strings_view(out@).to_set().contains(x) <==> (st.contains(x) && exists|e: int| 0 <= e < i + 1 && #[trigger] lv[e].0@ == x) by {
                lemma_strings_push_set(before, kv, x);
                if st.contains(x) && exists|e: int| 0 <= e < i + 1 && #[trigger] lv[e].0@ == x {
                    let e = choose|e: int| 0 <= e < i + 1 && #[trigger] lv[e].0@ == x;
                    if e < i {
                        assert(exists|e2: int| 0 <= e2 < i && #[trigger] lv[e2].0@ == x);
                    }
                }
                if before.to_set().contains(x) {
                    let e = choose|e: int| 0 <= e < i && #[trigger] lv[e].0@ == x;
                    assert(0 <= e < i + 1 && lv[e].0@ == x);
                }
            }
        }
        i += 1;
    }
    proof {
        assert forall|x: Seq<char>| strings_view(out@).to_set().contains(x) <==> st.contains(x) by {
            if st.contains(x) {
                lemma_keyed_dom(lv, x);
                let e = choose|e: int| 0 <= e < lv.len() && #[trigger] lv[e].0@ == x;
            }
        }
        assert(strings_view(out@).to_set() =~= st);
    }
    out
}

/// Expires the presence of peers not heard from within the TTL: each goes
/// offline (its profile too) with its screen share off, and screen shares
/// of unseated peers go off. No one leaves a voice room for it; no room is
/// named.
pub fn expire_stale_presence(inner: &mut Presence, now: i64) -> (r: Vec<(String, String)>)
    ensures
        r@.len() == 0,
        keyed_view(final(inner).last_seen@) == keyed_view(old(inner).last_seen@).remove_keys(stale_peers(*old(inner), now)),
        keyed_view(final(inner).profiles@).dom() == keyed_view(old(inner).profiles@).dom(),
        forall|k: Seq<char>| #[trigger] keyed_view(final(inner).profiles@).contains_key(k) ==> if stale_peers(*old(inner), now).contains(k) {
            gone_offline(keyed_view(old(inner).profiles@)[k], keyed_view(final(inner).profiles@)[k])
        } else {
            keyed_view(final(inner).profiles@)[k] == scrubbed(old(inner).me@, roster_view(old(inner).voice@), k, keyed_view(old(inner).profiles@)[k])
        },
        final(inner).sharing_screen == (old(inner).sharing_screen && seated(roster_view(old(inner).voice@), old(inner).me@)),
        final(inner).voice@ == old(inner).voice@,
        final(inner).voice_left@ == old(inner).voice_left@,
        final(inner).voice_joined@ == old(inner).voice_joined@,
        final(inner).me == old(inner).me,
        final(inner).status == old(inner).status,
{
    let ghost st = stale_peers(*inner, now);
    let ghost l0 = keyed_view(inner.last_seen@);
    let ghost p0 = keyed_view(inner.profiles@);
    let stale = collect_stale(inner, now);
    let ghost sv = strings_view(stale@);
    let mut k: usize = 0;
    proof {
        assert(sv.take(0).to_set() =~= Set::<Seq<char>>::empty());
        assert(l0.remove_keys(Set::empty()) =~= l0);
    }
    while k < stale.len()
        invariant
            k <= stale.len(),
            sv == strings_view(stale@),
            sv.to_set() == st,
            keyed_view(inner.last_seen@) == l0.remove_keys(sv.take(k as int).to_set()),
            profiles_gone_offline(p0, keyed_view(inner.profiles@), sv.take(k as int).to_set()),
            inner.voice@ == old(inner).voice@,
            inner.voice_left@ == old(inner).voice_left@,
            inner.voice_joined@ == old(inner).voice_joined@,
            same_self(*inner, *old(inner)),
        decreases stale.len() - k,
    {
        let ghost x = sv[k as int];
        let ghost t = sv.take(k as int).to_set();
        let ghost pb = keyed_view(inner.profiles@);
        keyed_remove(&mut inner.last_seen, stale[k].as_str());
        profile_offline(&mut inner.profiles, stale[k].as_str());
        proof {
            assert(sv.take(k + 1) =~= sv.take(k as int).push(x));
            sv.take(k as int).lemma_push_to_set_commute(x);
            assert(keyed_view(inner.last_seen@) =~= l0.remove_keys(t.insert(x)));
            let pa = keyed_view(inner.profiles@);
            assert forall|key: Seq<char>| #[trigger] pa.contains_key(key) implies (if t.insert(x).contains(key) {
                gone_offline(p0[key], pa[key])
            } else {
                pa[key] == p0[key]
            }) by {
                assert(pb.contains_key(key));
            }
        }
        k += 1;
    }
    proof {
        assert(sv.take(stale.len() as int) =~= sv);
    }
    let ghost p1 = keyed_view(inner.profiles@);
    scrub_unseated_sharing(inner);
    proof {
        let r = roster_view(old(inner).voice@);
        let me = old(inner).me@;
        assert forall|key: Seq<char>| #[trigger] keyed_view(inner.profiles@).contains_key(key) implies (if st.contains(key) {
            gone_offline(p0[key], keyed_view(inner.profiles@)[key])
        } else {
            keyed_view(inner.profiles@)[key] == scrubbed(me, r, key, p0[key])
        }) by {
            assert(p1.contains_key(key));
        }
        assert(keyed_view(inner.profiles@).dom() =~= p0.dom());
    }
    Vec::new()
}

/// Notes that a peer (not the node itself, nor an empty key) was heard
/// from at `now`.
pub fn touch_seen(inner: &mut Presence, pk: &str, now: i64)
    ensures
        (pk@.len() == 0 || pk@ == old(inner).me@) ==> *final(inner) == *old(inner),
        !(pk@.len() == 0 || pk@ == old(inner).me@) ==> {
            &&& keyed_view(final(inner).last_seen@) == keyed_view(old(inner).last_seen@).insert(pk@, now)
            &&& final(inner).voice@ == old(inner).voice@
            &&& final(inner).voice_left@ == old(inner).voice_left@
            &&& final(inner).voice_joined@ == old(inner).voice_joined@
            &&& final(inner).profiles@ == old(inner).profiles@
            &&& same_self(*final(inner), *old(inner))
        },
{
    if pk.is_empty() || str_eq(pk, inner.me.as_str()) {
        return;
    }
    keyed_set(&mut inner.last_seen, pk, now);
}

/// Whether a relay's "offline" for a peer is to be ignored: it came
/// through a relay, says `offline`, and the peer was heard from less than
/// `RELAY_OFFLINE_GRACE_MS` before `now`.
pub fn ignore_relay_offline(inner: &Presence, pk: &str, from_relay: bool, status: Option<&str>, now: i64) -> (r: bool)
    ensures
        r == (from_relay && status is Some && status.unwrap()@ == "offline"@ && pk@.len() > 0 && within(
            keyed_view(inner.last_seen@),
            pk@,
            now,
            RELAY_OFFLINE_GRACE_MS as int,
        )),
{
    let says_offline = match status {
        Some(s) => str_eq(s, "offline"),
        None => false,
    };
    if !from_relay || !says_offline || pk.is_empty() {
        return false;
    }
    match keyed_find(&inner.last_seen, pk) {
        Some(i) => saturating_sub(now, inner.last_seen[i].1) < RELAY_OFFLINE_GRACE_MS,
        None => false,
    }
}

/// A presence message from a peer, as plain values: its key, the name and
/// avatar it shows (empty when it sent none), its mute and deafen flags,
/// screen share and status word when it sent them.
pub struct PresenceFrame {
    pub public_key: String,
    pub display_name: String,
    pub avatar: String,
    pub muted: Option<bool>,
    pub deafened: Option<bool>,
    pub sharing_screen: Option<bool>,
    pub status: Option<String>,
}

/// Whether a frame's status says `offline`.
pub open spec fn says_offline(f: PresenceFrame) -> bool {
    f.status is Some && f.status.unwrap()@ == "offline"@
}

/// What a presence frame leaves of node `a`, in `b`: nothing for an empty
/// key or the node's own; otherwise the peer's profile takes what the frame
/// sent (a screen share only while the peer is seated), its status word
/// when the frame counts as a sign of life (always, except a snapshot
/// without a status), and the peer counts as heard from at `now` then; an
/// `offline` frame marks it offline instead. Voice seats never move.
pub open spec fn presence_applied(a: Presence, b: Presence, f: PresenceFrame, from_snapshot: bool, now: i64) -> bool {
    let pk = f.public_key@;
    if pk.len() == 0 || pk == a.me@ {
        b == a
    } else {
        let pa = keyed_view(a.profiles@);
        let pb = keyed_view(b.profiles@);
        let ls = keyed_view(a.last_seen@);
        let has = pa.contains_key(pk);
        let on = seated(roster_view(a.voice@), pk);
        let offline = says_offline(f);
        let counts = !from_snapshot || f.status is Some;
        &&& pb.dom() == pa.dom().insert(pk)
        &&& forall|k: Seq<char>| #[trigger] pb.contains_key(k) && k != pk ==> pb[k] == pa[k]
        &&& pb[pk].display_name@ == (if f.display_name@.len() > 0 {
            f.display_name@
        } else if has {
            pa[pk].display_name@
        } else {
            Seq::empty()
        })
        &&& pb[pk].avatar@ == (if f.avatar@.len() > 0 {
            f.avatar@
        } else if has {
            pa[pk].avatar@
        } else {
            Seq::empty()
        })
        &&& pb[pk].muted == (match f.muted {
            Some(m) => m,
            None => has && pa[pk].muted,
        })
        &&& pb[pk].deafened == (match f.deafened {
            Some(d) => d,
            None => has && pa[pk].deafened,
        })
        &&& pb[pk].sharing_screen == (!offline && match f.sharing_screen {
            Some(x) => x && on,
            None => has && pa[pk].sharing_screen && on,
        })
        &&& pb[pk].status@ == (if offline {
            "offline"@
        } else if counts {
            status_word(
                match f.status {
                    Some(t) => t@,
                    None => "online"@,
                },
            )
        } else if has {
            pa[pk].status@
        } else {
            "offline"@
        })
        &&& keyed_view(b.last_seen@) == (if offline {
            ls.remove(pk)
        } else if counts {
            ls.insert(pk, now)
        } else {
            ls
        })
        &&& b.voice@ == a.voice@
        &&& b.voice_left@ == a.voice_left@
        &&& b.voice_joined@ == a.voice_joined@
        &&& same_self(b, a)
    }
}

/// The profile a presence frame gives a peer whose profile was `base`
/// (`has` when it had one): before any `offline` is applied.
pub open spec fn framed_profile(q: PeerProfile, base: PeerProfile, has: bool, f: PresenceFrame, on: bool, counts: bool) -> bool {
    &&& q.display_name@ == (if f.display_name@.len() > 0 {
        f.display_name@
    } else if has {
        base.display_name@
    } else {
        Seq::empty()
    })
    &&& q.avatar@ == (if f.avatar@.len() > 0 {
        f.avatar@
    } else if has {
        base.avatar@
    } else {
        Seq::empty()
    })
    &&& q.muted == (match f.muted {
        Some(m) => m,
        None => has && base.muted,
    })
    &&& q.deafened == (match f.deafened {
        Some(d) => d,
        None => has && base.deafened,
    })
    &&& q.sharing_screen == (match f.sharing_screen {
        Some(x) => x && on,
        None => has && base.sharing_screen && on,
    })
    &&& (!says_offline(f) ==> q.status@ == (if counts {
        status_word(
            match f.status {
                Some(t) => t@,
                None => "online"@,
            },
        )
    } else if has {
        base.status@
    } else {
        "offline"@
    }))
}

/// The profile a presence frame gives a peer.
fn frame_profile(inner: &Presence, frame: &PresenceFrame, on: bool, counts: bool) -> (q: PeerProfile)
    ensures
        ({
            let pa = keyed_view(inner.profiles@);
            let pk = frame.public_key@;
            framed_profile(q, pa[pk], pa.contains_key(pk), *frame, on, counts)
        }),
{
    let pk = frame.public_key.as_str();
    let mut entry: PeerProfile = match keyed_find(&inner.profiles, pk) {
        Some(i) => inner.profiles[i].1.duplicate(),
        None => PeerProfile::new(),
    };
    if !frame.display_name.as_str().is_empty() {
        entry.display_name = frame.display_name.clone();
    }
    if !frame.avatar.as_str().is_empty() {
        entry.avatar = frame.avatar.clone();
    }
    match frame.muted {
        Some(m) => {
            entry.muted = m;
        },
        None => {},
    }
    match frame.deafened {
        Some(d) => {
            entry.deafened = d;
        },
        None => {},
    }
    match frame.sharing_screen {
        Some(x) => {
            entry.sharing_screen = x && on;
        },
        None => {
            if !on {
                entry.sharing_screen = false;
            }
        },
    }
    let offline = match &frame.status {
        Some(t) => str_eq(t.as_str(), "offline"),
        None => false,
    };
    if !offline && counts {
        entry.status = match &frame.status {
            Some(t) => normalize_status(t.as_str()),
            None => normalize_status("online"),
        };
    }
    entry
}

/// Takes in a presence frame from a peer (`from_snapshot` when it came in
/// a snapshot of everyone's presence rather than from the peer itself).
/// Names no rooms: an `offline` frame does not take anyone out of voice.
pub fn apply_presence(inner: &mut Presence, frame: &PresenceFrame, from_snapshot: bool, now: i64) -> (r: Vec<String>)
    ensures
        r@.len() == 0,
        presence_applied(*old(inner), *final(inner), *frame, from_snapshot, now),
{
    let pk = frame.public_key.as_str();
    if pk.is_empty() || str_eq(pk, inner.me.as_str()) {
        return Vec::new();
    }
    let ghost a = *inner;
    let on = peer_in_voice(&inner.voice, pk);
    let offline = match &frame.status {
        Some(t) => str_eq(t.as_str(), "offline"),
        None => false,
    };
    let counts = !from_snapshot || frame.status.is_some();
    let entry = frame_profile(inner, frame, on, counts);
    keyed_set(&mut inner.profiles, pk, entry);
    proof {
        assert(keyed_view(inner.profiles@).dom() =~= keyed_view(a.profiles@).dom().insert(pk@));
    }
    if offline {
        let ghost p1 = keyed_view(inner.profiles@);
        mark_peer_offline(inner, pk);
        proof {
            assert(p1.contains_key(pk@));
            assert(keyed_view(inner.profiles@).dom() =~= keyed_view(a.profiles@).dom().insert(pk@));
            assert forall|k: Seq<char>| #[trigger] keyed_view(inner.profiles@).contains_key(k) && k != pk@ implies keyed_view(inner.profiles@)[k] == keyed_view(a.profiles@)[k] by {
                assert(p1.contains_key(k));
            }
        }
        return Vec::new();
    }
    if counts {
        keyed_set(&mut inner.last_seen, pk, now);
    }
    Vec::new()
}

/// `q` is profile `src` as shown to others: status `status`, the avatar
/// left out when `strip`.
pub open spec fn shown_as(q: PeerProfile, src: PeerProfile, status: Seq<char>, strip: bool) -> bool {
    &&& q.display_name == src.display_name
    &&& q.avatar@ == (if strip {
        Seq::empty()
    } else {
        src.avatar@
    })
    &&& q.muted == src.muted
    &&& q.deafened == src.deafened
    &&& q.sharing_screen == src.sharing_screen
    &&& q.status@ == status
}

/// `q` is the node's own profile as shown to others.
pub open spec fn own_shown(p: Presence, q: PeerProfile, strip: bool) -> bool {
    &&& q.display_name == p.display_name
    &&& q.avatar@ == (if strip {
        Seq::empty()
    } else {
        p.avatar@
    })
    &&& q.muted == p.muted
    &&& q.deafened == p.deafened
    &&& q.sharing_screen == p.sharing_screen
    &&& q.status@ == status_word(p.status@)
}

/// Whether a peer shows as online (in any status but `offline`) at `now`.
pub open spec fn shows_live(p: Presence, k: Seq<char>, now: i64) -> bool {
    live_status_of(p, k, now) != "offline"@
}

/// The profiles of everyone online at `now`, as shown to others: the node
/// itself, then each peer not offline with its live status (avatars left
/// out when `strip_avatars`), as a keyed list.
pub fn live_profiles(inner: &Presence, now: i64, strip_avatars: bool) -> (r: Vec<(String, PeerProfile)>)
    ensures
        ({
            let out = keyed_view(r@);
            let pa = keyed_view(inner.profiles@);
            &&& out.dom() == Set::new(|k: Seq<char>| k == inner.me@ || (pa.contains_key(k) && shows_live(*inner, k, now)))
            &&& own_shown(*inner, out[inner.me@], strip_avatars)
            &&& forall|k: Seq<char>| #[trigger] out.contains_key(k) && k != inner.me@ ==> shown_as(out[k], pa[k], live_status_of(*inner, k, now), strip_avatars)
        }),
{
    let ghost p = *inner;
    let ghost me = inner.me@;
    let own = PeerProfile {
        display_name: inner.display_name.clone(),
        avatar: if strip_avatars {
            String::new()
        } else {
            inner.avatar.clone()
        },
        muted: inner.muted,
        deafened: inner.deafened,
        sharing_screen: inner.sharing_screen,
        status: normalize_status(inner.status.as_str()),
    };
    let mut out: Vec<(String, PeerProfile)> = Vec::new();
    let ghost own_v = own;
    let me_key = inner.me.clone();
    assert(me_key@ == me);
    out.push((me_key, own));
    assert(out@.drop_last() =~= Seq::<(String, PeerProfile)>::empty());
    assert(keyed_view(out@.drop_last()) =~= Map::<Seq<char>, PeerProfile>::empty());
    assert(out@.last().0@ == me);
    assert(keyed_view(out@) =~= Map::<Seq<char>, PeerProfile>::empty().insert(me, own_v));
    let ghost pv = inner.profiles@;
    let mut i: usize = 0;
    proof {
        assert(pv.take(0) =~= Seq::<(String, PeerProfile)>::empty());
        assert(keyed_view(out@).dom() =~= Set::new(|k: Seq<char>| k == me || (keyed_view(pv.take(0)).contains_key(k) && shows_live(p, k, now))));
    }
    while i < inner.profiles.len()
        invariant
            i <= inner.profiles.len(),
            pv == inner.profiles@,
            p == *inner,
            me == inner.me@,
            ({
                let m = keyed_view(out@);
                let kv = keyed_view(pv.take(i as int));
                &&& m.dom() == Set::new(|k: Seq<char>| k == me || (kv.contains_key(k) && shows_live(p, k, now)))
                &&& own_shown(p, m[me], strip_avatars)
                &&& forall|k: Seq<char>| #[trigger] m.contains_key(k) && k != me ==> shown_as(m[k], kv[k], live_status_of(p, k, now), strip_avatars)
            }),
        decreases inner.profiles.len() - i,
    {
        let ghost m0 = keyed_view(out@);
        let ghost kv0 = keyed_view(pv.take(i as int));
        assert(pv.take(i + 1).drop_last() =~= pv.take(i as int));
        assert(pv.take(i + 1).last() == pv[i as int]);
        let ghost kv1 = keyed_view(pv.take(i + 1));
        let ghost key = pv[i as int].0@;
        if !str_eq(inner.profiles[i].0.as_str(), inner.me.as_str()) {
            let status = live_status(inner, inner.profiles[i].0.as_str(), now);
            if !str_eq(status.as_str(), "offline") {
                let mut next = inner.profiles[i].1.duplicate();
                next.status = status;
                if strip_avatars {
                    next.avatar = String::new();
                }
                let ghost nx = next;
                let ghost ob = out@;
                out.push((inner.profiles[i].0.clone(), next));
                proof {
                    assert(out@.drop_last() =~= ob);
                    assert(keyed_view(out@) == m0.insert(key, nx));
                    assert(keyed_view(out@).dom() =~= Set::new(|k: Seq<char>| k == me || (kv1.contains_key(k) && shows_live(p, k, now))));
                }
            } else {
                proof {
                    assert(keyed_view(out@).dom() =~= Set::new(|k: Seq<char>| k == me || (kv1.contains_key(k) && shows_live(p, k, now))));
                }
            }
        } else {
            proof {
                assert(keyed_view(out@).dom() =~= Set::new(|k: Seq<char>| k == me || (kv1.contains_key(k) && shows_live(p, k, now))));
            }
        }
        i += 1;
    }
    proof {
        assert(pv.take(pv.len() as int) =~= pv);
    }
    out
}

// ---------------------------------------------------------------------------
// Small views of the node's state
// ---------------------------------------------------------------------------
/// Whether the node itself sits in a voice room.
pub fn seated_in_call(inner: &Presence) -> (r: bool)
    ensures
        r == seated(roster_view(inner.voice@), inner.me@),
{
    roster_seats(&inner.voice, inner.me.as_str())
}

/// Whether the archive seeding card shows: some peer is being seeded.
pub fn seeding_visible(seeding: &Vec<String>) -> (r: bool)
    ensures
        r == (seeding@.len() > 0),
{
    seeding.len() > 0
}

/// The community the user is looking at: the one chosen for viewing when
/// that is a non-empty id, else the live one.
pub fn viewed_community_id(viewed: Option<&str>, live: Option<&str>) -> (r: Option<String>)
    ensures
        r matches Some(id) ==> (viewed is Some && viewed.unwrap()@.len() > 0 && id@ == viewed.unwrap()@) || ((viewed is None || viewed.unwrap()@.len() == 0) && live is Some && id@ == live.unwrap()@),
        r is None <==> (viewed is None || viewed.unwrap()@.len() == 0) && live is None,
{
    match viewed {
        Some(v) => {
            if !v.is_empty() {
                return Some(v.to_owned());
            }
        },
        None => {},
    }
    match live {
        Some(l) => Some(l.to_owned()),
        None => None,
    }
}

/// Whether a frame belongs to the community `community_id`: it names that
/// community, or names none (an empty id counts as none).
pub fn frame_matches_community(frame_id: Option<&str>, community_id: &str) -> (r: bool)
    ensures
        r == (frame_id is None || frame_id.unwrap()@.len() == 0 || frame_id.unwrap()@ == community_id@),
{
    match frame_id {
        Some(id) => id.is_empty() || str_eq(id, community_id),
        None => true,
    }
}

/// The peers an archive seed involves: those being seeded, and those
/// seeded before (never the node itself).
pub open spec fn seed_involved(me: Seq<char>, seeding: Seq<Seq<char>>, seeded: Map<Seq<char>, u32>) -> Set<Seq<char>> {
    Set::new(|k: Seq<char>| seeding.contains(k) || (seeded.contains_key(k) && k != me))
}

/// The involved peers done with the seed: not being seeded, and holding at
/// least `messages` messages.
pub open spec fn seed_done(me: Seq<char>, seeding: Seq<Seq<char>>, seeded: Map<Seq<char>, u32>, messages: u32) -> Set<Seq<char>> {
    Set::new(|k: Seq<char>| seeded.contains_key(k) && k != me && !seeding.contains(k) && seeded[k] >= messages)
}

/// Progress of seeding the archive, as sent and total: nothing to do
/// shows as `(1, 1)`; otherwise the peers done and involved, weighted by
/// the archive's size in bytes when it is known.
pub open spec fn seed_progress_of(me: Seq<char>, seeding: Seq<Seq<char>>, seeded: Map<Seq<char>, u32>, messages: u32, bytes: u64) -> (int, int) {
    let n = seed_involved(me, seeding, seeded).len() as int;
    let d = seed_done(me, seeding, seeded, messages).len() as int;
    if n == 0 || messages == 0 {
        (1, 1)
    } else if bytes == 0 {
        (d, n)
    } else {
        (d * bytes, n * bytes)
    }
}

/// Adds `x` to a list without repeats.
pub(crate) fn push_unique(list: &mut Vec<String>, x: &String)
    requires
        strings_view(old(list)@).no_duplicates(),
    ensures
        strings_view(final(list)@).no_duplicates(),
        strings_view(final(list)@).to_set() == strings_view(old(list)@).to_set().insert(x@),
        final(list)@.len() <= old(list)@.len() + 1,
{
    let ghost before = strings_view(list@);
    let present = list_contains(list.as_slice(), x.as_str());
    if !present {
        list.push(x.clone());
        proof {
            assert(strings_view(list@) =~= before.push(x@));
            before.lemma_push_to_set_commute(x@);
            assert forall|i: int, j: int| 0 <= i < strings_view(list@).len() && 0 <= j < strings_view(list@).len() && i != j implies strings_view(list@)[i] != strings_view(list@)[j] by {
                if i == before.len() {
                    assert(strings_view(list@)[j] == before[j]);
                } else if j == before.len() {
                    assert(strings_view(list@)[i] == before[i]);
                }
            }
        }
    } else {
        proof {
            assert(before.to_set().contains(x@));
            assert(before.to_set().insert(x@) =~= before.to_set());
        }
    }
}

/// Progress of seeding the archive to peers, as sent and total.
pub fn seed_progress(me: &str, seeding: &Vec<String>, seeded: &Vec<(String, u32)>, messages: u32, bytes: u64) -> (r: (u64, u64))
    requires
        messages > 0 ==> seed_involved(me@, strings_view(seeding@), keyed_view(seeded@)).len() * bytes
            <= u64::MAX,
    ensures
        (r.0 as int, r.1 as int) == seed_progress_of(me@, strings_view(seeding@), keyed_view(seeded@), messages, bytes),
{
    let ghost sv = strings_view(seeding@);
    let ghost kv = keyed_view(seeded@);
    let mut inv: Vec<String> = Vec::new();
    let mut fin: Vec<String> = Vec::new();
    let mut i: usize = 0;
    assert(strings_view(inv@).to_set() =~= Set::<Seq<char>>::empty());
    while i < seeding.len()
        invariant
            i <= seeding.len(),
            sv == strings_view(seeding@),
            strings_view(inv@).no_duplicates(),
            strings_view(inv@).to_set() == sv.take(i as int).to_set(),
            inv@.len() <= i,
            fin@.len() == 0,
        decreases seeding.len() - i,
    {
        push_unique(&mut inv, &seeding[i]);
        proof {
            assert(sv.take(i + 1) =~= sv.take(i as int).push(sv[i as int]));
            sv.take(i as int).lemma_push_to_set_commute(sv[i as int]);
        }
        i += 1;
    }
    proof {
        assert(sv.take(seeding.len() as int) =~= sv);
        assert(strings_view(fin@).to_set() =~= Set::<Seq<char>>::empty());
        assert(strings_view(fin@).no_duplicates());
    }
    let ghost base = strings_view(inv@).to_set();
    let mut j: usize = 0;
    while j < seeded.len()
        invariant
            j <= seeded.len(),
            sv == strings_view(seeding@),
            kv == keyed_view(seeded@),
            base == sv.to_set(),
            strings_view(inv@).no_duplicates(),
            strings_view(fin@).no_duplicates(),
            forall|k: Seq<char>| #[trigger] strings_view(inv@).to_set().contains(k) <==> (base.contains(k) || (k != me@ && exists|e: int| 0 <= e < j && #[trigger] seeded@[e].0@ == k)),
            forall|k: Seq<char>| #[trigger] strings_view(fin@).to_set().contains(k) <==> (seed_done(me@, sv, kv, messages).contains(k) && exists|e: int| 0 <= e < j && #[trigger] seeded@[e].0@ == k),
            inv@.len() <= seeding@.len() + j,
            fin@.len() <= j,
        decreases seeded.len() - j,
    {
        let key = &seeded[j].0;
        let ghost kk = key@;
        let ghost inv0 = strings_view(inv@).to_set();
        let ghost fin0 = strings_view(fin@).to_set();
        proof {
            lemma_keyed_dom(seeded@, kk);
            assert(has_key(seeded@, kk));
        }
        let not_me = !str_eq(key.as_str(), me);
        if not_me {
            push_unique(&mut inv, key);
        }
        let done = not_me && !list_contains(seeding.as_slice(), key.as_str()) && match keyed_find(seeded, key.as_str()) {
            Some(e) => seeded[e].1 >= messages,
            None => false,
        };
        assert(done == seed_done(me@, sv, kv, messages).contains(kk));
        if done {
            push_unique(&mut fin, key);
        }
        proof {
            assert forall|k: Seq<char>| #[trigger] strings_view(inv@).to_set().contains(k) <==> (base.contains(k) || (k != me@ && exists|e: int| 0 <= e < j + 1 && #[trigger] seeded@[e].0@ == k)) by {
                if k != me@ && exists|e: int| 0 <= e < j + 1 && #[trigger] seeded@[e].0@ == k {
                    let e = choose|e: int| 0 <= e < j + 1 && #[trigger] seeded@[e].0@ == k;
                    if e < j {
                        assert(inv0.contains(k));
                    }
                }
                if inv0.contains(k) && !base.contains(k) {
                    let e = choose|e: int| 0 <= e < j && #[trigger] seeded@[e].0@ == k;
                    assert(0 <= e < j + 1);
                }
            }
            assert forall|k: Seq<char>| #[trigger] strings_view(fin@).to_set().contains(k) <==> (seed_done(me@, sv, kv, messages).contains(k) && exists|e: int| 0 <= e < j + 1 && #[trigger] seeded@[e].0@ == k) by {
                if seed_done(me@, sv, kv, messages).contains(k) && exists|e: int| 0 <= e < j + 1 && #[trigger] seeded@[e].0@ == k {
                    let e = choose|e: int| 0 <= e < j + 1 && #[trigger] seeded@[e].0@ == k;
                    if e < j {
                        assert(fin0.contains(k));
                    }
                }
                if fin0.contains(k) {
                    let e = choose|e: int| 0 <= e < j && #[trigger] seeded@[e].0@ == k;
                    assert(0 <= e < j + 1);
                }
            }
        }
        j += 1;
    }
    proof {
        let iv = strings_view(inv@);
        let fv = strings_view(fin@);
        assert forall|k: Seq<char>| iv.to_set().contains(k) <==> seed_involved(me@, sv, kv).contains(k) by {
            lemma_keyed_dom(seeded@, k);
            if kv.contains_key(k) && k != me@ {
                let e = choose|e: int| 0 <= e < seeded@.len() && #[trigger] seeded@[e].0@ == k;
            }
            if sv.contains(k) {
                assert(base.contains(k));
            }
        }
        assert(iv.to_set() =~= seed_involved(me@, sv, kv));
        assert forall|k: Seq<char>| fv.to_set().contains(k) <==> seed_done(me@, sv, kv, messages).contains(k) by {
            lemma_keyed_dom(seeded@, k);
            if seed_done(me@, sv, kv, messages).contains(k) {
                let e = choose|e: int| 0 <= e < seeded@.len() && #[trigger] seeded@[e].0@ == k;
            }
        }
        assert(fv.to_set() =~= seed_done(me@, sv, kv, messages));
        iv.unique_seq_to_set();
        fv.unique_seq_to_set();
    }
    let n = inv.len() as u64;
    let d = fin.len() as u64;
    if n == 0 || messages == 0 {
        return (1, 1);
    }
    if bytes == 0 {
        (d, n)
    } else {
        proof {
            let iv = strings_view(inv@);
            let fv = strings_view(fin@);
            assert(fv.to_set().subset_of(iv.to_set())) by {
                assert forall|k: Seq<char>| fv.to_set().contains(k) implies iv.to_set().contains(k) by {
                    lemma_keyed_dom(seeded@, k);
                }
            }
            vstd::set_lib::lemma_len_subset(fv.to_set(), iv.to_set());
            assert(d * bytes <= n * bytes) by (nonlinear_arith)
                requires
                    d <= n,
            ;
        }
        (d * bytes, n * bytes)
    }
}

// ---------------------------------------------------------------------------
// Laws of channel lists
// ---------------------------------------------------------------------------
/// Putting `general` first is done once: a second time changes nothing,
/// and the list then holds `general`.
pub proof fn law_ensure_general_once(channels: Seq<Seq<char>>)
    ensures
        ({
            let once = if channels.contains("general"@) {
                channels
            } else {
                seq!["general"@] + channels
            };
            &&& once.contains("general"@)
            &&& (if once.contains("general"@) {
                once
            } else {
                seq!["general"@] + once
            }) == once
        }),
{
    if !channels.contains("general"@) {
        let once = seq!["general"@] + channels;
        assert(once[0] == "general"@);
    }
}

/// Merging room names keeps the names already there in front, brings in
/// every incoming name as a room name, and adds no name twice.
pub proof fn law_merge_names(dst: Seq<Seq<char>>, incoming: Seq<Seq<char>>)
    requires
        dst.no_duplicates(),
    ensures
        merged_names(dst, incoming).no_duplicates(),
        merged_names(dst, incoming).take(dst.len() as int) == dst,
        dst.len() <= merged_names(dst, incoming).len(),
        forall|i: int| 0 <= i < incoming.len() ==> merged_names(dst, incoming).contains(slug_of(#[trigger] incoming[i])),
    decreases incoming.len(),
{
    if incoming.len() > 0 {
        let rest = incoming.drop_last();
        law_merge_names(dst, rest);
        let before = merged_names(dst, rest);
        let slug = slug_of(incoming.last());
        if !before.contains(slug) {
            let after = before.push(slug);
            assert forall|i: int, j: int| 0 <= i < after.len() && 0 <= j < after.len() && i != j implies after[i] != after[j] by {
                if i == before.len() {
                    assert(after[j] == before[j]);
                } else if j == before.len() {
                    assert(after[i] == before[i]);
                }
            }
            assert(after.take(dst.len() as int) =~= before.take(dst.len() as int));
            assert(after[before.len() as int] == slug);
        }
        let merged = merged_names(dst, incoming);
        assert forall|i: int| 0 <= i < incoming.len() implies merged.contains(slug_of(#[trigger] incoming[i])) by {
            if i < rest.len() {
                assert(rest[i] == incoming[i]);
                assert(before.contains(slug_of(rest[i])));
                let w = choose|w: int| 0 <= w < before.len() && before[w] == slug_of(rest[i]);
                if !before.contains(slug) {
                    assert(merged[w] == before[w]);
                }
            } else {
                if before.contains(slug) {
                } else {
                    assert(merged[before.len() as int] == slug);
                }
            }
        }
    }
}

// ---------------------------------------------------------------------------
// Frames from peers
// ---------------------------------------------------------------------------
/// Takes in a layout frame: the text channels and call rooms it lists are
/// added as room names, each once, and `general` stays in the text
/// channels.
pub fn apply_layout(text_channels: &mut Vec<String>, call_rooms: &mut Vec<String>, texts: &[String], calls: &[String])
    ensures
        ({
            let merged = merged_names(strings_view(old(text_channels)@), strings_view(texts@));
            strings_view(final(text_channels)@) == (if merged.contains("general"@) {
                merged
            } else {
                seq!["general"@] + merged
            })
        }),
        strings_view(final(call_rooms)@) == merged_names(strings_view(old(call_rooms)@), strings_view(calls@)),
{
    merge_unique(text_channels, texts);
    ensure_general(text_channels);
    merge_unique(call_rooms, calls);
}

/// Whether a URL names a loopback host (so a friend's copy of it would
/// dial the friend itself).
pub open spec fn loopback_url(u: Seq<char>) -> bool {
    match crate::dial::ws_host_port(u) {
        Some(hp) => crate::dial::loopback_host(hp.0),
        None => false,
    }
}

/// The URLs of `s` that do not name a loopback host, in order.
pub open spec fn without_loopback(s: Seq<Seq<char>>) -> Seq<Seq<char>>
    decreases s.len(),
{
    if s.len() == 0 {
        s
    } else if loopback_url(s.last()) {
        without_loopback(s.drop_last())
    } else {
        without_loopback(s.drop_last()).push(s.last())
    }
}

/// The URLs a peer's `peers` frame (or `hello`) gives that are worth
/// keeping: those that do not name a loopback host.
pub fn urls_without_loopback(urls: &[String]) -> (r: Vec<String>)
    ensures
        strings_view(r@) == without_loopback(strings_view(urls@)),
{
    let ghost uv = strings_view(urls@);
    let mut out: Vec<String> = Vec::new();
    let mut i: usize = 0;
    while i < urls.len()
        invariant
            i <= urls.len(),
            uv == strings_view(urls@),
            strings_view(out@) == without_loopback(uv.take(i as int)),
        decreases urls.len() - i,
    {
        assert(uv.take(i + 1).drop_last() =~= uv.take(i as int));
        assert(uv.take(i + 1).last() == urls@[i as int]@);
        let lo = match crate::dial::parse_ws(urls[i].as_str()) {
            Some(hp) => crate::dial::is_loopback_host(hp.0.as_str()),
            None => false,
        };
        if !lo {
            let ghost before = strings_view(out@);
            out.push(urls[i].clone());
            assert(strings_view(out@) =~= before.push(urls@[i as int]@));
        }
        i += 1;
    }
    assert(uv.take(urls.len() as int) =~= uv);
    out
}

/// Whether a frame addressed `to` someone is for this node: addressed to
/// no one in particular, or to this node.
pub fn addressed_to_me(to: &str, me: &str) -> (r: bool)
    ensures
        r == (to@.len() == 0 || to@ == me@),
{
    to.is_empty() || str_eq(to, me)
}

/// Stored channel rows (kind, name) split into text channels and call
/// rooms, in order: kind `call` makes a call room, any other kind a text
/// channel.
pub open spec fn channel_rows_split(rows: Seq<(Seq<char>, Seq<char>)>) -> (Seq<Seq<char>>, Seq<Seq<char>>)
    decreases rows.len(),
{
    if rows.len() == 0 {
        (Seq::empty(), Seq::empty())
    } else {
        let r = channel_rows_split(rows.drop_last());
        if rows.last().0 == "call"@ {
            (r.0, r.1.push(rows.last().1))
        } else {
            (r.0.push(rows.last().1), r.1)
        }
    }
}

/// Stored channel rows as text channels and call rooms: kind `call` makes
/// a call room, any other kind a text channel; with no text channel,
/// `general` is the one.
pub fn split_channel_rows(rows: &[(String, String)]) -> (r: (Vec<String>, Vec<String>))
    ensures
        ({
            let rv = rows@.map_values(|e: (String, String)| (e.0@, e.1@));
            let sp = channel_rows_split(rv);
            &&& strings_view(r.0@) == (if sp.0.len() == 0 {
                seq!["general"@]
            } else {
                sp.0
            })
            &&& strings_view(r.1@) == sp.1
        }),
{
    let ghost rv = rows@.map_values(|e: (String, String)| (e.0@, e.1@));
    let mut texts: Vec<String> = Vec::new();
    let mut calls: Vec<String> = Vec::new();
    let mut i: usize = 0;
    while i < rows.len()
        invariant
            i <= rows.len(),
            rv == rows@.map_values(|e: (String, String)| (e.0@, e.1@)),
            (strings_view(texts@), strings_view(calls@)) == channel_rows_split(rv.take(i as int)),
        decreases rows.len() - i,
    {
        assert(rv.take(i + 1).drop_last() =~= rv.take(i as int));
        assert(rv.take(i + 1).last() == (rows@[i as int].0@, rows@[i as int].1@));
        if str_eq(rows[i].0.as_str(), "call") {
            let ghost before = strings_view(calls@);
            calls.push(rows[i].1.clone());
            assert(strings_view(calls@) =~= before.push(rows@[i as int].1@));
        } else {
            let ghost before = strings_view(texts@);
            texts.push(rows[i].1.clone());
            assert(strings_view(texts@) =~= before.push(rows@[i as int].1@));
        }
        i += 1;
    }
    assert(rv.take(rows.len() as int) =~= rv);
    if texts.len() == 0 {
        texts.push("general".to_owned());
        assert(strings_view(texts@) =~= seq!["general"@]);
    }
    (texts, calls)
}

} // verus!
