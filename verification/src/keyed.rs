//! Small maps keyed by strings, kept as vectors of entries: the view is the
//! map that writing the entries in order leaves (the last entry for a key
//! wins), and updates replace an entry in place, so keys stay unique.
use vstd::prelude::*;
use crate::text::str_eq;

verus! {

/// The map that the entries, written in order, leave.
pub open spec fn keyed_view<V>(s: Seq<(String, V)>) -> Map<Seq<char>, V>
    decreases s.len(),
{
    if s.len() == 0 {
        Map::empty()
    } else {
        keyed_view(s.drop_last()).insert(s.last().0@, s.last().1)
    }
}

/// Whether no two entries have the same key.
pub open spec fn keys_unique<V>(s: Seq<(String, V)>) -> bool {
    forall|i: int, j: int| 0 <= i < j < s.len() ==> #[trigger] s[i].0@ != #[trigger] s[j].0@
}

/// Whether some entry has key `k`.
pub open spec fn has_key<V>(s: Seq<(String, V)>, k: Seq<char>) -> bool {
    exists|i: int| 0 <= i < s.len() && #[trigger] s[i].0@ == k
}

/// The keys of the view are exactly the keys of the entries.
pub proof fn lemma_keyed_dom<V>(s: Seq<(String, V)>, k: Seq<char>)
    ensures
        keyed_view(s).contains_key(k) <==> has_key(s, k),
    decreases s.len(),
{
    if s.len() > 0 {
        lemma_keyed_dom(s.drop_last(), k);
        if has_key(s, k) && s.last().0@ != k {
            let i = choose|i: int| 0 <= i < s.len() && #[trigger] s[i].0@ == k;
            assert(s.drop_last()[i].0@ == k);
        }
        if has_key(s.drop_last(), k) {
            let i = choose|i: int| 0 <= i < s.len() - 1 && #[trigger] s.drop_last()[i].0@ == k;
            assert(s[i].0@ == k);
        }
        if s.last().0@ == k {
            assert(s[s.len() - 1].0@ == k);
        }
    }
}

/// The value for `k` is the one of the last entry with key `k`.
pub proof fn lemma_keyed_last<V>(s: Seq<(String, V)>, i: int)
    requires
        0 <= i < s.len(),
        forall|j: int| i < j < s.len() ==> #[trigger] s[j].0@ != s[i].0@,
    ensures
        keyed_view(s).contains_key(s[i].0@),
        keyed_view(s)[s[i].0@] == s[i].1,
    decreases s.len(),
{
    if i < s.len() - 1 {
        assert(s.drop_last()[i] == s[i]);
        assert forall|j: int| i < j < s.len() - 1 implies #[trigger] s.drop_last()[j].0@ != s.drop_last()[i].0@ by {
            assert(s[j] == s.drop_last()[j]);
        }
        lemma_keyed_last(s.drop_last(), i);
    }
}

/// Replacing the last entry for a key updates the view at that key.
pub proof fn lemma_keyed_update<V>(s: Seq<(String, V)>, i: int, e: (String, V))
    requires
        0 <= i < s.len(),
        e.0@ == s[i].0@,
        forall|j: int| i < j < s.len() ==> #[trigger] s[j].0@ != s[i].0@,
    ensures
        keyed_view(s.update(i, e)) == keyed_view(s).insert(e.0@, e.1),
    decreases s.len(),
{
    let t = s.update(i, e);
    if i == s.len() - 1 {
        assert(t.drop_last() =~= s.drop_last());
        assert(keyed_view(s).insert(e.0@, e.1) =~= keyed_view(s.drop_last()).insert(
            e.0@,
            e.1,
        ));
    } else {
        assert(t.drop_last() =~= s.drop_last().update(i, e));
        assert forall|j: int| i < j < s.len() - 1 implies #[trigger] s.drop_last()[j].0@ != s.drop_last()[i].0@ by {
            assert(s[j] == s.drop_last()[j]);
        }
        lemma_keyed_update(s.drop_last(), i, e);
        assert(t.last() == s.last());
        assert(s.last().0@ != e.0@);
        assert(keyed_view(t) =~= keyed_view(s).insert(e.0@, e.1));
    }
}

/// Removing an entry with key `k` leaves the view without `k` unchanged.
pub proof fn lemma_keyed_remove_entry<V>(s: Seq<(String, V)>, i: int, k: Seq<char>)
    requires
        0 <= i < s.len(),
        s[i].0@ == k,
    ensures
        keyed_view(s.remove(i)).remove(k) == keyed_view(s).remove(k),
    decreases s.len(),
{
    let t = s.remove(i);
    if i == s.len() - 1 {
        assert(t =~= s.drop_last());
        assert(keyed_view(s).remove(k) =~= keyed_view(s.drop_last()).remove(k));
    } else {
        assert(t.drop_last() =~= s.drop_last().remove(i));
        lemma_keyed_remove_entry(s.drop_last(), i, k);
        assert(t.last() == s.last());
        let a = keyed_view(t.drop_last());
        let b = keyed_view(s.drop_last());
        assert(a.remove(k) == b.remove(k));
        assert(keyed_view(t) == a.insert(t.last().0@, t.last().1));
        assert(keyed_view(s) == b.insert(s.last().0@, s.last().1));
        if s.last().0@ == k {
            assert(a.insert(k, s.last().1).remove(k) =~= a.remove(k));
            assert(b.insert(k, s.last().1).remove(k) =~= b.remove(k));
        } else {
            assert(a.insert(s.last().0@, s.last().1).remove(k) =~= a.remove(k).insert(
                s.last().0@,
                s.last().1,
            ));
            assert(b.insert(s.last().0@, s.last().1).remove(k) =~= b.remove(k).insert(
                s.last().0@,
                s.last().1,
            ));
        }
        assert(keyed_view(t).remove(k) =~= keyed_view(s).remove(k));
    }
}

/// The entries with each value replaced by `f` of its key and value.
pub open spec fn map_entries<V>(s: Seq<(String, V)>, f: spec_fn(Seq<char>, V) -> V) -> Seq<(String, V)> {
    Seq::new(s.len(), |i: int| (s[i].0, f(s[i].0@, s[i].1)))
}

/// Mapping every entry maps the view.
pub proof fn lemma_keyed_map<V>(s: Seq<(String, V)>, f: spec_fn(Seq<char>, V) -> V)
    ensures
        keyed_view(map_entries(s, f)) == Map::new(
            |k: Seq<char>| keyed_view(s).contains_key(k),
            |k: Seq<char>| f(k, keyed_view(s)[k]),
        ),
    decreases s.len(),
{
    let t = map_entries(s, f);
    if s.len() == 0 {
        assert(keyed_view(t) =~= Map::new(
            |k: Seq<char>| keyed_view(s).contains_key(k),
            |k: Seq<char>| f(k, keyed_view(s)[k]),
        ));
    } else {
        assert(t.drop_last() =~= map_entries(s.drop_last(), f));
        lemma_keyed_map(s.drop_last(), f);
        assert(keyed_view(t) =~= Map::new(
            |k: Seq<char>| keyed_view(s).contains_key(k),
            |k: Seq<char>| f(k, keyed_view(s)[k]),
        ));
    }
}

/// Where the last entry for `key` sits, if any.
pub fn keyed_find<V>(v: &Vec<(String, V)>, key: &str) -> (r: Option<usize>)
    ensures
        r is None <==> !keyed_view(v@).contains_key(key@),
        r matches Some(i) ==> i < v@.len() && v@[i as int].0@ == key@ && keyed_view(v@)[key@]
            == v@[i as int].1 && (forall|j: int| i < j < v@.len() ==> #[trigger] v@[j].0@ != key@),
{
    let mut i: usize = v.len();
    while i > 0
        invariant
            i <= v.len(),
            forall|j: int| i <= j < v@.len() ==> #[trigger] v@[j].0@ != key@,
        decreases i,
    {
        if str_eq(v[i - 1].0.as_str(), key) {
            proof {
                lemma_keyed_last(v@, i - 1);
            }
            return Some(i - 1);
        }
        i -= 1;
    }
    proof {
        lemma_keyed_dom(v@, key@);
        if has_key(v@, key@) {
            let j = choose|j: int| 0 <= j < v@.len() && #[trigger] v@[j].0@ == key@;
            assert(v@[j].0@ != key@);
        }
    }
    None
}

/// Sets the value for `key`.
pub fn keyed_set<V>(v: &mut Vec<(String, V)>, key: &str, val: V)
    ensures
        keyed_view(final(v)@) == keyed_view(old(v)@).insert(key@, val),
        keys_unique(old(v)@) ==> keys_unique(final(v)@),
{
    match keyed_find(v, key) {
        Some(i) => {
            let e = (key.to_owned(), val);
            proof {
                lemma_keyed_update(v@, i as int, e);
            }
            let ghost before = v@;
            v.set(i, e);
            assert forall|k: int| 0 <= k < v@.len() implies #[trigger] v@[k].0@ == before[k].0@ by {
                if k != i {
                    assert(v@[k] == before[k]);
                }
            }
        },
        None => {
            let ghost before = v@;
            proof {
                lemma_keyed_dom(before, key@);
            }
            v.push((key.to_owned(), val));
            assert(v@.drop_last() =~= before);
            assert forall|k: int| 0 <= k < before.len() implies #[trigger] before[k].0@ != key@ by {
                assert(!has_key(before, key@));
            }
            assert forall|a: int, b: int| keys_unique(before) && 0 <= a < b < v@.len() implies #[trigger] v@[a].0@
                != #[trigger] v@[b].0@ by {
                assert(v@[a] == before[a]);
                if b < before.len() {
                    assert(v@[b] == before[b]);
                }
            }
        },
    }
}

/// Removes `key`.
pub fn keyed_remove<V>(v: &mut Vec<(String, V)>, key: &str)
    ensures
        keyed_view(final(v)@) == keyed_view(old(v)@).remove(key@),
        keys_unique(old(v)@) ==> keys_unique(final(v)@),
{
    let mut i: usize = 0;
    while i < v.len()
        invariant
            i <= v.len(),
            keys_unique(old(v)@) ==> keys_unique(v@),
            keyed_view(v@).remove(key@) == keyed_view(old(v)@).remove(key@),
            forall|j: int| 0 <= j < i ==> #[trigger] v@[j].0@ != key@,
        decreases v.len() - i,
    {
        if str_eq(v[i].0.as_str(), key) {
            proof {
                lemma_keyed_remove_entry(v@, i as int, key@);
            }
            let ghost before = v@;
            v.remove(i);
            assert forall|j: int| 0 <= j < i implies #[trigger] v@[j].0@ != key@ by {
                assert(v@[j] == before[j]);
            }
            assert forall|a: int, b: int| keys_unique(before) && 0 <= a < b < v@.len() implies #[trigger] v@[a].0@
                != #[trigger] v@[b].0@ by {
                let a2 = if a < i { a } else { a + 1 };
                let b2 = if b < i { b } else { b + 1 };
                assert(v@[a] == before[a2]);
                assert(v@[b] == before[b2]);
                assert(before[a2].0@ != before[b2].0@);
            }
        } else {
            i += 1;
        }
    }
    proof {
        lemma_keyed_dom(v@, key@);
        if has_key(v@, key@) {
            let j = choose|j: int| 0 <= j < v@.len() && #[trigger] v@[j].0@ == key@;
        }
        assert(keyed_view(v@) =~= keyed_view(v@).remove(key@));
    }
}

} // verus!
