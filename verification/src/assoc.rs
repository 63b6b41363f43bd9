//! Association sequences: key-value pairs with unique keys, abstracted as a
//! `Map`. The vault and the per-entity component tables store their entries
//! in vectors of pairs; this module relates those vectors to the maps their
//! contracts speak of.

use vstd::prelude::*;

verus! {

/// The map described by an association sequence (later entries win; with
/// unique keys there is no conflict).
pub open spec fn assoc_map<K, V>(s: Seq<(K, V)>) -> Map<K, V>
    decreases s.len(),
{
    if s.len() == 0 {
        Map::empty()
    } else {
        assoc_map(s.drop_last()).insert(s.last().0, s.last().1)
    }
}

/// No two entries share a key.
pub open spec fn keys_unique<K, V>(s: Seq<(K, V)>) -> bool {
    forall|i: int, j: int| 0 <= i < j < s.len() ==> (#[trigger] s[i]).0 != (#[trigger] s[j]).0
}

/// The map's domain is exactly the keys that occur in the sequence.
pub proof fn lemma_assoc_map_dom<K, V>(s: Seq<(K, V)>)
    ensures
        forall|k: K|
            assoc_map(s).contains_key(k) <==> exists|i: int|
                0 <= i < s.len() && (#[trigger] s[i]).0 == k,
    decreases s.len(),
{
    if s.len() == 0 {
    } else {
        let d = s.drop_last();
        lemma_assoc_map_dom(d);
        assert forall|k: K|
            assoc_map(s).contains_key(k) implies exists|i: int|
            0 <= i < s.len() && (#[trigger] s[i]).0 == k by {
            if k == s.last().0 {
                assert((s[s.len() - 1]).0 == k);
            } else {
                assert(assoc_map(s) == assoc_map(d).insert(s.last().0, s.last().1));
                assert(assoc_map(d).contains_key(k));
                let i = choose|i: int| 0 <= i < d.len() && (#[trigger] d[i]).0 == k;
                assert(d[i] == s[i]);
                assert((s[i]).0 == k);
            }
        }
        assert forall|k: K|
            (exists|i: int| 0 <= i < s.len() && (#[trigger] s[i]).0 == k)
            implies assoc_map(s).contains_key(k) by {
            assert(assoc_map(s) == assoc_map(d).insert(s.last().0, s.last().1));
            let i = choose|i: int| 0 <= i < s.len() && (#[trigger] s[i]).0 == k;
            if i < s.len() - 1 {
                assert(d[i] == s[i]);
                assert((d[i]).0 == k);
                assert(assoc_map(d).contains_key(k));
            }
        }
    }
}

/// With unique keys, each entry gives its key's value in the map.
pub proof fn lemma_assoc_map_value<K, V>(s: Seq<(K, V)>, i: int)
    requires
        keys_unique(s),
        0 <= i < s.len(),
    ensures
        assoc_map(s).contains_key(s[i].0),
        assoc_map(s)[s[i].0] == s[i].1,
    decreases s.len(),
{
    if i == s.len() - 1 {
    } else {
        let d = s.drop_last();
        assert(s[i] == d[i]);
        lemma_assoc_map_value(d, i);
        assert(s.last().0 != s[i].0);
    }
}

/// Removing an entry removes exactly its key from the map.
pub proof fn lemma_assoc_map_remove<K, V>(s: Seq<(K, V)>, i: int)
    requires
        keys_unique(s),
        0 <= i < s.len(),
    ensures
        assoc_map(s.remove(i)) == assoc_map(s).remove(s[i].0),
        keys_unique(s.remove(i)),
    decreases s.len(),
{
    let d = s.drop_last();
    assert forall|i2: int, j2: int|
        0 <= i2 < j2 < s.remove(i).len() implies (#[trigger] s.remove(i)[i2]).0 != (
    #[trigger] s.remove(i)[j2]).0 by {
        let i3: int = if i2 < i {
            i2
        } else {
            i2 + 1
        };
        let j3: int = if j2 < i {
            j2
        } else {
            j2 + 1
        };
        assert(s.remove(i)[i2] == s[i3]);
        assert(s.remove(i)[j2] == s[j3]);
    }
    if i == s.len() - 1 {
        assert(s.remove(i) =~= d);
        lemma_assoc_map_dom(d);
        assert(!assoc_map(d).contains_key(s[i].0));
        assert(assoc_map(d) =~= assoc_map(s).remove(s[i].0));
    } else {
        lemma_assoc_map_remove(d, i);
        assert(s.remove(i).drop_last() =~= d.remove(i));
        assert(s.remove(i).last() == s.last());
        assert(assoc_map(s.remove(i)) == assoc_map(d.remove(i)).insert(s.last().0, s.last().1));
        assert(s[i].0 != s.last().0);
        assert(assoc_map(d).remove(s[i].0).insert(s.last().0, s.last().1) =~= assoc_map(d).insert(
            s.last().0,
            s.last().1,
        ).remove(s[i].0));
    }
}

/// Updating an entry in place (same key, new value) is a map insert.
pub proof fn lemma_assoc_map_update<K, V>(s: Seq<(K, V)>, i: int, v: V)
    requires
        keys_unique(s),
        0 <= i < s.len(),
    ensures
        assoc_map(s.update(i, (s[i].0, v))) == assoc_map(s).insert(s[i].0, v),
        keys_unique(s.update(i, (s[i].0, v))),
    decreases s.len(),
{
    let u = s.update(i, (s[i].0, v));
    assert forall|i2: int, j2: int|
        0 <= i2 < j2 < u.len() implies (#[trigger] u[i2]).0 != (#[trigger] u[j2]).0 by {
        assert(u[i2].0 == s[i2].0);
        assert(u[j2].0 == s[j2].0);
    }
    let d = s.drop_last();
    if i == s.len() - 1 {
        assert(u.drop_last() =~= d);
        assert(u.last() == (s[i].0, v));
        assert(assoc_map(d).insert(s[i].0, v) =~= assoc_map(d).insert(s[i].0, s[i].1).insert(
            s[i].0,
            v,
        ));
    } else {
        lemma_assoc_map_update(d, i, v);
        assert(u.drop_last() =~= d.update(i, (s[i].0, v)));
        assert(u.last() == s.last());
        assert(s[i].0 != s.last().0);
        assert(assoc_map(d).insert(s[i].0, v).insert(s.last().0, s.last().1) =~= assoc_map(
            d,
        ).insert(s.last().0, s.last().1).insert(s[i].0, v));
    }
}

/// Appending an entry with a fresh key is a map insert.
pub proof fn lemma_assoc_map_push<K, V>(s: Seq<(K, V)>, k: K, v: V)
    requires
        keys_unique(s),
        forall|i: int| 0 <= i < s.len() ==> (#[trigger] s[i]).0 != k,
    ensures
        assoc_map(s.push((k, v))) == assoc_map(s).insert(k, v),
        keys_unique(s.push((k, v))),
{
    let p = s.push((k, v));
    assert(p.drop_last() =~= s);
    assert(p.last() == (k, v));
    assert forall|i2: int, j2: int|
        0 <= i2 < j2 < p.len() implies (#[trigger] p[i2]).0 != (#[trigger] p[j2]).0 by {
        if j2 < p.len() - 1 {
            assert(p[i2] == s[i2] && p[j2] == s[j2]);
        } else {
            assert(p[i2] == s[i2]);
        }
    }
}

} // verus!
