//! Ghost model of an association list: a sequence of key/value pairs with
//! distinct keys, read as a `Map`. All three levels of the store use it.

use vstd::prelude::*;

verus! {

/// The keys of a pair sequence, in order.
pub open spec fn entry_keys<T>(s: Seq<(Seq<char>, T)>) -> Seq<Seq<char>> {
    s.map_values(|p: (Seq<char>, T)| p.0)
}

/// The same pairs, each value replaced by its ghost model.
pub open spec fn entry_models<T: View>(s: Seq<(Seq<char>, T)>) -> Seq<(Seq<char>, T::V)> {
    s.map_values(|p: (Seq<char>, T)| (p.0, p.1@))
}

/// No key occurs twice.
pub open spec fn distinct_keys<T>(s: Seq<(Seq<char>, T)>) -> bool {
    forall|i: int, j: int| 0 <= i < j < s.len() ==> s[i].0 !== s[j].0
}

/// The pair sequence read as a map; a later pair overrides an earlier one.
pub open spec fn entry_map<T>(s: Seq<(Seq<char>, T)>) -> Map<Seq<char>, T>
    decreases s.len(),
{
    if s.len() == 0 {
        Map::empty()
    } else {
        entry_map(s.drop_last()).insert(s.last().0, s.last().1)
    }
}

/// A key is in the map exactly when some pair carries it.
pub proof fn lemma_entry_map_contains<T>(s: Seq<(Seq<char>, T)>, k: Seq<char>)
    ensures
        entry_map(s).contains_key(k) <==> exists|i: int| 0 <= i < s.len() && s[i].0 == k,
    decreases s.len(),
{
    if s.len() > 0 {
        lemma_entry_map_contains(s.drop_last(), k);
        if entry_map(s).contains_key(k) {
            if k == s.last().0 {
                assert(s[s.len() - 1].0 == k);
            } else {
                let i = choose|i: int| 0 <= i < s.drop_last().len() && s.drop_last()[i].0 == k;
                assert(s[i].0 == k);
            }
        }
        if exists|i: int| 0 <= i < s.len() && s[i].0 == k {
            let i = choose|i: int| 0 <= i < s.len() && s[i].0 == k;
            if i < s.len() - 1 {
                assert(s.drop_last()[i].0 == k);
            }
        }
    }
}

/// With distinct keys, the pair at `i` is what the map holds at its key.
pub proof fn lemma_entry_map_index<T>(s: Seq<(Seq<char>, T)>, i: int)
    requires
        distinct_keys(s),
        0 <= i < s.len(),
    ensures
        entry_map(s).contains_key(s[i].0),
        entry_map(s)[s[i].0] == s[i].1,
    decreases s.len(),
{
    if i < s.len() - 1 {
        assert(distinct_keys(s.drop_last()));
        lemma_entry_map_index(s.drop_last(), i);
        assert(s.drop_last()[i] == s[i]);
        assert(s[i].0 !== s.last().0);
    }
}

/// Replacing the value of the pair at `i` updates the map at its key.
pub proof fn lemma_entry_map_update<T>(s: Seq<(Seq<char>, T)>, i: int, v: T)
    requires
        distinct_keys(s),
        0 <= i < s.len(),
    ensures
        entry_map(s.update(i, (s[i].0, v))) == entry_map(s).insert(s[i].0, v),
    decreases s.len(),
{
    let k = s[i].0;
    let t = s.update(i, (k, v));
    if i == s.len() - 1 {
        assert(t.drop_last() =~= s.drop_last());
        assert(t.last() == (k, v));
        assert(entry_map(t) == entry_map(s.drop_last()).insert(k, v));
        assert(entry_map(s.drop_last()).insert(k, s.last().1).insert(k, v)
            =~= entry_map(s.drop_last()).insert(k, v));
    } else {
        assert(distinct_keys(s.drop_last()));
        lemma_entry_map_update(s.drop_last(), i, v);
        assert(t.drop_last() =~= s.drop_last().update(i, (k, v)));
        assert(t.last() == s.last());
        assert(k !== s.last().0);
        assert(entry_map(t) == entry_map(s.drop_last()).insert(k, v).insert(s.last().0, s.last().1));
        assert(entry_map(s.drop_last()).insert(k, v).insert(s.last().0, s.last().1)
            =~= entry_map(s.drop_last()).insert(s.last().0, s.last().1).insert(k, v));
    }
}

/// Appending a pair with a fresh or repeated key inserts it into the map.
pub proof fn lemma_entry_map_push<T>(s: Seq<(Seq<char>, T)>, k: Seq<char>, v: T)
    ensures
        entry_map(s.push((k, v))) == entry_map(s).insert(k, v),
{
    assert(s.push((k, v)).drop_last() =~= s);
    assert(s.push((k, v)).last() == (k, v));
}

} // verus!
