//! String-keyed association tables: a vector of key/value pairs with unique
//! keys, abstracted as a `Map` from key text to value view.

use vstd::prelude::*;

verus! {

/// The mathematical contents of an association list, later entries winning.
/// Under `unique_keys` there is nothing to win: each key appears once.
pub open spec fn table_map<V: View>(s: Seq<(String, V)>) -> Map<Seq<char>, <V as View>::V>
    decreases s.len(),
{
    if s.len() == 0 {
        Map::empty()
    } else {
        table_map(s.drop_last()).insert(s.last().0@, s.last().1@)
    }
}

/// No two entries share a key.
pub open spec fn unique_keys<V: View>(s: Seq<(String, V)>) -> bool {
    forall|i: int, j: int|
        #![trigger s[i].0@, s[j].0@]
        0 <= i < j < s.len() ==> s[i].0@ != s[j].0@
}

/// Every entry's key is in the table's map.
pub proof fn lemma_table_map_contains<V: View>(s: Seq<(String, V)>, i: int)
    requires
        0 <= i < s.len(),
    ensures
        table_map(s).contains_key(s[i].0@),
    decreases s.len(),
{
    if i < s.len() - 1 {
        lemma_table_map_contains(s.drop_last(), i);
    }
}

/// A key matching no entry is not in the table's map.
pub proof fn lemma_table_map_absent<V: View>(s: Seq<(String, V)>, k: Seq<char>)
    requires
        forall|i: int| 0 <= i < s.len() ==> (#[trigger] s[i]).0@ != k,
    ensures
        !table_map(s).contains_key(k),
    decreases s.len(),
{
    if s.len() > 0 {
        lemma_table_map_absent(s.drop_last(), k);
    }
}

/// With unique keys, an entry's key maps to that entry's value.
pub proof fn lemma_table_map_index<V: View>(s: Seq<(String, V)>, i: int)
    requires
        unique_keys(s),
        0 <= i < s.len(),
    ensures
        table_map(s).contains_key(s[i].0@),
        table_map(s)[s[i].0@] == s[i].1@,
    decreases s.len(),
{
    if i < s.len() - 1 {
        assert(unique_keys(s.drop_last()));
        lemma_table_map_index(s.drop_last(), i);
        assert(s[s.len() - 1].0@ != s[i].0@);
    }
}

/// Appending a fresh entry inserts its binding and keeps keys unique.
pub proof fn lemma_table_map_push<V: View>(s: Seq<(String, V)>, p: (String, V))
    requires
        unique_keys(s),
        !table_map(s).contains_key(p.0@),
    ensures
        table_map(s.push(p)) == table_map(s).insert(p.0@, p.1@),
        unique_keys(s.push(p)),
{
    assert(s.push(p).drop_last() =~= s);
    assert(s.push(p).last() == p);
    assert forall|i: int, j: int| 0 <= i < j < s.push(p).len() implies #[trigger] s.push(p)[i].0@
        != #[trigger] s.push(p)[j].0@ by {
        if j == s.len() {
            if s[i].0@ == p.0@ {
                lemma_table_map_contains(s, i);
            }
        }
    }
}

/// Replacing the value at an existing key rewrites that one binding and
/// keeps keys unique.
pub proof fn lemma_table_map_update<V: View>(s: Seq<(String, V)>, i: int, p: (String, V))
    requires
        unique_keys(s),
        0 <= i < s.len(),
        p.0@ == s[i].0@,
    ensures
        table_map(s.update(i, p)) == table_map(s).insert(p.0@, p.1@),
        unique_keys(s.update(i, p)),
    decreases s.len(),
{
    let t = s.update(i, p);
    assert forall|x: int, y: int| 0 <= x < y < t.len() implies #[trigger] t[x].0@
        != #[trigger] t[y].0@ by {
        assert(s[x].0@ != s[y].0@);
    }
    if i == s.len() - 1 {
        assert(t.drop_last() =~= s.drop_last());
        assert(t.last() == p);
        assert(table_map(s.update(i, p)) =~= table_map(s).insert(p.0@, p.1@));
    } else {
        assert(unique_keys(s.drop_last()));
        lemma_table_map_update(s.drop_last(), i, p);
        assert(t.drop_last() =~= s.drop_last().update(i, p));
        assert(t.last() == s.last());
        assert(s.last().0@ != s[i].0@);
        assert(table_map(s.update(i, p)) =~= table_map(s).insert(p.0@, p.1@));
    }
}

/// Find the index of the entry whose key's text equals `key`'s, if any.
pub fn table_find<V: View>(entries: &Vec<(String, V)>, key: &String) -> (r: Option<usize>)
    ensures
        match r {
            Some(i) => i < entries@.len() && entries@[i as int].0@ == key@,
            None => forall|i: int| 0 <= i < entries@.len() ==> (#[trigger] entries@[i]).0@ != key@,
        },
{
    let mut i: usize = 0;
    while i < entries.len()
        invariant
            i <= entries@.len(),
            forall|j: int| 0 <= j < i ==> (#[trigger] entries@[j]).0@ != key@,
        decreases entries@.len() - i,
    {
        if entries[i].0 == *key {
            return Some(i);
        }
        i = i + 1;
    }
    None
}

} // verus!
