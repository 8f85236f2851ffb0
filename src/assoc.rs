//! Association lists: `Vec`s of `(String, V)` pairs read as maps, where a later entry for a
//! key overrides an earlier one.
use vstd::prelude::*;

verus! {

/// What `entries` holds for key `k`; where `k` has several entries the last one counts.
pub open spec fn lookup<V>(entries: Seq<(String, V)>, k: Seq<char>) -> Option<V>
    decreases entries.len(),
{
    if entries.len() == 0 {
        None
    } else if entries.last().0@ == k {
        Some(entries.last().1)
    } else {
        lookup(entries.drop_last(), k)
    }
}

/// Replacing what the last entry for a key holds changes what `lookup` gives that key, and
/// nothing else.
pub proof fn lemma_lookup_update<V>(entries: Seq<(String, V)>, j: int, v: V)
    requires
        0 <= j < entries.len(),
        forall|a: int| j < a < entries.len() ==> (#[trigger] entries[a]).0@ != entries[j].0@,
    ensures
        forall|k: Seq<char>|
            #[trigger] lookup(entries.update(j, (entries[j].0, v)), k) == if k == entries[j].0@ {
                Some(v)
            } else {
                lookup(entries, k)
            },
    decreases entries.len(),
{
    let updated = entries.update(j, (entries[j].0, v));
    let rest = entries.drop_last();
    if j == entries.len() - 1 {
        assert(updated.drop_last() =~= rest);
    } else {
        assert(updated.drop_last() =~= rest.update(j, (entries[j].0, v)));
        assert(rest[j] == entries[j]);
        assert forall|a: int| j < a < rest.len() implies (#[trigger] rest[a]).0@ != rest[j].0@ by {
            assert(rest[a] == entries[a]);
        }
        lemma_lookup_update(rest, j, v);
        assert(entries.last().0@ != entries[j].0@);
        assert forall|k: Seq<char>| #[trigger] lookup(updated, k) == if k == entries[j].0@ {
            Some(v)
        } else {
            lookup(entries, k)
        } by {
            assert(updated.last() == entries.last());
            assert(lookup(rest.update(j, (entries[j].0, v)), k) == if k == rest[j].0@ {
                Some(v)
            } else {
                lookup(rest, k)
            });
        }
    }
}

/// Appending an entry makes it what `lookup` gives its key.
pub proof fn lemma_lookup_push<V>(entries: Seq<(String, V)>, e: (String, V))
    ensures
        forall|k: Seq<char>|
            #[trigger] lookup(entries.push(e), k) == if k == e.0@ {
                Some(e.1)
            } else {
                lookup(entries, k)
            },
{
    assert(entries.push(e).drop_last() =~= entries);
}

/// Where `lookup` finds an entry, a position of it after which the key does not recur.
pub fn find_last<V>(entries: &Vec<(String, V)>, k: &String) -> (r: Option<usize>)
    ensures
        match r {
            Some(j) => {
                &&& j < entries.len()
                &&& entries@[j as int].0@ == k@
                &&& lookup(entries@, k@) == Some(entries@[j as int].1)
                &&& forall|a: int| j < a < entries.len() ==> (#[trigger] entries@[a]).0@ != k@
            },
            None => lookup(entries@, k@) is None,
        },
{
    let mut found: Option<usize> = None;
    let mut i: usize = 0;
    while i < entries.len()
        invariant
            i <= entries.len(),
            match found {
                Some(j) => {
                    &&& j < i
                    &&& entries@[j as int].0@ == k@
                    &&& lookup(entries@.take(i as int), k@) == Some(entries@[j as int].1)
                    &&& forall|a: int| j < a < i ==> (#[trigger] entries@[a]).0@ != k@
                },
                None => lookup(entries@.take(i as int), k@) is None,
            },
        decreases entries.len() - i,
    {
        assert(entries@.take(i + 1).drop_last() =~= entries@.take(i as int));
        if entries[i].0 == *k {
            found = Some(i);
        }
        i += 1;
    }
    assert(entries@.take(i as int) =~= entries@);
    found
}

} // verus!
