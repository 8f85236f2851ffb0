use vstd::prelude::*;

use crate::init::Init;
use crate::message::{Body, Message};
use crate::node::Node;
use crate::topology::{lemma_peers, neighbour_set, peers, peers_of, Topology};

verus! {

/// The payloads of the grow-only counter protocol.
#[derive(Debug, Clone)]
pub enum GCounterPayload {
    Add { delta: usize },
    AddOk,
    Read,
    ReadOk { value: usize },
    Topology { topology: Topology },
    TopologyOk,
    /// Every replica's count as the sender knows it.
    Gossip { values: Vec<(String, usize)> },
}

/// A replica of a grow-only counter: one count per node, merged by taking maxima.
pub struct GCounterNode {
    /// The message id of the next reply.
    pub id: usize,
    pub node_id: String,
    /// Each node's count, one entry per node.
    pub state: Vec<(String, usize)>,
    /// The other nodes of the roster, each once: the nodes this one gossips to.
    pub neighbours: Vec<String>,
}

/// Whether `entries` has an entry for node `k`.
pub open spec fn has_key(entries: Seq<(String, usize)>, k: Seq<char>) -> bool {
    exists|i: int| 0 <= i < entries.len() && (#[trigger] entries[i]).0@ == k
}

/// The count `entries` gives node `k`: the largest of its entries, 0 where it has none.
pub open spec fn count_in(entries: Seq<(String, usize)>, k: Seq<char>) -> nat
    decreases entries.len(),
{
    if entries.len() == 0 {
        0
    } else {
        let rest = count_in(entries.drop_last(), k);
        if entries.last().0@ == k && rest < entries.last().1 {
            entries.last().1 as nat
        } else {
            rest
        }
    }
}

/// The counts of `entries`, by node.
pub open spec fn counts(entries: Seq<(String, usize)>) -> Map<Seq<char>, nat> {
    Map::new(|k: Seq<char>| has_key(entries, k), |k: Seq<char>| count_in(entries, k))
}

/// The count a map gives node `k`, 0 where it has none.
pub open spec fn count_of(m: Map<Seq<char>, nat>, k: Seq<char>) -> nat {
    if m.contains_key(k) {
        m[k]
    } else {
        0
    }
}

/// The larger of two counts.
pub open spec fn larger(a: nat, b: nat) -> nat {
    if a < b {
        b
    } else {
        a
    }
}

/// The counts a replica `me` holds after merging gossiped counts `incoming` into `known`: each
/// other node's count becomes the larger of the two, and its own count is left alone.
pub open spec fn merge_counts(
    known: Map<Seq<char>, nat>,
    me: Seq<char>,
    incoming: Map<Seq<char>, nat>,
) -> Map<Seq<char>, nat> {
    Map::new(
        |k: Seq<char>| known.contains_key(k) || (k != me && incoming.contains_key(k)),
        |k: Seq<char>|
            if k == me {
                count_of(known, k)
            } else {
                larger(count_of(known, k), count_of(incoming, k))
            },
    )
}

/// The sum of all counts of `entries`.
pub open spec fn total(entries: Seq<(String, usize)>) -> nat
    decreases entries.len(),
{
    if entries.len() == 0 {
        0
    } else {
        total(entries.drop_last()) + entries.last().1 as nat
    }
}

/// The total a read reports: the sum, held at the largest `usize`.
pub open spec fn reported(entries: Seq<(String, usize)>) -> usize {
    if total(entries) > usize::MAX {
        usize::MAX
    } else {
        total(entries) as usize
    }
}

/// Whether no node has two entries in `entries`.
pub open spec fn keys_unique(entries: Seq<(String, usize)>) -> bool {
    forall|i: int, j: int|
        0 <= i < j < entries.len() ==> (#[trigger] entries[i]).0@ != (#[trigger] entries[j]).0@
}

proof fn lemma_count_absent(entries: Seq<(String, usize)>, k: Seq<char>)
    requires
        !has_key(entries, k),
    ensures
        count_in(entries, k) == 0,
    decreases entries.len(),
{
    if entries.len() > 0 {
        let rest = entries.drop_last();
        assert forall|i: int| 0 <= i < rest.len() implies (#[trigger] rest[i]).0@ != k by {
            assert(rest[i] == entries[i]);
        }
        lemma_count_absent(rest, k);
        assert(entries[entries.len() - 1].0@ != k);
    }
}

/// With unique keys, the count of an entry's node is that entry's count.
proof fn lemma_count_at(entries: Seq<(String, usize)>, j: int)
    requires
        keys_unique(entries),
        0 <= j < entries.len(),
    ensures
        count_in(entries, entries[j].0@) == entries[j].1,
    decreases entries.len(),
{
    let rest = entries.drop_last();
    let k = entries[j].0@;
    if j == entries.len() - 1 {
        assert forall|i: int| 0 <= i < rest.len() implies (#[trigger] rest[i]).0@ != k by {
            assert(rest[i] == entries[i]);
        }
        lemma_count_absent(rest, k);
    } else {
        assert(rest[j] == entries[j]);
        lemma_count_at(rest, j);
    }
}

/// Replacing the count of entry `j` changes that node's count and total, and nothing else.
proof fn lemma_count_update(entries: Seq<(String, usize)>, j: int, v: usize)
    requires
        keys_unique(entries),
        0 <= j < entries.len(),
    ensures
        keys_unique(entries.update(j, (entries[j].0, v))),
        forall|k: Seq<char>|
            #[trigger] count_in(entries.update(j, (entries[j].0, v)), k) == if k == entries[j].0@ {
                v as nat
            } else {
                count_in(entries, k)
            },
        forall|k: Seq<char>|
            #[trigger] has_key(entries.update(j, (entries[j].0, v)), k) == has_key(entries, k),
        total(entries.update(j, (entries[j].0, v))) + entries[j].1 == total(entries) + v,
    decreases entries.len(),
{
    let e = (entries[j].0, v);
    let updated = entries.update(j, e);
    let rest = entries.drop_last();
    assert(keys_unique(updated)) by {
        assert forall|a: int, b: int| 0 <= a < b < updated.len() implies (#[trigger] updated[a]).0@
            != (#[trigger] updated[b]).0@ by {
            assert(updated[a].0 == entries[a].0);
            assert(updated[b].0 == entries[b].0);
        }
    }
    assert forall|k: Seq<char>| #[trigger] has_key(updated, k) == has_key(entries, k) by {
        if has_key(updated, k) {
            let i = choose|i: int| 0 <= i < updated.len() && (#[trigger] updated[i]).0@ == k;
            assert(entries[i].0@ == k);
        }
        if has_key(entries, k) {
            let i = choose|i: int| 0 <= i < entries.len() && (#[trigger] entries[i]).0@ == k;
            assert(updated[i].0@ == k);
        }
    }
    if j == entries.len() - 1 {
        assert(updated.drop_last() =~= rest);
        let key = entries[j].0@;
        assert forall|i: int| 0 <= i < rest.len() implies (#[trigger] rest[i]).0@ != key by {
            assert(rest[i] == entries[i]);
        }
        lemma_count_absent(rest, key);
    } else {
        assert(updated.drop_last() =~= rest.update(j, e));
        assert(rest[j] == entries[j]);
        assert(keys_unique(rest)) by {
            assert forall|a: int, b: int| 0 <= a < b < rest.len() implies (#[trigger] rest[a]).0@
                != (#[trigger] rest[b]).0@ by {
                assert(rest[a] == entries[a]);
                assert(rest[b] == entries[b]);
            }
        }
        lemma_count_update(rest, j, v);
        assert forall|k: Seq<char>| #[trigger] count_in(updated, k) == if k == entries[j].0@ {
            v as nat
        } else {
            count_in(entries, k)
        } by {
            assert(count_in(rest.update(j, e), k) == if k == entries[j].0@ {
                v as nat
            } else {
                count_in(rest, k)
            });
            if k == entries[j].0@ {
                assert(entries.last().0@ != k);
            }
        }
    }
}

/// Appending an entry for a node that has none gives it that count and adds it to the total.
proof fn lemma_count_push(entries: Seq<(String, usize)>, e: (String, usize))
    requires
        keys_unique(entries),
        !has_key(entries, e.0@),
    ensures
        keys_unique(entries.push(e)),
        forall|k: Seq<char>|
            #[trigger] count_in(entries.push(e), k) == if k == e.0@ {
                e.1 as nat
            } else {
                count_in(entries, k)
            },
        forall|k: Seq<char>| #[trigger] has_key(entries.push(e), k) == (has_key(entries, k) || k == e.0@),
        total(entries.push(e)) == total(entries) + e.1,
{
    let pushed = entries.push(e);
    assert(pushed.drop_last() =~= entries);
    lemma_count_absent(entries, e.0@);
    assert(keys_unique(pushed)) by {
        assert forall|a: int, b: int| 0 <= a < b < pushed.len() implies (#[trigger] pushed[a]).0@
            != (#[trigger] pushed[b]).0@ by {
            if b == entries.len() {
                assert(pushed[a] == entries[a]);
            } else {
                assert(pushed[a] == entries[a]);
                assert(pushed[b] == entries[b]);
            }
        }
    }
    assert forall|k: Seq<char>| #[trigger] has_key(pushed, k) == (has_key(entries, k) || k == e.0@) by {
        if has_key(pushed, k) {
            let i = choose|i: int| 0 <= i < pushed.len() && (#[trigger] pushed[i]).0@ == k;
            if i < entries.len() {
                assert(entries[i] == pushed[i]);
            }
        }
        if has_key(entries, k) {
            let i = choose|i: int| 0 <= i < entries.len() && (#[trigger] entries[i]).0@ == k;
            assert(pushed[i] == entries[i]);
        }
        if k == e.0@ {
            assert(pushed[entries.len() as int] == e);
        }
    }
}

/// Removing the entry at `j` takes its node out and its count off the total, and leaves the
/// other nodes' counts.
proof fn lemma_count_remove(entries: Seq<(String, usize)>, j: int)
    requires
        keys_unique(entries),
        0 <= j < entries.len(),
    ensures
        keys_unique(entries.remove(j)),
        forall|k: Seq<char>|
            k != entries[j].0@ ==> #[trigger] count_in(entries.remove(j), k) == count_in(entries, k),
        forall|k: Seq<char>|
            #[trigger] has_key(entries.remove(j), k) == (has_key(entries, k) && k != entries[j].0@),
        total(entries.remove(j)) + entries[j].1 == total(entries),
    decreases entries.len(),
{
    let removed = entries.remove(j);
    let rest = entries.drop_last();
    let key = entries[j].0@;
    assert(keys_unique(removed)) by {
        assert forall|a: int, b: int| 0 <= a < b < removed.len() implies (#[trigger] removed[a]).0@
            != (#[trigger] removed[b]).0@ by {
            let ia = if a < j { a } else { a + 1 };
            let ib = if b < j { b } else { b + 1 };
            assert(removed[a] == entries[ia]);
            assert(removed[b] == entries[ib]);
        }
    }
    assert forall|k: Seq<char>| #[trigger] has_key(removed, k) == (has_key(entries, k) && k != key) by {
        if has_key(removed, k) {
            let a = choose|a: int| 0 <= a < removed.len() && (#[trigger] removed[a]).0@ == k;
            let ia = if a < j { a } else { a + 1 };
            assert(removed[a] == entries[ia]);
        }
        if has_key(entries, k) && k != key {
            let a = choose|a: int| 0 <= a < entries.len() && (#[trigger] entries[a]).0@ == k;
            if a < j {
                assert(removed[a] == entries[a]);
            } else {
                assert(a != j);
                assert(removed[a - 1] == entries[a]);
            }
        }
    }
    if j == entries.len() - 1 {
        assert(removed =~= rest);
        assert(entries.last().0@ == key);
    } else {
        assert(removed.drop_last() =~= rest.remove(j));
        assert(removed.last() == entries.last());
        assert(rest[j] == entries[j]);
        assert(keys_unique(rest)) by {
            assert forall|a: int, b: int| 0 <= a < b < rest.len() implies (#[trigger] rest[a]).0@
                != (#[trigger] rest[b]).0@ by {
                assert(rest[a] == entries[a]);
                assert(rest[b] == entries[b]);
            }
        }
        lemma_count_remove(rest, j);
        assert forall|k: Seq<char>| k != key implies #[trigger] count_in(removed, k) == count_in(entries, k) by {
            assert(count_in(rest.remove(j), k) == count_in(rest, k));
        }
    }
}

/// Two replicas holding the same counts report the same total: the sum does not depend on the
/// order of the entries.
pub proof fn lemma_total_determined(a: Seq<(String, usize)>, b: Seq<(String, usize)>)
    requires
        keys_unique(a),
        keys_unique(b),
        counts(a) == counts(b),
    ensures
        total(a) == total(b),
    decreases a.len(),
{
    if a.len() == 0 {
        if b.len() > 0 {
            assert(counts(b).contains_key(b[0].0@));
        }
    } else {
        let e = a.last();
        let rest = a.drop_last();
        let last = a.len() - 1;
        assert(a[last] == e);
        assert(counts(a).contains_key(e.0@));
        assert(has_key(b, e.0@));
        let j = choose|j: int| 0 <= j < b.len() && (#[trigger] b[j]).0@ == e.0@;
        lemma_count_at(a, last);
        lemma_count_at(b, j);
        assert(counts(a)[e.0@] == count_in(a, e.0@));
        lemma_count_remove(b, j);
        let b2 = b.remove(j);
        assert(keys_unique(rest)) by {
            assert forall|x: int, y: int| 0 <= x < y < rest.len() implies (#[trigger] rest[x]).0@
                != (#[trigger] rest[y]).0@ by {
                assert(rest[x] == a[x]);
                assert(rest[y] == a[y]);
            }
        }
        assert forall|k: Seq<char>| #[trigger] has_key(rest, k) == (has_key(a, k) && k != e.0@) by {
            if has_key(rest, k) {
                let x = choose|x: int| 0 <= x < rest.len() && (#[trigger] rest[x]).0@ == k;
                assert(a[x] == rest[x]);
            }
            if has_key(a, k) && k != e.0@ {
                let x = choose|x: int| 0 <= x < a.len() && (#[trigger] a[x]).0@ == k;
                assert(rest[x] == a[x]);
            }
        }
        assert forall|k: Seq<char>| k != e.0@ implies #[trigger] count_in(rest, k) == count_in(a, k) by {}
        assert forall|k: Seq<char>| has_key(rest, k) implies #[trigger] count_in(rest, k) == count_in(b2, k) by {
            assert(has_key(a, k) && k != e.0@);
            assert(counts(a).contains_key(k));
            assert(counts(a)[k] == counts(b)[k]);
            assert(counts(a)[k] == count_in(a, k));
            assert(counts(b)[k] == count_in(b, k));
            assert(count_in(b2, k) == count_in(b, k));
            assert(count_in(rest, k) == count_in(a, k));
        }
        assert(counts(rest) =~= counts(b2)) by {
            assert forall|k: Seq<char>| #[trigger] has_key(rest, k) == has_key(b2, k) by {
                assert(counts(a).contains_key(k) == has_key(a, k));
                assert(counts(b).contains_key(k) == has_key(b, k));
                assert(counts(a).contains_key(k) == counts(b).contains_key(k));
                assert(has_key(b2, k) == (has_key(b, k) && k != b[j].0@));
                assert(has_key(rest, k) == (has_key(a, k) && k != e.0@));
            }
        }
        lemma_total_determined(rest, b2);
    }
}

/// A count raised by `delta`, held at the largest `usize`.
pub open spec fn bumped(c: nat, delta: usize) -> nat {
    if c + delta > usize::MAX {
        usize::MAX as nat
    } else {
        (c + delta) as nat
    }
}

/// The position of the entry for node `k`, if `entries` has one.
fn find_key(entries: &Vec<(String, usize)>, k: &String) -> (r: Option<usize>)
    ensures
        match r {
            Some(j) => j < entries.len() && entries@[j as int].0@ == k@,
            None => !has_key(entries@, k@),
        },
{
    let mut i: usize = 0;
    while i < entries.len()
        invariant
            i <= entries.len(),
            forall|j: int| 0 <= j < i ==> (#[trigger] entries@[j]).0@ != k@,
        decreases entries.len() - i,
    {
        if entries[i].0 == *k {
            return Some(i);
        }
        i += 1;
    }
    None
}

/// A copy of `entries`.
fn copy_entries(entries: &Vec<(String, usize)>) -> (r: Vec<(String, usize)>)
    ensures
        r@ == entries@,
{
    let mut r: Vec<(String, usize)> = Vec::new();
    let mut i: usize = 0;
    while i < entries.len()
        invariant
            i <= entries.len(),
            r@ == entries@.take(i as int),
        decreases entries.len() - i,
    {
        r.push((entries[i].0.clone(), entries[i].1));
        i += 1;
        assert(r@ =~= entries@.take(i as int));
    }
    assert(entries@.take(i as int) =~= entries@);
    r
}

/// The sum of the counts of `entries`, held at the largest `usize`.
fn sum_counts(entries: &Vec<(String, usize)>) -> (r: usize)
    ensures
        r == reported(entries@),
{
    let mut acc: usize = 0;
    let mut i: usize = 0;
    while i < entries.len()
        invariant
            i <= entries.len(),
            acc == reported(entries@.take(i as int)),
        decreases entries.len() - i,
    {
        assert(entries@.take(i + 1).drop_last() =~= entries@.take(i as int));
        acc = acc.saturating_add(entries[i].1);
        i += 1;
    }
    assert(entries@.take(i as int) =~= entries@);
    acc
}

/// Raises the count of node `me` by `delta`, holding it at the largest `usize`.
fn add_count(entries: &mut Vec<(String, usize)>, me: &String, delta: usize)
    requires
        keys_unique(old(entries)@),
    ensures
        keys_unique(final(entries)@),
        counts(final(entries)@) == counts(old(entries)@).insert(
            me@,
            bumped(count_in(old(entries)@, me@), delta),
        ),
        total(final(entries)@) + count_in(old(entries)@, me@) == total(old(entries)@) + bumped(
            count_in(old(entries)@, me@),
            delta,
        ),
        total(final(entries)@) >= total(old(entries)@),
{
    let ghost before = entries@;
    match find_key(entries, me) {
        Some(j) => {
            proof {
                lemma_count_at(before, j as int);
            }
            let v = entries[j].1.saturating_add(delta);
            entries[j].1 = v;
            proof {
                assert(entries@ == before.update(j as int, (before[j as int].0, v)));
                lemma_count_update(before, j as int, v);
            }
        },
        None => {
            proof {
                lemma_count_absent(before, me@);
                lemma_count_push(before, (*me, delta));
            }
            entries.push((me.clone(), delta));
        },
    }
    assert(counts(entries@) =~= counts(before).insert(me@, bumped(count_in(before, me@), delta)));
}

/// Merges gossiped counts into the counts of replica `me`: each other node's count becomes the
/// larger of the two.
fn merge_entries(entries: &mut Vec<(String, usize)>, me: &String, incoming: &Vec<(String, usize)>)
    requires
        keys_unique(old(entries)@),
    ensures
        keys_unique(final(entries)@),
        counts(final(entries)@) == merge_counts(counts(old(entries)@), me@, counts(incoming@)),
        total(final(entries)@) >= total(old(entries)@),
{
    let ghost start = entries@;
    let mut i: usize = 0;
    while i < incoming.len()
        invariant
            i <= incoming.len(),
            keys_unique(entries@),
            total(entries@) >= total(start),
            forall|k: Seq<char>|
                #[trigger] has_key(entries@, k) == (has_key(start, k) || (k != me@ && has_key(
                    incoming@.take(i as int),
                    k,
                ))),
            forall|k: Seq<char>|
                #[trigger] count_in(entries@, k) == if k == me@ {
                    count_in(start, k)
                } else {
                    larger(count_in(start, k), count_in(incoming@.take(i as int), k))
                },
        decreases incoming.len() - i,
    {
        let ghost before = entries@;
        let ghost seen = incoming@.take(i as int);
        let ghost now = incoming@.take(i + 1);
        let ghost e = incoming@[i as int];
        proof {
            assert(now.drop_last() =~= seen);
            assert forall|k: Seq<char>| #[trigger] has_key(now, k) == (has_key(seen, k) || k == e.0@) by {
                if has_key(now, k) {
                    let a = choose|a: int| 0 <= a < now.len() && (#[trigger] now[a]).0@ == k;
                    if a < seen.len() {
                        assert(seen[a] == now[a]);
                    }
                }
                if has_key(seen, k) {
                    let a = choose|a: int| 0 <= a < seen.len() && (#[trigger] seen[a]).0@ == k;
                    assert(now[a] == seen[a]);
                }
                if k == e.0@ {
                    assert(now[i as int] == e);
                }
            }
            assert forall|k: Seq<char>| #[trigger] count_in(now, k) == if k == e.0@ {
                larger(count_in(seen, k), e.1 as nat)
            } else {
                count_in(seen, k)
            } by {}
        }
        let key = &incoming[i].0;
        let value = incoming[i].1;
        if *key != *me {
            match find_key(entries, key) {
                Some(j) => {
                    proof {
                        lemma_count_at(before, j as int);
                    }
                    if entries[j].1 < value {
                        entries[j].1 = value;
                        proof {
                            assert(entries@ == before.update(j as int, (before[j as int].0, value)));
                            lemma_count_update(before, j as int, value);
                        }
                    }
                },
                None => {
                    proof {
                        lemma_count_absent(before, key@);
                        lemma_count_absent(start, key@);
                        lemma_count_absent(seen, key@);
                        lemma_count_push(before, (*key, value));
                    }
                    entries.push((key.clone(), value));
                },
            }
        }
        i += 1;
    }
    assert(incoming@.take(i as int) =~= incoming@);
    assert forall|k: Seq<char>| #[trigger] count_of(counts(start), k) == count_in(start, k) && count_of(counts(incoming@), k) == count_in(incoming@, k) by {
        if !has_key(start, k) {
            lemma_count_absent(start, k);
        }
        if !has_key(incoming@, k) {
            lemma_count_absent(incoming@, k);
        }
    }
    assert(counts(entries@) =~= merge_counts(counts(start), me@, counts(incoming@)));
}

/// Merging the same gossiped counts twice leaves the counts that merging them once gave.
pub proof fn lemma_merge_counts_idempotent(
    known: Map<Seq<char>, nat>,
    me: Seq<char>,
    incoming: Map<Seq<char>, nat>,
)
    ensures
        merge_counts(merge_counts(known, me, incoming), me, incoming) == merge_counts(
            known,
            me,
            incoming,
        ),
{
    assert(merge_counts(merge_counts(known, me, incoming), me, incoming) =~= merge_counts(
        known,
        me,
        incoming,
    ));
}

/// Merging gossiped counts `a` then `b` gives the same counts as merging `b` then `a`.
pub proof fn lemma_merge_counts_commutative(
    known: Map<Seq<char>, nat>,
    me: Seq<char>,
    a: Map<Seq<char>, nat>,
    b: Map<Seq<char>, nat>,
)
    ensures
        merge_counts(merge_counts(known, me, a), me, b) == merge_counts(
            merge_counts(known, me, b),
            me,
            a,
        ),
{
    assert(merge_counts(merge_counts(known, me, a), me, b) =~= merge_counts(
        merge_counts(known, me, b),
        me,
        a,
    ));
}

/// Along any run of a replica, where no step lowers the sum of the counts (as each call of
/// `handle` guarantees), the reported total never decreases.
pub proof fn lemma_reported_monotone(states: Seq<Seq<(String, usize)>>, a: int, b: int)
    requires
        forall|i: int| 0 <= i < states.len() - 1 ==> total(#[trigger] states[i]) <= total(states[i + 1]),
        0 <= a <= b < states.len(),
    ensures
        reported(states[a]) <= reported(states[b]),
    decreases b - a,
{
    if a < b {
        lemma_reported_monotone(states, a, b - 1);
        assert(total(states[b - 1]) <= total(states[b]));
    }
}

impl GCounterNode {
    /// Raises this replica's own count by `delta`, holding it at the largest `usize`.
    pub fn add(&mut self, delta: usize)
        requires
            keys_unique(old(self).state@),
        ensures
            keys_unique(final(self).state@),
            final(self).id == old(self).id,
            final(self).node_id == old(self).node_id,
            final(self).neighbours == old(self).neighbours,
            counts(final(self).state@) == counts(old(self).state@).insert(
                old(self).node_id@,
                bumped(count_in(old(self).state@, old(self).node_id@), delta),
            ),
            total(final(self).state@) + count_in(old(self).state@, old(self).node_id@) == total(
                old(self).state@,
            ) + bumped(count_in(old(self).state@, old(self).node_id@), delta),
            total(final(self).state@) >= total(old(self).state@),
    {
        add_count(&mut self.state, &self.node_id, delta);
    }
}

impl Node<GCounterPayload> for GCounterNode {
    open spec fn wf(&self) -> bool {
        &&& keys_unique(self.state@)
        &&& neighbour_set(self.neighbours@, self.node_id@)
    }

    open spec fn next_id(&self) -> usize {
        self.id
    }

    fn next_message_id(&self) -> (r: usize) {
        self.id
    }

    /// Starts with a count of 0 for each node of the roster, gossiping to every other node of
    /// it.
    fn new(id: usize, init: Init) -> (r: Self)
        ensures
            r.node_id == init.node_id,
            r.neighbours@ == peers(init.node_ids@, init.node_id@),
            forall|k: Seq<char>|
                #[trigger] has_key(r.state@, k) == exists|i: int|
                    0 <= i < init.node_ids.len() && (#[trigger] init.node_ids@[i])@ == k,
            total(r.state@) == 0,
            forall|k: Seq<char>| #[trigger] count_in(r.state@, k) == 0,
    {
        let ids = &init.node_ids;
        let mut state: Vec<(String, usize)> = Vec::new();
        let mut i: usize = 0;
        while i < ids.len()
            invariant
                i <= ids.len(),
                keys_unique(state@),
                total(state@) == 0,
                forall|k: Seq<char>| #[trigger] count_in(state@, k) == 0,
                forall|k: Seq<char>|
                    #[trigger] has_key(state@, k) == exists|a: int|
                        0 <= a < i && (#[trigger] ids@[a])@ == k,
            decreases ids.len() - i,
        {
            let ghost before = state@;
            if find_key(&state, &ids[i]).is_none() {
                proof {
                    lemma_count_push(before, (ids@[i as int], 0usize));
                }
                state.push((ids[i].clone(), 0));
            }
            proof {
                assert forall|k: Seq<char>| #[trigger] has_key(state@, k) == exists|a: int|
                    0 <= a < i + 1 && (#[trigger] ids@[a])@ == k by {
                    if has_key(before, k) {
                        let a = choose|a: int| 0 <= a < i && (#[trigger] ids@[a])@ == k;
                    }
                }
            }
            i += 1;
        }
        let neighbours = peers_of(ids, &init.node_id);
        proof {
            lemma_peers(ids@, init.node_id@);
        }
        Self { id, node_id: init.node_id, state, neighbours }
    }

    /// An add raises this replica's count; a read answers with the total; a topology is only
    /// acknowledged; gossip is merged and not answered; acknowledgements are ignored. No step
    /// lowers the total.
    open spec fn handled(
        before: Self,
        input: Message<GCounterPayload>,
        after: Self,
        r: Option<Message<GCounterPayload>>,
    ) -> bool {
        &&& after.node_id == before.node_id
        &&& after.neighbours == before.neighbours
        &&& total(after.state@) >= total(before.state@)
        &&& reported(after.state@) >= reported(before.state@)
        &&& match input.body.payload {
            GCounterPayload::Add { delta } => {
                &&& counts(after.state@) == counts(before.state@).insert(
                    before.node_id@,
                    bumped(count_in(before.state@, before.node_id@), delta),
                )
                &&& total(after.state@) + count_in(before.state@, before.node_id@)
                    == total(before.state@) + bumped(
                    count_in(before.state@, before.node_id@),
                    delta,
                )
                &&& match r {
                    Some(m) => m.body.payload is AddOk,
                    None => false,
                }
            },
            GCounterPayload::Read => {
                &&& after.state == before.state
                &&& match r {
                    Some(m) => match m.body.payload {
                        GCounterPayload::ReadOk { value } => value == reported(before.state@),
                        _ => false,
                    },
                    None => false,
                }
            },
            GCounterPayload::Topology { .. } => {
                &&& after.state == before.state
                &&& match r {
                    Some(m) => m.body.payload is TopologyOk,
                    None => false,
                }
            },
            GCounterPayload::Gossip { values } => {
                &&& r is None
                &&& counts(after.state@) == merge_counts(
                    counts(before.state@),
                    before.node_id@,
                    counts(values@),
                )
                &&& after.id == before.id
            },
            _ => r is None && after == before,
        }
    }

    open spec fn replies(&self, input: Message<GCounterPayload>) -> bool {
        match input.body.payload {
            GCounterPayload::Add { .. } | GCounterPayload::Read | GCounterPayload::Topology { .. } => true,
            _ => false,
        }
    }

    /// One gossip message to each neighbour, in order, each carrying all of this replica's
    /// counts.
    open spec fn gossips_as(&self, out: Seq<Message<GCounterPayload>>) -> bool {
        &&& out.len() == self.neighbours.len()
        &&& forall|i: int|
            0 <= i < out.len() ==> {
                &&& (#[trigger] out[i]).src == self.node_id
                &&& out[i].dest == self.neighbours@[i]
                &&& match out[i].body.payload {
                    GCounterPayload::Gossip { values } => values@ == self.state@,
                    _ => false,
                }
            }
    }

    fn handle(&mut self, input: Message<GCounterPayload>) -> (r: Option<Message<GCounterPayload>>)
    {
        let id = self.id;
        let Message { src, dest, body } = input.into_reply(Some(id));
        match body.payload {
            GCounterPayload::Add { delta } => {
                self.add(delta);
                self.id = id + 1;
                let payload = GCounterPayload::AddOk;
                Some(Message { src, dest, body: Body { id: body.id, in_reply_to: body.in_reply_to, payload } })
            },
            GCounterPayload::Read => {
                let payload = GCounterPayload::ReadOk { value: sum_counts(&self.state) };
                self.id = id + 1;
                Some(Message { src, dest, body: Body { id: body.id, in_reply_to: body.in_reply_to, payload } })
            },
            GCounterPayload::Topology { .. } => {
                self.id = id + 1;
                let payload = GCounterPayload::TopologyOk;
                Some(Message { src, dest, body: Body { id: body.id, in_reply_to: body.in_reply_to, payload } })
            },
            GCounterPayload::Gossip { values } => {
                merge_entries(&mut self.state, &self.node_id, &values);
                None
            },
            GCounterPayload::AddOk
            | GCounterPayload::ReadOk { .. }
            | GCounterPayload::TopologyOk => None,
        }
    }

    fn handle_gossip(&self) -> (r: Vec<Message<GCounterPayload>>) {
        let mut out: Vec<Message<GCounterPayload>> = Vec::new();
        let mut i: usize = 0;
        while i < self.neighbours.len()
            invariant
                i <= self.neighbours.len(),
                out.len() == i,
                forall|j: int|
                    0 <= j < i ==> {
                        &&& (#[trigger] out[j]).src == self.node_id
                        &&& out[j].dest == self.neighbours@[j]
                        &&& out[j].body.id is None
                        &&& out[j].body.in_reply_to is None
                        &&& match out[j].body.payload {
                            GCounterPayload::Gossip { values } => values@ == self.state@,
                            _ => false,
                        }
                    },
            decreases self.neighbours.len() - i,
        {
            let payload = GCounterPayload::Gossip { values: copy_entries(&self.state) };
            let message = Message {
                src: self.node_id.clone(),
                dest: self.neighbours[i].clone(),
                body: Body { id: None, in_reply_to: None, payload },
            };
            out.push(message);
            i += 1;
        }
        out
    }
}

/// Delivering the same gossip message twice leaves a replica with the counts that delivering
/// it once gave, and no reply either time.
pub proof fn lemma_counter_gossip_delivered_twice(
    s: GCounterNode,
    g: Message<GCounterPayload>,
    s1: GCounterNode,
    r1: Option<Message<GCounterPayload>>,
    s2: GCounterNode,
    r2: Option<Message<GCounterPayload>>,
)
    requires
        g.body.payload is Gossip,
        GCounterNode::handled(s, g, s1, r1),
        GCounterNode::handled(s1, g, s2, r2),
    ensures
        r1 is None,
        r2 is None,
        counts(s2.state@) == counts(s1.state@),
        s2.id == s1.id,
{
    if let GCounterPayload::Gossip { values } = g.body.payload {
        lemma_merge_counts_idempotent(counts(s.state@), s.node_id@, counts(values@));
    }
}

/// Two gossip messages delivered in either order leave a well-formed replica with the same
/// counts, so that it reports the same total.
pub proof fn lemma_counter_gossip_order(
    s: GCounterNode,
    ga: Message<GCounterPayload>,
    gb: Message<GCounterPayload>,
    sa: GCounterNode,
    ra: Option<Message<GCounterPayload>>,
    sab: GCounterNode,
    rab: Option<Message<GCounterPayload>>,
    sb: GCounterNode,
    rb: Option<Message<GCounterPayload>>,
    sba: GCounterNode,
    rba: Option<Message<GCounterPayload>>,
)
    requires
        ga.body.payload is Gossip,
        gb.body.payload is Gossip,
        GCounterNode::handled(s, ga, sa, ra),
        GCounterNode::handled(sa, gb, sab, rab),
        GCounterNode::handled(s, gb, sb, rb),
        GCounterNode::handled(sb, ga, sba, rba),
        keys_unique(sab.state@),
        keys_unique(sba.state@),
    ensures
        counts(sab.state@) == counts(sba.state@),
        reported(sab.state@) == reported(sba.state@),
        sab.id == sba.id,
{
    if let GCounterPayload::Gossip { values: a } = ga.body.payload {
        if let GCounterPayload::Gossip { values: b } = gb.body.payload {
            lemma_merge_counts_commutative(counts(s.state@), s.node_id@, counts(a@), counts(b@));
            lemma_total_determined(sab.state@, sba.state@);
        }
    }
}

} // verus!
