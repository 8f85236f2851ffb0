use vstd::prelude::*;

verus! {

/// A topology-configuration payload: for each listed node, the nodes it should gossip to.
#[derive(Debug, Clone)]
pub struct Topology {
    pub neighbours: Vec<(String, Vec<String>)>,
}

/// Whether `ids` lists the id `x`.
pub open spec fn lists_id(ids: Seq<String>, x: Seq<char>) -> bool {
    exists|j: int| 0 <= j < ids.len() && (#[trigger] ids[j])@ == x
}

/// Whether `ids` is a neighbour set of node `me`: it lists each id once, and never `me`.
pub open spec fn neighbour_set(ids: Seq<String>, me: Seq<char>) -> bool {
    &&& forall|j: int| 0 <= j < ids.len() ==> (#[trigger] ids[j])@ != me
    &&& forall|i: int, j: int| 0 <= i < j < ids.len() ==> (#[trigger] ids[i])@ != (#[trigger] ids[j])@
}

/// The ids in `ids` other than `me`, each once, in the order of their first occurrence.
pub open spec fn peers(ids: Seq<String>, me: Seq<char>) -> Seq<String>
    decreases ids.len(),
{
    if ids.len() == 0 {
        ids
    } else {
        let rest = peers(ids.drop_last(), me);
        if ids.last()@ == me || lists_id(rest, ids.last()@) {
            rest
        } else {
            rest.push(ids.last())
        }
    }
}

/// `peers` is a neighbour set of `me`, and lists exactly the ids of `ids` other than `me`.
pub proof fn lemma_peers(ids: Seq<String>, me: Seq<char>)
    ensures
        neighbour_set(peers(ids, me), me),
        forall|x: Seq<char>| #[trigger] lists_id(peers(ids, me), x) == (lists_id(ids, x) && x != me),
    decreases ids.len(),
{
    if ids.len() > 0 {
        let front = ids.drop_last();
        let rest = peers(front, me);
        let p = peers(ids, me);
        lemma_peers(front, me);
        assert forall|j: int| 0 <= j < rest.len() implies #[trigger] p[j] == rest[j] by {}
        assert forall|x: Seq<char>| #[trigger] lists_id(ids, x) == (lists_id(front, x) || ids.last()@ == x) by {
            if lists_id(ids, x) {
                let j = choose|j: int| 0 <= j < ids.len() && (#[trigger] ids[j])@ == x;
                if j < front.len() {
                    assert(front[j] == ids[j]);
                }
            }
            if lists_id(front, x) {
                let j = choose|j: int| 0 <= j < front.len() && (#[trigger] front[j])@ == x;
                assert(ids[j] == front[j]);
            }
            if ids.last()@ == x {
                assert(ids[ids.len() - 1]@ == x);
            }
        }
        assert forall|x: Seq<char>| #[trigger] lists_id(p, x) == (lists_id(ids, x) && x != me) by {
            if lists_id(p, x) {
                let j = choose|j: int| 0 <= j < p.len() && (#[trigger] p[j])@ == x;
                if j < rest.len() {
                    assert(rest[j]@ == x);
                }
            }
            if lists_id(rest, x) {
                let j = choose|j: int| 0 <= j < rest.len() && (#[trigger] rest[j])@ == x;
                assert(p[j]@ == x);
            }
            if p.len() > rest.len() && ids.last()@ == x {
                assert(p[rest.len() as int]@ == x);
            }
        }
    }
}

/// Copies the ids of `ids` that differ from `me`, each once.
pub fn peers_of(ids: &Vec<String>, me: &String) -> (r: Vec<String>)
    ensures
        r@ == peers(ids@, me@),
{
    let mut r: Vec<String> = Vec::new();
    let mut i: usize = 0;
    while i < ids.len()
        invariant
            i <= ids.len(),
            r@ == peers(ids@.take(i as int), me@),
        decreases ids.len() - i,
    {
        assert(ids@.take(i + 1).drop_last() =~= ids@.take(i as int));
        let mut seen = ids[i] == *me;
        let mut j: usize = 0;
        while j < r.len()
            invariant
                j <= r.len(),
                i < ids.len(),
                seen == (ids@[i as int]@ == me@ || exists|a: int| 0 <= a < j && (#[trigger] r@[a])@ == ids@[i as int]@),
            decreases r.len() - j,
        {
            if r[j] == ids[i] {
                seen = true;
            }
            j += 1;
        }
        if !seen {
            r.push(ids[i].clone());
        }
        i += 1;
    }
    assert(ids@.take(i as int) =~= ids@);
    r
}

} // verus!
