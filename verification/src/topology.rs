//! The link relation and its traversal, as mathematics: neighbours, walks,
//! reachability, and the order in which a breadth-first traversal visits
//! identities.

use crate::mac::MAC;
use vstd::prelude::*;

verus! {

/// Whether `link` joins `a` and `b`, in either direction.
pub open spec fn joins(link: (MAC, MAC), a: MAC, b: MAC) -> bool {
    link == (a, b) || link == (b, a)
}

/// Whether some link joins `a` and `b`. Links have no direction.
pub open spec fn linked(links: Seq<(MAC, MAC)>, a: MAC, b: MAC) -> bool {
    exists|i: int| 0 <= i < links.len() && joins(#[trigger] links[i], a, b)
}

/// The identities linked to `mac`, one for each link that touches `mac`, in
/// the order of the links.
pub open spec fn neighbors_of(links: Seq<(MAC, MAC)>, mac: MAC) -> Seq<MAC>
    decreases links.len(),
{
    if links.len() == 0 {
        Seq::empty()
    } else {
        let before = neighbors_of(links.drop_last(), mac);
        if links.last().0 == mac {
            before.push(links.last().1)
        } else if links.last().1 == mac {
            before.push(links.last().0)
        } else {
            before
        }
    }
}

/// The links that touch `mac`, in their order.
pub open spec fn links_of(links: Seq<(MAC, MAC)>, mac: MAC) -> Seq<(MAC, MAC)>
    decreases links.len(),
{
    if links.len() == 0 {
        Seq::empty()
    } else {
        let before = links_of(links.drop_last(), mac);
        if links.last().0 == mac || links.last().1 == mac {
            before.push(links.last())
        } else {
            before
        }
    }
}

/// A walk: a sequence of identities, not empty, in which each is linked to
/// the next.
pub open spec fn is_walk(links: Seq<(MAC, MAC)>, walk: Seq<MAC>) -> bool {
    &&& walk.len() > 0
    &&& forall|i: int| 0 <= i < walk.len() - 1 ==> linked(links, #[trigger] walk[i], walk[i + 1])
}

/// Whether `to` can be reached from `from` over the links: some walk leads
/// from the one to the other. Every identity reaches itself.
pub open spec fn reachable(links: Seq<(MAC, MAC)>, from: MAC, to: MAC) -> bool {
    exists|walk: Seq<MAC>| #[trigger] is_walk(links, walk) && walk[0] == from && walk.last() == to
}

/// `seen` with the identities of `found` that it lacks put behind it, in the
/// order of `found`, each once.
pub open spec fn absorb(seen: Seq<MAC>, found: Seq<MAC>) -> Seq<MAC>
    decreases found.len(),
{
    if found.len() == 0 {
        seen
    } else {
        let before = absorb(seen, found.drop_last());
        if before.contains(found.last()) {
            before
        } else {
            before.push(found.last())
        }
    }
}

/// A traversal in progress: the identities `seen` so far, of which the first
/// `done` have had their neighbours looked at. The next identity's unseen
/// neighbours are put behind `seen`, and so on until none is left to look
/// at. More than `2 * links.len() + 1` identities cannot be seen, which is
/// what ends the traversal.
pub open spec fn bfs_scan(links: Seq<(MAC, MAC)>, seen: Seq<MAC>, done: nat) -> Seq<MAC>
    decreases 2 * links.len() + 1 - done,
{
    if done >= seen.len() || done > 2 * links.len() {
        seen
    } else {
        bfs_scan(links, absorb(seen, neighbors_of(links, seen[done as int])), done + 1)
    }
}

/// The order in which a breadth-first traversal from `start` visits the
/// identities: `start` first, then its neighbours in the order of the
/// links, then theirs, level by level, none twice.
pub open spec fn bfs_order(links: Seq<(MAC, MAC)>, start: MAC) -> Seq<MAC> {
    bfs_scan(links, seq![start], 0)
}

/// The identities that occur in a link.
pub open spec fn endpoints(links: Seq<(MAC, MAC)>) -> Set<MAC>
    decreases links.len(),
{
    if links.len() == 0 {
        Set::empty()
    } else {
        endpoints(links.drop_last()).insert(links.last().0).insert(links.last().1)
    }
}

/// What holds of a traversal in progress from `start`.
pub open spec fn scan_inv(links: Seq<(MAC, MAC)>, start: MAC, seen: Seq<MAC>, done: nat) -> bool {
    &&& done <= seen.len()
    &&& seen.len() >= 1
    &&& seen[0] == start
    &&& seen.no_duplicates()
    &&& forall|i: int| 0 <= i < seen.len() ==> reachable(links, start, #[trigger] seen[i])
    &&& forall|i: int| 1 <= i < seen.len() ==> endpoints(links).contains(#[trigger] seen[i])
    &&& forall|j: int, x: MAC|
        0 <= j < done && linked(links, #[trigger] seen[j], x) ==> #[trigger] seen.contains(x)
}

/// The neighbours of `mac` are the identities linked to it.
pub proof fn lemma_neighbors(links: Seq<(MAC, MAC)>, mac: MAC, x: MAC)
    ensures
        neighbors_of(links, mac).contains(x) <==> linked(links, mac, x),
    decreases links.len(),
{
    if links.len() == 0 {
    } else {
        let init = links.drop_last();
        let last = links.last();
        lemma_neighbors(init, mac, x);
        let before = neighbors_of(init, mac);
        if neighbors_of(links, mac).contains(x) {
            if before.contains(x) {
                let i = choose|i: int| 0 <= i < init.len() && joins(#[trigger] init[i], mac, x);
                assert(joins(links[i], mac, x));
            } else {
                let k = choose|k: int|
                    0 <= k < neighbors_of(links, mac).len() && neighbors_of(links, mac)[k] == x;
                assert(k == before.len());
                assert(joins(links[links.len() - 1], mac, x));
            }
        }
        if linked(links, mac, x) {
            let i = choose|i: int| 0 <= i < links.len() && joins(#[trigger] links[i], mac, x);
            if i < init.len() {
                assert(joins(init[i], mac, x));
                let k = choose|k: int| 0 <= k < before.len() && before[k] == x;
                assert(neighbors_of(links, mac)[k] == x);
            } else {
                let all = neighbors_of(links, mac);
                assert(all[all.len() - 1] == x);
            }
        }
    }
}

/// Every link's two identities are among the endpoints, which are finite
/// and at most two for each link.
pub proof fn lemma_endpoints(links: Seq<(MAC, MAC)>)
    ensures
        endpoints(links).finite(),
        endpoints(links).len() <= 2 * links.len(),
        forall|i: int|
            0 <= i < links.len() ==> endpoints(links).contains((#[trigger] links[i]).0)
                && endpoints(links).contains(links[i].1),
    decreases links.len(),
{
    if links.len() > 0 {
        let init = links.drop_last();
        lemma_endpoints(init);
        assert forall|i: int| 0 <= i < links.len() implies endpoints(links).contains(
            (#[trigger] links[i]).0,
        ) && endpoints(links).contains(links[i].1) by {
            if i < init.len() {
                assert(init[i] == links[i]);
            }
        }
    }
}

/// An identity linked to another is an endpoint.
pub proof fn lemma_linked_endpoint(links: Seq<(MAC, MAC)>, a: MAC, b: MAC)
    requires
        linked(links, a, b),
    ensures
        endpoints(links).contains(a),
        endpoints(links).contains(b),
{
    lemma_endpoints(links);
    let i = choose|i: int| 0 <= i < links.len() && joins(#[trigger] links[i], a, b);
    assert(endpoints(links).contains(links[i].0));
}

/// What absorbing keeps and adds: `seen` stays at the front, the result
/// holds what either sequence holds, and nothing comes to occur twice.
pub proof fn lemma_absorb(seen: Seq<MAC>, found: Seq<MAC>)
    ensures
        absorb(seen, found).len() >= seen.len(),
        absorb(seen, found).take(seen.len() as int) == seen,
        forall|x: MAC|
            #[trigger] absorb(seen, found).contains(x) <==> seen.contains(x) || found.contains(x),
        forall|i: int|
            seen.len() <= i < absorb(seen, found).len() ==> found.contains(
                #[trigger] absorb(seen, found)[i],
            ),
        seen.no_duplicates() ==> absorb(seen, found).no_duplicates(),
    decreases found.len(),
{
    if found.len() == 0 {
        assert(seen.take(seen.len() as int) =~= seen);
    } else {
        let init = found.drop_last();
        let last = found.last();
        lemma_absorb(seen, init);
        let before = absorb(seen, init);
        let after = absorb(seen, found);
        assert(after.take(seen.len() as int) =~= before.take(seen.len() as int));
        assert(found[found.len() - 1] == last);
        assert forall|x: MAC| #[trigger] after.contains(x) <==> seen.contains(x) || found.contains(
            x,
        ) by {
            if after.contains(x) {
                let k = choose|k: int| 0 <= k < after.len() && after[k] == x;
                if k < before.len() {
                    assert(before[k] == x);
                    assert(before.contains(x));
                    if init.contains(x) {
                        let j = choose|j: int| 0 <= j < init.len() && init[j] == x;
                        assert(found[j] == x);
                    }
                }
            }
            if seen.contains(x) {
                assert(before.contains(x));
                let k = choose|k: int| 0 <= k < before.len() && before[k] == x;
                assert(after[k] == x);
            }
            if found.contains(x) {
                let j = choose|j: int| 0 <= j < found.len() && found[j] == x;
                if j < init.len() {
                    assert(init[j] == x);
                    assert(init.contains(x));
                    assert(before.contains(x));
                    let k = choose|k: int| 0 <= k < before.len() && before[k] == x;
                    assert(after[k] == x);
                } else {
                    if !before.contains(x) {
                        assert(after[after.len() - 1] == x);
                    } else {
                        let k = choose|k: int| 0 <= k < before.len() && before[k] == x;
                        assert(after[k] == x);
                    }
                }
            }
        }
        assert forall|i: int| seen.len() <= i < after.len() implies found.contains(
            #[trigger] after[i],
        ) by {
            if i < before.len() {
                assert(after[i] == before[i]);
                assert(init.contains(before[i]));
                let j = choose|j: int| 0 <= j < init.len() && init[j] == before[i];
                assert(found[j] == before[i]);
            }
        }
    }
}

/// A sequence without duplicates whose identities, but for the first, are
/// endpoints is no longer than twice the number of links, and one.
pub proof fn lemma_seen_bound(links: Seq<(MAC, MAC)>, seen: Seq<MAC>)
    requires
        seen.len() >= 1,
        seen.no_duplicates(),
        forall|i: int| 1 <= i < seen.len() ==> endpoints(links).contains(#[trigger] seen[i]),
    ensures
        seen.len() <= 2 * links.len() + 1,
{
    lemma_endpoints(links);
    let all = endpoints(links).insert(seen[0]);
    assert(seen.to_set().subset_of(all)) by {
        assert forall|x: MAC| seen.to_set().contains(x) implies all.contains(x) by {
            let i = choose|i: int| 0 <= i < seen.len() && seen[i] == x;
            if i >= 1 {
                assert(endpoints(links).contains(seen[i]));
            }
        }
    }
    vstd::set_lib::lemma_len_subset(seen.to_set(), all);
    seen.unique_seq_to_set();
}

/// One step of the traversal keeps what holds of it.
pub proof fn lemma_scan_step(links: Seq<(MAC, MAC)>, start: MAC, seen: Seq<MAC>, done: nat)
    requires
        scan_inv(links, start, seen, done),
        done < seen.len(),
    ensures
        scan_inv(
            links,
            start,
            absorb(seen, neighbors_of(links, seen[done as int])),
            done + 1,
        ),
{
    let current = seen[done as int];
    let found = neighbors_of(links, current);
    let next = absorb(seen, found);
    lemma_absorb(seen, found);
    assert forall|i: int| 0 <= i < seen.len() implies next[i] == seen[i] by {
        assert(next.take(seen.len() as int)[i] == next[i]);
    }
    assert forall|i: int| 0 <= i < next.len() implies reachable(links, start, #[trigger] next[i])
        && (i >= 1 ==> endpoints(links).contains(next[i])) by {
        if i >= seen.len() {
            let x = next[i];
            assert(found.contains(x));
            lemma_neighbors(links, current, x);
            lemma_linked_endpoint(links, current, x);
            assert(reachable(links, start, current));
            let walk = choose|walk: Seq<MAC>| #[trigger]
                is_walk(links, walk) && walk[0] == start && walk.last() == current;
            let longer = walk.push(x);
            assert(is_walk(links, longer)) by {
                assert forall|k: int| 0 <= k < longer.len() - 1 implies linked(
                    links,
                    #[trigger] longer[k],
                    longer[k + 1],
                ) by {
                    if k < walk.len() - 1 {
                        assert(linked(links, walk[k], walk[k + 1]));
                    }
                }
            }
            assert(longer[0] == start && longer.last() == x);
        }
    }
    assert forall|j: int, x: MAC|
        0 <= j < done + 1 && linked(links, #[trigger] next[j], x) implies #[trigger] next.contains(
        x,
    ) by {
        if j < done {
            assert(linked(links, seen[j], x));
            assert(seen.contains(x));
        } else {
            lemma_neighbors(links, current, x);
            assert(found.contains(x));
        }
    }
}

/// Once every seen identity has had its neighbours looked at, all that can
/// be reached from `start` has been seen.
pub proof fn lemma_scan_closed(links: Seq<(MAC, MAC)>, start: MAC, seen: Seq<MAC>, walk: Seq<MAC>, upto: int)
    requires
        scan_inv(links, start, seen, seen.len()),
        is_walk(links, walk),
        walk[0] == start,
        0 <= upto < walk.len(),
    ensures
        seen.contains(walk[upto]),
    decreases upto,
{
    if upto == 0 {
        assert(seen[0] == start);
    } else {
        lemma_scan_closed(links, start, seen, walk, upto - 1);
        let j = choose|j: int| 0 <= j < seen.len() && seen[j] == walk[upto - 1];
        assert(linked(links, walk[upto - 1], walk[upto - 1 + 1]));
        assert(linked(links, seen[j], walk[upto]));
    }
}

/// What a traversal in progress ends with: a sequence that begins with
/// what was seen, holds no identity twice, and holds exactly what can be
/// reached from `start`.
pub proof fn lemma_scan_result(links: Seq<(MAC, MAC)>, start: MAC, seen: Seq<MAC>, done: nat)
    requires
        scan_inv(links, start, seen, done),
    ensures
        scan_inv(links, start, bfs_scan(links, seen, done), bfs_scan(links, seen, done).len()),
        forall|x: MAC|
            #[trigger] bfs_scan(links, seen, done).contains(x) <==> reachable(links, start, x),
    decreases 2 * links.len() + 1 - done,
{
    lemma_seen_bound(links, seen);
    let result = bfs_scan(links, seen, done);
    if done >= seen.len() {
        assert(result == seen);
        assert forall|x: MAC| #[trigger] result.contains(x) <==> reachable(links, start, x) by {
            if reachable(links, start, x) {
                let walk = choose|walk: Seq<MAC>| #[trigger]
                    is_walk(links, walk) && walk[0] == start && walk.last() == x;
                lemma_scan_closed(links, start, seen, walk, walk.len() - 1);
            }
            if result.contains(x) {
                let i = choose|i: int| 0 <= i < seen.len() && seen[i] == x;
                assert(reachable(links, start, seen[i]));
            }
        }
    } else {
        lemma_scan_step(links, start, seen, done);
        lemma_scan_result(links, start, absorb(seen, neighbors_of(links, seen[done as int])), done + 1);
    }
}

/// The traversal from `start` visits `start` first, visits nothing twice,
/// and visits exactly the identities that can be reached from `start` over
/// the links.
pub proof fn lemma_bfs_order(links: Seq<(MAC, MAC)>, start: MAC)
    ensures
        bfs_order(links, start).len() >= 1,
        bfs_order(links, start)[0] == start,
        bfs_order(links, start).no_duplicates(),
        forall|x: MAC| #[trigger] bfs_order(links, start).contains(x) <==> reachable(links, start, x),
{
    let first = seq![start];
    assert(scan_inv(links, start, first, 0)) by {
        assert(is_walk(links, first));
        assert(first[0] == start && first.last() == start);
        assert(reachable(links, start, first[0]));
    }
    lemma_scan_result(links, start, first, 0);
}

} // verus!
