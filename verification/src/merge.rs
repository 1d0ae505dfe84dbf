//! The three-way merge of tree objects: for the scalar data slot and
//! for every link key present in any of the three versions, keep the
//! common value, take the side that changed, and fail with an explicit
//! conflict naming the key when both sides changed it differently.
//! Nothing is resolved automatically.

use vstd::prelude::*;

use crate::commits::{ancestor, commit_at, get_commit, is_commit_at,
    lemma_linear_ancestors_comparable, lemma_reaches_step, linear_history, parents_at, proper_self,
    reaches};
use crate::entries::{entry_addr, link_lookup, object_like, EntryValue, Link, Object};
use crate::errors::UprtclError;
use crate::store::{addr_in, contains_address, Store};

verus! {

/// A search node whose whole neighborhood has been explored: it holds a
/// commit, and each parent is known with the same originating side.
pub open spec fn node_closed(store: Store, side: Map<Seq<char>, bool>, y: Seq<char>) -> bool {
    &&& is_commit_at(store, y)
    &&& side.contains_key(y)
    &&& forall|k: int|
        0 <= k < parents_at(store, y).len() ==> side.contains_key(
            #[trigger] parents_at(store, y)[k],
        ) && side[parents_at(store, y)[k]] == side[y]
}

/// A discovered (non-seed) search node: its discoverer is known to the
/// search, lies on the same side, and is a commit having it as parent.
pub open spec fn disc_node_ok(
    store: Store,
    side: Map<Seq<char>, bool>,
    disc: Map<Seq<char>, Seq<char>>,
    y: Seq<char>,
) -> bool {
    &&& disc.contains_key(y)
    &&& side.contains_key(disc[y])
    &&& side[disc[y]] == side[y]
    &&& is_commit_at(store, disc[y])
    &&& (exists|k: int|
        0 <= k < parents_at(store, disc[y]).len() && parents_at(store, disc[y])[k] == y)
}

/// Between iterations: every known address is a seed or was discovered
/// by an already-explored node.
#[verifier::opaque]
pub open spec fn discovery_closed(
    store: Store,
    from: Seq<char>,
    to: Seq<char>,
    side: Map<Seq<char>, bool>,
    disc: Map<Seq<char>, Seq<char>>,
    done: Seq<Seq<char>>,
) -> bool {
    forall|y: Seq<char>|
        #[trigger] side.contains_key(y) ==> y == from || y == to || (disc_node_ok(
            store,
            side,
            disc,
            y,
        ) && (exists|k: int| 0 <= k < done.len() && #[trigger] done[k] == disc[y]))
}

/// While `cur`'s parents up to index `pj` are being explored: as above,
/// except that a node may have just been discovered by `cur` itself.
#[verifier::opaque]
pub open spec fn discovery_open(
    store: Store,
    from: Seq<char>,
    to: Seq<char>,
    side: Map<Seq<char>, bool>,
    disc: Map<Seq<char>, Seq<char>>,
    done: Seq<Seq<char>>,
    cur: Seq<char>,
    pj: int,
) -> bool {
    forall|y: Seq<char>|
        #[trigger] side.contains_key(y) ==> y == from || y == to || (disc_node_ok(
            store,
            side,
            disc,
            y,
        ) && ((exists|k: int| 0 <= k < done.len() && #[trigger] done[k] == disc[y]) || (disc[y]
            == cur && exists|k: int| 0 <= k < pj && parents_at(store, cur)[k] == y)))
}

/// Through a closed search frontier, the side of a node propagates to
/// everything reachable from it.
proof fn lemma_side_walk(
    store: Store,
    side: Map<Seq<char>, bool>,
    start: Seq<char>,
    x: Seq<char>,
    n: nat,
)
    requires
        forall|y: Seq<char>| #[trigger] side.contains_key(y) ==> node_closed(store, side, y),
        side.contains_key(start),
        reaches(store, start, x, n),
    ensures
        side.contains_key(x),
        side[x] == side[start],
    decreases n,
{
    if start != x {
        let k = choose|k: int|
            0 <= k < parents_at(store, start).len() && reaches(
                store,
                parents_at(store, start)[k],
                x,
                (n - 1) as nat,
            );
        lemma_side_walk(store, side, parents_at(store, start)[k], x, (n - 1) as nat);
    }
}

/// Meeting an already-visited address during the search of two linear,
/// acyclic histories means the meeting point is a common ancestor of
/// both query commits: the only other way to reach an address twice
/// would close a cycle.
#[verifier::rlimit(100)]
proof fn lemma_meet_joins_histories(
    store: Store,
    from: Seq<char>,
    to: Seq<char>,
    side: Map<Seq<char>, bool>,
    disc: Map<Seq<char>, Seq<char>>,
    done: Seq<Seq<char>>,
    cur: Seq<char>,
    pv: Seq<char>,
    s: bool,
    pj: int,
)
    requires
        from != to,
        linear_history(store, from),
        linear_history(store, to),
        side.contains_key(from) && side[from] == true,
        side.contains_key(to) && side[to] == false,
        side.contains_key(cur),
        side[cur] == s,
        forall|y: Seq<char>|
            #[trigger] side.contains_key(y) ==> (if side[y] {
                ancestor(store, from, y)
            } else {
                ancestor(store, to, y)
            }),
        discovery_open(store, from, to, side, disc, done, cur, pj),
        forall|k: int| 0 <= k < done.len() ==> cur != #[trigger] done[k],
        is_commit_at(store, cur),
        0 <= pj < parents_at(store, cur).len(),
        parents_at(store, cur)[pj] == pv,
        side.contains_key(pv),
    ensures
        ancestor(store, from, pv),
        ancestor(store, to, pv),
{
    reveal(discovery_open);
    let root = if s {
        from
    } else {
        to
    };
    assert(linear_history(store, root));
    assert(ancestor(store, root, cur));
    let ncur = choose|n: nat| reaches(store, root, cur, n);
    lemma_reaches_step(store, root, cur, pj, ncur);
    assert(ancestor(store, root, pv));
    if side[pv] != s {
        assert(ancestor(store, from, pv) && ancestor(store, to, pv));
    } else if pv == root {
        // both remaining branches close a cycle, against acyclicity
        if cur == root {
            assert(reaches(store, pv, cur, 0));
            assert(ancestor(store, pv, cur));
            assert(proper_self(store, cur));
        } else {
            let k0 = choose|k0: int|
                0 <= k0 < parents_at(store, root).len() && reaches(
                    store,
                    parents_at(store, root)[k0],
                    cur,
                    (ncur - 1) as nat,
                );
            let p1 = parents_at(store, root)[k0];
            lemma_reaches_step(store, p1, cur, pj, (ncur - 1) as nat);
            assert(ancestor(store, p1, root));
            assert(ancestor(store, root, root));
            assert(proper_self(store, root));
        }
    } else {
        // pv is neither root, so it has a discoverer q on the same side
        assert(pv != from && pv != to) by {
            if s && pv == to {
                assert(side[to] == false);
            }
            if !s && pv == from {
                assert(side[from] == true);
            }
        }
        let q = disc[pv];
        assert(side[q] == s);
        let kq = choose|kq: int|
            0 <= kq < parents_at(store, q).len() && parents_at(store, q)[kq] == pv;
        assert(parents_at(store, cur).len() <= 1);
        assert(pj == 0);
        if q == cur {
            if exists|k: int| 0 <= k < done.len() && #[trigger] done[k] == disc[pv] {
                let k = choose|k: int| 0 <= k < done.len() && #[trigger] done[k] == disc[pv];
            } else {
                let kk = choose|kk: int| 0 <= kk < pj && parents_at(store, cur)[kk] == pv;
            }
            assert(false);
        } else {
            assert(ancestor(store, root, q));
            assert(parents_at(store, q).len() <= 1);
            assert(kq == 0);
            let nq = choose|n: nat| reaches(store, root, q, n);
            lemma_linear_ancestors_comparable(store, root, cur, q, ncur, nq);
            if ancestor(store, cur, q) && cur != q {
                let nn = choose|nn: nat| reaches(store, cur, q, nn);
                let kk = choose|kk: int|
                    0 <= kk < parents_at(store, cur).len() && reaches(
                        store,
                        parents_at(store, cur)[kk],
                        q,
                        (nn - 1) as nat,
                    );
                assert(kk == 0);
                assert(ancestor(store, pv, q));
                assert(proper_self(store, q));
            } else {
                assert(ancestor(store, q, cur) && q != cur);
                let nn = choose|nn: nat| reaches(store, q, cur, nn);
                let kk = choose|kk: int|
                    0 <= kk < parents_at(store, q).len() && reaches(
                        store,
                        parents_at(store, q)[kk],
                        cur,
                        (nn - 1) as nat,
                    );
                assert(kk == 0);
                assert(ancestor(store, pv, cur));
                assert(proper_self(store, cur));
            }
        }
    }
}

/// Searches for the most recent common ancestor of two commits: a
/// breadth-first exploration of both ancestries, closest commits first,
/// that stops at the first address reached a second time. On success
/// the result is an ancestor of one of the two commits; when the search
/// exhausts both ancestries without meeting itself, the two histories
/// are provably disjoint (for two distinct commits). An address without
/// a commit entry anywhere in either ancestry is reported as `NotFound`.
#[verifier::loop_isolation(false)]
#[verifier::rlimit(100)]
pub fn find_most_recent_common_ancestor(
    store: &Store,
    from_address: &String,
    to_address: &String,
) -> (r: Result<String, UprtclError>)
    requires
        store.wf(),
    ensures
        match r {
            Ok(a) => ancestor(*store, from_address@, a@) || ancestor(*store, to_address@, a@),
            Err(UprtclError::NoCommonAncestor) => from_address@ == to_address@ || forall|
                x: Seq<char>,
            |
                !(ancestor(*store, from_address@, x) && ancestor(*store, to_address@, x)),
            Err(UprtclError::NotFound) => exists|x: Seq<char>|
                (ancestor(*store, from_address@, x) || ancestor(*store, to_address@, x))
                    && !is_commit_at(*store, x),
            Err(_) => false,
        },
        (from_address@ != to_address@ && linear_history(*store, from_address@) && linear_history(
            *store,
            to_address@,
        )) ==> match r {
            Ok(a) => ancestor(*store, from_address@, a@) && ancestor(*store, to_address@, a@),
            _ => true,
        },
        (from_address@ != to_address@ && linear_history(*store, from_address@) && linear_history(
            *store,
            to_address@,
        ) && (forall|x: Seq<char>|
            !(ancestor(*store, from_address@, x) && ancestor(*store, to_address@, x))))
            ==> (r matches Err(e2) && e2 is NoCommonAncestor),
{
    let mut visited: Vec<String> = Vec::new();
    let mut queue: Vec<(String, u64)> = Vec::new();
    let ghost mut disc: Map<Seq<char>, Seq<char>> = Map::empty();
    let ghost mut side: Map<Seq<char>, bool> = Map::empty();
    let ghost mut done: Seq<Seq<char>> = Seq::empty();
    let ghost mut proc_idx: Set<int> = Set::empty();
    visited.push(from_address.clone());
    queue.push((from_address.clone(), 0));
    proof {
        side = side.insert(from_address@, true);
        assert(reaches(*store, from_address@, from_address@, 0));
    }
    if !(*to_address == *from_address) {
        visited.push(to_address.clone());
        queue.push((to_address.clone(), 0));
        proof {
            side = side.insert(to_address@, false);
            assert(reaches(*store, to_address@, to_address@, 0));
        }
    }
    proof {
        assert(visited@[0]@ == from_address@);
        assert(queue@[0].0@ == from_address@);
        if from_address@ != to_address@ {
            assert(visited@[1]@ == to_address@);
            assert(queue@[1].0@ == to_address@);
        }
        assert forall|y: Seq<char>| #[trigger] side.contains_key(y) implies (exists|k: int|
            0 <= k < visited@.len() && (#[trigger] visited@[k])@ == y) && (exists|j: int|
            0 <= j < queue@.len() && (#[trigger] queue@[j].0)@ == y) by {
            if y == from_address@ {
                assert(visited@[0]@ == y);
                assert(queue@[0].0@ == y);
            } else {
                assert(visited@[1]@ == y);
                assert(queue@[1].0@ == y);
            }
        }
    }
    proof {
        assert(discovery_closed(*store, from_address@, to_address@, side, disc, done)) by {
            reveal(discovery_closed);
        }
    }
    while queue.len() > 0
        invariant
            visited@.len() >= 1,
            visited@[0]@ == from_address@,
            side.contains_key(from_address@) && side[from_address@] == true,
            from_address@ != to_address@ ==> side.contains_key(to_address@) && side[to_address@]
                == false,
            forall|k: int, l: int| 0 <= k < l < visited@.len() ==> (#[trigger] visited@[k])@ != (
                #[trigger] visited@[l])@,
            forall|y: Seq<char>| #[trigger] side.contains_key(y) ==> exists|k: int|
                0 <= k < visited@.len() && (#[trigger] visited@[k])@ == y,
            forall|k: int| 0 <= k < visited@.len() ==> side.contains_key((#[trigger] visited@[k])@),
            forall|k: int|
                0 <= k < visited@.len() ==> (if side[(#[trigger] visited@[k])@] {
                    ancestor(*store, from_address@, visited@[k]@)
                } else {
                    ancestor(*store, to_address@, visited@[k]@)
                }),
            forall|j: int| 0 <= j < queue@.len() ==> side.contains_key((#[trigger] queue@[j].0)@),
            forall|j: int, l: int|
                0 <= j < l < queue@.len() ==> (#[trigger] queue@[j].0)@ != (
                #[trigger] queue@[l].0)@,
            forall|y: Seq<char>|
                #[trigger] side.contains_key(y) ==> (exists|j: int|
                    0 <= j < queue@.len() && (#[trigger] queue@[j].0)@ == y) || node_closed(
                    *store,
                    side,
                    y,
                ),
            forall|k: int, l: int| 0 <= k < l < done.len() ==> done[k] != done[l],
            forall|k: int| 0 <= k < done.len() ==> side.contains_key(#[trigger] done[k]),
            forall|k: int| 0 <= k < done.len() ==> is_commit_at(*store, #[trigger] done[k]),
            forall|j: int, k: int|
                0 <= j < queue@.len() && 0 <= k < done.len() ==> (#[trigger] queue@[j].0)@ != (
                #[trigger] done[k]),
            discovery_closed(*store, from_address@, to_address@, side, disc, done),
            proc_idx.finite(),
            proc_idx.len() == done.len(),
            forall|j: int| proc_idx.contains(j) ==> 0 <= j < store.entries@.len(),
            forall|j: int|
                #[trigger] proc_idx.contains(j) ==> exists|k: int|
                    0 <= k < done.len() && store.entries@[j].address@ == done[k],
        decreases store.entries@.len() - done.len(), queue@.len(),
    {
        // pick the entry closest to its query root; the first of equal
        // distances wins, so the choice is deterministic
        let mut best: usize = 0;
        let mut j: usize = 1;
        while j < queue.len()
            invariant
                0 <= best < queue@.len(),
                1 <= j <= queue@.len(),
            decreases queue@.len() - j,
        {
            if queue[j].1 < queue[best].1 {
                best = j;
            }
            j = j + 1;
        }
        let ghost qpre = queue@;
        let item = queue.remove(best);
        let cur = item.0;
        let dist = item.1;
        proof {
            assert(qpre[best as int].0 == cur);
            assert forall|jj: int| 0 <= jj < queue@.len() implies side.contains_key(
                (#[trigger] queue@[jj].0)@,
            ) && (forall|k: int|
                0 <= k < done.len() ==> (#[trigger] queue@[jj].0)@ != (#[trigger] done[k])) by {
                if jj < best {
                    assert(queue@[jj] == qpre[jj]);
                } else {
                    assert(queue@[jj] == qpre[jj + 1]);
                }
            }
            assert forall|y: Seq<char>| #[trigger] side.contains_key(y) implies (exists|jj: int|
                0 <= jj < queue@.len() && (#[trigger] queue@[jj].0)@ == y) || node_closed(
                *store,
                side,
                y,
            ) || y == cur@ by {
                if !node_closed(*store, side, y) && y != cur@ {
                    let jj = choose|jj: int|
                        0 <= jj < qpre.len() && (#[trigger] qpre[jj].0)@ == y;
                    if jj < best {
                        assert(queue@[jj].0@ == y);
                    } else {
                        assert(queue@[jj - 1].0@ == y);
                    }
                }
            }
            assert forall|jj: int, ll: int| 0 <= jj < ll < queue@.len() implies (
            #[trigger] queue@[jj].0)@ != (#[trigger] queue@[ll].0)@ by {
                let j2 = if jj < best { jj } else { jj + 1 };
                let l2 = if ll < best { ll } else { ll + 1 };
                assert(queue@[jj] == qpre[j2]);
                assert(queue@[ll] == qpre[l2]);
            }
            assert forall|jj: int| 0 <= jj < queue@.len() implies (#[trigger] queue@[jj].0)@
                != cur@ by {
                let j2 = if jj < best { jj } else { jj + 1 };
                assert(queue@[jj] == qpre[j2]);
            }
            assert(exists|k: int| 0 <= k < visited@.len() && (#[trigger] visited@[k])@ == cur@);
        }
        let found = store.get(&cur);
        match found {
            Some(EntryValue::Commit(c)) => {
                let ghost side_cur = side[cur@];
                proof {
                    assert(discovery_open(
                        *store,
                        from_address@,
                        to_address@,
                        side,
                        disc,
                        done,
                        cur@,
                        0,
                    )) by {
                        reveal(discovery_closed);
                        reveal(discovery_open);
                    }
                }
                let mut pj: usize = 0;
                while pj < c.parents_ids.len()
                    invariant
                        0 <= pj <= c.parents_ids@.len(),
                        parents_at(*store, cur@) == c.parents_ids.deep_view(),
                        is_commit_at(*store, cur@),
                        side.contains_key(cur@),
                        side[cur@] == side_cur,
                        visited@.len() >= 1,
                        visited@[0]@ == from_address@,
                        side.contains_key(from_address@) && side[from_address@] == true,
                        from_address@ != to_address@ ==> side.contains_key(to_address@)
                            && side[to_address@] == false,
                        forall|k: int, l: int|
                            0 <= k < l < visited@.len() ==> (#[trigger] visited@[k])@ != (
                            #[trigger] visited@[l])@,
                        forall|y: Seq<char>| #[trigger] side.contains_key(y) ==> exists|k: int|
                            0 <= k < visited@.len() && (#[trigger] visited@[k])@ == y,
                        forall|k: int|
                            0 <= k < visited@.len() ==> side.contains_key(
                                (#[trigger] visited@[k])@,
                            ),
                        forall|k: int|
                            0 <= k < visited@.len() ==> (if side[(#[trigger] visited@[k])@] {
                                ancestor(*store, from_address@, visited@[k]@)
                            } else {
                                ancestor(*store, to_address@, visited@[k]@)
                            }),
                        forall|jj: int|
                            0 <= jj < queue@.len() ==> side.contains_key(
                                (#[trigger] queue@[jj].0)@,
                            ),
                        forall|jj: int, ll: int|
                            0 <= jj < ll < queue@.len() ==> (#[trigger] queue@[jj].0)@ != (
                            #[trigger] queue@[ll].0)@,
                        forall|jj: int| 0 <= jj < queue@.len() ==> (#[trigger] queue@[jj].0)@
                            != cur@,
                        forall|y: Seq<char>|
                            #[trigger] side.contains_key(y) ==> (exists|jj: int|
                                0 <= jj < queue@.len() && (#[trigger] queue@[jj].0)@ == y)
                                || node_closed(*store, side, y) || y == cur@,
                        forall|k: int|
                            0 <= k < pj ==> side.contains_key(
                                #[trigger] parents_at(*store, cur@)[k],
                            ) && side[parents_at(*store, cur@)[k]] == side_cur,
                        forall|k: int, l: int| 0 <= k < l < done.len() ==> done[k] != done[l],
                        forall|k: int| 0 <= k < done.len() ==> side.contains_key(#[trigger] done[k]),
                        forall|k: int|
                            0 <= k < done.len() ==> is_commit_at(*store, #[trigger] done[k]),
                        forall|jj: int, k: int|
                            0 <= jj < queue@.len() && 0 <= k < done.len() ==> (
                            #[trigger] queue@[jj].0)@ != (#[trigger] done[k]),
                        forall|k: int| 0 <= k < done.len() ==> cur@ != #[trigger] done[k],
                        discovery_open(
                            *store,
                            from_address@,
                            to_address@,
                            side,
                            disc,
                            done,
                            cur@,
                            pj as int,
                        ),
                        proc_idx.finite(),
                        proc_idx.len() == done.len(),
                        forall|jj: int| proc_idx.contains(jj) ==> 0 <= jj < store.entries@.len(),
                        forall|jj: int|
                            #[trigger] proc_idx.contains(jj) ==> exists|k: int|
                                0 <= k < done.len() && store.entries@[jj].address@ == done[k],
                    decreases c.parents_ids@.len() - pj,
                {
                    let parent = c.parents_ids[pj].clone();
                    proof {
                        assert(parents_at(*store, cur@)[pj as int] == parent@);
                    }
                    if contains_address(&visited, &parent) {
                        proof {
                            let k = choose|k: int|
                                0 <= k < visited@.len() && (#[trigger] visited@[k])@ == parent@;
                            // on a linear, acyclic pair of histories, the
                            // meeting point is an ancestor of both commits
                            if from_address@ != to_address@ && linear_history(
                                *store,
                                from_address@,
                            ) && linear_history(*store, to_address@) {
                                assert forall|y: Seq<char>| #[trigger] side.contains_key(y)
                                    implies (if side[y] {
                                    ancestor(*store, from_address@, y)
                                } else {
                                    ancestor(*store, to_address@, y)
                                }) by {
                                    let k2 = choose|k2: int|
                                        0 <= k2 < visited@.len() && (#[trigger] visited@[k2])@
                                            == y;
                                }
                                lemma_meet_joins_histories(
                                    *store,
                                    from_address@,
                                    to_address@,
                                    side,
                                    disc,
                                    done,
                                    cur@,
                                    parent@,
                                    side_cur,
                                    pj as int,
                                );
                                assert(ancestor(*store, from_address@, parent@) && ancestor(
                                    *store,
                                    to_address@,
                                    parent@,
                                ));
                            }
                        }
                        return Ok(parent);
                    }
                    let ghost vpre = visited@;
                    let ghost qpre2 = queue@;
                    visited.push(parent.clone());
                    queue.push((parent, if dist < u64::MAX {
                        dist + 1
                    } else {
                        dist
                    }));
                    proof {
                        let p = c.parents_ids@[pj as int]@;
                        let root = if side_cur {
                            from_address@
                        } else {
                            to_address@
                        };
                        let ghost side_pre = side;
                        assert(exists|k: int|
                            0 <= k < vpre.len() && (#[trigger] vpre[k])@ == cur@);
                        assert(ancestor(*store, root, cur@));
                        let n = choose|n: nat| reaches(*store, root, cur@, n);
                        lemma_reaches_step(*store, root, cur@, pj as int, n);
                        assert(reaches(*store, root, p, (n + 1) as nat));
                        side = side.insert(p, side_cur);
                        assert(!side_pre.contains_key(p));
                        let ghost disc_pre = disc;
                        disc = disc.insert(p, cur@);
                        assert(discovery_open(
                            *store,
                            from_address@,
                            to_address@,
                            side,
                            disc,
                            done,
                            cur@,
                            pj + 1,
                        )) by {
                            reveal(discovery_open);
                            assert forall|y: Seq<char>| #[trigger] side.contains_key(y) implies y
                                == from_address@ || y == to_address@ || (disc_node_ok(
                                *store,
                                side,
                                disc,
                                y,
                            ) && ((exists|k: int|
                                0 <= k < done.len() && #[trigger] done[k] == disc[y]) || (disc[y]
                                == cur@ && exists|k: int|
                                0 <= k < pj + 1 && parents_at(*store, cur@)[k] == y))) by {
                                if y == p {
                                    assert(disc[y] == cur@);
                                    assert(parents_at(*store, cur@)[pj as int] == y);
                                } else if y != from_address@ && y != to_address@ {
                                    assert(side_pre.contains_key(y));
                                    assert(disc_pre[y] == disc[y]);
                                    assert(side_pre.contains_key(disc_pre[y]));
                                    assert(disc[y] != p);
                                    assert(side[disc[y]] == side_pre[disc_pre[y]]);
                                }
                            }
                        }
                        assert forall|y: Seq<char>| #[trigger] side.contains_key(y) implies exists|
                            k: int,
                        |
                            0 <= k < visited@.len() && (#[trigger] visited@[k])@ == y by {
                            if y == p {
                                assert(visited@.last()@ == y);
                            } else {
                                let k = choose|k: int|
                                    0 <= k < vpre.len() && (#[trigger] vpre[k])@ == y;
                                assert(visited@[k]@ == y);
                            }
                        }
                        assert forall|k: int| 0 <= k < visited@.len() implies (if side[(
                        #[trigger] visited@[k])@] {
                            ancestor(*store, from_address@, visited@[k]@)
                        } else {
                            ancestor(*store, to_address@, visited@[k]@)
                        }) by {
                            if k < vpre.len() {
                                assert(visited@[k] == vpre[k]);
                                assert(visited@[k]@ != p);
                                assert(side[visited@[k]@] == side_pre[visited@[k]@]);
                            } else {
                                assert(visited@[k]@ == p);
                            }
                        }
                        assert(queue@.last().0@ == p);
                        assert forall|jj: int, ll: int| 0 <= jj < ll < queue@.len() implies (
                        #[trigger] queue@[jj].0)@ != (#[trigger] queue@[ll].0)@ by {
                            if ll < queue@.len() - 1 {
                                assert(queue@[jj] == qpre2[jj]);
                                assert(queue@[ll] == qpre2[ll]);
                            } else {
                                assert(queue@[ll].0@ == p);
                                assert(queue@[jj] == qpre2[jj]);
                                assert(side_pre.contains_key(qpre2[jj].0@));
                            }
                        }
                        assert forall|y: Seq<char>| #[trigger] side.contains_key(y) implies (exists|
                            jj: int,
                        |
                            0 <= jj < queue@.len() && (#[trigger] queue@[jj].0)@ == y)
                            || node_closed(*store, side, y) || y == cur@ by {
                            if y == p {
                                assert(queue@.last().0@ == y);
                            } else if y != cur@ {
                                if node_closed(*store, side_pre, y) {
                                    assert(node_closed(*store, side, y));
                                } else {
                                    let jj = choose|jj: int|
                                        0 <= jj < qpre2.len() && (#[trigger] qpre2[jj].0)@ == y;
                                    assert(queue@[jj].0@ == y);
                                }
                            }
                        }
                    }
                    pj = pj + 1;
                }
                proof {
                    // `cur` is now fully explored: move it to the closed set
                    crate::store::lemma_lookup_some_addr_in(store.entries@, cur@);
                    let jj = choose|jj: int|
                        0 <= jj < store.entries@.len() && (#[trigger] store.entries@[jj]).address@
                            == cur@;
                    assert(!proc_idx.contains(jj)) by {
                        if proc_idx.contains(jj) {
                            let k = choose|k: int|
                                0 <= k < done.len() && store.entries@[jj].address@ == (
                                #[trigger] done[k]);
                        }
                    }
                    let ghost done_pre = done;
                    let ghost proc_pre = proc_idx;
                    proc_idx = proc_idx.insert(jj);
                    done = done.push(cur@);
                    assert forall|j2: int| #[trigger] proc_idx.contains(j2) implies exists|k: int|
                        0 <= k < done.len() && store.entries@[j2].address@ == done[k] by {
                        if j2 == jj {
                            assert(done.last() == cur@);
                            assert(done[done.len() - 1] == cur@);
                        } else {
                            assert(proc_pre.contains(j2));
                            let k = choose|k: int|
                                0 <= k < done_pre.len() && store.entries@[j2].address@
                                    == done_pre[k];
                            assert(done[k] == done_pre[k]);
                        }
                    }
                    assert(discovery_closed(*store, from_address@, to_address@, side, disc, done))
                        by {
                        reveal(discovery_closed);
                        reveal(discovery_open);
                        assert forall|y: Seq<char>| #[trigger] side.contains_key(y) implies y
                            == from_address@ || y == to_address@ || (disc_node_ok(
                            *store,
                            side,
                            disc,
                            y,
                        ) && (exists|k: int|
                            0 <= k < done.len() && #[trigger] done[k] == disc[y])) by {
                            if y != from_address@ && y != to_address@ {
                                if disc[y] == cur@ {
                                    assert(done.last() == cur@);
                                    assert(done[done.len() - 1] == disc[y]);
                                } else {
                                    let k = choose|k: int|
                                        0 <= k < done_pre.len() && #[trigger] done_pre[k]
                                            == disc[y];
                                    assert(done[k] == disc[y]);
                                }
                            }
                        }
                    }
                    vstd::set_lib::lemma_int_range(0, store.entries@.len() as int);
                    vstd::set_lib::lemma_len_subset(
                        proc_idx,
                        vstd::set_lib::set_int_range(0, store.entries@.len() as int),
                    );
                    assert(node_closed(*store, side, cur@));
                }
            },
            _ => {
                proof {
                    let k = choose|k: int|
                        0 <= k < visited@.len() && (#[trigger] visited@[k])@ == cur@;
                    assert(!is_commit_at(*store, cur@));
                    assert(ancestor(*store, from_address@, cur@) || ancestor(
                        *store,
                        to_address@,
                        cur@,
                    ));
                    // a linear history resolves every reachable address
                    if linear_history(*store, from_address@) && linear_history(
                        *store,
                        to_address@,
                    ) {
                        assert(false);
                    }
                }
                return Err(UprtclError::NotFound);
            },
        }
    }
    proof {
        if from_address@ != to_address@ {
            assert forall|x: Seq<char>|
                !(ancestor(*store, from_address@, x) && ancestor(
                    *store,
                    to_address@,
                    x,
                )) by {
                if ancestor(*store, from_address@, x) && ancestor(*store, to_address@, x) {
                    let n1 = choose|n: nat| reaches(*store, from_address@, x, n);
                    let n2 = choose|n: nat| reaches(*store, to_address@, x, n);
                    assert forall|y: Seq<char>| #[trigger] side.contains_key(y) implies node_closed(
                        *store,
                        side,
                        y,
                    ) by {}
                    lemma_side_walk(*store, side, from_address@, x, n1);
                    lemma_side_walk(*store, side, to_address@, x, n2);
                }
            }
        }
    }
    Err(UprtclError::NoCommonAncestor)
}

/// The merge rule for one slot, given the value on the `from` side, on
/// the `to` side, and on the common ancestor: `None` is a conflict.
pub open spec fn merge_slot(
    f: Option<Seq<char>>,
    t: Option<Seq<char>>,
    anc: Option<Seq<char>>,
) -> Option<Option<Seq<char>>> {
    if anc == f && anc == t {
        Some(anc)
    } else if anc == f && anc != t {
        Some(t)
    } else if anc != f && anc == t {
        Some(f)
    } else {
        None
    }
}

/// The value a merged object carries under key `k`, when no slot is in
/// conflict: what the merge rule yields for the three versions' values.
pub open spec fn merged_link(from: Object, to: Object, anc: Object, k: Seq<char>) -> Option<
    Seq<char>,
> {
    match merge_slot(from.link_at(k), to.link_at(k), anc.link_at(k)) {
        Some(v) => v,
        None => None,
    }
}

/// No slot of the three versions is in conflict.
pub open spec fn merge_clean(from: Object, to: Object, anc: Object) -> bool {
    &&& merge_slot(from.data.deep_view(), to.data.deep_view(), anc.data.deep_view()) is Some
    &&& forall|k: Seq<char>| merge_slot(from.link_at(k), to.link_at(k), #[trigger] anc.link_at(k))
        is Some
}

/// What a successful merge returns: the merged data slot, and for every
/// key exactly the merged value.
pub open spec fn merged_ok(from: Object, to: Object, anc: Object, m: Object) -> bool {
    &&& m.wf()
    &&& Some(m.data.deep_view()) == merge_slot(
        from.data.deep_view(),
        to.data.deep_view(),
        anc.data.deep_view(),
    )
    &&& forall|k: Seq<char>| #[trigger] m.link_at(k) == merged_link(from, to, anc, k)
}

/// Equality of two optional strings, by text.
fn opt_eq(a: &Option<String>, b: &Option<String>) -> (r: bool)
    ensures
        r == (a.deep_view() == b.deep_view()),
{
    match (a, b) {
        (Option::None, Option::None) => true,
        (Option::Some(x), Option::Some(y)) => {
            let e = *x == *y;
            proof {
                if x@ == y@ {
                    assert(a.deep_view() =~= b.deep_view());
                }
            }
            e
        },
        _ => false,
    }
}

/// A copy of an optional string.
fn opt_clone(a: &Option<String>) -> (r: Option<String>)
    ensures
        r == *a,
{
    match a {
        Option::None => Option::None,
        Option::Some(x) => Option::Some(x.clone()),
    }
}

/// Decides one slot of the merge: keeps the unchanged or singly-changed
/// value, reports any other case as a conflict. The caller attributes
/// the conflict to its key.
pub fn get_merge_result(
    maybe_from: &Option<String>,
    maybe_to: &Option<String>,
    maybe_ancestor: &Option<String>,
) -> (r: Result<Option<String>, UprtclError>)
    ensures
        match r {
            Ok(v) => merge_slot(
                maybe_from.deep_view(),
                maybe_to.deep_view(),
                maybe_ancestor.deep_view(),
            ) == Some(v.deep_view()),
            Err(UprtclError::Conflict(k)) => k is None && merge_slot(
                maybe_from.deep_view(),
                maybe_to.deep_view(),
                maybe_ancestor.deep_view(),
            ) is None,
            Err(_) => false,
        },
{
    let af = opt_eq(maybe_ancestor, maybe_from);
    let at = opt_eq(maybe_ancestor, maybe_to);
    if af && at {
        Ok(opt_clone(maybe_ancestor))
    } else if af {
        Ok(opt_clone(maybe_to))
    } else if at {
        Ok(opt_clone(maybe_from))
    } else {
        Err(UprtclError::Conflict(Option::None))
    }
}

/// The first link named `k`, as an owned address.
fn get_link(o: &Object, name: &String) -> (r: Option<String>)
    ensures
        r.deep_view() == o.link_at(name@),
    decreases o.links@.len(),
{
    let mut i: usize = 0;
    proof {
        assert(o.links@.skip(0) =~= o.links@);
    }
    while i < o.links.len()
        invariant
            0 <= i <= o.links@.len(),
            link_lookup(o.links@, name@) == link_lookup(o.links@.skip(i as int), name@),
        decreases o.links@.len() - i,
    {
        proof {
            assert(o.links@.skip(i as int)[0] == o.links@[i as int]);
            assert(o.links@.skip(i as int).drop_first() =~= o.links@.skip(i as int + 1));
        }
        if o.links[i].name == *name {
            return Some(o.links[i].address.clone());
        }
        i = i + 1;
    }
    proof {
        assert(o.links@.skip(o.links@.len() as int) =~= Seq::<Link>::empty());
    }
    None
}

/// Appending a link changes lookups only for a name not seen before.
pub proof fn lemma_link_lookup_push(ls: Seq<Link>, l: Link, k: Seq<char>)
    ensures
        link_lookup(ls.push(l), k) == (if link_lookup(ls, k) is Some {
            link_lookup(ls, k)
        } else if l.name@ == k {
            Some(l.address@)
        } else {
            None
        }),
    decreases ls.len(),
{
    if ls.len() == 0 {
        assert(ls.push(l).len() == 1);
        assert(ls.push(l)[0] == l);
        assert(ls.push(l).drop_first() =~= Seq::<Link>::empty());
        if l.name@ == k {
            assert(link_lookup(ls.push(l), k) == Some(l.address@));
        } else {
            assert(link_lookup(ls.push(l), k) == link_lookup(Seq::<Link>::empty(), k));
            assert(link_lookup(ls.push(l), k) is None);
        }
    } else {
        assert(ls.push(l)[0] == ls[0]);
        assert(ls.push(l).drop_first() =~= ls.drop_first().push(l));
        lemma_link_lookup_push(ls.drop_first(), l, k);
        if ls[0].name@ == k {
            assert(link_lookup(ls.push(l), k) == Some(ls[0].address@));
            assert(link_lookup(ls, k) == Some(ls[0].address@));
        } else {
            assert(link_lookup(ls.push(l), k) == link_lookup(ls.drop_first().push(l), k));
            assert(link_lookup(ls, k) == link_lookup(ls.drop_first(), k));
        }
    }
}

/// A present name is a listed name, and the other way round.
pub proof fn lemma_link_lookup_listed(ls: Seq<Link>, k: Seq<char>)
    ensures
        (link_lookup(ls, k) is Some) == exists|i: int|
            0 <= i < ls.len() && (#[trigger] ls[i]).name@ == k,
    decreases ls.len(),
{
    if ls.len() > 0 {
        lemma_link_lookup_listed(ls.drop_first(), k);
        if ls[0].name@ == k {
        } else {
            if link_lookup(ls, k) is Some {
                let i = choose|i: int|
                    0 <= i < ls.drop_first().len() && (#[trigger] ls.drop_first()[i]).name@ == k;
                assert(ls[i + 1].name@ == k);
            }
            if exists|i: int| 0 <= i < ls.len() && (#[trigger] ls[i]).name@ == k {
                let i = choose|i: int| 0 <= i < ls.len() && (#[trigger] ls[i]).name@ == k;
                assert(ls.drop_first()[i - 1].name@ == k);
            }
        }
    }
}

/// Whether a list of names holds `x`.
pub open spec fn name_listed(v: Seq<String>, x: Seq<char>) -> bool {
    exists|k: int| 0 <= k < v.len() && (#[trigger] v[k])@ == x
}

/// Gathers the names this object links, into `keys`, without
/// duplicates.
#[verifier::loop_isolation(false)]
fn collect_object_keys(o: &Object, keys: &mut Vec<String>)
    requires
        forall|k: int, l: int|
            0 <= k < l < old(keys)@.len() ==> (#[trigger] old(keys)@[k])@ != (
            #[trigger] old(keys)@[l])@,
    ensures
        forall|k: int, l: int|
            0 <= k < l < final(keys)@.len() ==> (#[trigger] final(keys)@[k])@ != (
            #[trigger] final(keys)@[l])@,
        forall|x: Seq<char>| name_listed(old(keys)@, x) ==> name_listed(final(keys)@, x),
        forall|i: int|
            0 <= i < o.links@.len() ==> name_listed(final(keys)@, (#[trigger] o.links@[i]).name@),
        forall|x: Seq<char>|
            name_listed(final(keys)@, x) ==> name_listed(old(keys)@, x) || exists|i: int|
                0 <= i < o.links@.len() && (#[trigger] o.links@[i]).name@ == x,
{
    let mut i: usize = 0;
    while i < o.links.len()
        invariant
            0 <= i <= o.links@.len(),
            forall|k: int, l: int| 0 <= k < l < keys@.len() ==> (#[trigger] keys@[k])@ != (
                #[trigger] keys@[l])@,
            forall|x: Seq<char>| name_listed(old(keys)@, x) ==> name_listed(keys@, x),
            forall|ii: int|
                0 <= ii < i ==> name_listed(keys@, (#[trigger] o.links@[ii]).name@),
            forall|x: Seq<char>|
                name_listed(keys@, x) ==> name_listed(old(keys)@, x) || exists|ii: int|
                    0 <= ii < o.links@.len() && (#[trigger] o.links@[ii]).name@ == x,
        decreases o.links@.len() - i,
    {
        let name = o.links[i].name.clone();
        let ghost pre = keys@;
        if !crate::store::contains_address(keys, &name) {
            keys.push(name);
            proof {
                assert forall|x: Seq<char>| name_listed(pre, x) implies name_listed(
                    keys@,
                    x,
                ) by {
                    let w = choose|w: int| 0 <= w < pre.len() && (#[trigger] pre[w])@ == x;
                    assert(keys@[w] == pre[w]);
                }
                assert forall|ii: int| 0 <= ii < i + 1 implies name_listed(
                    keys@,
                    (#[trigger] o.links@[ii]).name@,
                ) by {
                    if ii < i {
                        let w = choose|w: int|
                            0 <= w < pre.len() && (#[trigger] pre[w])@ == o.links@[ii].name@;
                        assert(keys@[w] == pre[w]);
                    } else {
                        assert(keys@.last()@ == o.links@[ii].name@);
                    }
                }
                assert forall|x: Seq<char>| name_listed(keys@, x) implies name_listed(pre, x)
                    || exists|ii: int|
                    0 <= ii < o.links@.len() && (#[trigger] o.links@[ii]).name@ == x by {
                    let w = choose|w: int| 0 <= w < keys@.len() && (#[trigger] keys@[w])@ == x;
                    if w < pre.len() {
                        assert(pre[w]@ == x);
                    } else {
                        assert(o.links@[i as int].name@ == x);
                    }
                }
            }
        }
        i = i + 1;
    }
}

/// Builds the merged object from the three versions, or reports the
/// first conflicting slot: the data slot counts first, then the link
/// keys, in order of first appearance across `from`, `to` and the
/// ancestor.
/// Everything `merge_objects` promises of its outcome `r`.
pub open spec fn merge_objects_post(
    from: Object,
    to: Object,
    anc: Object,
    r: Result<Object, UprtclError>,
) -> bool {
    match r {
        Ok(m) => merge_clean(from, to, anc) && merged_ok(from, to, anc, m),
        Err(UprtclError::Conflict(ko)) => match ko {
            None => merge_slot(
                from.data.deep_view(),
                to.data.deep_view(),
                anc.data.deep_view(),
            ) is None,
            Some(key) => merge_slot(
                from.data.deep_view(),
                to.data.deep_view(),
                anc.data.deep_view(),
            ) is Some && merge_slot(from.link_at(key@), to.link_at(key@), anc.link_at(key@))
                is None,
        },
        Err(_) => false,
    }
}

#[verifier::loop_isolation(false)]
pub fn merge_objects(from: &Object, to: &Object, ancestor: &Object) -> (r: Result<
    Object,
    UprtclError,
>)
    ensures
        merge_objects_post(*from, *to, *ancestor, r),
{
    let merged_data = match get_merge_result(&from.data, &to.data, &ancestor.data) {
        Ok(v) => v,
        Err(e) => {
            return Err(e);
        },
    };
    let mut keys: Vec<String> = Vec::new();
    collect_object_keys(from, &mut keys);
    collect_object_keys(to, &mut keys);
    collect_object_keys(ancestor, &mut keys);
    let mut links: Vec<Link> = Vec::new();
    proof {
        assert forall|x: Seq<char>| name_listed(keys@, x) implies (link_lookup(from.links@, x)
            is Some || link_lookup(to.links@, x) is Some || link_lookup(ancestor.links@, x)
            is Some) by {
            lemma_link_lookup_listed(from.links@, x);
            lemma_link_lookup_listed(to.links@, x);
            lemma_link_lookup_listed(ancestor.links@, x);
        }
    }
    let mut i: usize = 0;
    while i < keys.len()
        invariant
            0 <= i <= keys@.len(),
            forall|k: int, l: int| 0 <= k < l < keys@.len() ==> (#[trigger] keys@[k])@ != (
                #[trigger] keys@[l])@,
            forall|x: Seq<char>|
                name_listed(keys@, x) ==> (link_lookup(from.links@, x) is Some || link_lookup(
                    to.links@,
                    x,
                ) is Some || link_lookup(ancestor.links@, x) is Some),
            forall|ii: int|
                0 <= ii < from.links@.len() ==> name_listed(
                    keys@,
                    (#[trigger] from.links@[ii]).name@,
                ),
            forall|ii: int|
                0 <= ii < to.links@.len() ==> name_listed(keys@, (#[trigger] to.links@[ii]).name@),
            forall|ii: int|
                0 <= ii < ancestor.links@.len() ==> name_listed(
                    keys@,
                    (#[trigger] ancestor.links@[ii]).name@,
                ),
            forall|j: int|
                0 <= j < i ==> merge_slot(
                    from.link_at((#[trigger] keys@[j])@),
                    to.link_at(keys@[j]@),
                    ancestor.link_at(keys@[j]@),
                ) is Some,
            forall|l: int|
                0 <= l < links@.len() ==> exists|j: int|
                    0 <= j < i && (#[trigger] links@[l]).name@ == (#[trigger] keys@[j])@,
            forall|k: int, l: int|
                0 <= k < l < links@.len() ==> (#[trigger] links@[k]).name@ != (
                #[trigger] links@[l]).name@,
            forall|x: Seq<char>|
                #[trigger] link_lookup(links@, x) == (if exists|j: int|
                    0 <= j < i && (#[trigger] keys@[j])@ == x {
                    merged_link(*from, *to, *ancestor, x)
                } else {
                    None
                }),
        decreases keys@.len() - i,
    {
        let key = keys[i].clone();
        let slot_from = get_link(from, &key);
        let slot_to = get_link(to, &key);
        let slot_anc = get_link(ancestor, &key);
        let merged = match get_merge_result(&slot_from, &slot_to, &slot_anc) {
            Ok(v) => v,
            Err(_) => {
                return Err(UprtclError::Conflict(Option::Some(key)));
            },
        };
        let ghost pre_links = links@;
        match merged {
            Option::Some(address) => {
                links.push(Link { name: key, address });
            },
            Option::None => {},
        }
        proof {
            let x0 = keys@[i as int]@;
            if links@.len() > pre_links.len() {
                lemma_link_lookup_push(pre_links, links@.last(), x0);
            }
            assert forall|x: Seq<char>| #[trigger] link_lookup(links@, x) == (if exists|j: int|
                0 <= j < i + 1 && (#[trigger] keys@[j])@ == x {
                merged_link(*from, *to, *ancestor, x)
            } else {
                None
            }) by {
                if links@.len() > pre_links.len() {
                    lemma_link_lookup_push(pre_links, links@.last(), x);
                }
                if x == x0 {
                    if link_lookup(pre_links, x) is Some {
                        lemma_link_lookup_listed(pre_links, x);
                        let l = choose|l: int|
                            0 <= l < pre_links.len() && (#[trigger] pre_links[l]).name@ == x;
                        let j = choose|j: int|
                            0 <= j < i && (#[trigger] pre_links[l]).name@ == (
                            #[trigger] keys@[j])@;
                        assert(keys@[j]@ == keys@[i as int]@);
                        assert(false);
                    }
                } else {
                    if exists|j: int| 0 <= j < i + 1 && (#[trigger] keys@[j])@ == x {
                        let j = choose|j: int| 0 <= j < i + 1 && (#[trigger] keys@[j])@ == x;
                        assert(j < i);
                        assert(exists|j2: int| 0 <= j2 < i && (#[trigger] keys@[j2])@ == x);
                    }
                }
            }
        }
        i = i + 1;
    }
    let result = Object { data: merged_data, links };
    proof {
        assert forall|k: Seq<char>| merge_slot(
            from.link_at(k),
            to.link_at(k),
            #[trigger] ancestor.link_at(k),
        ) is Some by {
            if !name_listed(keys@, k) {
                lemma_link_lookup_listed(from.links@, k);
                lemma_link_lookup_listed(to.links@, k);
                lemma_link_lookup_listed(ancestor.links@, k);
                assert(from.link_at(k) is None);
                assert(to.link_at(k) is None);
                assert(ancestor.link_at(k) is None);
            } else {
                let j = choose|j: int| 0 <= j < keys@.len() && (#[trigger] keys@[j])@ == k;
            }
        }
        assert forall|k: Seq<char>| #[trigger] result.link_at(k) == merged_link(
            *from,
            *to,
            *ancestor,
            k,
        ) by {
            if !name_listed(keys@, k) {
                lemma_link_lookup_listed(from.links@, k);
                lemma_link_lookup_listed(to.links@, k);
                lemma_link_lookup_listed(ancestor.links@, k);
            } else {
                let j = choose|j: int| 0 <= j < keys@.len() && (#[trigger] keys@[j])@ == k;
            }
        }
    }
    Ok(result)
}

/// The tree object stored under `a`, if any.
pub open spec fn object_at(store: Store, a: Seq<char>) -> Option<Object> {
    match crate::store::lookup(store.entries@, a) {
        Some(EntryValue::Object(o)) => Some(o),
        _ => None,
    }
}

/// The tree object that the commit stored under `ca` snapshots, if both
/// the commit and its payload are stored.
pub open spec fn commit_object(store: Store, ca: Seq<char>) -> Option<Object> {
    match commit_at(store, ca) {
        Some(c) => object_at(store, c.data_id@),
        None => None,
    }
}

/// Fetches the tree object stored under `a`, or reports that none is
/// there.
pub fn get_object(store: &Store, a: &String) -> (r: Result<Object, UprtclError>)
    ensures
        match r {
            Ok(o) => object_at(*store, a@) matches Some(so) && object_like(o, so),
            Err(UprtclError::NotFound) => object_at(*store, a@) is None,
            Err(_) => false,
        },
{
    match store.get(a) {
        Some(EntryValue::Object(o)) => Ok(o.duplicate()),
        _ => Err(UprtclError::NotFound),
    }
}

/// Stores a tree object under its content address, unless it is
/// already there, and returns the address.
pub fn store_object(store: &mut Store, object: Object) -> (a: String)
    requires
        old(store).wf(),
    ensures
        final(store).wf(),
        final(store).links == old(store).links,
        a@ == entry_addr(EntryValue::Object(object)),
        addr_in(final(store).entries@, a@),
        forall|x: Seq<char>|
            #[trigger] addr_in(final(store).entries@, x) == (addr_in(old(store).entries@, x) || x
                == a@),
        addr_in(old(store).entries@, a@) ==> final(store).entries@ == old(store).entries@,
        crate::store::lookup(final(store).entries@, a@) matches Some(v) && crate::entries::entry_like(
            v,
            EntryValue::Object(object),
        ),
{
    let ghost pre = store.entries@;
    let a = store.put(EntryValue::Object(object));
    proof {
        if !addr_in(pre, a@) {
            crate::store::lemma_addr_in_push(pre, final(store).entries@.last());
        }
    }
    a
}

/// Like objects merge alike: the merge rule only reads the data slots
/// and the link mappings, which field-for-field agreement preserves.
pub proof fn lemma_object_like_merge(f1: Object, f2: Object, t1: Object, t2: Object, a1: Object, a2: Object)
    requires
        object_like(f1, f2),
        object_like(t1, t2),
        object_like(a1, a2),
    ensures
        merge_clean(f1, t1, a1) == merge_clean(f2, t2, a2),
        forall|k: Seq<char>| #[trigger] merged_link(f1, t1, a1, k) == merged_link(f2, t2, a2, k),
        forall|m: Object| #[trigger] merged_ok(f1, t1, a1, m) == merged_ok(f2, t2, a2, m),
{
    assert(f1.data.deep_view() == f2.data.deep_view());
    assert(t1.data.deep_view() == t2.data.deep_view());
    assert(a1.data.deep_view() == a2.data.deep_view());
    assert forall|k: Seq<char>| #[trigger] merged_link(f1, t1, a1, k) == merged_link(f2, t2, a2, k) by {
        assert(f1.link_at(k) == f2.link_at(k));
        assert(t1.link_at(k) == t2.link_at(k));
        assert(a1.link_at(k) == a2.link_at(k));
    }
    assert forall|m: Object| #[trigger] merged_ok(f1, t1, a1, m) == merged_ok(f2, t2, a2, m) by {
        if merged_ok(f1, t1, a1, m) {
            assert forall|k: Seq<char>| #[trigger] m.link_at(k) == merged_link(f2, t2, a2, k) by {
                assert(m.link_at(k) == merged_link(f1, t1, a1, k));
            }
        }
        if merged_ok(f2, t2, a2, m) {
            assert forall|k: Seq<char>| #[trigger] m.link_at(k) == merged_link(f1, t1, a1, k) by {
                assert(m.link_at(k) == merged_link(f2, t2, a2, k));
            }
        }
    }
    if merge_clean(f1, t1, a1) {
        assert forall|k: Seq<char>| merge_slot(f2.link_at(k), t2.link_at(k), #[trigger] a2.link_at(k)) is Some by {
            assert(merge_slot(f1.link_at(k), t1.link_at(k), a1.link_at(k)) is Some);
        }
    }
    if merge_clean(f2, t2, a2) {
        assert forall|k: Seq<char>| merge_slot(f1.link_at(k), t1.link_at(k), #[trigger] a1.link_at(k)) is Some by {
            assert(merge_slot(f2.link_at(k), t2.link_at(k), a2.link_at(k)) is Some);
        }
    }
}

/// What a successful content merge yields for address `d`: either both
/// commits already share their payload, which is returned unchanged, or
/// `d` addresses the three-way merge of the two payloads over a common
/// ancestor's payload.
pub open spec fn merged_content_outcome(store: Store, from: Seq<char>, to: Seq<char>, d: Seq<char>) -> bool {
    ||| ({
        &&& commit_at(store, from) is Some
        &&& commit_at(store, to) is Some
        &&& commit_at(store, from).unwrap().data_id@ == commit_at(store, to).unwrap().data_id@
        &&& d == commit_at(store, to).unwrap().data_id@
    })
    ||| (exists|anc: Seq<char>, m: Object|
        {
            &&& ancestor(store, from, anc) || ancestor(store, to, anc)
            &&& (from != to && linear_history(store, from) && linear_history(store, to)) ==> (
            ancestor(store, from, anc) && ancestor(store, to, anc))
            &&& commit_object(store, from) is Some
            &&& commit_object(store, to) is Some
            &&& #[trigger] commit_object(store, anc) is Some
            &&& merge_clean(
                commit_object(store, from).unwrap(),
                commit_object(store, to).unwrap(),
                commit_object(store, anc).unwrap(),
            )
            &&& #[trigger] merged_ok(
                commit_object(store, from).unwrap(),
                commit_object(store, to).unwrap(),
                commit_object(store, anc).unwrap(),
                m,
            )
            &&& d == entry_addr(EntryValue::Object(m))
        })
}

/// The inputs on which a merge reports `NotFound`: a missing commit, a
/// missing link in an ancestry, or a missing payload object. For two
/// distinct commits over linear, acyclic histories, the witnesses are
/// common ancestors of both.
pub open spec fn merge_missing(store: Store, from: Seq<char>, to: Seq<char>) -> bool {
    ||| commit_at(store, from) is None
    ||| commit_at(store, to) is None
    ||| (exists|x: Seq<char>|
        (ancestor(store, from, x) || ancestor(store, to, x)) && !is_commit_at(store, x) && ((from
            != to && linear_history(store, from) && linear_history(store, to)) ==> (ancestor(
            store,
            from,
            x,
        ) && ancestor(store, to, x))))
    ||| commit_object(store, from) is None
    ||| commit_object(store, to) is None
    ||| (exists|anc: Seq<char>|
        (ancestor(store, from, anc) || ancestor(store, to, anc)) && #[trigger] commit_at(
            store,
            anc,
        ) is Some && commit_object(store, anc) is None && ((from != to && linear_history(
            store,
            from,
        ) && linear_history(store, to)) ==> (ancestor(store, from, anc) && ancestor(
            store,
            to,
            anc,
        ))))
}

/// The inputs on which a merge reports a conflict at `ko` (`None` names
/// the data slot): the three payloads exist over some common-ancestor
/// candidate, and the rule rejects that slot.
pub open spec fn merge_conflict_outcome(store: Store, from: Seq<char>, to: Seq<char>, ko: Option<String>) -> bool {
    exists|anc: Seq<char>|
        {
            &&& ancestor(store, from, anc) || ancestor(store, to, anc)
            &&& (from != to && linear_history(store, from) && linear_history(store, to)) ==> (
            ancestor(store, from, anc) && ancestor(store, to, anc))
            &&& commit_object(store, from) is Some
            &&& commit_object(store, to) is Some
            &&& #[trigger] commit_object(store, anc) is Some
            &&& match ko {
                None => merge_slot(
                    commit_object(store, from).unwrap().data.deep_view(),
                    commit_object(store, to).unwrap().data.deep_view(),
                    commit_object(store, anc).unwrap().data.deep_view(),
                ) is None,
                Some(key) => merge_slot(
                    commit_object(store, from).unwrap().data.deep_view(),
                    commit_object(store, to).unwrap().data.deep_view(),
                    commit_object(store, anc).unwrap().data.deep_view(),
                ) is Some && merge_slot(
                    commit_object(store, from).unwrap().link_at(key@),
                    commit_object(store, to).unwrap().link_at(key@),
                    commit_object(store, anc).unwrap().link_at(key@),
                ) is None,
            }
        }
}

/// Merges the payloads of the two given commits: returns the shared
/// payload address when both point at the same content, and otherwise
/// stores the three-way merge over their most recent common ancestor
/// and returns its address. Ancestor-search failures and conflicts are
/// reported as typed errors, never resolved silently.
pub fn merge_commits_contents(
    store: &mut Store,
    from_commit_address: &String,
    to_commit_address: &String,
) -> (r: Result<String, UprtclError>)
    requires
        old(store).wf(),
    ensures
        final(store).wf(),
        final(store).links == old(store).links,
        r is Err ==> final(store).entries@ == old(store).entries@,
        ({
            let fc = commit_at(*old(store), from_commit_address@);
            let tc = commit_at(*old(store), to_commit_address@);
            (fc is Some && tc is Some && fc.unwrap().data_id@ == tc.unwrap().data_id@)
                ==> (r matches Ok(a2) && a2@ == tc.unwrap().data_id@ && final(store).entries@
                == old(store).entries@)
        }),
        match r {
            Ok(a) => ({
                &&& merged_content_outcome(*old(store), from_commit_address@, to_commit_address@, a@)
                &&& forall|x: Seq<char>|
                    addr_in(old(store).entries@, x) ==> addr_in(final(store).entries@, x)
                &&& forall|x: Seq<char>|
                    #[trigger] addr_in(final(store).entries@, x) ==> addr_in(
                        old(store).entries@,
                        x,
                    ) || x == a@
            }),
            Err(UprtclError::NotFound) => merge_missing(
                *old(store),
                from_commit_address@,
                to_commit_address@,
            ),
            Err(UprtclError::NoCommonAncestor) => ({
                &&& commit_at(*old(store), from_commit_address@) is Some
                &&& commit_at(*old(store), to_commit_address@) is Some
                &&& from_commit_address@ == to_commit_address@ || (forall|x: Seq<char>|
                    !(ancestor(*old(store), from_commit_address@, x) && ancestor(
                        *old(store),
                        to_commit_address@,
                        x,
                    )))
            }),
            Err(UprtclError::Conflict(ko)) => merge_conflict_outcome(
                *old(store),
                from_commit_address@,
                to_commit_address@,
                ko,
            ),
            Err(_) => false,
        },
{
    let from_commit = match get_commit(store, from_commit_address) {
        Ok(c) => c,
        Err(e) => {
            return Err(UprtclError::NotFound);
        },
    };
    let to_commit = match get_commit(store, to_commit_address) {
        Ok(c) => c,
        Err(e) => {
            return Err(UprtclError::NotFound);
        },
    };
    if from_commit.data_id == to_commit.data_id {
        return Ok(to_commit.data_id);
    }
    let ancestor_address = match find_most_recent_common_ancestor(
        store,
        from_commit_address,
        to_commit_address,
    ) {
        Ok(a) => a,
        Err(e) => {
            return Err(e);
        },
    };
    let ancestor_commit = match get_commit(store, &ancestor_address) {
        Ok(c) => c,
        Err(e) => {
            proof {
                assert(!is_commit_at(*store, ancestor_address@));
            }
            return Err(UprtclError::NotFound);
        },
    };
    let from_object = match get_object(store, &from_commit.data_id) {
        Ok(o) => o,
        Err(e) => {
            return Err(UprtclError::NotFound);
        },
    };
    let to_object = match get_object(store, &to_commit.data_id) {
        Ok(o) => o,
        Err(e) => {
            return Err(UprtclError::NotFound);
        },
    };
    let ancestor_object = match get_object(store, &ancestor_commit.data_id) {
        Ok(o) => o,
        Err(e) => {
            proof {
                assert(commit_at(*store, ancestor_address@) is Some);
                assert(commit_object(*store, ancestor_address@) is None);
            }
            return Err(UprtclError::NotFound);
        },
    };
    let ghost sf = commit_object(*store, from_commit_address@).unwrap();
    let ghost st = commit_object(*store, to_commit_address@).unwrap();
    let ghost sa = commit_object(*store, ancestor_address@).unwrap();
    proof {
        lemma_object_like_merge(from_object, sf, to_object, st, ancestor_object, sa);
    }
    let merged = match merge_objects(&from_object, &to_object, &ancestor_object) {
        Ok(m) => m,
        Err(e) => {
            proof {
                if let UprtclError::Conflict(ko) = &e {
                    assert(merge_conflict_outcome(
                        *store,
                        from_commit_address@,
                        to_commit_address@,
                        *ko,
                    ));
                }
            }
            return Err(e);
        },
    };
    let a = store_object(store, merged);
    Ok(a)
}

/// Merges the two given commits: computes the merged payload and
/// creates a merge commit carrying it, whose parents are `[from, to]`,
/// with the given message, timestamp and author.
pub fn merge_commits(
    store: &mut Store,
    from_commit_address: &String,
    to_commit_address: &String,
    merge_commit_message: String,
    timestamp: u64,
    creator_id: String,
) -> (r: Result<String, UprtclError>)
    requires
        old(store).wf(),
    ensures
        final(store).wf(),
        final(store).links == old(store).links,
        r is Err ==> final(store).entries@ == old(store).entries@,
        match r {
            Ok(a) => (exists|d: Seq<char>|
                {
                    &&& #[trigger] merged_content_outcome(
                        *old(store),
                        from_commit_address@,
                        to_commit_address@,
                        d,
                    )
                    &&& a@ == crate::entries::commit_addr(
                        creator_id@,
                        timestamp,
                        merge_commit_message@,
                        d,
                        seq![from_commit_address@, to_commit_address@],
                    )
                    &&& addr_in(final(store).entries@, a@)
                    &&& forall|x: Seq<char>|
                        addr_in(old(store).entries@, x) ==> addr_in(final(store).entries@, x)
                    &&& forall|x: Seq<char>|
                        #[trigger] addr_in(final(store).entries@, x) ==> addr_in(
                            old(store).entries@,
                            x,
                        ) || x == d || x == a@
                }),
            Err(UprtclError::NotFound) => merge_missing(
                *old(store),
                from_commit_address@,
                to_commit_address@,
            ),
            Err(UprtclError::NoCommonAncestor) => ({
                &&& commit_at(*old(store), from_commit_address@) is Some
                &&& commit_at(*old(store), to_commit_address@) is Some
                &&& from_commit_address@ == to_commit_address@ || (forall|x: Seq<char>|
                    !(ancestor(*old(store), from_commit_address@, x) && ancestor(
                        *old(store),
                        to_commit_address@,
                        x,
                    )))
            }),
            Err(UprtclError::Conflict(ko)) => merge_conflict_outcome(
                *old(store),
                from_commit_address@,
                to_commit_address@,
                ko,
            ),
            Err(_) => false,
        },
{
    let merged_data = match merge_commits_contents(store, from_commit_address, to_commit_address) {
        Ok(a) => a,
        Err(e) => {
            return Err(e);
        },
    };
    let mut parents: Vec<String> = Vec::new();
    parents.push(from_commit_address.clone());
    parents.push(to_commit_address.clone());
    proof {
        assert(parents.deep_view() =~= seq![from_commit_address@, to_commit_address@]);
    }
    let a = crate::commits::create_commit(
        store,
        merged_data,
        parents,
        merge_commit_message,
        timestamp,
        creator_id,
    );
    Ok(a)
}

} // verus!
