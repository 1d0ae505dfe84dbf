//! Creation of the version-control entities, and the ancestry walk: the
//! commit history is gathered with an explicit worklist and a visited
//! list, never by recursion, since the commit graph is shared data that
//! may hold convergent paths (merge commits) or, by corruption, cycles.

use vstd::prelude::*;

use crate::entries::{commit_addr, commit_like, context_addr, entry_addr, entry_like,
    lemma_commit_like_serial, perspective_addr, Commit, Context, EntryValue, Perspective};
use crate::errors::UprtclError;
use crate::store::{addr_in, addr_listed, contains_address, lemma_addr_in_push, lookup, Store};

verus! {

/// There is a commit entry stored under `a`.
pub open spec fn is_commit_at(store: Store, a: Seq<char>) -> bool {
    lookup(store.entries@, a) matches Some(EntryValue::Commit(_))
}

/// The parent addresses of the commit stored under `a`.
pub open spec fn parents_at(store: Store, a: Seq<char>) -> Seq<Seq<char>> {
    match lookup(store.entries@, a) {
        Some(EntryValue::Commit(c)) => c.parents_ids.deep_view(),
        _ => Seq::<Seq<char>>::empty(),
    }
}

/// `to` is reachable from `from` in at most `n` parent steps.
pub open spec fn reaches(store: Store, from: Seq<char>, to: Seq<char>, n: nat) -> bool
    decreases n,
{
    if from == to {
        true
    } else if n == 0 {
        false
    } else {
        is_commit_at(store, from) && exists|k: int|
            0 <= k < parents_at(store, from).len() && reaches(
                store,
                parents_at(store, from)[k],
                to,
                (n - 1) as nat,
            )
    }
}

/// `to` is `from` itself or one of its ancestors.
pub open spec fn ancestor(store: Store, from: Seq<char>, to: Seq<char>) -> bool {
    exists|n: nat| reaches(store, from, to, n)
}

/// Reachability extends by one parent step at the far end.
pub proof fn lemma_reaches_step(store: Store, from: Seq<char>, mid: Seq<char>, k: int, n: nat)
    requires
        reaches(store, from, mid, n),
        is_commit_at(store, mid),
        0 <= k < parents_at(store, mid).len(),
    ensures
        reaches(store, from, parents_at(store, mid)[k], (n + 1) as nat),
    decreases n,
{
    let p = parents_at(store, mid)[k];
    if from == mid {
        assert(reaches(store, p, p, n));
    } else {
        let kk = choose|kk: int|
            0 <= kk < parents_at(store, from).len() && reaches(
                store,
                parents_at(store, from)[kk],
                mid,
                (n - 1) as nat,
            );
        lemma_reaches_step(store, parents_at(store, from)[kk], mid, k, (n - 1) as nat);
    }
}

/// `x` is an ancestor of one of its own parents: the graph has a cycle
/// through `x`. Sound data never has this; the ancestor walk defends
/// against it anyway.
pub open spec fn proper_self(store: Store, x: Seq<char>) -> bool {
    exists|k: int|
        0 <= k < parents_at(store, x).len() && ancestor(store, parents_at(store, x)[k], x)
}

/// The history under `root` is a resolvable, linear, acyclic chain:
/// everything reachable is a stored commit with at most one parent and
/// no cycle through it.
pub open spec fn linear_history(store: Store, root: Seq<char>) -> bool {
    forall|x: Seq<char>|
        #[trigger] ancestor(store, root, x) ==> is_commit_at(store, x) && parents_at(
            store,
            x,
        ).len() <= 1 && !proper_self(store, x)
}

/// Reachability is monotone in the step bound.
pub proof fn lemma_reaches_mono(store: Store, a: Seq<char>, b: Seq<char>, n: nat, m: nat)
    requires
        reaches(store, a, b, n),
        n <= m,
    ensures
        reaches(store, a, b, m),
    decreases n,
{
    if a != b {
        let k = choose|k: int|
            0 <= k < parents_at(store, a).len() && reaches(
                store,
                parents_at(store, a)[k],
                b,
                (n - 1) as nat,
            );
        lemma_reaches_mono(store, parents_at(store, a)[k], b, (n - 1) as nat, (m - 1) as nat);
    }
}

/// Reachability composes.
pub proof fn lemma_reaches_trans(
    store: Store,
    a: Seq<char>,
    b: Seq<char>,
    c: Seq<char>,
    n: nat,
    m: nat,
)
    requires
        reaches(store, a, b, n),
        reaches(store, b, c, m),
    ensures
        reaches(store, a, c, (n + m) as nat),
    decreases n,
{
    if a == b {
        lemma_reaches_mono(store, b, c, m, (n + m) as nat);
    } else {
        let k = choose|k: int|
            0 <= k < parents_at(store, a).len() && reaches(
                store,
                parents_at(store, a)[k],
                b,
                (n - 1) as nat,
            );
        lemma_reaches_trans(store, parents_at(store, a)[k], b, c, (n - 1) as nat, m);
    }
}

/// In a linear history, any two ancestors of the same root are
/// comparable: one is an ancestor of the other.
pub proof fn lemma_linear_ancestors_comparable(
    store: Store,
    a: Seq<char>,
    x: Seq<char>,
    y: Seq<char>,
    n: nat,
    m: nat,
)
    requires
        linear_history(store, a),
        reaches(store, a, x, n),
        reaches(store, a, y, m),
    ensures
        ancestor(store, x, y) || ancestor(store, y, x),
    decreases n + m,
{
    if a == x {
        assert(ancestor(store, x, y));
    } else if a == y {
        assert(ancestor(store, y, x));
    } else {
        assert(reaches(store, a, a, 0));
        assert(ancestor(store, a, a));
        assert(parents_at(store, a).len() <= 1);
        let k1 = choose|k: int|
            0 <= k < parents_at(store, a).len() && reaches(
                store,
                parents_at(store, a)[k],
                x,
                (n - 1) as nat,
            );
        let k2 = choose|k: int|
            0 <= k < parents_at(store, a).len() && reaches(
                store,
                parents_at(store, a)[k],
                y,
                (m - 1) as nat,
            );
        assert(k1 == 0 && k2 == 0);
        let p = parents_at(store, a)[0];
        assert(reaches(store, p, p, 0));
        assert(reaches(store, a, p, 1));
        assert forall|z: Seq<char>| #[trigger] ancestor(store, p, z) implies is_commit_at(store, z)
            && parents_at(store, z).len() <= 1 && !proper_self(store, z) by {
            let nz = choose|nz: nat| reaches(store, p, z, nz);
            lemma_reaches_trans(store, a, p, z, 1, nz);
            assert(ancestor(store, a, z));
        }
        lemma_linear_ancestors_comparable(store, p, x, y, (n - 1) as nat, (m - 1) as nat);
    }
}

/// The commit stored under `a`, if any.
pub open spec fn commit_at(store: Store, a: Seq<char>) -> Option<Commit> {
    match lookup(store.entries@, a) {
        Some(EntryValue::Commit(c)) => Some(c),
        _ => None,
    }
}

/// Fetches the commit stored under `a`, or reports that none is there.
pub fn get_commit(store: &Store, a: &String) -> (r: Result<Commit, UprtclError>)
    ensures
        match r {
            Ok(c) => commit_at(*store, a@) matches Some(sc) && commit_like(c, sc),
            Err(UprtclError::NotFound) => commit_at(*store, a@) is None,
            Err(_) => false,
        },
{
    match store.get(a) {
        Some(EntryValue::Commit(c)) => Ok(c.duplicate()),
        _ => Err(UprtclError::NotFound),
    }
}

/// Stores the commit with the given fields and returns its content
/// address: a deterministic function of the fields, so identical calls
/// yield identical addresses and the entry is stored at most once.
pub fn create_commit(
    store: &mut Store,
    data_id: String,
    parents_ids: Vec<String>,
    message: String,
    timestamp: u64,
    creator_id: String,
) -> (a: String)
    requires
        old(store).wf(),
    ensures
        final(store).wf(),
        final(store).links == old(store).links,
        a@ == commit_addr(creator_id@, timestamp, message@, data_id@, parents_ids.deep_view()),
        addr_in(final(store).entries@, a@),
        forall|x: Seq<char>|
            #[trigger] addr_in(final(store).entries@, x) == (addr_in(old(store).entries@, x) || x
                == a@),
        addr_in(old(store).entries@, a@) ==> final(store).entries@ == old(store).entries@,
        lookup(final(store).entries@, a@) matches Some(v) && entry_like(
            v,
            EntryValue::Commit(
                (Commit { creator_id, timestamp, message, data_id, parents_ids }),
            ),
        ),
{
    let c = Commit::new(data_id, parents_ids, message, timestamp, creator_id);
    let ghost pre = store.entries@;
    let a = store.put(EntryValue::Commit(c));
    proof {
        if !addr_in(pre, a@) {
            lemma_addr_in_push(pre, final(store).entries@.last());
        }
    }
    a
}

/// Stores the perspective identity with the given fields and returns
/// its content address. Neither a head nor a context is set here: both
/// live in the versioned reference log.
pub fn create_perspective(
    store: &mut Store,
    name: Option<String>,
    timestamp: u64,
    origin: String,
    creator_id: String,
) -> (a: String)
    requires
        old(store).wf(),
    ensures
        final(store).wf(),
        final(store).links == old(store).links,
        a@ == perspective_addr(creator_id@, timestamp, origin@, name.deep_view()),
        addr_in(final(store).entries@, a@),
        forall|x: Seq<char>|
            #[trigger] addr_in(final(store).entries@, x) == (addr_in(old(store).entries@, x) || x
                == a@),
        addr_in(old(store).entries@, a@) ==> final(store).entries@ == old(store).entries@,
        lookup(final(store).entries@, a@) matches Some(v) && entry_like(
            v,
            EntryValue::Perspective((Perspective { creator_id, timestamp, origin, name })),
        ),
{
    let p = Perspective::new(name, timestamp, origin, creator_id);
    let ghost pre = store.entries@;
    let a = store.put(EntryValue::Perspective(p));
    proof {
        if !addr_in(pre, a@) {
            lemma_addr_in_push(pre, final(store).entries@.last());
        }
    }
    a
}

/// Stores a context identity. The nonce distinguishes contexts whose
/// other fields coincide.
pub fn create_context(store: &mut Store, timestamp: u64, nonce: u64, creator_id: String) -> (a:
    String)
    requires
        old(store).wf(),
    ensures
        final(store).wf(),
        final(store).links == old(store).links,
        a@ == context_addr(creator_id@, timestamp, nonce),
        addr_in(final(store).entries@, a@),
        forall|x: Seq<char>|
            #[trigger] addr_in(final(store).entries@, x) == (addr_in(old(store).entries@, x) || x
                == a@),
        addr_in(old(store).entries@, a@) ==> final(store).entries@ == old(store).entries@,
        lookup(final(store).entries@, a@) matches Some(v) && entry_like(
            v,
            EntryValue::Context((Context { creator_id, timestamp, nonce })),
        ),
{
    let c = Context::new(timestamp, nonce, creator_id);
    let ghost pre = store.entries@;
    let a = store.put(EntryValue::Context(c));
    proof {
        if !addr_in(pre, a@) {
            lemma_addr_in_push(pre, final(store).entries@.last());
        }
    }
    a
}

/// Walks `parents_ids` transitively from the given commit and returns
/// every ancestor plus the commit itself, each exactly once, the commit
/// itself coming last. The walk fails with `NotFound` exactly when some
/// reachable address holds no commit entry.
#[verifier::loop_isolation(false)]
#[verifier::rlimit(100)]
pub fn get_commit_history(store: &Store, commit_address: &String) -> (r: Result<
    Vec<Commit>,
    UprtclError,
>)
    requires
        store.wf(),
    ensures
        match r {
            Ok(h) => {
                &&& h@.len() >= 1
                &&& entry_addr(EntryValue::Commit(h@.last())) == commit_address@
                &&& forall|k: int|
                    0 <= k < h@.len() ==> ancestor(
                        *store,
                        commit_address@,
                        entry_addr(EntryValue::Commit(#[trigger] h@[k])),
                    )
                &&& forall|k: int|
                    0 <= k < h@.len() ==> ({
                        let a = entry_addr(EntryValue::Commit(#[trigger] h@[k]));
                        lookup(store.entries@, a) matches Some(EntryValue::Commit(c))
                            && commit_like(c, h@[k])
                    })
                &&& forall|k: int, l: int|
                    0 <= k < l < h@.len() ==> entry_addr(EntryValue::Commit(#[trigger] h@[k]))
                        != entry_addr(EntryValue::Commit(#[trigger] h@[l]))
                &&& forall|k: int, j: int|
                    0 <= k < h@.len() && 0 <= j < h@[k].parents_ids@.len() ==> exists|l: int|
                        0 <= l < h@.len() && entry_addr(EntryValue::Commit(#[trigger] h@[l])) == (
                        #[trigger] h@[k].parents_ids@[j])@
            },
            Err(UprtclError::NotFound) => exists|x: Seq<char>|
                ancestor(*store, commit_address@, x) && !is_commit_at(*store, x),
            Err(_) => false,
        },
{
    let mut visited: Vec<String> = Vec::new();
    visited.push(commit_address.clone());
    let mut out: Vec<Commit> = Vec::new();
    let ghost mut proc_idx: Set<int> = Set::empty();
    let mut i: usize = 0;
    proof {
        assert(reaches(*store, commit_address@, commit_address@, 0));
    }
    while i < visited.len()
        invariant
            i <= visited@.len(),
            out@.len() == i,
            i <= store.entries@.len(),
            visited@.len() >= 1,
            visited@[0]@ == commit_address@,
            forall|k: int, l: int| 0 <= k < l < visited@.len() ==> (#[trigger] visited@[k])@ != (
                #[trigger] visited@[l])@,
            forall|k: int|
                0 <= k < visited@.len() ==> ancestor(*store, commit_address@, (
                #[trigger] visited@[k])@),
            forall|k: int|
                0 <= k < i ==> ({
                    let a = entry_addr(EntryValue::Commit(#[trigger] out@[k]));
                    &&& a == visited@[k]@
                    &&& lookup(store.entries@, a) matches Some(EntryValue::Commit(c))
                        && commit_like(c, out@[k])
                }),
            forall|k: int, j: int|
                0 <= k < i && 0 <= j < out@[k].parents_ids@.len() ==> addr_listed(
                    visited@,
                    (#[trigger] out@[k].parents_ids@[j])@,
                ),
            proc_idx.finite(),
            proc_idx.len() == i,
            forall|j: int| proc_idx.contains(j) ==> 0 <= j < store.entries@.len(),
            forall|j: int|
                #[trigger] proc_idx.contains(j) ==> exists|k: int|
                    0 <= k < i && store.entries@[j].address@ == visited@[k]@,
        decreases store.entries@.len() + 1 - i,
    {
        let cur = visited[i].clone();
        let found = store.get(&cur);
        match found {
            Some(EntryValue::Commit(c)) => {
                let copy = c.duplicate();
                proof {
                    lemma_commit_like_serial(copy, *c);
                    crate::store::lemma_lookup_entry_addr(store.entries@, cur@);
                    assert(entry_addr(EntryValue::Commit(copy)) == cur@);
                    // tie the processed record to a fresh store index
                    crate::store::lemma_lookup_some_addr_in(store.entries@, cur@);
                    let jj = choose|jj: int|
                        0 <= jj < store.entries@.len() && (#[trigger] store.entries@[jj]).address@
                            == cur@;
                    assert(!proc_idx.contains(jj)) by {
                        if proc_idx.contains(jj) {
                            let k = choose|k: int|
                                0 <= k < i && store.entries@[jj].address@ == (
                                #[trigger] visited@[k])@;
                            assert(visited@[k]@ == visited@[i as int]@);
                        }
                    }
                    proc_idx = proc_idx.insert(jj);
                    vstd::set_lib::lemma_int_range(0, store.entries@.len() as int);
                    vstd::set_lib::lemma_len_subset(
                        proc_idx,
                        vstd::set_lib::set_int_range(0, store.entries@.len() as int),
                    );
                }
                out.push(copy);
                let mut j: usize = 0;
                let ghost mid_visited = visited@;
                while j < c.parents_ids.len()
                    invariant
                        0 <= j <= c.parents_ids@.len(),
                        visited@.len() >= mid_visited.len(),
                        visited@.take(mid_visited.len() as int) == mid_visited,
                        forall|k: int, l: int|
                            0 <= k < l < visited@.len() ==> (#[trigger] visited@[k])@ != (
                            #[trigger] visited@[l])@,
                        forall|k: int|
                            0 <= k < visited@.len() ==> ancestor(
                                *store,
                                commit_address@,
                                (#[trigger] visited@[k])@,
                            ),
                        forall|jj: int|
                            0 <= jj < j ==> addr_listed(
                                visited@,
                                (#[trigger] c.parents_ids@[jj])@,
                            ),
                    decreases c.parents_ids@.len() - j,
                {
                    let parent = c.parents_ids[j].clone();
                    let ghost vpre = visited@;
                    if !contains_address(&visited, &parent) {
                        proof {
                            let n = choose|n: nat| reaches(*store, commit_address@, cur@, n);
                            assert(parents_at(*store, cur@) == c.parents_ids.deep_view());
                            assert(parents_at(*store, cur@)[j as int] == parent@);
                            lemma_reaches_step(*store, commit_address@, cur@, j as int, n);
                        }
                        visited.push(parent);
                        proof {
                            assert(visited@.take(mid_visited.len() as int) =~= mid_visited);
                            assert forall|jj: int| 0 <= jj < j + 1 implies addr_listed(
                                visited@,
                                (#[trigger] c.parents_ids@[jj])@,
                            ) by {
                                if jj < j {
                                    assert(addr_listed(vpre, (c.parents_ids@[jj])@));
                                    let w = choose|w: int|
                                        0 <= w < vpre.len() && (#[trigger] vpre[w])@ == (
                                        c.parents_ids@[jj])@;
                                    assert((visited@[w])@ == (c.parents_ids@[jj])@);
                                } else {
                                    assert((visited@.last())@ == (c.parents_ids@[jj])@);
                                }
                            }
                        }
                    }
                    j = j + 1;
                }
                proof {
                    // facts over the previous rounds survive the pushes:
                    // the visited list only grew, keeping its prefix
                    assert forall|k: int| 0 <= k < i + 1 implies (#[trigger] visited@[k])
                        == mid_visited[k] by {}
                    assert forall|k: int, jx: int|
                        0 <= k < i + 1 && 0 <= jx < out@[k].parents_ids@.len() implies addr_listed(
                        visited@,
                        (#[trigger] out@[k].parents_ids@[jx])@,
                    ) by {
                        if k < i {
                            assert(addr_listed(mid_visited, (out@[k].parents_ids@[jx])@));
                            let w = choose|w: int|
                                0 <= w < mid_visited.len() && (#[trigger] mid_visited[w])@ == (
                                out@[k].parents_ids@[jx])@;
                            assert(visited@[w] == mid_visited[w]);
                        } else {
                            assert(out@[k] == copy);
                            assert(out@[k].parents_ids@ == c.parents_ids@);
                        }
                    }
                }
                i = i + 1;
            },
            _ => {
                proof {
                    assert(ancestor(*store, commit_address@, cur@));
                    assert(!is_commit_at(*store, cur@));
                }
                return Err(UprtclError::NotFound);
            },
        }
    }
    // reverse, so that ancestors come before descendants and the
    // queried commit comes last
    let ghost full = out@;
    let mut h: Vec<Commit> = Vec::new();
    while out.len() > 0
        invariant
            out@.len() + h@.len() == full.len(),
            out@ == full.take(out@.len() as int),
            forall|l: int| 0 <= l < h@.len() ==> #[trigger] h@[l] == full[full.len() - 1 - l],
        decreases out@.len(),
    {
        let c = match out.pop() {
            Some(c) => c,
            None => {
                proof {
                    assert(false);
                }
                return Err(UprtclError::NotFound);
            },
        };
        h.push(c);
    }
    proof {
        assert(h@.len() == full.len());
        assert(full.len() >= 1);
        assert(h@.last() == full[0]);
        assert forall|k: int, j: int|
            0 <= k < h@.len() && 0 <= j < h@[k].parents_ids@.len() implies exists|l: int|
            0 <= l < h@.len() && entry_addr(EntryValue::Commit(#[trigger] h@[l])) == (
            #[trigger] h@[k].parents_ids@[j])@ by {
            let kf = full.len() - 1 - k;
            assert(h@[k] == full[kf]);
            assert(addr_listed(visited@, (full[kf].parents_ids@[j])@));
            let w = choose|w: int|
                0 <= w < visited@.len() && (visited@[w])@ == (full[kf].parents_ids@[j])@;
            let lf = full.len() - 1 - w;
            assert(entry_addr(EntryValue::Commit(full[w])) == visited@[w]@);
            assert(h@[lf] == full[w]);
        }
    }
    Ok(h)
}


} // verus!
