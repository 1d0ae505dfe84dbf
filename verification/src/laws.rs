//! The library's global laws: facts that hold across several
//! operations, stated over the same spec functions the operations'
//! contracts use, and proved once for all inputs.

use vstd::prelude::*;

use crate::entries::commit_addr;
use crate::errors::UprtclError;
use crate::log::{best_of, best_upto, count_of, lemma_best_upto, value_of};
use crate::merge::{merge_clean, merge_objects_post, merge_slot};
use crate::num::lemma_dec_digits;
use crate::perspectives::{appended_once, resolves_to};
use crate::proxy::{internal_proxy_lt, proxy_anchor_addr};
use crate::store::{addr_in, links_for, LinkRecord, Store};
use crate::tags::{lemma_tag_round_trip, spec_parse_tag, tag_of};
use crate::entries::Object;

verus! {

/// Content addressing is deterministic: `create_commit` ensures that
/// its result is `commit_addr` over the views of its arguments, so two
/// creations from identical fields — in whatever stores — receive
/// identical addresses.
pub proof fn law_commit_address_deterministic(
    a1: Seq<char>,
    a2: Seq<char>,
    creator: Seq<char>,
    timestamp: u64,
    message: Seq<char>,
    data: Seq<char>,
    parents: Seq<Seq<char>>,
)
    requires
        a1 == commit_addr(creator, timestamp, message, data, parents),
        a2 == commit_addr(creator, timestamp, message, data, parents),
    ensures
        a1 == a2,
{
}

/// A slot changed only on the `from` side keeps `from`'s value.
pub proof fn law_merge_takes_from_side(
    f: Option<Seq<char>>,
    t: Option<Seq<char>>,
    anc: Option<Seq<char>>,
)
    requires
        anc == t,
        anc != f,
    ensures
        merge_slot(f, t, anc) == Some(f),
{
}

/// A slot changed only on the `to` side keeps `to`'s value.
pub proof fn law_merge_takes_to_side(
    f: Option<Seq<char>>,
    t: Option<Seq<char>>,
    anc: Option<Seq<char>>,
)
    requires
        anc == f,
        anc != t,
    ensures
        merge_slot(f, t, anc) == Some(t),
{
}

/// When exactly one link key is in conflict — both sides changed it,
/// differently — the merge fails and the reported conflict names that
/// key.
pub proof fn law_merge_conflict_names_the_key(
    from: Object,
    to: Object,
    anc: Object,
    r: Result<Object, UprtclError>,
    k: Seq<char>,
)
    requires
        merge_objects_post(from, to, anc, r),
        merge_slot(from.data.deep_view(), to.data.deep_view(), anc.data.deep_view()) is Some,
        merge_slot(from.link_at(k), to.link_at(k), anc.link_at(k)) is None,
        forall|k2: Seq<char>|
            k2 != k ==> merge_slot(from.link_at(k2), to.link_at(k2), #[trigger] anc.link_at(k2))
                is Some,
    ensures
        r matches Err(UprtclError::Conflict(ko)) && ko matches Some(key) && key@ == k,
{
    match r {
        Ok(m) => {
            assert(merge_clean(from, to, anc));
            assert(merge_slot(from.link_at(k), to.link_at(k), anc.link_at(k)) is Some);
        },
        Err(UprtclError::Conflict(ko)) => {
            match ko {
                None => {
                    assert(false);
                },
                Some(key) => {
                    if key@ != k {
                        assert(merge_slot(
                            from.link_at(key@),
                            to.link_at(key@),
                            anc.link_at(key@),
                        ) is Some);
                    }
                },
            }
        },
        Err(_) => {
            assert(false);
        },
    }
}

/// A log written only through `set_current`: every tag decodes, and the
/// counter embedded in the `i`-th entry is exactly `i`.
pub open spec fn log_wf(ls: Seq<LinkRecord>) -> bool {
    forall|i: int|
        0 <= i < ls.len() ==> spec_parse_tag((#[trigger] ls[i]).tag@) is Some && count_of(ls[i])
            == i as nat
}

/// Versioned-log monotonicity: appending through `set_current` onto a
/// well-formed log embeds a counter strictly above every earlier one,
/// keeps the log well formed, and makes the appended value the one the
/// maximum-count read rule returns.
pub proof fn law_versioned_log_monotonic(
    pre: Seq<LinkRecord>,
    post: Seq<LinkRecord>,
    base: Seq<char>,
    rel: Seq<char>,
    v: Seq<char>,
)
    requires
        log_wf(links_for(pre, base, rel)),
        links_for(pre, base, rel).len() <= u64::MAX,
        appended_once(pre, post, base, rel, v),
    ensures
        log_wf(links_for(post, base, rel)),
        links_for(post, base, rel).len() > 0,
        count_of(links_for(post, base, rel).last()) == links_for(pre, base, rel).len(),
        forall|i: int|
            0 <= i < links_for(post, base, rel).len() - 1 ==> count_of(
                #[trigger] links_for(post, base, rel)[i],
            ) < count_of(links_for(post, base, rel).last()),
        best_of(links_for(post, base, rel)) == links_for(post, base, rel).len() - 1,
        value_of(links_for(post, base, rel).last()) == v,
{
    let ls0 = links_for(pre, base, rel);
    let ls1 = links_for(post, base, rel);
    let n0 = ls0.len() as int;
    lemma_tag_round_trip(v, ls0.len() as u64);
    assert(ls1.last().tag@ == tag_of(v, ls0.len()));
    assert(spec_parse_tag(ls1.last().tag@) == Some((v, ls0.len())));
    assert forall|i: int| 0 <= i < n0 implies ls1[i] == ls0[i] by {
        assert(ls1.take(n0)[i] == ls1[i]);
    }
    assert(ls1[n0] == ls1.last());
    if n0 > 0 {
        lemma_best_upto(ls1, n0);
        assert(count_of(ls1[best_upto(ls1, n0)]) == best_upto(ls1, n0) as nat);
        assert(count_of(ls1[n0]) > count_of(ls1[best_upto(ls1, n0)]));
        assert(best_of(ls1) == n0);
    } else {
        assert(best_of(ls1) == 0);
    }
}

/// Proxy round trip: after the mapping of an unstored external address
/// `x` to an internal address `y` is established, `x` resolves to `y`.
/// The preconditions are exactly what `set_proxy` ensures for `x != y`.
pub proof fn law_proxy_round_trip(pre: Store, post: Store, x: Seq<char>, y: Seq<char>)
    requires
        x != y,
        !addr_in(pre.entries@, x),
        forall|z: Seq<char>|
            #[trigger] addr_in(post.entries@, z) == (addr_in(pre.entries@, z) || z
                == proxy_anchor_addr(x)),
        links_for(post.links@, proxy_anchor_addr(x), internal_proxy_lt()).len() == 1,
        links_for(post.links@, proxy_anchor_addr(x), internal_proxy_lt())[0].target@ == y,
    ensures
        resolves_to(post, x, y),
{
    lemma_anchor_addr_longer(x);
    assert(!addr_in(post.entries@, x));
}

/// Resolution short-circuit: an address with a stored entry resolves to
/// itself, whatever proxy mappings exist besides.
pub proof fn law_resolve_identity(store: Store, a: Seq<char>)
    requires
        addr_in(store.entries@, a),
    ensures
        resolves_to(store, a, a),
{
}

/// A proxy anchor's address is strictly longer than the address it
/// stands for, so no address is its own anchor.
proof fn lemma_anchor_addr_longer(x: Seq<char>)
    ensures
        proxy_anchor_addr(x).len() > x.len(),
        proxy_anchor_addr(x) != x,
{
    lemma_dec_digits(5);
    lemma_dec_digits(x.len());
}

} // verus!
