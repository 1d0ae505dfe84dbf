//! Perspective state: a perspective entity is immutable, so its head
//! commit, its context and its display name are kept in the versioned
//! reference log under the perspective's address, one relation each.
//! Context membership is additionally indexed by a link from the
//! context's anchor to the perspective.

use vstd::prelude::*;

use crate::commits::ancestor;
use crate::entries::{commit_addr, local_prefix, lp, Anchor, EntryValue};
use crate::errors::UprtclError;
use crate::log::{all_tags_parse, best_of, get_current, set_current, value_of};
use crate::merge::{merge_commits, merge_conflict_outcome, merge_missing, merged_content_outcome};
use crate::proxy::{internal_proxy_lt, proxy_anchor_addr, proxy_anchor_address, resolve_internal};
use crate::store::{addr_in, lemma_links_for_push, links_for, LinkRecord, Store};
use crate::tags::tag_of;

verus! {

/// The relation under which a perspective's head commit is logged.
pub open spec fn head_lt() -> Seq<char> {
    seq!['h', 'e', 'a', 'd']
}

/// The relation under which a perspective's name is logged.
pub open spec fn name_lt() -> Seq<char> {
    seq!['n', 'a', 'm', 'e']
}

/// The relation under which a perspective's context is logged.
pub open spec fn context_lt() -> Seq<char> {
    seq!['c', 'o', 'n', 't', 'e', 'x', 't']
}

/// The link type that indexes the perspectives of a context.
pub open spec fn context_member_lt() -> Seq<char> {
    seq!['c', 'o', 'n', 't', 'e', 'x', 't', '-', '>', 'p', 'e', 'r', 's', 'p', 'e', 'c', 't', 'i',
        'v', 'e']
}

/// The address of the anchor standing for a context name.
pub open spec fn context_anchor_addr(ctx: Seq<char>) -> Seq<char> {
    local_prefix() + seq!['A'] + lp(context_lt()) + lp(ctx)
}

/// One link was appended for `(base, rel)`, carrying `v` at the next
/// counter; the log's earlier entries are untouched.
pub open spec fn appended_once(
    pre: Seq<LinkRecord>,
    post: Seq<LinkRecord>,
    base: Seq<char>,
    rel: Seq<char>,
    v: Seq<char>,
) -> bool {
    let ls0 = links_for(pre, base, rel);
    let ls1 = links_for(post, base, rel);
    &&& ls1.len() == ls0.len() + 1
    &&& ls1.take(ls0.len() as int) == ls0
    &&& ls1.last().tag@ == tag_of(v, ls0.len())
}

/// Whether `v` is what the log currently answers for `(base, rel)`:
/// nothing on an empty log, else the value under the greatest counter.
pub open spec fn current_matches(
    store: Store,
    base: Seq<char>,
    rel: Seq<char>,
    v: Option<String>,
) -> bool {
    let ls = links_for(store.links@, base, rel);
    match v {
        None => ls.len() == 0,
        Some(s) => ls.len() > 0 && all_tags_parse(ls) && s@ == value_of(ls[best_of(ls)]),
    }
}

/// The current head, context and name of a perspective, as derived
/// state read from the versioned reference log.
pub struct PerspectiveDetails {
    pub name: Option<String>,
    pub context: Option<String>,
    pub head: Option<String>,
}

/// Appends a new head for the perspective: the log entry carries the
/// head address, and the link points at the head's proxy anchor. Every
/// other (base, relation) pair of the index is untouched.
pub fn update_perspective_head(
    store: &mut Store,
    perspective_address: &String,
    head_address: &String,
)
    ensures
        final(store).entries == old(store).entries,
        final(store).wf() == old(store).wf(),
        appended_once(
            old(store).links@,
            final(store).links@,
            perspective_address@,
            head_lt(),
            head_address@,
        ),
        forall|b: Seq<char>, rel: Seq<char>|
            !(b == perspective_address@ && rel == head_lt()) ==> #[trigger] links_for(
                final(store).links@,
                b,
                rel,
            ) == links_for(old(store).links@, b, rel),
{
    proof {
        reveal_strlit("head");
        assert("head"@ =~= head_lt());
    }
    let target = proxy_anchor_address(head_address);
    let rel = String::from_str("head");
    set_current(store, perspective_address, &rel, &target, head_address);
    proof {
        let rec = final(store).links@.last();
        assert(final(store).links@ =~= old(store).links@.push(rec));
        assert forall|b: Seq<char>, rel2: Seq<char>| #[trigger] links_for(
            final(store).links@,
            b,
            rel2,
        ) == (if b == perspective_address@ && rel2 == head_lt() {
            links_for(old(store).links@, b, rel2).push(rec)
        } else {
            links_for(old(store).links@, b, rel2)
        }) by {
            lemma_links_for_push(old(store).links@, rec, b, rel2);
        }
        let ls0 = links_for(old(store).links@, perspective_address@, head_lt());
        assert(ls0.push(rec).take(ls0.len() as int) =~= ls0);
    }
}

/// Reads the perspective's current head from the log.
pub fn get_perspective_head(store: &Store, perspective_address: &String) -> (r: Result<
    Option<String>,
    UprtclError,
>)
    ensures
        match r {
            Ok(v) => current_matches(*store, perspective_address@, head_lt(), v),
            Err(UprtclError::Malformed) => ({
                let ls = links_for(store.links@, perspective_address@, head_lt());
                ls.len() > 0 && !all_tags_parse(ls)
            }),
            Err(_) => false,
        },
{
    proof {
        reveal_strlit("head");
        assert("head"@ =~= head_lt());
    }
    let rel = String::from_str("head");
    get_current(store, perspective_address, &rel)
}

/// Appends a new name for the perspective; the link points at the
/// name's anchor address. Every other pair of the index is untouched.
pub fn update_perspective_name(store: &mut Store, perspective_address: &String, name: &String)
    ensures
        final(store).entries == old(store).entries,
        final(store).wf() == old(store).wf(),
        appended_once(
            old(store).links@,
            final(store).links@,
            perspective_address@,
            name_lt(),
            name@,
        ),
        forall|b: Seq<char>, rel: Seq<char>|
            !(b == perspective_address@ && rel == name_lt()) ==> #[trigger] links_for(
                final(store).links@,
                b,
                rel,
            ) == links_for(old(store).links@, b, rel),
{
    proof {
        reveal_strlit("name");
        assert("name"@ =~= name_lt());
    }
    let target = proxy_anchor_address(name);
    let rel = String::from_str("name");
    set_current(store, perspective_address, &rel, &target, name);
    proof {
        let rec = final(store).links@.last();
        assert(final(store).links@ =~= old(store).links@.push(rec));
        assert forall|b: Seq<char>, rel2: Seq<char>| #[trigger] links_for(
            final(store).links@,
            b,
            rel2,
        ) == (if b == perspective_address@ && rel2 == name_lt() {
            links_for(old(store).links@, b, rel2).push(rec)
        } else {
            links_for(old(store).links@, b, rel2)
        }) by {
            lemma_links_for_push(old(store).links@, rec, b, rel2);
        }
        let ls0 = links_for(old(store).links@, perspective_address@, name_lt());
        assert(ls0.push(rec).take(ls0.len() as int) =~= ls0);
    }
}

/// Reads the perspective's current name from the log.
pub fn get_perspective_name(store: &Store, perspective_address: &String) -> (r: Result<
    Option<String>,
    UprtclError,
>)
    ensures
        match r {
            Ok(v) => current_matches(*store, perspective_address@, name_lt(), v),
            Err(UprtclError::Malformed) => ({
                let ls = links_for(store.links@, perspective_address@, name_lt());
                ls.len() > 0 && !all_tags_parse(ls)
            }),
            Err(_) => false,
        },
{
    proof {
        reveal_strlit("name");
        assert("name"@ =~= name_lt());
    }
    let rel = String::from_str("name");
    get_current(store, perspective_address, &rel)
}

/// Moves the perspective to a context: the log records the context as
/// the current one, and a membership link from the context's anchor
/// indexes the perspective. The membership index is append-only; the
/// log's last-wins rule, not the index, says which context is current.
pub fn update_perspective_context(store: &mut Store, perspective_address: &String, context: &String)
    ensures
        final(store).entries == old(store).entries,
        final(store).wf() == old(store).wf(),
        appended_once(
            old(store).links@,
            final(store).links@,
            perspective_address@,
            context_lt(),
            context@,
        ),
        ({
            let ms0 = links_for(old(store).links@, context_anchor_addr(context@), context_member_lt());
            let ms1 = links_for(
                final(store).links@,
                context_anchor_addr(context@),
                context_member_lt(),
            );
            ms1.len() == ms0.len() + 1 && ms1.take(ms0.len() as int) == ms0 && ms1.last().target@
                == perspective_address@
        }),
        forall|b: Seq<char>, rel: Seq<char>|
            !(b == perspective_address@ && rel == context_lt()) && !(b == context_anchor_addr(
                context@,
            ) && rel == context_member_lt()) ==> #[trigger] links_for(final(store).links@, b, rel)
                == links_for(old(store).links@, b, rel),
{
    proof {
        reveal_strlit("context");
        reveal_strlit("context->perspective");
        assert("context"@ =~= context_lt());
        assert("context->perspective"@ =~= context_member_lt());
    }
    let anchor = Anchor {
        anchor_type: String::from_str("context"),
        anchor_text: context.clone(),
    };
    let anchor_address = crate::entries::entry_address(&EntryValue::Anchor(anchor));
    proof {
        assert(anchor_address@ =~= context_anchor_addr(context@));
    }
    let rel = String::from_str("context");
    set_current(store, perspective_address, &rel, &anchor_address, context);
    let ghost mid = store.links@;
    let member = String::from_str("context->perspective");
    let empty_tag = String::new();
    store.link_entries(&anchor_address, perspective_address, &member, &empty_tag);
    proof {
        let rec1 = mid.last();
        let rec2 = final(store).links@.last();
        assert(mid =~= old(store).links@.push(rec1));
        assert(final(store).links@ =~= mid.push(rec2));
        assert(context_lt() != context_member_lt()) by {
            assert(context_lt().len() != context_member_lt().len());
        }
        assert forall|b: Seq<char>, rel2: Seq<char>| true implies #[trigger] links_for(
            final(store).links@,
            b,
            rel2,
        ) == (if b == perspective_address@ && rel2 == context_lt() {
            links_for(old(store).links@, b, rel2).push(rec1)
        } else if b == context_anchor_addr(context@) && rel2 == context_member_lt() {
            links_for(old(store).links@, b, rel2).push(rec2)
        } else {
            links_for(old(store).links@, b, rel2)
        }) by {
            lemma_links_for_push(old(store).links@, rec1, b, rel2);
            lemma_links_for_push(mid, rec2, b, rel2);
        }
        let ls0 = links_for(old(store).links@, perspective_address@, context_lt());
        assert(ls0.push(rec1).take(ls0.len() as int) =~= ls0);
        let ms0 = links_for(old(store).links@, context_anchor_addr(context@), context_member_lt());
        assert(ms0.push(rec2).take(ms0.len() as int) =~= ms0);
    }
}

/// Reads the perspective's current context from the log.
pub fn get_perspective_context(store: &Store, perspective_address: &String) -> (r: Result<
    Option<String>,
    UprtclError,
>)
    ensures
        match r {
            Ok(v) => current_matches(*store, perspective_address@, context_lt(), v),
            Err(UprtclError::Malformed) => ({
                let ls = links_for(store.links@, perspective_address@, context_lt());
                ls.len() > 0 && !all_tags_parse(ls)
            }),
            Err(_) => false,
        },
{
    proof {
        reveal_strlit("context");
        assert("context"@ =~= context_lt());
    }
    let rel = String::from_str("context");
    get_current(store, perspective_address, &rel)
}

/// Lists the perspectives the membership index holds for a context, in
/// insertion order. A perspective moved elsewhere stays listed — the
/// log entry under the perspective, not this index, names its current
/// context.
pub fn get_context_perspectives(store: &Store, context: &String) -> (r: Vec<String>)
    ensures
        ({
            let ms = links_for(store.links@, context_anchor_addr(context@), context_member_lt());
            r@.len() == ms.len() && forall|i: int|
                0 <= i < ms.len() ==> (#[trigger] r@[i])@ == ms[i].target@
        }),
{
    proof {
        reveal_strlit("context");
        reveal_strlit("context->perspective");
        assert("context"@ =~= context_lt());
        assert("context->perspective"@ =~= context_member_lt());
    }
    let anchor = Anchor {
        anchor_type: String::from_str("context"),
        anchor_text: context.clone(),
    };
    let anchor_address = crate::entries::entry_address(&EntryValue::Anchor(anchor));
    proof {
        assert(anchor_address@ =~= context_anchor_addr(context@));
    }
    let member = String::from_str("context->perspective");
    let links = store.get_links(&anchor_address, &member);
    let mut out: Vec<String> = Vec::new();
    let mut i: usize = 0;
    while i < links.len()
        invariant
            0 <= i <= links@.len(),
            links@ == links_for(store.links@, context_anchor_addr(context@), context_member_lt()),
            out@.len() == i,
            forall|k: int| 0 <= k < i ==> (#[trigger] out@[k])@ == links@[k].target@,
        decreases links@.len() - i,
    {
        out.push(links[i].target.clone());
        i = i + 1;
    }
    out
}

/// Reads a perspective's details — head, context and name — resolving
/// the given address through the proxy layer first.
pub fn get_perspective_details(store: &Store, perspective_address: &String) -> (r: Result<
    PerspectiveDetails,
    UprtclError,
>)
    ensures
        match r {
            Ok(d) => exists|i: Seq<char>|
                {
                    &&& #[trigger] resolves_to(*store, perspective_address@, i)
                    &&& current_matches(*store, i, head_lt(), d.head)
                    &&& current_matches(*store, i, name_lt(), d.name)
                    &&& current_matches(*store, i, context_lt(), d.context)
                },
            Err(UprtclError::NotFound) => !addr_in(store.entries@, perspective_address@)
                && links_for(
                store.links@,
                proxy_anchor_addr(perspective_address@),
                internal_proxy_lt(),
            ).len() == 0,
            Err(UprtclError::Malformed) => exists|i: Seq<char>|
                {
                    &&& #[trigger] resolves_to(*store, perspective_address@, i)
                    &&& ({
                        ||| log_malformed(*store, i, head_lt())
                        ||| log_malformed(*store, i, name_lt())
                        ||| log_malformed(*store, i, context_lt())
                    })
                },
            Err(_) => false,
        },
{
    let internal = match resolve_internal(store, perspective_address) {
        Some(i) => i,
        None => {
            return Err(UprtclError::NotFound);
        },
    };
    proof {
        assert(resolves_to(*store, perspective_address@, internal@));
    }
    let head = match get_perspective_head(store, &internal) {
        Ok(h) => h,
        Err(e) => {
            return Err(UprtclError::Malformed);
        },
    };
    let name = match get_perspective_name(store, &internal) {
        Ok(n) => n,
        Err(e) => {
            return Err(UprtclError::Malformed);
        },
    };
    let context = match get_perspective_context(store, &internal) {
        Ok(c) => c,
        Err(e) => {
            return Err(UprtclError::Malformed);
        },
    };
    Ok(PerspectiveDetails { name, context, head })
}

/// Updates whichever of a perspective's details are given — head, then
/// context, then name — resolving the perspective's address through the
/// proxy layer first. Each given field appends one entry to its own
/// log; an absent field leaves its log untouched.
pub fn update_perspective_details(
    store: &mut Store,
    perspective_address: &String,
    details: PerspectiveDetails,
) -> (r: Result<(), UprtclError>)
    ensures
        final(store).entries == old(store).entries,
        final(store).wf() == old(store).wf(),
        match r {
            Ok(u) => exists|i: Seq<char>|
                #[trigger] resolves_to(*old(store), perspective_address@, i) && ({
                    &&& (match details.head {
                        Some(h) => appended_once(
                            old(store).links@,
                            final(store).links@,
                            i,
                            head_lt(),
                            h@,
                        ),
                        None => links_for(final(store).links@, i, head_lt()) == links_for(
                            old(store).links@,
                            i,
                            head_lt(),
                        ),
                    })
                    &&& (match details.context {
                        Some(c) => appended_once(
                            old(store).links@,
                            final(store).links@,
                            i,
                            context_lt(),
                            c@,
                        ),
                        None => links_for(final(store).links@, i, context_lt()) == links_for(
                            old(store).links@,
                            i,
                            context_lt(),
                        ),
                    })
                    &&& (match details.name {
                        Some(n) => appended_once(
                            old(store).links@,
                            final(store).links@,
                            i,
                            name_lt(),
                            n@,
                        ),
                        None => links_for(final(store).links@, i, name_lt()) == links_for(
                            old(store).links@,
                            i,
                            name_lt(),
                        ),
                    })
                    &&& (match details.context {
                        Some(c) => ({
                            let ms0 = links_for(
                                old(store).links@,
                                context_anchor_addr(c@),
                                context_member_lt(),
                            );
                            let ms1 = links_for(
                                final(store).links@,
                                context_anchor_addr(c@),
                                context_member_lt(),
                            );
                            ms1.len() == ms0.len() + 1 && ms1.take(ms0.len() as int) == ms0
                                && ms1.last().target@ == i
                        }),
                        None => true,
                    })
                    &&& forall|b: Seq<char>, rel: Seq<char>|
                        !(b == i && (rel == head_lt() || rel == context_lt() || rel == name_lt()))
                            && (match details.context {
                            Some(c) => !(b == context_anchor_addr(c@) && rel
                                == context_member_lt()),
                            None => true,
                        }) ==> #[trigger] links_for(final(store).links@, b, rel) == links_for(
                            old(store).links@,
                            b,
                            rel,
                        )
                }),
            Err(UprtclError::NotFound) => !addr_in(old(store).entries@, perspective_address@)
                && links_for(
                old(store).links@,
                proxy_anchor_addr(perspective_address@),
                internal_proxy_lt(),
            ).len() == 0 && final(store).links == old(store).links,
            Err(_) => false,
        },
{
    let internal = match resolve_internal(store, perspective_address) {
        Some(i) => i,
        None => {
            return Err(UprtclError::NotFound);
        },
    };
    proof {
        assert(resolves_to(*store, perspective_address@, internal@));
        assert(head_lt() != context_lt()) by {
            assert(head_lt().len() != context_lt().len());
        }
        assert(head_lt() != name_lt()) by {
            assert(head_lt()[0] != name_lt()[0]);
        }
        assert(head_lt() != context_member_lt()) by {
            assert(head_lt().len() != context_member_lt().len());
        }
        assert(name_lt() != context_lt()) by {
            assert(name_lt().len() != context_lt().len());
        }
        assert(name_lt() != context_member_lt()) by {
            assert(name_lt().len() != context_member_lt().len());
        }
        assert(context_lt() != context_member_lt()) by {
            assert(context_lt().len() != context_member_lt().len());
        }
    }
    let ghost l0 = store.links@;
    match &details.head {
        Option::Some(h) => {
            update_perspective_head(store, &internal, h);
        },
        Option::None => {},
    }
    let ghost l1 = store.links@;
    match &details.context {
        Option::Some(c) => {
            update_perspective_context(store, &internal, c);
        },
        Option::None => {},
    }
    let ghost l2 = store.links@;
    match &details.name {
        Option::Some(n) => {
            update_perspective_name(store, &internal, n);
        },
        Option::None => {},
    }
    proof {
        let i = internal@;
        assert(links_for(store.links@, i, head_lt()) == links_for(l1, i, head_lt()));
        assert(links_for(l2, i, head_lt()) == links_for(l1, i, head_lt()));
        assert(links_for(store.links@, i, context_lt()) == links_for(l2, i, context_lt()));
        assert(links_for(l1, i, name_lt()) == links_for(l0, i, name_lt()));
        assert(links_for(l2, i, name_lt()) == links_for(l1, i, name_lt()));
        assert(links_for(l1, i, context_lt()) == links_for(l0, i, context_lt()));
        if let Option::Some(c) = &details.context {
            let ma = context_anchor_addr(c@);
            assert(links_for(l1, ma, context_member_lt()) == links_for(
                l0,
                ma,
                context_member_lt(),
            ));
            assert(links_for(store.links@, ma, context_member_lt()) == links_for(
                l2,
                ma,
                context_member_lt(),
            ));
        }
        assert forall|b: Seq<char>, rel: Seq<char>|
            !(b == i && (rel == head_lt() || rel == context_lt() || rel == name_lt())) && (
            match details.context {
                Some(c) => !(b == context_anchor_addr(c@) && rel == context_member_lt()),
                None => true,
            }) implies #[trigger] links_for(store.links@, b, rel) == links_for(l0, b, rel) by {
            assert(links_for(l1, b, rel) == links_for(l0, b, rel));
            assert(links_for(l2, b, rel) == links_for(l1, b, rel));
            assert(links_for(store.links@, b, rel) == links_for(l2, b, rel));
        }
    }
    Ok(())
}

/// The proxy layer resolves `a` to `i`: directly, or through the first
/// `internal_proxy` link of `a`'s anchor.
pub open spec fn resolves_to(store: Store, a: Seq<char>, i: Seq<char>) -> bool {
    if addr_in(store.entries@, a) {
        i == a
    } else {
        let ls = links_for(store.links@, proxy_anchor_addr(a), internal_proxy_lt());
        ls.len() > 0 && i == ls[0].target@
    }
}

/// The log of `(base, rel)` holds a tag that does not decode.
pub open spec fn log_malformed(store: Store, base: Seq<char>, rel: Seq<char>) -> bool {
    let ls = links_for(store.links@, base, rel);
    ls.len() > 0 && !all_tags_parse(ls)
}

/// Merges the head of one perspective into another's: refuses when the
/// two perspectives' current contexts are both known and differ,
/// otherwise computes the merge commit of the two current heads and
/// appends it as the new head of the `to` perspective. The two
/// perspectives are taken as already resolved addresses; both must have
/// a head. Nothing else of the store is touched: no other log pair, and
/// no entry beyond the merged payload and the merge commit.
pub fn merge_perspectives(
    store: &mut Store,
    from_perspective: &String,
    to_perspective: &String,
    merge_commit_message: String,
    timestamp: u64,
    creator_id: String,
) -> (r: Result<String, UprtclError>)
    requires
        old(store).wf(),
    ensures
        final(store).wf(),
        r is Err ==> final(store).entries@ == old(store).entries@ && final(store).links == old(
            store,
        ).links,
        match r {
            Ok(a) => ({
                &&& (current_context(*old(store), from_perspective@) is Some && current_context(
                    *old(store),
                    to_perspective@,
                ) is Some) ==> current_context(*old(store), from_perspective@) == current_context(
                    *old(store),
                    to_perspective@,
                )
                &&& forall|x: Seq<char>|
                    addr_in(old(store).entries@, x) ==> addr_in(final(store).entries@, x)
                &&& forall|b: Seq<char>, rel: Seq<char>|
                    !(b == to_perspective@ && rel == head_lt()) ==> #[trigger] links_for(
                        final(store).links@,
                        b,
                        rel,
                    ) == links_for(old(store).links@, b, rel)
                &&& exists|fh: Seq<char>, th: Seq<char>, d: Seq<char>|
                    {
                        &&& current_head(*old(store), from_perspective@) == Some(fh)
                        &&& current_head(*old(store), to_perspective@) == Some(th)
                        &&& #[trigger] merged_content_outcome(*old(store), fh, th, d)
                        &&& a@ == commit_addr(
                            creator_id@,
                            timestamp,
                            merge_commit_message@,
                            d,
                            seq![fh, th],
                        )
                        &&& #[trigger] appended_once(
                            old(store).links@,
                            final(store).links@,
                            to_perspective@,
                            head_lt(),
                            a@,
                        )
                        &&& forall|x: Seq<char>|
                            #[trigger] addr_in(final(store).entries@, x) ==> addr_in(
                                old(store).entries@,
                                x,
                            ) || x == d || x == a@
                    }
            }),
            Err(UprtclError::ValidationRejected) => ({
                &&& current_context(*old(store), from_perspective@) is Some
                &&& current_context(*old(store), to_perspective@) is Some
                &&& current_context(*old(store), from_perspective@) != current_context(
                    *old(store),
                    to_perspective@,
                )
            }),
            Err(UprtclError::NotFound) => ({
                ||| current_head(*old(store), from_perspective@) is None
                ||| current_head(*old(store), to_perspective@) is None
                ||| (exists|fh: Seq<char>, th: Seq<char>|
                    current_head(*old(store), from_perspective@) == Some(fh) && current_head(
                        *old(store),
                        to_perspective@,
                    ) == Some(th) && #[trigger] merge_missing(*old(store), fh, th))
            }),
            Err(UprtclError::Malformed) => ({
                ||| log_malformed(*old(store), from_perspective@, context_lt())
                ||| log_malformed(*old(store), to_perspective@, context_lt())
                ||| log_malformed(*old(store), from_perspective@, head_lt())
                ||| log_malformed(*old(store), to_perspective@, head_lt())
            }),
            Err(UprtclError::NoCommonAncestor) => exists|fh: Seq<char>, th: Seq<char>|
                #![all_triggers]
                {
                    &&& current_head(*old(store), from_perspective@) == Some(fh)
                    &&& current_head(*old(store), to_perspective@) == Some(th)
                    &&& fh == th || (forall|x: Seq<char>|
                        !(ancestor(*old(store), fh, x) && ancestor(*old(store), th, x)))
                },
            Err(UprtclError::Conflict(ko)) => exists|fh: Seq<char>, th: Seq<char>|
                current_head(*old(store), from_perspective@) == Some(fh) && current_head(
                    *old(store),
                    to_perspective@,
                ) == Some(th) && #[trigger] merge_conflict_outcome(*old(store), fh, th, ko),
            Err(_) => false,
        },
{
    let from_context = match get_perspective_context(store, from_perspective) {
        Ok(c) => c,
        Err(e) => {
            return Err(UprtclError::Malformed);
        },
    };
    let to_context = match get_perspective_context(store, to_perspective) {
        Ok(c) => c,
        Err(e) => {
            return Err(UprtclError::Malformed);
        },
    };
    proof {
        assert(current_context(*store, from_perspective@) == (match from_context {
            Some(cf) => Some(cf@),
            None => None,
        }));
        assert(current_context(*store, to_perspective@) == (match to_context {
            Some(ct) => Some(ct@),
            None => None,
        }));
    }
    match (&from_context, &to_context) {
        (Option::Some(cf), Option::Some(ct)) => {
            if !(*cf == *ct) {
                return Err(UprtclError::ValidationRejected);
            }
        },
        _ => {},
    }
    let from_head = match get_perspective_head(store, from_perspective) {
        Ok(Some(h)) => h,
        Ok(None) => {
            return Err(UprtclError::NotFound);
        },
        Err(e) => {
            return Err(UprtclError::Malformed);
        },
    };
    let to_head = match get_perspective_head(store, to_perspective) {
        Ok(Some(h)) => h,
        Ok(None) => {
            return Err(UprtclError::NotFound);
        },
        Err(e) => {
            return Err(UprtclError::Malformed);
        },
    };
    let merged_commit = match merge_commits(
        store,
        &from_head,
        &to_head,
        merge_commit_message,
        timestamp,
        creator_id,
    ) {
        Ok(a) => a,
        Err(e) => {
            return Err(e);
        },
    };
    let ghost mid = *store;
    update_perspective_head(store, to_perspective, &merged_commit);
    proof {
        assert(mid.links@ == old(store).links@);
        assert forall|b: Seq<char>, rel: Seq<char>|
            !(b == to_perspective@ && rel == head_lt()) implies #[trigger] links_for(
            final(store).links@,
            b,
            rel,
        ) == links_for(old(store).links@, b, rel) by {
            assert(links_for(final(store).links@, b, rel) == links_for(mid.links@, b, rel));
        }
    }
    Ok(merged_commit)
}

/// The context the log currently answers for a perspective, if the log
/// is non-empty and decodes.
pub open spec fn current_context(store: Store, p: Seq<char>) -> Option<Seq<char>> {
    let ls = links_for(store.links@, p, context_lt());
    if ls.len() > 0 && all_tags_parse(ls) {
        Some(value_of(ls[best_of(ls)]))
    } else {
        None
    }
}

/// The head the log currently answers for a perspective, if the log is
/// non-empty and decodes.
pub open spec fn current_head(store: Store, p: Seq<char>) -> Option<Seq<char>> {
    let ls = links_for(store.links@, p, head_lt());
    if ls.len() > 0 && all_tags_parse(ls) {
        Some(value_of(ls[best_of(ls)]))
    } else {
        None
    }
}

} // verus!
