//! The versioned reference log: a mutable value, kept on an append-only
//! link index as a monotonically counted sequence of tagged links. The
//! current value is the one with the greatest embedded counter — not the
//! most recently inserted link, since the index may have been replicated
//! and merged from several writers. Ties on the counter go to the
//! earliest link in index order, which is deterministic for a given
//! index.

use vstd::prelude::*;

use crate::errors::UprtclError;
use crate::store::{links_for, LinkRecord, Store};
use crate::tags::{make_tag, parse_tag, spec_parse_tag, tag_of};

verus! {

/// Every link of the sequence carries a well-formed tag.
pub open spec fn all_tags_parse(ls: Seq<LinkRecord>) -> bool {
    forall|i: int| 0 <= i < ls.len() ==> spec_parse_tag((#[trigger] ls[i]).tag@) is Some
}

/// The counter embedded in one well-formed link tag.
pub open spec fn count_of(l: LinkRecord) -> nat {
    spec_parse_tag(l.tag@).unwrap().1
}

/// The value embedded in one well-formed link tag.
pub open spec fn value_of(l: LinkRecord) -> Seq<char> {
    spec_parse_tag(l.tag@).unwrap().0
}

/// The index of the winning link among the first `i`: the first one
/// attaining the maximum counter.
pub open spec fn best_upto(ls: Seq<LinkRecord>, i: int) -> int
    decreases i,
{
    if i <= 1 {
        0
    } else {
        let b = best_upto(ls, i - 1);
        if count_of(ls[i - 1]) > count_of(ls[b]) {
            i - 1
        } else {
            b
        }
    }
}

/// The index of the winning link of a non-empty log.
pub open spec fn best_of(ls: Seq<LinkRecord>) -> int {
    best_upto(ls, ls.len() as int)
}

/// The winner is a valid index and no link beats it: none has a greater
/// counter, and none with the same counter comes earlier.
pub proof fn lemma_best_upto(ls: Seq<LinkRecord>, i: int)
    requires
        1 <= i <= ls.len(),
    ensures
        0 <= best_upto(ls, i) < i,
        forall|k: int| 0 <= k < i ==> count_of(#[trigger] ls[k]) <= count_of(ls[best_upto(ls, i)]),
        forall|k: int|
            0 <= k < best_upto(ls, i) ==> count_of(#[trigger] ls[k]) < count_of(
                ls[best_upto(ls, i)],
            ),
    decreases i,
{
    if i > 1 {
        lemma_best_upto(ls, i - 1);
    }
}

/// Appends a new value for `(base, relation)`: reads the current number
/// of links of that relation under `base`, embeds it with the value in
/// the tag, and links `base` to `target`. Prior entries stay in place.
pub fn set_current(store: &mut Store, base: &String, relation: &String, target: &String,
    value: &String)
    ensures
        final(store).entries == old(store).entries,
        final(store).wf() == old(store).wf(),
        final(store).links@.len() == old(store).links@.len() + 1,
        final(store).links@.take(old(store).links@.len() as int) == old(store).links@,
        final(store).links@.last().base@ == base@,
        final(store).links@.last().link_type@ == relation@,
        final(store).links@.last().target@ == target@,
        final(store).links@.last().tag@ == tag_of(
            value@,
            links_for(old(store).links@, base@, relation@).len(),
        ),
{
    let count = store.get_links_count(base, relation);
    let tag = make_tag(value.as_str(), count as u64);
    store.link_entries(base, target, relation, &tag);
    proof {
        assert(final(store).links@.take(old(store).links@.len() as int) =~= old(store).links@);
    }
}

/// Reads the current value for `(base, relation)`: `None` when the log
/// is empty, the value with the greatest counter otherwise, and a
/// decode error as soon as any tag of the relation is malformed.
#[verifier::loop_isolation(false)]
pub fn get_current(store: &Store, base: &String, relation: &String) -> (r: Result<
    Option<String>,
    UprtclError,
>)
    ensures
        ({
            let ls = links_for(store.links@, base@, relation@);
            match r {
                Ok(None) => ls.len() == 0,
                Ok(Some(v)) => ls.len() > 0 && all_tags_parse(ls) && v@ == value_of(
                    ls[best_of(ls)],
                ),
                Err(UprtclError::Malformed) => ls.len() > 0 && !all_tags_parse(ls),
                Err(_) => false,
            }
        }),
{
    let links = store.get_links(base, relation);
    let ghost ls = links_for(store.links@, base@, relation@);
    if links.len() == 0 {
        return Ok(None);
    }
    let first = match parse_tag(links[0].tag.as_str()) {
        Some(p) => p,
        None => {
            proof {
                assert(!(spec_parse_tag(ls[0].tag@) is Some));
            }
            return Err(UprtclError::Malformed);
        },
    };
    let mut best_value: String = first.0;
    let mut best_count: u64 = first.1;
    let mut i: usize = 1;
    while i < links.len()
        invariant
            1 <= i <= links.len(),
            links@ == ls,
            ls.len() > 0,
            forall|k: int| 0 <= k < i ==> spec_parse_tag((#[trigger] ls[k]).tag@) is Some,
            best_count as nat == count_of(ls[best_upto(ls, i as int)]),
            best_value@ == value_of(ls[best_upto(ls, i as int)]),
        decreases links.len() - i,
    {
        match parse_tag(links[i].tag.as_str()) {
            Some(p) => {
                if p.1 > best_count {
                    best_value = p.0;
                    best_count = p.1;
                }
                proof {
                    assert(best_upto(ls, i as int + 1) == (if count_of(ls[i as int]) > count_of(
                        ls[best_upto(ls, i as int)],
                    ) {
                        i as int
                    } else {
                        best_upto(ls, i as int)
                    }));
                }
                i = i + 1;
            },
            None => {
                proof {
                    assert(!(spec_parse_tag(ls[i as int].tag@) is Some));
                }
                return Err(UprtclError::Malformed);
            },
        }
    }
    Ok(Some(best_value))
}

} // verus!
