//! The address resolver: lets an entry be referenced by an address that
//! need not correspond to an entry stored in this replica — a content
//! identifier computed elsewhere, or an address that has not propagated
//! yet. A proxy mapping hangs off an anchor entry whose address is a
//! deterministic function of the external address, with an
//! `internal_proxy` link to the internal address and an
//! `external_proxy` link back.

use vstd::prelude::*;

use crate::entries::{entry_addr, entry_address, local_prefix, lp, Anchor, EntryValue};
use crate::errors::UprtclError;
use crate::store::{addr_in, lemma_links_for_not_for, lemma_links_for_push, links_for,
    links_not_for, Store};

verus! {

/// The view of the `internal_proxy` link type.
pub open spec fn internal_proxy_lt() -> Seq<char> {
    seq!['i', 'n', 't', 'e', 'r', 'n', 'a', 'l', '_', 'p', 'r', 'o', 'x', 'y']
}

/// The view of the `external_proxy` link type.
pub open spec fn external_proxy_lt() -> Seq<char> {
    seq!['e', 'x', 't', 'e', 'r', 'n', 'a', 'l', '_', 'p', 'r', 'o', 'x', 'y']
}

/// The view of the anchor kind under which proxies are filed.
pub open spec fn proxy_kind() -> Seq<char> {
    seq!['p', 'r', 'o', 'x', 'y']
}

/// The canonical address of the proxy anchor for the external address
/// `ext`: the store's address of an anchor entry of kind `proxy` whose
/// text is `ext`. It depends on `ext` alone, so any caller can compute
/// it without consulting the store.
pub open spec fn proxy_anchor_addr(ext: Seq<char>) -> Seq<char> {
    local_prefix() + seq!['A'] + lp(proxy_kind()) + lp(ext)
}

/// The proxy anchor entry for `ext`.
fn make_proxy_anchor(ext: &String) -> (a: Anchor)
    ensures
        a.anchor_type@ == proxy_kind(),
        a.anchor_text@ == ext@,
{
    proof {
        reveal_strlit("proxy");
        assert("proxy"@ =~= proxy_kind());
    }
    Anchor { anchor_type: String::from_str("proxy"), anchor_text: ext.clone() }
}

/// The address of the proxy anchor for `ext`, as a string.
pub fn proxy_anchor_address(ext: &String) -> (a: String)
    ensures
        a@ == proxy_anchor_addr(ext@),
{
    let anchor = make_proxy_anchor(ext);
    let a = entry_address(&EntryValue::Anchor(anchor));
    proof {
        assert(a@ =~= proxy_anchor_addr(ext@));
    }
    a
}

/// Stores the proxy anchor for `ext` unless it is already there, and
/// returns its address.
pub fn ensure_proxy_anchor(store: &mut Store, ext: &String) -> (a: String)
    requires
        old(store).wf(),
    ensures
        final(store).wf(),
        a@ == proxy_anchor_addr(ext@),
        final(store).links == old(store).links,
        addr_in(final(store).entries@, proxy_anchor_addr(ext@)),
        forall|x: Seq<char>|
            #[trigger] addr_in(final(store).entries@, x) == (addr_in(old(store).entries@, x) || x
                == proxy_anchor_addr(ext@)),
        addr_in(old(store).entries@, proxy_anchor_addr(ext@)) ==> final(store).entries@ == old(
            store,
        ).entries@,
{
    let anchor = make_proxy_anchor(ext);
    let ghost pre = store.entries@;
    let a = store.put(EntryValue::Anchor(anchor));
    proof {
        assert(a@ =~= proxy_anchor_addr(ext@));
        if !addr_in(pre, proxy_anchor_addr(ext@)) {
            assert(final(store).entries@.last().address@ == proxy_anchor_addr(ext@));
            assert forall|x: Seq<char>|
                #[trigger] addr_in(final(store).entries@, x) == (addr_in(pre, x) || x
                    == proxy_anchor_addr(ext@)) by {
                if addr_in(pre, x) {
                    let i = choose|i: int| 0 <= i < pre.len() && pre[i].address@ == x;
                    assert(final(store).entries@[i].address@ == x);
                }
                if addr_in(final(store).entries@, x) {
                    let i = choose|i: int|
                        0 <= i < final(store).entries@.len() && final(store).entries@[i].address@
                            == x;
                    if i < pre.len() {
                        assert(pre[i].address@ == x);
                    }
                }
            }
        }
    }
    a
}

/// Establishes (or re-establishes) the bidirectional proxy mapping from
/// the external address to the internal one, and returns the proxy
/// anchor's address. Mapping an address to itself stores only the
/// anchor: resolution already treats a locally present address as
/// resolved. Re-establishing drops the previous `internal_proxy` links
/// of the same anchor first, so at most one mapping is current.
pub fn set_proxy(store: &mut Store, external: &String, internal: &String) -> (a: String)
    requires
        old(store).wf(),
    ensures
        final(store).wf(),
        a@ == proxy_anchor_addr(external@),
        forall|x: Seq<char>|
            #[trigger] addr_in(final(store).entries@, x) == (addr_in(old(store).entries@, x) || x
                == proxy_anchor_addr(external@)),
        external@ == internal@ ==> final(store).links == old(store).links,
        external@ != internal@ ==> ({
            let pruned = links_not_for(
                old(store).links@,
                proxy_anchor_addr(external@),
                internal_proxy_lt(),
            );
            let ls = links_for(
                final(store).links@,
                proxy_anchor_addr(external@),
                internal_proxy_lt(),
            );
            let es0 = links_for(old(store).links@, internal@, external_proxy_lt());
            let es1 = links_for(final(store).links@, internal@, external_proxy_lt());
            &&& final(store).links@.len() == pruned.len() + 2
            &&& final(store).links@.take(pruned.len() as int) == pruned
            // the forward mapping: exactly one internal_proxy link,
            // from the external address's anchor to the internal one
            &&& ls.len() == 1
            &&& ls[0].target@ == internal@
            &&& ls[0].tag@.len() == 0
            // the backward mapping: one external_proxy link appended
            // from the internal address to the anchor
            &&& es1.len() == es0.len() + 1
            &&& es1.take(es0.len() as int) == es0
            &&& es1.last().target@ == proxy_anchor_addr(external@)
            &&& es1.last().tag@.len() == 0
            // every other (base, type) pair of the index is untouched
            &&& forall|b: Seq<char>, rel: Seq<char>|
                !(b == proxy_anchor_addr(external@) && rel == internal_proxy_lt()) && !(b
                    == internal@ && rel == external_proxy_lt()) ==> #[trigger] links_for(
                    final(store).links@,
                    b,
                    rel,
                ) == links_for(old(store).links@, b, rel)
        }),
{
    proof {
        reveal_strlit("internal_proxy");
        reveal_strlit("external_proxy");
        assert("internal_proxy"@ =~= internal_proxy_lt());
        assert("external_proxy"@ =~= external_proxy_lt());
    }
    let a = ensure_proxy_anchor(store, external);
    if !(*external == *internal) {
        let ip = String::from_str("internal_proxy");
        let ep = String::from_str("external_proxy");
        let empty_tag = String::new();
        store.remove_links(&a, &ip);
        let ghost pruned = store.links@;
        store.link_entries(&a, internal, &ip, &empty_tag);
        store.link_entries(internal, &a, &ep, &empty_tag);
        proof {
            let ghost base = proxy_anchor_addr(external@);
            assert(external_proxy_lt()[0] != internal_proxy_lt()[0]);
            let ghost r1 = store.links@[pruned.len() as int];
            let ghost r2 = store.links@.last();
            assert(store.links@ =~= pruned.push(r1).push(r2));
            assert(store.links@.take(pruned.len() as int) =~= pruned);
            lemma_links_for_not_for(old(store).links@, base, internal_proxy_lt());
            lemma_links_for_push(pruned, r1, base, internal_proxy_lt());
            lemma_links_for_push(pruned.push(r1), r2, base, internal_proxy_lt());
            assert(links_for(store.links@, base, internal_proxy_lt()) =~= links_for(
                pruned,
                base,
                internal_proxy_lt(),
            ).push(r1));
            crate::store::lemma_links_not_for_other(
                old(store).links@,
                base,
                internal_proxy_lt(),
                internal@,
                external_proxy_lt(),
            );
            lemma_links_for_push(pruned, r1, internal@, external_proxy_lt());
            lemma_links_for_push(pruned.push(r1), r2, internal@, external_proxy_lt());
            let es0 = links_for(old(store).links@, internal@, external_proxy_lt());
            assert(links_for(store.links@, internal@, external_proxy_lt()) =~= es0.push(r2));
            assert(es0.push(r2).take(es0.len() as int) =~= es0);
            assert forall|b: Seq<char>, rel: Seq<char>|
                !(b == base && rel == internal_proxy_lt()) && !(b == internal@ && rel
                    == external_proxy_lt()) implies #[trigger] links_for(store.links@, b, rel)
                == links_for(old(store).links@, b, rel) by {
                crate::store::lemma_links_not_for_other(
                    old(store).links@,
                    base,
                    internal_proxy_lt(),
                    b,
                    rel,
                );
                lemma_links_for_push(pruned, r1, b, rel);
                lemma_links_for_push(pruned.push(r1), r2, b, rel);
            }
        }
    }
    a
}

/// Resolves an address to the internal address holding its content: an
/// address with a stored entry resolves to itself, whatever mappings
/// exist; otherwise the first `internal_proxy` link of its proxy anchor
/// decides; an address with neither is unknown.
pub fn resolve_internal(store: &Store, address: &String) -> (r: Option<String>)
    ensures
        addr_in(store.entries@, address@) ==> r is Some && r.unwrap()@ == address@,
        !addr_in(store.entries@, address@) ==> ({
            let ls = links_for(store.links@, proxy_anchor_addr(address@), internal_proxy_lt());
            match r {
                Some(v) => ls.len() > 0 && v@ == ls[0].target@,
                None => ls.len() == 0,
            }
        }),
{
    if store.contains(address) {
        return Some(address.clone());
    }
    proof {
        reveal_strlit("internal_proxy");
        assert("internal_proxy"@ =~= internal_proxy_lt());
    }
    let anchor_address = proxy_anchor_address(address);
    let ip = String::from_str("internal_proxy");
    let links = store.get_links(&anchor_address, &ip);
    if links.len() > 0 {
        Some(links[0].target.clone())
    } else {
        None
    }
}

/// Names the decoding rule of `serde_json::from_str`: whether a text is
/// well-formed JSON.
pub uninterp spec fn json_decodes(s: Seq<char>) -> bool;

/// Names the content identifier that the canonicalize-digest-encode
/// chain assigns to a JSON text.
pub uninterp spec fn content_cid_of(s: Seq<char>) -> Seq<char>;

/// Relies on `serde_json::from_str`, `serde_cbor::to_vec`,
/// `multihash::Sha2_256::digest`, `cid::Cid::new` (v1, DagCBOR) and
/// `multibase::encode` (Base58Btc): parsing the text into a JSON value
/// canonicalizes its field order (object keys are kept sorted), the
/// CBOR bytes of that value are digested with SHA2-256, and the
/// resulting CID is base-58 encoded. The outcome depends on the
/// characters of `content` alone, and succeeds exactly when the text
/// parses as JSON: after the parse, every later step is total —
/// `to_vec` writes a JSON value into a vector without a failure path,
/// `Cid::new` always accepts version 1, and `encode` never fails.
#[verifier::external_body]
fn raw_content_address(content: &str) -> (r: Option<String>)
    ensures
        r matches Some(s) ==> s@ == content_cid_of(content@),
        r is Some <==> json_decodes(content@),
{
    let value: serde_json::Value = match serde_json::from_str(content) {
        Ok(v) => v,
        Err(_) => return None,
    };
    let bytes = match serde_cbor::to_vec(&value) {
        Ok(b) => b,
        Err(_) => return None,
    };
    let digest = multihash::Sha2_256::digest(&bytes);
    let c = match cid::Cid::new(cid::Version::V1, cid::Codec::DagCBOR, digest) {
        Ok(c) => c,
        Err(_) => return None,
    };
    Some(multibase::encode(multibase::Base::Base58Btc, c.to_bytes()))
}

/// Computes the caller-visible content address of a serialized content:
/// a deterministic digest of the canonicalized text, for when the
/// native addressing of the local store differs from the one shared
/// across replicas. It succeeds exactly on text that parses as JSON;
/// anything else is reported as malformed.
pub fn compute_content_address(content: &String) -> (r: Result<String, UprtclError>)
    ensures
        match r {
            Ok(a) => a@ == content_cid_of(content@) && json_decodes(content@),
            Err(UprtclError::Malformed) => !json_decodes(content@),
            Err(_) => false,
        },
{
    match raw_content_address(content.as_str()) {
        Some(a) => Ok(a),
        None => Err(UprtclError::Malformed),
    }
}

} // verus!
