//! The modeled storage substrate: a content-addressed entry store plus a
//! link index keyed by (base address, link type). Both are append-only
//! from the library's point of view, except that the proxy layer may
//! drop the links of one (base, type) pair when it re-establishes a
//! mapping.

use vstd::prelude::*;

use crate::entries::{entry_addr, entry_address, entry_like, lemma_serial_injective, local_prefix,
    serial_of, EntryValue};

verus! {

/// One stored entry together with the address the store assigned to it.
pub struct EntryRecord {
    pub address: String,
    pub value: EntryValue,
}

/// One link: from a base address to a target address, of a given type,
/// carrying a free-form tag.
pub struct LinkRecord {
    pub base: String,
    pub link_type: String,
    pub tag: String,
    pub target: String,
}

impl LinkRecord {
    /// A field-for-field copy.
    pub fn duplicate(&self) -> (r: LinkRecord)
        ensures
            r == *self,
    {
        LinkRecord {
            base: self.base.clone(),
            link_type: self.link_type.clone(),
            tag: self.tag.clone(),
            target: self.target.clone(),
        }
    }
}

/// Whether some record in `entries` carries the address `a`.
pub open spec fn addr_in(entries: Seq<EntryRecord>, a: Seq<char>) -> bool {
    exists|i: int| 0 <= i < entries.len() && (#[trigger] entries[i]).address@ == a
}

/// The value stored under `a`, scanning from the front.
pub open spec fn lookup(entries: Seq<EntryRecord>, a: Seq<char>) -> Option<EntryValue>
    decreases entries.len(),
{
    if entries.len() == 0 {
        None
    } else if entries[0].address@ == a {
        Some(entries[0].value)
    } else {
        lookup(entries.drop_first(), a)
    }
}

/// The links under `base` of type `lt`, in insertion order.
pub open spec fn links_for(ls: Seq<LinkRecord>, base: Seq<char>, lt: Seq<char>) -> Seq<LinkRecord>
    decreases ls.len(),
{
    if ls.len() == 0 {
        Seq::<LinkRecord>::empty()
    } else {
        let rest = links_for(ls.drop_last(), base, lt);
        if ls.last().base@ == base && ls.last().link_type@ == lt {
            rest.push(ls.last())
        } else {
            rest
        }
    }
}

/// The links that are not under `base` of type `lt`, in insertion order.
pub open spec fn links_not_for(ls: Seq<LinkRecord>, base: Seq<char>, lt: Seq<char>) -> Seq<
    LinkRecord,
>
    decreases ls.len(),
{
    if ls.len() == 0 {
        Seq::<LinkRecord>::empty()
    } else {
        let rest = links_not_for(ls.drop_last(), base, lt);
        if ls.last().base@ == base && ls.last().link_type@ == lt {
            rest
        } else {
            rest.push(ls.last())
        }
    }
}

/// Appending one record makes exactly its address present, besides the
/// ones already there.
pub proof fn lemma_addr_in_push(pre: Seq<EntryRecord>, rec: EntryRecord)
    ensures
        forall|x: Seq<char>|
            #[trigger] addr_in(pre.push(rec), x) == (addr_in(pre, x) || rec.address@ == x),
{
    assert forall|x: Seq<char>|
        #[trigger] addr_in(pre.push(rec), x) == (addr_in(pre, x) || rec.address@ == x) by {
        let post = pre.push(rec);
        if addr_in(pre, x) {
            let i = choose|i: int| 0 <= i < pre.len() && pre[i].address@ == x;
            assert(post[i].address@ == x);
        }
        if rec.address@ == x {
            assert(post[pre.len() as int].address@ == x);
        }
        if addr_in(post, x) {
            let i = choose|i: int| 0 <= i < post.len() && post[i].address@ == x;
            if i < pre.len() {
                assert(pre[i].address@ == x);
            }
        }
    }
}

/// Under the well-formedness of the store, whatever `lookup` finds at
/// `a` is an entry whose own content address is `a`.
pub proof fn lemma_lookup_entry_addr(entries: Seq<EntryRecord>, a: Seq<char>)
    requires
        forall|i: int|
            0 <= i < entries.len() ==> (#[trigger] entries[i]).address@ == entry_addr(
                entries[i].value,
            ),
        lookup(entries, a) is Some,
    ensures
        entry_addr(lookup(entries, a).unwrap()) == a,
    decreases entries.len(),
{
    if entries.len() > 0 {
        if entries[0].address@ == a {
        } else {
            assert forall|i: int| 0 <= i < entries.drop_first().len() implies (
            #[trigger] entries.drop_first()[i]).address@ == entry_addr(
                entries.drop_first()[i].value,
            ) by {
                assert(entries.drop_first()[i] == entries[i + 1]);
            }
            lemma_lookup_entry_addr(entries.drop_first(), a);
        }
    }
}

/// A successful lookup means the address is present.
pub proof fn lemma_lookup_some_addr_in(entries: Seq<EntryRecord>, a: Seq<char>)
    requires
        lookup(entries, a) is Some,
    ensures
        addr_in(entries, a),
    decreases entries.len(),
{
    if entries.len() > 0 {
        if entries[0].address@ == a {
        } else {
            lemma_lookup_some_addr_in(entries.drop_first(), a);
            let i = choose|i: int|
                0 <= i < entries.drop_first().len() && (#[trigger] entries.drop_first()[i]).address@
                    == a;
            assert(entries[i + 1].address@ == a);
        }
    }
}

/// An address that is present has a value to look up.
pub proof fn lemma_addr_in_lookup(entries: Seq<EntryRecord>, a: Seq<char>)
    requires
        addr_in(entries, a),
    ensures
        lookup(entries, a) is Some,
    decreases entries.len(),
{
    if entries.len() > 0 {
        if entries[0].address@ == a {
        } else {
            let i = choose|i: int| 0 <= i < entries.len() && (#[trigger] entries[i]).address@ == a;
            assert(entries.drop_first()[i - 1].address@ == a);
            lemma_addr_in_lookup(entries.drop_first(), a);
        }
    }
}

/// What a well-formed store holds under an entry's own content address:
/// an entry agreeing with it field for field. The serialization is
/// injective, so the address cannot be occupied by anything else.
pub proof fn lemma_found_is_like(store: Store, e: EntryValue)
    requires
        store.wf(),
        addr_in(store.entries@, entry_addr(e)),
    ensures
        lookup(store.entries@, entry_addr(e)) matches Some(v) && entry_like(v, e),
{
    lemma_addr_in_lookup(store.entries@, entry_addr(e));
    lemma_lookup_entry_addr(store.entries@, entry_addr(e));
    let v = lookup(store.entries@, entry_addr(e)).unwrap();
    assert(entry_addr(v) == entry_addr(e));
    assert(serial_of(v) =~= entry_addr(v).subrange(
        local_prefix().len() as int,
        entry_addr(v).len() as int,
    ));
    assert(serial_of(e) =~= entry_addr(e).subrange(
        local_prefix().len() as int,
        entry_addr(e).len() as int,
    ));
    lemma_serial_injective(v, e);
}

/// Whether a vector of addresses holds one with the view `x`.
pub open spec fn addr_listed(v: Seq<String>, x: Seq<char>) -> bool {
    exists|k: int| 0 <= k < v.len() && (#[trigger] v[k])@ == x
}

/// Scans a vector of addresses for `s`, by text.
pub fn contains_address(v: &Vec<String>, s: &String) -> (r: bool)
    ensures
        r == addr_listed(v@, s@),
{
    let mut k: usize = 0;
    while k < v.len()
        invariant
            0 <= k <= v@.len(),
            forall|l: int| 0 <= l < k ==> (#[trigger] v@[l])@ != s@,
        decreases v@.len() - k,
    {
        if v[k] == *s {
            return true;
        }
        k = k + 1;
    }
    false
}

/// Appending one link extends the selection for its own (base, type)
/// pair and leaves every selection otherwise unchanged.
pub proof fn lemma_links_for_push(ls: Seq<LinkRecord>, r: LinkRecord, base: Seq<char>, lt: Seq<
    char,
>)
    ensures
        links_for(ls.push(r), base, lt) == (if r.base@ == base && r.link_type@ == lt {
            links_for(ls, base, lt).push(r)
        } else {
            links_for(ls, base, lt)
        }),
{
    assert(ls.push(r).drop_last() =~= ls);
    assert(ls.push(r).last() == r);
}

/// After the links of a (base, type) pair are dropped, the selection
/// for that pair is empty.
pub proof fn lemma_links_for_not_for(ls: Seq<LinkRecord>, base: Seq<char>, lt: Seq<char>)
    ensures
        links_for(links_not_for(ls, base, lt), base, lt) =~= Seq::<LinkRecord>::empty(),
    decreases ls.len(),
{
    if ls.len() > 0 {
        lemma_links_for_not_for(ls.drop_last(), base, lt);
        if !(ls.last().base@ == base && ls.last().link_type@ == lt) {
            lemma_links_for_push(links_not_for(ls.drop_last(), base, lt), ls.last(), base, lt);
            assert(links_not_for(ls, base, lt) =~= links_not_for(ls.drop_last(), base, lt).push(
                ls.last(),
            ));
        }
    }
}

/// Dropping one (base, type) pair's links leaves every other pair's
/// selection unchanged.
pub proof fn lemma_links_not_for_other(
    ls: Seq<LinkRecord>,
    base: Seq<char>,
    lt: Seq<char>,
    b: Seq<char>,
    l: Seq<char>,
)
    requires
        !(b == base && l == lt),
    ensures
        links_for(links_not_for(ls, base, lt), b, l) == links_for(ls, b, l),
    decreases ls.len(),
{
    if ls.len() > 0 {
        lemma_links_not_for_other(ls.drop_last(), base, lt, b, l);
        let last = ls.last();
        if last.base@ == base && last.link_type@ == lt {
            assert(!(last.base@ == b && last.link_type@ == l));
        } else {
            lemma_links_for_push(links_not_for(ls.drop_last(), base, lt), last, b, l);
            assert(links_not_for(ls, base, lt) =~= links_not_for(ls.drop_last(), base, lt).push(
                last,
            ));
        }
    }
}

/// The content-addressed store and link index.
pub struct Store {
    pub entries: Vec<EntryRecord>,
    pub links: Vec<LinkRecord>,
}

impl Store {
    /// Every record's address is the one the addressing rule assigns to
    /// its value, and no two records share an address.
    pub open spec fn wf(self) -> bool {
        &&& forall|i: int|
            0 <= i < self.entries@.len() ==> (#[trigger] self.entries@[i]).address@ == entry_addr(
                self.entries@[i].value,
            )
        &&& forall|i: int, j: int|
            0 <= i < j < self.entries@.len() ==> (#[trigger] self.entries@[i]).address@ != (
            #[trigger] self.entries@[j]).address@
    }

    /// An empty store.
    pub fn new() -> (s: Store)
        ensures
            s.wf(),
            s.entries@ =~= Seq::<EntryRecord>::empty(),
            s.links@ =~= Seq::<LinkRecord>::empty(),
    {
        Store { entries: Vec::new(), links: Vec::new() }
    }

    /// Whether an entry is stored under `a`.
    pub fn contains(&self, a: &String) -> (r: bool)
        ensures
            r == addr_in(self.entries@, a@),
    {
        let n = self.entries.len();
        let mut i: usize = 0;
        while i < n
            invariant
                0 <= i <= n,
                n == self.entries@.len(),
                forall|k: int| 0 <= k < i ==> (#[trigger] self.entries@[k]).address@ != a@,
            decreases n - i,
        {
            if self.entries[i].address == *a {
                return true;
            }
            i = i + 1;
        }
        false
    }

    /// The entry stored under `a`, if any.
    pub fn get<'a>(&'a self, a: &String) -> (r: Option<&'a EntryValue>)
        ensures
            match r {
                Some(v) => lookup(self.entries@, a@) == Some(*v),
                None => lookup(self.entries@, a@) is None,
            },
    {
        let n = self.entries.len();
        let mut i: usize = 0;
        proof {
            assert(self.entries@.skip(0) =~= self.entries@);
        }
        while i < n
            invariant
                0 <= i <= n,
                n == self.entries@.len(),
                forall|k: int| 0 <= k < i ==> (#[trigger] self.entries@[k]).address@ != a@,
                lookup(self.entries@, a@) == lookup(self.entries@.skip(i as int), a@),
            decreases n - i,
        {
            proof {
                assert(self.entries@.skip(i as int)[0] == self.entries@[i as int]);
                assert(self.entries@.skip(i as int).drop_first() =~= self.entries@.skip(
                    i as int + 1,
                ));
            }
            if self.entries[i].address == *a {
                return Some(&self.entries[i].value);
            }
            i = i + 1;
        }
        proof {
            assert(self.entries@.skip(n as int) =~= Seq::<EntryRecord>::empty());
        }
        None
    }

    /// Stores `e` under its content address, unless that address is
    /// already taken, and returns the address. Identical entries thus
    /// land on the same address: creation is idempotent.
    pub fn put(&mut self, e: EntryValue) -> (a: String)
        requires
            old(self).wf(),
        ensures
            final(self).wf(),
            a@ == entry_addr(e),
            final(self).links == old(self).links,
            final(self).entries@ == (if addr_in(old(self).entries@, entry_addr(e)) {
                old(self).entries@
            } else {
                old(self).entries@.push(EntryRecord { address: a, value: e })
            }),
            lookup(final(self).entries@, a@) matches Some(v) && entry_like(v, e),
    {
        let a = entry_address(&e);
        if self.contains(&a) {
            proof {
                lemma_found_is_like(*self, e);
            }
            return a;
        }
        let record = EntryRecord { address: a.clone(), value: e };
        self.entries.push(record);
        proof {
            lemma_found_is_like(*self, final(self).entries@.last().value);
        }
        a
    }

    /// Appends one link to the index.
    pub fn link_entries(&mut self, base: &String, target: &String, link_type: &String, tag: &String)
        ensures
            final(self).entries == old(self).entries,
            final(self).links@ == old(self).links@.push(
                (LinkRecord {
                    base: *base,
                    link_type: *link_type,
                    tag: *tag,
                    target: *target,
                }),
            ),
            final(self).wf() == old(self).wf(),
    {
        let record = LinkRecord {
            base: base.clone(),
            link_type: link_type.clone(),
            tag: tag.clone(),
            target: target.clone(),
        };
        self.links.push(record);
    }

    /// The links under `base` of type `lt`, in insertion order.
    pub fn get_links(&self, base: &String, lt: &String) -> (r: Vec<LinkRecord>)
        ensures
            r@ == links_for(self.links@, base@, lt@),
    {
        let n = self.links.len();
        let mut out: Vec<LinkRecord> = Vec::new();
        let mut i: usize = 0;
        while i < n
            invariant
                0 <= i <= n,
                n == self.links@.len(),
                out@ == links_for(self.links@.take(i as int), base@, lt@),
            decreases n - i,
        {
            proof {
                assert(self.links@.take(i as int + 1).drop_last() =~= self.links@.take(i as int));
                assert(self.links@.take(i as int + 1).last() == self.links@[i as int]);
            }
            if self.links[i].base == *base && self.links[i].link_type == *lt {
                out.push(self.links[i].duplicate());
            }
            i = i + 1;
        }
        proof {
            assert(self.links@.take(n as int) =~= self.links@);
        }
        out
    }

    /// How many links stand under `base` of type `lt`.
    pub fn get_links_count(&self, base: &String, lt: &String) -> (r: usize)
        ensures
            r == links_for(self.links@, base@, lt@).len(),
    {
        let links = self.get_links(base, lt);
        links.len()
    }

    /// Drops every link under `base` of type `lt`, keeping the rest in
    /// order. The proxy layer uses this when it re-establishes a
    /// mapping; everything else is append-only.
    pub fn remove_links(&mut self, base: &String, lt: &String)
        ensures
            final(self).entries == old(self).entries,
            final(self).links@ == links_not_for(old(self).links@, base@, lt@),
            final(self).wf() == old(self).wf(),
    {
        let n = self.links.len();
        let mut kept: Vec<LinkRecord> = Vec::new();
        let mut i: usize = 0;
        while i < n
            invariant
                0 <= i <= n,
                n == self.links@.len(),
                kept@ == links_not_for(self.links@.take(i as int), base@, lt@),
            decreases n - i,
        {
            proof {
                assert(self.links@.take(i as int + 1).drop_last() =~= self.links@.take(i as int));
                assert(self.links@.take(i as int + 1).last() == self.links@[i as int]);
            }
            if !(self.links[i].base == *base && self.links[i].link_type == *lt) {
                kept.push(self.links[i].duplicate());
            }
            i = i + 1;
        }
        proof {
            assert(self.links@.take(n as int) =~= self.links@);
        }
        self.links = kept;
    }
}

} // verus!
