//! The version-control object model: commits, perspectives, contexts,
//! tree objects and anchors, together with the canonical serialization
//! from which the modeled store derives every entry's address.
//!
//! Serialization is length-prefixed (`<len>#<text>`), so an entry's
//! address is a deterministic function of its fields: identical fields
//! always give identical addresses.

use vstd::prelude::*;

use crate::num::{dec_digits, u64_to_dec};

verus! {

/// An immutable, content-addressed snapshot with parent pointers.
/// Commits form a DAG through `parents_ids`.
pub struct Commit {
    pub creator_id: String,
    pub timestamp: u64,
    pub message: String,
    /// Address of the payload this commit snapshots.
    pub data_id: String,
    /// Ordered list of zero or more parent commit addresses.
    pub parents_ids: Vec<String>,
}

/// A named mutable pointer ("branch"). Only the identity fields live on
/// the entity; its head and context are tracked through the versioned
/// reference log.
pub struct Perspective {
    pub creator_id: String,
    pub timestamp: u64,
    /// Replica identifier this perspective originates from.
    pub origin: String,
    pub name: Option<String>,
}

/// A grouping identity under which related perspectives are organized.
/// The nonce makes otherwise-identical contexts content-distinguishable.
pub struct Context {
    pub creator_id: String,
    pub timestamp: u64,
    pub nonce: u64,
}

/// One named child of a tree object.
pub struct Link {
    pub name: String,
    pub address: String,
}

/// Tree-like content: an optional scalar data slot plus named links to
/// child addresses. This is what the three-way merge operates on.
pub struct Object {
    pub data: Option<String>,
    pub links: Vec<Link>,
}

/// An index entry: a pair of a kind and a text, stored so that links can
/// hang off a deterministic address (the proxy layer relies on it).
pub struct Anchor {
    pub anchor_type: String,
    pub anchor_text: String,
}

/// Everything the modeled content store can hold, as a tagged union;
/// the store and the merge engine match on it exhaustively.
pub enum EntryValue {
    Commit(Commit),
    Perspective(Perspective),
    Context(Context),
    Object(Object),
    Anchor(Anchor),
}

impl Commit {
    pub fn new(
        data_id: String,
        parents_ids: Vec<String>,
        message: String,
        timestamp: u64,
        creator_id: String,
    ) -> (c: Commit)
        ensures
            c.data_id == data_id,
            c.parents_ids == parents_ids,
            c.message == message,
            c.timestamp == timestamp,
            c.creator_id == creator_id,
    {
        Commit { creator_id, timestamp, message, data_id, parents_ids }
    }
}

/// Field-for-field agreement of two commits: the strings are the same
/// values and the parent lists hold the same addresses, so both
/// serialize — and address — identically.
pub open spec fn commit_like(a: Commit, b: Commit) -> bool {
    &&& a.creator_id == b.creator_id
    &&& a.timestamp == b.timestamp
    &&& a.message == b.message
    &&& a.data_id == b.data_id
    &&& a.parents_ids@ == b.parents_ids@
}

/// Copies a list of addresses, keeping each element's value.
pub fn clone_addresses(v: &Vec<String>) -> (r: Vec<String>)
    ensures
        r@ == v@,
{
    let mut r: Vec<String> = Vec::new();
    let mut i: usize = 0;
    while i < v.len()
        invariant
            0 <= i <= v@.len(),
            r@ =~= v@.take(i as int),
        decreases v@.len() - i,
    {
        r.push(v[i].clone());
        i = i + 1;
    }
    proof {
        assert(v@.take(v@.len() as int) =~= v@);
    }
    r
}

impl Commit {
    /// A field-for-field copy.
    pub fn duplicate(&self) -> (c: Commit)
        ensures
            commit_like(c, *self),
    {
        Commit {
            creator_id: self.creator_id.clone(),
            timestamp: self.timestamp,
            message: self.message.clone(),
            data_id: self.data_id.clone(),
            parents_ids: clone_addresses(&self.parents_ids),
        }
    }
}

/// Commits that agree field for field serialize identically.
pub proof fn lemma_commit_like_serial(a: Commit, b: Commit)
    requires
        commit_like(a, b),
    ensures
        serial_of(EntryValue::Commit(a)) == serial_of(EntryValue::Commit(b)),
        a.parents_ids.deep_view() == b.parents_ids.deep_view(),
{
    assert(a.parents_ids.deep_view() =~= b.parents_ids.deep_view());
}

impl Perspective {
    pub fn new(name: Option<String>, timestamp: u64, origin: String, creator_id: String) -> (p:
        Perspective)
        ensures
            p.name == name,
            p.timestamp == timestamp,
            p.origin == origin,
            p.creator_id == creator_id,
    {
        Perspective { creator_id, timestamp, origin, name }
    }
}

impl Context {
    pub fn new(timestamp: u64, nonce: u64, creator_id: String) -> (c: Context)
        ensures
            c.timestamp == timestamp,
            c.nonce == nonce,
            c.creator_id == creator_id,
    {
        Context { creator_id, timestamp, nonce }
    }
}

/// Copies a link list, keeping each element's value.
pub fn clone_links(v: &Vec<Link>) -> (r: Vec<Link>)
    ensures
        r@ == v@,
{
    let mut r: Vec<Link> = Vec::new();
    let mut i: usize = 0;
    while i < v.len()
        invariant
            0 <= i <= v@.len(),
            r@ =~= v@.take(i as int),
        decreases v@.len() - i,
    {
        let l = Link { name: v[i].name.clone(), address: v[i].address.clone() };
        proof {
            assert(l == v@[i as int]);
        }
        r.push(l);
        i = i + 1;
    }
    proof {
        assert(v@.take(v@.len() as int) =~= v@);
    }
    r
}

/// Field-for-field agreement of two tree objects: same data slot and
/// the same link list, so both serialize identically and carry the same
/// mapping.
pub open spec fn object_like(a: Object, b: Object) -> bool {
    a.data == b.data && a.links@ == b.links@
}

impl Object {
    /// A field-for-field copy.
    pub fn duplicate(&self) -> (o: Object)
        ensures
            object_like(o, *self),
    {
        let data = match &self.data {
            Option::None => Option::<String>::None,
            Option::Some(d) => Option::Some(d.clone()),
        };
        Object { data, links: clone_links(&self.links) }
    }
}

impl Link {
    pub fn new(name: String, address: String) -> (l: Link)
        ensures
            l.name == name,
            l.address == address,
    {
        Link { name, address }
    }
}

impl Object {
    pub fn new(data: Option<String>, links: Vec<Link>) -> (o: Object)
        ensures
            o.data == data,
            o.links == links,
    {
        Object { data, links }
    }

    /// The names of a well-formed object's links are distinct, so the
    /// link list denotes a mapping from names to child addresses.
    pub open spec fn wf(self) -> bool {
        forall|i: int, j: int|
            0 <= i < j < self.links@.len() ==> (#[trigger] self.links@[i]).name@ != (
            #[trigger] self.links@[j]).name@
    }

    /// The child address under `name`, if any: the first link wins.
    pub open spec fn link_at(self, name: Seq<char>) -> Option<Seq<char>> {
        link_lookup(self.links@, name)
    }
}

/// The first link named `name`, scanning from the front.
pub open spec fn link_lookup(ls: Seq<Link>, name: Seq<char>) -> Option<Seq<char>>
    decreases ls.len(),
{
    if ls.len() == 0 {
        None
    } else if ls[0].name@ == name {
        Some(ls[0].address@)
    } else {
        link_lookup(ls.drop_first(), name)
    }
}

/// Length-prefixed rendering of one string: `<len>#<text>`.
pub open spec fn lp(s: Seq<char>) -> Seq<char> {
    dec_digits(s.len()) + seq!['#'] + s
}

/// Rendering of an optional string: `N`, or `S` followed by the string.
pub open spec fn opt_lp(o: Option<Seq<char>>) -> Seq<char> {
    match o {
        Option::None => seq!['N'],
        Option::Some(s) => seq!['S'] + lp(s),
    }
}

/// Rendering of the items of a string list, in order.
pub open spec fn items_lp(items: Seq<Seq<char>>) -> Seq<char>
    decreases items.len(),
{
    if items.len() == 0 {
        Seq::<char>::empty()
    } else {
        items_lp(items.drop_last()) + lp(items.last())
    }
}

/// Rendering of a string list: its length, then each item.
pub open spec fn list_lp(items: Seq<Seq<char>>) -> Seq<char> {
    dec_digits(items.len()) + seq!['#'] + items_lp(items)
}

/// Rendering of the links of a tree object, in order.
pub open spec fn links_lp(ls: Seq<Link>) -> Seq<char>
    decreases ls.len(),
{
    if ls.len() == 0 {
        Seq::<char>::empty()
    } else {
        links_lp(ls.drop_last()) + lp(ls.last().name@) + lp(ls.last().address@)
    }
}

/// The serialization of a commit, over the views of its fields.
pub open spec fn commit_serial(
    creator: Seq<char>,
    timestamp: u64,
    message: Seq<char>,
    data: Seq<char>,
    parents: Seq<Seq<char>>,
) -> Seq<char> {
    seq!['C'] + lp(creator) + lp(dec_digits(timestamp as nat)) + lp(message) + lp(data) + list_lp(
        parents,
    )
}

/// The serialization of a perspective, over the views of its fields.
pub open spec fn perspective_serial(
    creator: Seq<char>,
    timestamp: u64,
    origin: Seq<char>,
    name: Option<Seq<char>>,
) -> Seq<char> {
    seq!['P'] + lp(creator) + lp(dec_digits(timestamp as nat)) + lp(origin) + opt_lp(name)
}

/// The serialization of a context, over the views of its fields.
pub open spec fn context_serial(creator: Seq<char>, timestamp: u64, nonce: u64) -> Seq<char> {
    seq!['X'] + lp(creator) + lp(dec_digits(timestamp as nat)) + lp(dec_digits(nonce as nat))
}

/// The canonical serialization of an entry: a variant tag, then each
/// field in a fixed order. Identical fields give identical text.
pub open spec fn serial_of(e: EntryValue) -> Seq<char> {
    match e {
        EntryValue::Commit(c) => commit_serial(
            c.creator_id@,
            c.timestamp,
            c.message@,
            c.data_id@,
            c.parents_ids.deep_view(),
        ),
        EntryValue::Perspective(p) => perspective_serial(
            p.creator_id@,
            p.timestamp,
            p.origin@,
            p.name.deep_view(),
        ),
        EntryValue::Context(x) => context_serial(x.creator_id@, x.timestamp, x.nonce),
        EntryValue::Object(o) => seq!['O'] + opt_lp(o.data.deep_view()) + dec_digits(
            o.links@.len(),
        ) + seq!['#'] + links_lp(o.links@),
        EntryValue::Anchor(a) => seq!['A'] + lp(a.anchor_type@) + lp(a.anchor_text@),
    }
}

/// The store's address of the commit with the given field views.
pub open spec fn commit_addr(
    creator: Seq<char>,
    timestamp: u64,
    message: Seq<char>,
    data: Seq<char>,
    parents: Seq<Seq<char>>,
) -> Seq<char> {
    local_prefix() + commit_serial(creator, timestamp, message, data, parents)
}

/// The store's address of the perspective with the given field views.
pub open spec fn perspective_addr(
    creator: Seq<char>,
    timestamp: u64,
    origin: Seq<char>,
    name: Option<Seq<char>>,
) -> Seq<char> {
    local_prefix() + perspective_serial(creator, timestamp, origin, name)
}

/// The store's address of the context with the given field views.
pub open spec fn context_addr(creator: Seq<char>, timestamp: u64, nonce: u64) -> Seq<char> {
    local_prefix() + context_serial(creator, timestamp, nonce)
}

/// The native address prefix of the modeled store.
pub open spec fn local_prefix() -> Seq<char> {
    seq!['l', 'o', 'c', 'a', 'l', ':']
}

/// The store's address for an entry: its canonical serialization behind
/// a fixed prefix. The real substrate digests the same serialization;
/// here the serialization itself serves, which keeps the address a
/// deterministic function of the entry's fields.
pub open spec fn entry_addr(e: EntryValue) -> Seq<char> {
    local_prefix() + serial_of(e)
}

/// Two equally long prefixes of the same text are the same, and so are
/// the remainders.
proof fn lemma_concat_eq_len(a: Seq<char>, b: Seq<char>, r1: Seq<char>, r2: Seq<char>)
    requires
        a.len() == b.len(),
        a + r1 == b + r2,
    ensures
        a == b,
        r1 == r2,
{
    let s = a + r1;
    assert(a =~= s.subrange(0, a.len() as int));
    assert(b =~= s.subrange(0, a.len() as int));
    assert(r1 =~= s.subrange(a.len() as int, s.len() as int));
    assert(r2 =~= s.subrange(a.len() as int, s.len() as int));
}

/// A `<digits>#` prefix decodes unambiguously: the first `#` ends the
/// digits, digits contain no `#`, so both the number and the remainder
/// are determined.
proof fn lemma_count_peel(n1: nat, n2: nat, r1: Seq<char>, r2: Seq<char>)
    requires
        dec_digits(n1) + seq!['#'] + r1 == dec_digits(n2) + seq!['#'] + r2,
    ensures
        n1 == n2,
        r1 == r2,
{
    crate::num::lemma_dec_digits(n1);
    crate::num::lemma_dec_digits(n2);
    let d1 = dec_digits(n1);
    let d2 = dec_digits(n2);
    let s = d1 + seq!['#'] + r1;
    assert(s[d1.len() as int] == '#');
    assert(s[d2.len() as int] == '#');
    if d1.len() < d2.len() {
        assert(s[d1.len() as int] == d2[d1.len() as int]);
        assert(crate::num::is_digit(d2[d1.len() as int]));
        assert('#' as u32 == 35);
    }
    if d2.len() < d1.len() {
        assert(s[d2.len() as int] == d1[d2.len() as int]);
        assert(crate::num::is_digit(d1[d2.len() as int]));
        assert('#' as u32 == 35);
    }
    assert(d1.len() == d2.len());
    lemma_concat_eq_len(d1 + seq!['#'], d2 + seq!['#'], r1, r2);
    assert(d1 =~= (d1 + seq!['#']).subrange(0, d1.len() as int));
    assert(d2 =~= (d2 + seq!['#']).subrange(0, d1.len() as int));
    assert(crate::num::dec_val(d1) == crate::num::dec_val(d2));
}

/// A length-prefixed field decodes unambiguously.
proof fn lemma_lp_peel(a: Seq<char>, b: Seq<char>, r1: Seq<char>, r2: Seq<char>)
    requires
        lp(a) + r1 == lp(b) + r2,
    ensures
        a == b,
        r1 == r2,
{
    assert(lp(a) + r1 =~= dec_digits(a.len()) + seq!['#'] + (a + r1));
    assert(lp(b) + r2 =~= dec_digits(b.len()) + seq!['#'] + (b + r2));
    lemma_count_peel(a.len(), b.len(), a + r1, b + r2);
    lemma_concat_eq_len(a, b, r1, r2);
}

/// An optional field decodes unambiguously: the leading marker settles
/// presence, the length prefix the rest.
proof fn lemma_opt_peel(
    a: Option<Seq<char>>,
    b: Option<Seq<char>>,
    r1: Seq<char>,
    r2: Seq<char>,
)
    requires
        opt_lp(a) + r1 == opt_lp(b) + r2,
    ensures
        a == b,
        r1 == r2,
{
    let s = opt_lp(a) + r1;
    assert(s[0] == (match a {
        Option::None => 'N',
        Option::Some(_) => 'S',
    }));
    assert(s[0] == (match b {
        Option::None => 'N',
        Option::Some(_) => 'S',
    }));
    match (a, b) {
        (Option::None, Option::None) => {
            lemma_concat_eq_len(seq!['N'], seq!['N'], r1, r2);
        },
        (Option::Some(x), Option::Some(y)) => {
            assert(s =~= seq!['S'] + (lp(x) + r1));
            assert(opt_lp(b) + r2 =~= seq!['S'] + (lp(y) + r2));
            lemma_concat_eq_len(seq!['S'], seq!['S'], lp(x) + r1, lp(y) + r2);
            lemma_lp_peel(x, y, r1, r2);
        },
        _ => {
            assert(false);
        },
    }
}

/// Equally long lists of length-prefixed items decode unambiguously.
proof fn lemma_items_peel(xs: Seq<Seq<char>>, ys: Seq<Seq<char>>, r1: Seq<char>, r2: Seq<char>)
    requires
        xs.len() == ys.len(),
        items_lp(xs) + r1 == items_lp(ys) + r2,
    ensures
        xs == ys,
        r1 == r2,
    decreases xs.len(),
{
    if xs.len() == 0 {
        assert(items_lp(xs) =~= Seq::<char>::empty());
        assert(items_lp(xs) + r1 =~= r1);
        assert(items_lp(ys) + r2 =~= r2);
        assert(xs =~= ys);
    } else {
        lemma_items_lp_front(xs);
        lemma_items_lp_front(ys);
        assert(items_lp(xs) + r1 =~= lp(xs[0]) + (items_lp(xs.drop_first()) + r1));
        assert(items_lp(ys) + r2 =~= lp(ys[0]) + (items_lp(ys.drop_first()) + r2));
        lemma_lp_peel(xs[0], ys[0], items_lp(xs.drop_first()) + r1, items_lp(ys.drop_first()) + r2);
        lemma_items_peel(xs.drop_first(), ys.drop_first(), r1, r2);
        assert forall|i: int| 0 <= i < xs.len() implies xs[i] == ys[i] by {
            if i > 0 {
                assert(xs.drop_first()[i - 1] == xs[i]);
                assert(ys.drop_first()[i - 1] == ys[i]);
            }
        }
        assert(xs =~= ys);
    }
}

/// The rendering of a non-empty list starts with its first item.
proof fn lemma_items_lp_front(xs: Seq<Seq<char>>)
    requires
        xs.len() >= 1,
    ensures
        items_lp(xs) == lp(xs[0]) + items_lp(xs.drop_first()),
    decreases xs.len(),
{
    if xs.len() == 1 {
        assert(xs.drop_last() =~= Seq::<Seq<char>>::empty());
        assert(xs.drop_first() =~= Seq::<Seq<char>>::empty());
        assert(items_lp(xs) =~= lp(xs[0]) + items_lp(xs.drop_first()));
    } else {
        lemma_items_lp_front(xs.drop_last());
        assert(xs.drop_last()[0] == xs[0]);
        assert(xs.drop_last().drop_first() =~= xs.drop_first().drop_last());
        assert(xs.drop_first().last() == xs.last());
        assert(items_lp(xs) == items_lp(xs.drop_last()) + lp(xs.last()));
        assert(items_lp(xs) =~= lp(xs[0]) + items_lp(xs.drop_first()));
    }
}

/// The rendering of a non-empty link list starts with its first link.
proof fn lemma_links_lp_front(xs: Seq<Link>)
    requires
        xs.len() >= 1,
    ensures
        links_lp(xs) == lp(xs[0].name@) + (lp(xs[0].address@) + links_lp(xs.drop_first())),
    decreases xs.len(),
{
    if xs.len() == 1 {
        assert(xs.drop_last() =~= Seq::<Link>::empty());
        assert(xs.drop_first() =~= Seq::<Link>::empty());
        assert(links_lp(xs) =~= lp(xs[0].name@) + (lp(xs[0].address@) + links_lp(
            xs.drop_first(),
        )));
    } else {
        lemma_links_lp_front(xs.drop_last());
        assert(xs.drop_last()[0] == xs[0]);
        assert(xs.drop_last().drop_first() =~= xs.drop_first().drop_last());
        assert(xs.drop_first().last() == xs.last());
        assert(links_lp(xs) == links_lp(xs.drop_last()) + lp(xs.last().name@) + lp(
            xs.last().address@,
        ));
        assert(links_lp(xs) =~= lp(xs[0].name@) + (lp(xs[0].address@) + links_lp(
            xs.drop_first(),
        )));
    }
}

/// Equally long link lists decode unambiguously, up to the views of
/// their names and addresses.
proof fn lemma_links_peel(xs: Seq<Link>, ys: Seq<Link>, r1: Seq<char>, r2: Seq<char>)
    requires
        xs.len() == ys.len(),
        links_lp(xs) + r1 == links_lp(ys) + r2,
    ensures
        forall|i: int|
            0 <= i < xs.len() ==> (#[trigger] xs[i]).name@ == ys[i].name@ && xs[i].address@
                == ys[i].address@,
        r1 == r2,
    decreases xs.len(),
{
    if xs.len() == 0 {
        assert(links_lp(xs) =~= Seq::<char>::empty());
        assert(links_lp(xs) + r1 =~= r1);
        assert(links_lp(ys) + r2 =~= r2);
    } else {
        lemma_links_lp_front(xs);
        lemma_links_lp_front(ys);
        assert(links_lp(xs) + r1 =~= lp(xs[0].name@) + (lp(xs[0].address@) + (links_lp(
            xs.drop_first(),
        ) + r1)));
        assert(links_lp(ys) + r2 =~= lp(ys[0].name@) + (lp(ys[0].address@) + (links_lp(
            ys.drop_first(),
        ) + r2)));
        lemma_lp_peel(
            xs[0].name@,
            ys[0].name@,
            lp(xs[0].address@) + (links_lp(xs.drop_first()) + r1),
            lp(ys[0].address@) + (links_lp(ys.drop_first()) + r2),
        );
        lemma_lp_peel(
            xs[0].address@,
            ys[0].address@,
            links_lp(xs.drop_first()) + r1,
            links_lp(ys.drop_first()) + r2,
        );
        lemma_links_peel(xs.drop_first(), ys.drop_first(), r1, r2);
        assert forall|i: int| 0 <= i < xs.len() implies (#[trigger] xs[i]).name@ == ys[i].name@
            && xs[i].address@ == ys[i].address@ by {
            if i > 0 {
                assert(xs.drop_first()[i - 1] == xs[i]);
                assert(ys.drop_first()[i - 1] == ys[i]);
            }
        }
    }
}

/// A length-prefixed list decodes unambiguously.
proof fn lemma_list_peel(xs: Seq<Seq<char>>, ys: Seq<Seq<char>>, r1: Seq<char>, r2: Seq<char>)
    requires
        list_lp(xs) + r1 == list_lp(ys) + r2,
    ensures
        xs == ys,
        r1 == r2,
{
    assert(list_lp(xs) + r1 =~= dec_digits(xs.len()) + seq!['#'] + (items_lp(xs) + r1));
    assert(list_lp(ys) + r2 =~= dec_digits(ys.len()) + seq!['#'] + (items_lp(ys) + r2));
    lemma_count_peel(xs.len(), ys.len(), items_lp(xs) + r1, items_lp(ys) + r2);
    lemma_items_peel(xs, ys, r1, r2);
}

/// Agreement of two entries up to the views of their fields: both are
/// the same variant and every field carries the same text or number.
pub open spec fn entry_like(a: EntryValue, b: EntryValue) -> bool {
    match (a, b) {
        (EntryValue::Commit(x), EntryValue::Commit(y)) => {
            &&& x.creator_id@ == y.creator_id@
            &&& x.timestamp == y.timestamp
            &&& x.message@ == y.message@
            &&& x.data_id@ == y.data_id@
            &&& x.parents_ids.deep_view() == y.parents_ids.deep_view()
        },
        (EntryValue::Perspective(x), EntryValue::Perspective(y)) => {
            &&& x.creator_id@ == y.creator_id@
            &&& x.timestamp == y.timestamp
            &&& x.origin@ == y.origin@
            &&& x.name.deep_view() == y.name.deep_view()
        },
        (EntryValue::Context(x), EntryValue::Context(y)) => {
            &&& x.creator_id@ == y.creator_id@
            &&& x.timestamp == y.timestamp
            &&& x.nonce == y.nonce
        },
        (EntryValue::Object(x), EntryValue::Object(y)) => {
            &&& x.data.deep_view() == y.data.deep_view()
            &&& x.links@.len() == y.links@.len()
            &&& forall|i: int|
                0 <= i < x.links@.len() ==> (#[trigger] x.links@[i]).name@ == y.links@[i].name@
                    && x.links@[i].address@ == y.links@[i].address@
        },
        (EntryValue::Anchor(x), EntryValue::Anchor(y)) => {
            &&& x.anchor_type@ == y.anchor_type@
            &&& x.anchor_text@ == y.anchor_text@
        },
        _ => false,
    }
}

#[verifier::rlimit(60)]
proof fn lemma_commit_serial_inj(x: Commit, y: Commit)
    requires
        serial_of(EntryValue::Commit(x)) == serial_of(EntryValue::Commit(y)),
    ensures
        entry_like(EntryValue::Commit(x), EntryValue::Commit(y)),
{
    let tx = lp(dec_digits(x.timestamp as nat)) + (lp(x.message@) + (lp(x.data_id@)
        + list_lp(x.parents_ids.deep_view())));
    let ty = lp(dec_digits(y.timestamp as nat)) + (lp(y.message@) + (lp(y.data_id@)
        + list_lp(y.parents_ids.deep_view())));
    assert(serial_of(EntryValue::Commit(x)) =~= seq!['C'] + (lp(x.creator_id@) + tx));
    assert(serial_of(EntryValue::Commit(y)) =~= seq!['C'] + (lp(y.creator_id@) + ty));
    lemma_concat_eq_len(seq!['C'], seq!['C'], lp(x.creator_id@) + tx, lp(y.creator_id@)
        + ty);
    lemma_lp_peel(x.creator_id@, y.creator_id@, tx, ty);
    lemma_lp_peel(
        dec_digits(x.timestamp as nat),
        dec_digits(y.timestamp as nat),
        lp(x.message@) + (lp(x.data_id@) + list_lp(x.parents_ids.deep_view())),
        lp(y.message@) + (lp(y.data_id@) + list_lp(y.parents_ids.deep_view())),
    );
    crate::num::lemma_dec_digits(x.timestamp as nat);
    crate::num::lemma_dec_digits(y.timestamp as nat);
    lemma_lp_peel(
        x.message@,
        y.message@,
        lp(x.data_id@) + list_lp(x.parents_ids.deep_view()),
        lp(y.data_id@) + list_lp(y.parents_ids.deep_view()),
    );
    lemma_lp_peel(
        x.data_id@,
        y.data_id@,
        list_lp(x.parents_ids.deep_view()),
        list_lp(y.parents_ids.deep_view()),
    );
    assert(list_lp(x.parents_ids.deep_view()) + Seq::<char>::empty() =~= list_lp(
        x.parents_ids.deep_view(),
    ));
    assert(list_lp(y.parents_ids.deep_view()) + Seq::<char>::empty() =~= list_lp(
        y.parents_ids.deep_view(),
    ));
    lemma_list_peel(
        x.parents_ids.deep_view(),
        y.parents_ids.deep_view(),
        Seq::<char>::empty(),
        Seq::<char>::empty(),
    );}

#[verifier::rlimit(60)]
proof fn lemma_perspective_serial_inj(x: Perspective, y: Perspective)
    requires
        serial_of(EntryValue::Perspective(x)) == serial_of(EntryValue::Perspective(y)),
    ensures
        entry_like(EntryValue::Perspective(x), EntryValue::Perspective(y)),
{
    let tx = lp(dec_digits(x.timestamp as nat)) + (lp(x.origin@) + opt_lp(
        x.name.deep_view(),
    ));
    let ty = lp(dec_digits(y.timestamp as nat)) + (lp(y.origin@) + opt_lp(
        y.name.deep_view(),
    ));
    assert(serial_of(EntryValue::Perspective(x)) =~= seq!['P'] + (lp(x.creator_id@) + tx));
    assert(serial_of(EntryValue::Perspective(y)) =~= seq!['P'] + (lp(y.creator_id@) + ty));
    lemma_concat_eq_len(seq!['P'], seq!['P'], lp(x.creator_id@) + tx, lp(y.creator_id@)
        + ty);
    lemma_lp_peel(x.creator_id@, y.creator_id@, tx, ty);
    lemma_lp_peel(
        dec_digits(x.timestamp as nat),
        dec_digits(y.timestamp as nat),
        lp(x.origin@) + opt_lp(x.name.deep_view()),
        lp(y.origin@) + opt_lp(y.name.deep_view()),
    );
    crate::num::lemma_dec_digits(x.timestamp as nat);
    crate::num::lemma_dec_digits(y.timestamp as nat);
    lemma_lp_peel(x.origin@, y.origin@, opt_lp(x.name.deep_view()), opt_lp(
        y.name.deep_view(),
    ));
    assert(opt_lp(x.name.deep_view()) + Seq::<char>::empty() =~= opt_lp(
        x.name.deep_view(),
    ));
    assert(opt_lp(y.name.deep_view()) + Seq::<char>::empty() =~= opt_lp(
        y.name.deep_view(),
    ));
    lemma_opt_peel(
        x.name.deep_view(),
        y.name.deep_view(),
        Seq::<char>::empty(),
        Seq::<char>::empty(),
    );}

#[verifier::rlimit(60)]
proof fn lemma_context_serial_inj(x: Context, y: Context)
    requires
        serial_of(EntryValue::Context(x)) == serial_of(EntryValue::Context(y)),
    ensures
        entry_like(EntryValue::Context(x), EntryValue::Context(y)),
{
    let tx = lp(dec_digits(x.timestamp as nat)) + lp(dec_digits(x.nonce as nat));
    let ty = lp(dec_digits(y.timestamp as nat)) + lp(dec_digits(y.nonce as nat));
    assert(serial_of(EntryValue::Context(x)) =~= seq!['X'] + (lp(x.creator_id@) + tx));
    assert(serial_of(EntryValue::Context(y)) =~= seq!['X'] + (lp(y.creator_id@) + ty));
    lemma_concat_eq_len(seq!['X'], seq!['X'], lp(x.creator_id@) + tx, lp(y.creator_id@)
        + ty);
    lemma_lp_peel(x.creator_id@, y.creator_id@, tx, ty);
    lemma_lp_peel(
        dec_digits(x.timestamp as nat),
        dec_digits(y.timestamp as nat),
        lp(dec_digits(x.nonce as nat)),
        lp(dec_digits(y.nonce as nat)),
    );
    assert(lp(dec_digits(x.nonce as nat)) + Seq::<char>::empty() =~= lp(
        dec_digits(x.nonce as nat),
    ));
    assert(lp(dec_digits(y.nonce as nat)) + Seq::<char>::empty() =~= lp(
        dec_digits(y.nonce as nat),
    ));
    lemma_lp_peel(
        dec_digits(x.nonce as nat),
        dec_digits(y.nonce as nat),
        Seq::<char>::empty(),
        Seq::<char>::empty(),
    );
    crate::num::lemma_dec_digits(x.timestamp as nat);
    crate::num::lemma_dec_digits(y.timestamp as nat);
    crate::num::lemma_dec_digits(x.nonce as nat);
    crate::num::lemma_dec_digits(y.nonce as nat);}

#[verifier::rlimit(60)]
proof fn lemma_object_serial_inj(x: Object, y: Object)
    requires
        serial_of(EntryValue::Object(x)) == serial_of(EntryValue::Object(y)),
    ensures
        entry_like(EntryValue::Object(x), EntryValue::Object(y)),
{
    let tx = dec_digits(x.links@.len()) + seq!['#'] + links_lp(x.links@);
    let ty = dec_digits(y.links@.len()) + seq!['#'] + links_lp(y.links@);
    assert(serial_of(EntryValue::Object(x)) =~= seq!['O'] + (opt_lp(x.data.deep_view()) + tx));
    assert(serial_of(EntryValue::Object(y)) =~= seq!['O'] + (opt_lp(y.data.deep_view()) + ty));
    lemma_concat_eq_len(
        seq!['O'],
        seq!['O'],
        opt_lp(x.data.deep_view()) + tx,
        opt_lp(y.data.deep_view()) + ty,
    );
    lemma_opt_peel(x.data.deep_view(), y.data.deep_view(), tx, ty);
    assert(tx =~= dec_digits(x.links@.len()) + seq!['#'] + links_lp(x.links@));
    lemma_count_peel(x.links@.len(), y.links@.len(), links_lp(x.links@), links_lp(
        y.links@,
    ));
    assert(links_lp(x.links@) + Seq::<char>::empty() =~= links_lp(x.links@));
    assert(links_lp(y.links@) + Seq::<char>::empty() =~= links_lp(y.links@));
    lemma_links_peel(x.links@, y.links@, Seq::<char>::empty(), Seq::<char>::empty());}

#[verifier::rlimit(60)]
proof fn lemma_anchor_serial_inj(x: Anchor, y: Anchor)
    requires
        serial_of(EntryValue::Anchor(x)) == serial_of(EntryValue::Anchor(y)),
    ensures
        entry_like(EntryValue::Anchor(x), EntryValue::Anchor(y)),
{
    assert(serial_of(EntryValue::Anchor(x)) =~= seq!['A'] + (lp(x.anchor_type@) + lp(x.anchor_text@)));
    assert(serial_of(EntryValue::Anchor(y)) =~= seq!['A'] + (lp(y.anchor_type@) + lp(y.anchor_text@)));
    lemma_concat_eq_len(
        seq!['A'],
        seq!['A'],
        lp(x.anchor_type@) + lp(x.anchor_text@),
        lp(y.anchor_type@) + lp(y.anchor_text@),
    );
    lemma_lp_peel(x.anchor_type@, y.anchor_type@, lp(x.anchor_text@), lp(y.anchor_text@));
    assert(lp(x.anchor_text@) + Seq::<char>::empty() =~= lp(x.anchor_text@));
    assert(lp(y.anchor_text@) + Seq::<char>::empty() =~= lp(y.anchor_text@));
    lemma_lp_peel(
        x.anchor_text@,
        y.anchor_text@,
        Seq::<char>::empty(),
        Seq::<char>::empty(),
    );}

/// The canonical serialization is injective up to field views: two
/// entries that serialize to the same text agree in variant and in
/// every field. Content addressing in the modeled store is therefore
/// collision-free.
pub proof fn lemma_serial_injective(a: EntryValue, b: EntryValue)
    requires
        serial_of(a) == serial_of(b),
    ensures
        entry_like(a, b),
{
    match a {
        EntryValue::Commit(_) => {
            assert(serial_of(a)[0] == 'C');
        },
        EntryValue::Perspective(_) => {
            assert(serial_of(a)[0] == 'P');
        },
        EntryValue::Context(_) => {
            assert(serial_of(a)[0] == 'X');
        },
        EntryValue::Object(_) => {
            assert(serial_of(a)[0] == 'O');
        },
        EntryValue::Anchor(_) => {
            assert(serial_of(a)[0] == 'A');
        },
    }
    match b {
        EntryValue::Commit(_) => {
            assert(serial_of(b)[0] == 'C');
        },
        EntryValue::Perspective(_) => {
            assert(serial_of(b)[0] == 'P');
        },
        EntryValue::Context(_) => {
            assert(serial_of(b)[0] == 'X');
        },
        EntryValue::Object(_) => {
            assert(serial_of(b)[0] == 'O');
        },
        EntryValue::Anchor(_) => {
            assert(serial_of(b)[0] == 'A');
        },
    }
    match (a, b) {
        (EntryValue::Commit(x), EntryValue::Commit(y)) => {
            lemma_commit_serial_inj(x, y);
        },
        (EntryValue::Perspective(x), EntryValue::Perspective(y)) => {
            lemma_perspective_serial_inj(x, y);
        },
        (EntryValue::Context(x), EntryValue::Context(y)) => {
            lemma_context_serial_inj(x, y);
        },
        (EntryValue::Object(x), EntryValue::Object(y)) => {
            lemma_object_serial_inj(x, y);
        },
        (EntryValue::Anchor(x), EntryValue::Anchor(y)) => {
            lemma_anchor_serial_inj(x, y);
        },
        _ => {
            assert(false);
        },
    }
}

/// Appends `<len>#<s>` to `out`.
fn push_lp(out: &mut String, s: &str)
    ensures
        final(out)@ == old(out)@ + lp(s@),
{
    let n = s.unicode_len();
    let digits = u64_to_dec(n as u64);
    out.append(digits.as_str());
    out.append("#");
    out.append(s);
    proof {
        reveal_strlit("#");
        assert(final(out)@ =~= old(out)@ + lp(s@));
    }
}

/// Appends the rendering of an optional string to `out`.
fn push_opt(out: &mut String, o: &Option<String>)
    ensures
        final(out)@ == old(out)@ + opt_lp(o.deep_view()),
{
    match o {
        Option::None => {
            out.append("N");
            proof {
                reveal_strlit("N");
                assert(final(out)@ =~= old(out)@ + opt_lp(o.deep_view()));
            }
        },
        Option::Some(s) => {
            out.append("S");
            push_lp(out, s.as_str());
            proof {
                reveal_strlit("S");
                assert(final(out)@ =~= old(out)@ + opt_lp(o.deep_view()));
            }
        },
    }
}

/// Renders an entry canonically. Equal fields give equal text, so the
/// store's addressing is deterministic.
pub fn serialize_entry(e: &EntryValue) -> (s: String)
    ensures
        s@ == serial_of(*e),
{
    proof {
        reveal_strlit("C");
        reveal_strlit("P");
        reveal_strlit("X");
        reveal_strlit("O");
        reveal_strlit("A");
        reveal_strlit("#");
    }
    match e {
        EntryValue::Commit(c) => {
            let mut out = String::from_str("C");
            push_lp(&mut out, c.creator_id.as_str());
            let ts = u64_to_dec(c.timestamp);
            push_lp(&mut out, ts.as_str());
            push_lp(&mut out, c.message.as_str());
            push_lp(&mut out, c.data_id.as_str());
            let count = u64_to_dec(c.parents_ids.len() as u64);
            out.append(count.as_str());
            out.append("#");
            let ghost items = c.parents_ids.deep_view();
            let ghost base = out@;
            let mut i: usize = 0;
            while i < c.parents_ids.len()
                invariant
                    0 <= i <= c.parents_ids.len(),
                    items == c.parents_ids.deep_view(),
                    items.len() == c.parents_ids.len(),
                    out@ == base + items_lp(items.take(i as int)),
                decreases c.parents_ids.len() - i,
            {
                proof {
                    assert(items.take(i as int + 1).drop_last() =~= items.take(i as int));
                    assert(items.take(i as int + 1).last() == items[i as int]);
                    assert(items[i as int] == c.parents_ids@[i as int]@);
                }
                push_lp(&mut out, c.parents_ids[i].as_str());
                proof {
                    assert(out@ =~= base + items_lp(items.take(i as int + 1)));
                }
                i = i + 1;
            }
            proof {
                assert(items.take(items.len() as int) =~= items);
                assert(out@ =~= serial_of(*e));
            }
            out
        },
        EntryValue::Perspective(p) => {
            let mut out = String::from_str("P");
            push_lp(&mut out, p.creator_id.as_str());
            let ts = u64_to_dec(p.timestamp);
            push_lp(&mut out, ts.as_str());
            push_lp(&mut out, p.origin.as_str());
            push_opt(&mut out, &p.name);
            proof {
                assert(out@ =~= serial_of(*e));
            }
            out
        },
        EntryValue::Context(x) => {
            let mut out = String::from_str("X");
            push_lp(&mut out, x.creator_id.as_str());
            let ts = u64_to_dec(x.timestamp);
            push_lp(&mut out, ts.as_str());
            let nonce = u64_to_dec(x.nonce);
            push_lp(&mut out, nonce.as_str());
            proof {
                assert(out@ =~= serial_of(*e));
            }
            out
        },
        EntryValue::Object(o) => {
            let mut out = String::from_str("O");
            push_opt(&mut out, &o.data);
            let count = u64_to_dec(o.links.len() as u64);
            out.append(count.as_str());
            out.append("#");
            let ghost ls = o.links@;
            let ghost base = out@;
            let mut i: usize = 0;
            while i < o.links.len()
                invariant
                    0 <= i <= o.links.len(),
                    ls == o.links@,
                    out@ == base + links_lp(ls.take(i as int)),
                decreases o.links.len() - i,
            {
                proof {
                    assert(ls.take(i as int + 1).drop_last() =~= ls.take(i as int));
                    assert(ls.take(i as int + 1).last() == ls[i as int]);
                }
                push_lp(&mut out, o.links[i].name.as_str());
                push_lp(&mut out, o.links[i].address.as_str());
                proof {
                    assert(out@ =~= base + links_lp(ls.take(i as int + 1)));
                }
                i = i + 1;
            }
            proof {
                assert(ls.take(ls.len() as int) =~= ls);
                assert(out@ =~= serial_of(*e));
            }
            out
        },
        EntryValue::Anchor(a) => {
            let mut out = String::from_str("A");
            push_lp(&mut out, a.anchor_type.as_str());
            push_lp(&mut out, a.anchor_text.as_str());
            proof {
                assert(out@ =~= serial_of(*e));
            }
            out
        },
    }
}

/// What a caller may ask the store to do with an entry.
pub enum EntryOp {
    Create,
    Modify,
    Delete,
}

/// The write-once policy of the content store: creating an entry is
/// accepted; modifying or deleting one is rejected, since every entry
/// is immutable once stored.
pub fn validate_entry_op(op: &EntryOp) -> (r: Result<(), crate::errors::UprtclError>)
    ensures
        match r {
            Ok(u) => op is Create,
            Err(crate::errors::UprtclError::ValidationRejected) => !(op is Create),
            Err(_) => false,
        },
{
    match op {
        EntryOp::Create => Ok(()),
        _ => Err(crate::errors::UprtclError::ValidationRejected),
    }
}

/// The address the modeled store assigns to an entry.
pub fn entry_address(e: &EntryValue) -> (a: String)
    ensures
        a@ == entry_addr(*e),
{
    let mut out = String::from_str("local:");
    let serial = serialize_entry(e);
    out.append(serial.as_str());
    proof {
        reveal_strlit("local:");
        assert(out@ =~= entry_addr(*e));
    }
    out
}

} // verus!
