use vstd::prelude::*;
use crate::records::{EntryType, Record, RecordModel};

verus! {

/// Where an entry lives: the first entry stored with a given content keeps its
/// address, so equal content always yields the same address.
#[derive(Clone, Copy, Debug, PartialEq, Eq, Structural, Hash)]
pub struct Address {
    pub index: usize,
}

/// The relations the store indexes.
#[derive(Clone, Copy, Debug, PartialEq, Eq, Structural)]
pub enum LinkTag {
    /// From a basket to one of its positions.
    Positions,
    /// From a position to its product.
    Product,
}

/// A directed, tagged relation from `base` to `target`.
#[derive(Clone, Copy, Debug, PartialEq, Eq, Structural)]
pub struct Link {
    pub base: Address,
    pub target: Address,
    pub tag: LinkTag,
}

/// A later version of a logical entry: `version` supersedes what `logical` held.
#[derive(Clone, Copy, Debug, PartialEq, Eq, Structural)]
pub struct Version {
    pub version: Address,
    pub logical: Address,
}

/// Why a lookup or an update failed.
#[derive(Clone, Copy, Debug, PartialEq, Eq, Structural)]
pub enum StoreError {
    /// No entry is stored at the address.
    NotFound,
    /// The entry stored there is of another type.
    DecodeError,
    /// A position has no product link, or more than one.
    InconsistentLink,
    /// The basket sum would leave the range of `i64`.
    Overflow,
    /// The new version of a basket has the content of another basket's entry.
    VersionConflict,
}

pub struct StoreModel {
    pub entries: Seq<RecordModel>,
    pub links: Seq<Link>,
    pub versions: Seq<Version>,
}

/// Append-only entries, links and version records.
pub struct Store {
    entries: Vec<Record>,
    links: Vec<Link>,
    versions: Vec<Version>,
}

/// The first index at which `r` occurs in `s`.
pub open spec fn find_index(s: Seq<RecordModel>, r: RecordModel) -> Option<nat>
    decreases s.len(),
{
    if s.len() == 0 {
        None
    } else {
        match find_index(s.drop_last(), r) {
            Some(i) => Some(i),
            None => if s.last() == r {
                Some((s.len() - 1) as nat)
            } else {
                None
            },
        }
    }
}

/// The addresses of the entries of type `t`, in the order they were stored.
pub open spec fn addresses_of_type(entries: Seq<RecordModel>, t: EntryType) -> Seq<Address>
    decreases entries.len(),
{
    if entries.len() == 0 {
        Seq::empty()
    } else {
        let prev = addresses_of_type(entries.drop_last(), t);
        if entries.last().entry_type() == t {
            prev.push(Address { index: (entries.len() - 1) as usize })
        } else {
            prev
        }
    }
}

/// The targets linked from `base` under `tag`, in the order the links were made.
pub open spec fn links_from_spec(links: Seq<Link>, base: Address, tag: LinkTag) -> Seq<Address>
    decreases links.len(),
{
    if links.len() == 0 {
        Seq::empty()
    } else {
        let prev = links_from_spec(links.drop_last(), base, tag);
        if links.last().base == base && links.last().tag == tag {
            prev.push(links.last().target)
        } else {
            prev
        }
    }
}

/// The latest version recorded for `logical`, or `logical` itself.
pub open spec fn head_spec(versions: Seq<Version>, logical: Address) -> Address
    decreases versions.len(),
{
    if versions.len() == 0 {
        logical
    } else if versions.last().logical == logical {
        versions.last().version
    } else {
        head_spec(versions.drop_last(), logical)
    }
}

/// The logical entry that `a` is the latest recorded version of, or `a` itself.
pub open spec fn logical_spec(versions: Seq<Version>, a: Address) -> Address
    decreases versions.len(),
{
    if versions.len() == 0 {
        a
    } else if versions.last().version == a {
        versions.last().logical
    } else {
        logical_spec(versions.drop_last(), a)
    }
}

impl StoreModel {
    /// No content is stored twice.
    /// No content is stored twice; every link and version record names stored
    /// addresses; each version address belongs to one logical entry, and no
    /// logical entry is a version of another.
    pub open spec fn wf(self) -> bool {
        &&& forall|i: int, j: int|
            0 <= i < j < self.entries.len() ==> self.entries[i] != self.entries[j]
        &&& forall|i: int|
            0 <= i < self.links.len() ==> (#[trigger] self.links[i]).base.index
                < self.entries.len() && self.links[i].target.index < self.entries.len()
        &&& forall|i: int|
            0 <= i < self.versions.len() ==> (#[trigger] self.versions[i]).version.index
                < self.entries.len() && self.versions[i].logical.index < self.entries.len()
        &&& forall|i: int|
            0 <= i < self.versions.len() ==> self.logical((#[trigger] self.versions[i]).version)
                == self.versions[i].logical
        &&& forall|i: int|
            0 <= i < self.versions.len() ==> self.logical((#[trigger] self.versions[i]).logical)
                == self.versions[i].logical
    }

    /// No version record names `x`.
    pub open spec fn unversioned(self, x: Address) -> bool {
        forall|i: int|
            0 <= i < self.versions.len() ==> (#[trigger] self.versions[i]).version != x
                && self.versions[i].logical != x
    }

    /// The store after `put(r)`, and the address returned.
    pub open spec fn put(self, r: RecordModel) -> (StoreModel, Address) {
        match find_index(self.entries, r) {
            Some(i) => (self, Address { index: i as usize }),
            None => (
                StoreModel { entries: self.entries.push(r), ..self },
                Address { index: self.entries.len() as usize },
            ),
        }
    }

    pub open spec fn get(self, a: Address) -> Result<RecordModel, StoreError> {
        if a.index < self.entries.len() {
            Ok(self.entries[a.index as int])
        } else {
            Err(StoreError::NotFound)
        }
    }

    /// Like `get`, but the entry must be of the given type.
    pub open spec fn get_as(self, a: Address, t: EntryType) -> Result<RecordModel, StoreError> {
        match self.get(a) {
            Err(e) => Err(e),
            Ok(r) => if r.entry_type() == t {
                Ok(r)
            } else {
                Err(StoreError::DecodeError)
            },
        }
    }

    pub open spec fn link(self, base: Address, target: Address, tag: LinkTag) -> StoreModel {
        StoreModel { links: self.links.push(Link { base, target, tag }), ..self }
    }

    pub open spec fn links_from(self, base: Address, tag: LinkTag) -> Seq<Address> {
        links_from_spec(self.links, base, tag)
    }

    pub open spec fn head(self, logical: Address) -> Address {
        head_spec(self.versions, logical)
    }

    pub open spec fn logical(self, a: Address) -> Address {
        logical_spec(self.versions, a)
    }

    /// The store after recording `version` as the latest version of `logical`.
    pub open spec fn redirect(self, logical: Address, version: Address) -> StoreModel {
        StoreModel { versions: self.versions.push(Version { version, logical }), ..self }
    }
}

proof fn lemma_find_index_bounds(s: Seq<RecordModel>, r: RecordModel)
    ensures
        find_index(s, r) matches Some(i) ==> i < s.len() && s[i as int] == r,
        find_index(s, r) is None ==> !s.contains(r),
    decreases s.len(),
{
    if s.len() > 0 {
        lemma_find_index_bounds(s.drop_last(), r);
        if find_index(s, r) is None {
            assert forall|k: int| 0 <= k < s.len() implies s[k] != r by {
                if k < s.len() - 1 {
                    assert(s.drop_last()[k] == s[k]);
                }
            }
        }
    }
}

proof fn lemma_find_index_prefix(s: Seq<RecordModel>, k: int, r: RecordModel)
    requires
        0 <= k <= s.len(),
        find_index(s.subrange(0, k), r) is Some,
    ensures
        find_index(s, r) == find_index(s.subrange(0, k), r),
    decreases s.len(),
{
    if k < s.len() {
        assert(s.drop_last().subrange(0, k) =~= s.subrange(0, k));
        lemma_find_index_prefix(s.drop_last(), k, r);
    } else {
        assert(s.subrange(0, k) =~= s);
    }
}

/// Putting the same content twice gives the same address both times, the second
/// put changes nothing, and that content is held at exactly one address.
pub proof fn lemma_put_idempotent(m: StoreModel, r: RecordModel)
    requires
        m.wf(),
        m.entries.len() < usize::MAX,
    ensures
        ({
            let (m1, a1) = m.put(r);
            let (m2, a2) = m1.put(r);
            &&& a2 == a1
            &&& m2 == m1
            &&& m1.wf()
            &&& m1.get(a1) == Ok::<RecordModel, StoreError>(r)
            &&& forall|i: int| 0 <= i < m2.entries.len() && m2.entries[i] == r ==> i == a1.index
        }),
{
    lemma_find_index_bounds(m.entries, r);
    let (m1, a1) = m.put(r);
    if find_index(m.entries, r) is None {
        assert(m1.entries.drop_last() =~= m.entries);
        assert(m1.entries.last() == r);
        assert(find_index(m1.entries, r) == Some(m.entries.len()));
    }
    lemma_find_index_bounds(m1.entries, r);
}

/// Linking `t1` and then `t2` from the same base under the same tag appends both
/// targets, in that order, to what the base links to.
pub proof fn lemma_link_order(m: StoreModel, base: Address, t1: Address, t2: Address, tag: LinkTag)
    ensures
        m.link(base, t1, tag).link(base, t2, tag).links_from(base, tag) == m.links_from(
            base,
            tag,
        ).push(t1).push(t2),
{
    let m1 = m.link(base, t1, tag);
    let m2 = m1.link(base, t2, tag);
    assert(m1.links.drop_last() =~= m.links);
    assert(m2.links.drop_last() =~= m1.links);
    assert(m1.links_from(base, tag) == m.links_from(base, tag).push(t1));
    assert(m2.links_from(base, tag) == m1.links_from(base, tag).push(t2));
}

/// The catalog of a type lists addresses in the order the entries were stored,
/// so none is listed twice, and each holds an entry of that type.
pub proof fn lemma_catalog_ordered(entries: Seq<RecordModel>, t: EntryType)
    requires
        entries.len() <= usize::MAX,
    ensures
        ({
            let addrs = addresses_of_type(entries, t);
            &&& forall|i: int, j: int|
                0 <= i < j < addrs.len() ==> (#[trigger] addrs[i]).index < (
                #[trigger] addrs[j]).index
            &&& forall|i: int|
                0 <= i < addrs.len() ==> (#[trigger] addrs[i]).index < entries.len()
                    && entries[addrs[i].index as int].entry_type() == t
        }),
    decreases entries.len(),
{
    if entries.len() > 0 {
        let init = entries.drop_last();
        lemma_catalog_ordered(init, t);
        assert forall|k: int| 0 <= k < init.len() implies init[k] == entries[k] by {}
        let prev = addresses_of_type(init, t);
        let addrs = addresses_of_type(entries, t);
        if entries.last().entry_type() == t {
            assert forall|i: int| 0 <= i < prev.len() implies addrs[i] == prev[i] by {}
            assert(addrs[prev.len() as int].index == entries.len() - 1);
        }
    }
}

proof fn lemma_logical_push(vs: Seq<Version>, v: Version, x: Address)
    ensures
        logical_spec(vs.push(v), x) == if x == v.version {
            v.logical
        } else {
            logical_spec(vs, x)
        },
        head_spec(vs.push(v), x) == if x == v.logical {
            v.version
        } else {
            head_spec(vs, x)
        },
{
    assert(vs.push(v).drop_last() =~= vs);
}

/// Recording a version keeps the store well formed when both addresses are
/// stored, `l` is a logical entry, and `v` is unversioned or already belongs to `l`.
pub proof fn lemma_redirect_wf(m: StoreModel, l: Address, v: Address)
    requires
        m.wf(),
        l.index < m.entries.len(),
        v.index < m.entries.len(),
        m.logical(l) == l,
        m.logical(v) == l || m.unversioned(v),
    ensures
        m.redirect(l, v).wf(),
{
    let m1 = m.redirect(l, v);
    let rec = Version { version: v, logical: l };
    assert forall|i: int| 0 <= i < m1.versions.len() implies m1.logical(
        (#[trigger] m1.versions[i]).version,
    ) == m1.versions[i].logical && m1.logical(m1.versions[i].logical) == m1.versions[i].logical by {
        lemma_logical_push(m.versions, rec, m1.versions[i].version);
        lemma_logical_push(m.versions, rec, m1.versions[i].logical);
        lemma_logical_push(m.versions, rec, l);
        if i < m.versions.len() {
            assert(m1.versions[i] == m.versions[i]);
        }
    }
}

proof fn lemma_logical_unversioned(vs: Seq<Version>, x: Address)
    requires
        forall|i: int| 0 <= i < vs.len() ==> (#[trigger] vs[i]).version != x,
    ensures
        logical_spec(vs, x) == x,
    decreases vs.len(),
{
    if vs.len() > 0 {
        assert forall|i: int| 0 <= i < vs.drop_last().len() implies (
        #[trigger] vs.drop_last()[i]).version != x by {
            assert(vs.drop_last()[i] == vs[i]);
        }
        lemma_logical_unversioned(vs.drop_last(), x);
    }
}

proof fn lemma_head_unversioned(vs: Seq<Version>, x: Address)
    requires
        forall|i: int| 0 <= i < vs.len() ==> (#[trigger] vs[i]).logical != x,
    ensures
        head_spec(vs, x) == x,
    decreases vs.len(),
{
    if vs.len() > 0 {
        assert forall|i: int| 0 <= i < vs.drop_last().len() implies (
        #[trigger] vs.drop_last()[i]).logical != x by {
            assert(vs.drop_last()[i] == vs[i]);
        }
        lemma_head_unversioned(vs.drop_last(), x);
    }
}

proof fn lemma_links_unused(links: Seq<Link>, x: Address, tag: LinkTag)
    requires
        forall|i: int| 0 <= i < links.len() ==> (#[trigger] links[i]).base != x,
    ensures
        links_from_spec(links, x, tag).len() == 0,
    decreases links.len(),
{
    if links.len() > 0 {
        assert forall|i: int| 0 <= i < links.drop_last().len() implies (
        #[trigger] links.drop_last()[i]).base != x by {
            assert(links.drop_last()[i] == links[i]);
        }
        lemma_links_unused(links.drop_last(), x, tag);
    }
}

/// An address where nothing is stored yet is its own head and its own logical
/// entry, links to nothing, and no version record names it.
pub proof fn lemma_fresh_address(m: StoreModel, x: Address, tag: LinkTag)
    requires
        m.wf(),
        x.index >= m.entries.len(),
    ensures
        m.unversioned(x),
        m.logical(x) == x,
        m.head(x) == x,
        m.links_from(x, tag).len() == 0,
{
    lemma_logical_unversioned(m.versions, x);
    lemma_head_unversioned(m.versions, x);
    lemma_links_unused(m.links, x, tag);
}

proof fn lemma_logical_cases(vs: Seq<Version>, x: Address)
    ensures
        logical_spec(vs, x) == x || exists|j: int|
            0 <= j < vs.len() && (#[trigger] vs[j]).version == x && vs[j].logical == logical_spec(
                vs,
                x,
            ),
        head_spec(vs, x) == x || exists|j: int|
            0 <= j < vs.len() && (#[trigger] vs[j]).logical == x && vs[j].version == head_spec(
                vs,
                x,
            ),
    decreases vs.len(),
{
    if vs.len() > 0 {
        let init = vs.drop_last();
        lemma_logical_cases(init, x);
        if logical_spec(vs, x) != x && vs.last().version != x {
            let j = choose|j: int|
                0 <= j < init.len() && (#[trigger] init[j]).version == x && init[j].logical
                    == logical_spec(init, x);
            assert(vs[j] == init[j]);
        }
        if head_spec(vs, x) != x && vs.last().logical != x {
            let j = choose|j: int|
                0 <= j < init.len() && (#[trigger] init[j]).logical == x && init[j].version
                    == head_spec(init, x);
            assert(vs[j] == init[j]);
        }
    }
}

/// Every address belongs to one logical entry: resolving it again gives the
/// same entry, and so does resolving that entry's head.
pub proof fn lemma_logical_stable(m: StoreModel, a: Address)
    requires
        m.wf(),
    ensures
        m.logical(m.logical(a)) == m.logical(a),
        m.logical(m.head(m.logical(a))) == m.logical(a),
        m.logical(a) == a || m.logical(a).index < m.entries.len(),
        m.head(m.logical(a)) == m.logical(a) || m.logical(a).index < m.entries.len(),
{
    let l = m.logical(a);
    lemma_logical_cases(m.versions, a);
    lemma_logical_cases(m.versions, l);
    if l != a {
        let j = choose|j: int|
            0 <= j < m.versions.len() && (#[trigger] m.versions[j]).version == a
                && m.versions[j].logical == l;
    }
    if m.head(l) != l {
        let j = choose|j: int|
            0 <= j < m.versions.len() && (#[trigger] m.versions[j]).logical == l
                && m.versions[j].version == m.head(l);
    }
}

impl View for Store {
    type V = StoreModel;

    closed spec fn view(&self) -> StoreModel {
        StoreModel {
            entries: self.entries@.map_values(|r: Record| r@),
            links: self.links@,
            versions: self.versions@,
        }
    }
}

impl Store {
    pub open spec fn wf(&self) -> bool {
        self@.wf()
    }

    /// An empty store.
    pub fn new() -> (s: Store)
        ensures
            s.wf(),
            s@.entries.len() == 0,
            s@.links.len() == 0,
            s@.versions.len() == 0,
    {
        Store { entries: Vec::new(), links: Vec::new(), versions: Vec::new() }
    }

    /// The number of entries stored.
    pub fn len(&self) -> (n: usize)
        ensures
            n == self@.entries.len(),
    {
        self.entries.len()
    }

    /// The address of the entry with the content of `r`, if one is stored.
    pub fn find(&self, r: &Record) -> (a: Option<Address>)
        ensures
            a == (match find_index(self@.entries, r@) {
                Some(i) => Some(Address { index: i as usize }),
                None => None,
            }),
    {
        let n = self.entries.len();
        let mut i: usize = 0;
        while i < n
            invariant
                n == self.entries.len(),
                0 <= i <= n,
                find_index(self@.entries.subrange(0, i as int), r@) is None,
            decreases n - i,
        {
            let ghost s = self@.entries;
            assert(s.subrange(0, i + 1).drop_last() =~= s.subrange(0, i as int));
            if self.entries[i].same_as(r) {
                proof {
                    lemma_find_index_prefix(s, i + 1, r@);
                }
                return Some(Address { index: i });
            }
            i = i + 1;
        }
        assert(self@.entries.subrange(0, n as int) =~= self@.entries);
        None
    }

    /// Stores `r` unless equal content is stored already, and returns its address.
    pub fn put(&mut self, r: Record) -> (a: Address)
        requires
            old(self).wf(),
            old(self)@.entries.len() < usize::MAX,
        ensures
            final(self).wf(),
            (final(self)@, a) == old(self)@.put(r@),
    {
        let ghost r_view = r@;
        match self.find(&r) {
            Some(a) => a,
            None => {
                proof {
                    lemma_find_index_bounds(self@.entries, r_view);
                }
                let a = Address { index: self.entries.len() };
                self.entries.push(r);
                assert(self@.entries =~= old(self)@.entries.push(r_view));
                assert(self@.versions == old(self)@.versions);
                assert(self@.links == old(self)@.links);
                assert(forall|i: int|
                    0 <= i < self@.versions.len() ==> self@.logical(
                        (#[trigger] self@.versions[i]).version,
                    ) == old(self)@.logical(old(self)@.versions[i].version));
                a
            },
        }
    }

    /// The entry stored at `a`.
    pub fn get(&self, a: Address) -> (r: Result<&Record, StoreError>)
        ensures
            match r {
                Ok(e) => self@.get(a) == Ok::<RecordModel, StoreError>(e@),
                Err(e) => self@.get(a) == Err::<RecordModel, StoreError>(e),
            },
    {
        if a.index < self.entries.len() {
            Ok(&self.entries[a.index])
        } else {
            Err(StoreError::NotFound)
        }
    }

    /// Appends `target` to what `base` links to under `tag`.
    pub fn link(&mut self, base: Address, target: Address, tag: LinkTag)
        requires
            old(self).wf(),
            base.index < old(self)@.entries.len(),
            target.index < old(self)@.entries.len(),
        ensures
            final(self).wf(),
            final(self)@ == old(self)@.link(base, target, tag),
    {
        self.links.push(Link { base, target, tag });
        assert(forall|i: int|
            0 <= i < self@.links.len() - 1 ==> self@.links[i] == old(self)@.links[i]);
        assert(self@.versions == old(self)@.versions);
        assert(self@.entries == old(self)@.entries);
    }

    /// The address of every entry of type `t`, each once, in the order stored.
    pub fn all_of_type(&self, t: EntryType) -> (r: Vec<Address>)
        ensures
            r@ == addresses_of_type(self@.entries, t),
    {
        let mut r: Vec<Address> = Vec::new();
        let n = self.entries.len();
        let mut i: usize = 0;
        while i < n
            invariant
                n == self.entries.len(),
                0 <= i <= n,
                r@ == addresses_of_type(self@.entries.subrange(0, i as int), t),
            decreases n - i,
        {
            let ghost s = self@.entries;
            assert(s.subrange(0, i + 1).drop_last() =~= s.subrange(0, i as int));
            if self.entries[i].entry_type() == t {
                r.push(Address { index: i });
            }
            i = i + 1;
        }
        assert(self@.entries.subrange(0, n as int) =~= self@.entries);
        r
    }

    /// What `base` links to under `tag`, oldest link first.
    pub fn links_from(&self, base: Address, tag: LinkTag) -> (r: Vec<Address>)
        ensures
            r@ == self@.links_from(base, tag),
    {
        let mut r: Vec<Address> = Vec::new();
        let n = self.links.len();
        let mut i: usize = 0;
        while i < n
            invariant
                n == self.links.len(),
                0 <= i <= n,
                r@ == links_from_spec(self@.links.subrange(0, i as int), base, tag),
            decreases n - i,
        {
            let ghost s = self@.links;
            assert(s.subrange(0, i + 1).drop_last() =~= s.subrange(0, i as int));
            let l = self.links[i];
            if l.base == base && l.tag == tag {
                r.push(l.target);
            }
            i = i + 1;
        }
        assert(self@.links.subrange(0, n as int) =~= self@.links);
        r
    }

    /// The latest version of the logical entry `logical`.
    pub fn head(&self, logical: Address) -> (h: Address)
        ensures
            h == self@.head(logical),
    {
        let mut i: usize = self.versions.len();
        assert(self@.versions.subrange(0, i as int) =~= self@.versions);
        while i > 0
            invariant
                0 <= i <= self.versions.len(),
                head_spec(self@.versions, logical) == head_spec(
                    self@.versions.subrange(0, i as int),
                    logical,
                ),
            decreases i,
        {
            let ghost s = self@.versions.subrange(0, i as int);
            assert(s.drop_last() =~= self@.versions.subrange(0, i - 1));
            let v = self.versions[i - 1];
            if v.logical == logical {
                return v.version;
            }
            i = i - 1;
        }
        assert(self@.versions.subrange(0, 0) =~= Seq::<Version>::empty());
        logical
    }

    /// The logical entry that `a` is a version of.
    pub fn logical(&self, a: Address) -> (l: Address)
        ensures
            l == self@.logical(a),
    {
        let mut i: usize = self.versions.len();
        assert(self@.versions.subrange(0, i as int) =~= self@.versions);
        while i > 0
            invariant
                0 <= i <= self.versions.len(),
                logical_spec(self@.versions, a) == logical_spec(
                    self@.versions.subrange(0, i as int),
                    a,
                ),
            decreases i,
        {
            let ghost s = self@.versions.subrange(0, i as int);
            assert(s.drop_last() =~= self@.versions.subrange(0, i - 1));
            let v = self.versions[i - 1];
            if v.version == a {
                return v.logical;
            }
            i = i - 1;
        }
        assert(self@.versions.subrange(0, 0) =~= Seq::<Version>::empty());
        a
    }

    /// Records `version` as the latest version of `logical`.
    pub fn redirect(&mut self, logical: Address, version: Address)
        requires
            old(self).wf(),
            logical.index < old(self)@.entries.len(),
            version.index < old(self)@.entries.len(),
            old(self)@.logical(logical) == logical,
            old(self)@.logical(version) == logical || old(self)@.unversioned(version),
        ensures
            final(self).wf(),
            final(self)@ == old(self)@.redirect(logical, version),
    {
        proof {
            lemma_redirect_wf(self@, logical, version);
        }
        self.versions.push(Version { version, logical });
        assert(self@ == old(self)@.redirect(logical, version));
    }
}

} // verus!
