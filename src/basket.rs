use vstd::prelude::*;
use crate::records::{
    Basket, BasketModel, EntryType, Position, PositionModel, Product, ProductModel, Record,
    RecordModel,
};
use crate::store::{
    Address, LinkTag, Store, StoreError, StoreModel, addresses_of_type, find_index,
    lemma_fresh_address, lemma_logical_stable, lemma_put_idempotent, lemma_redirect_wf,
};

verus! {

/// A position of a basket, with the product it links to.
pub struct PositionWithProduct {
    pub amount: i8,
    pub product: Product,
}

/// A basket as readers see it: its current version and every position.
pub struct BasketResponse {
    pub id: Address,
    pub name: String,
    pub sum: i64,
    pub product_positions: Vec<PositionWithProduct>,
}

/// One row of the basket listing.
pub struct BasketResponseAll {
    pub name: String,
    pub sum: i64,
    pub id: Address,
}

/// A product with its address.
pub struct ProductResponse {
    pub id: Address,
    pub name: String,
    pub description: String,
    pub price: u32,
}

pub struct PositionWithProductModel {
    pub amount: i8,
    pub product: ProductModel,
}

pub struct BasketResponseModel {
    pub id: Address,
    pub name: Seq<char>,
    pub sum: i64,
    pub product_positions: Seq<PositionWithProductModel>,
}

pub struct BasketRowModel {
    pub name: Seq<char>,
    pub sum: i64,
    pub id: Address,
}

pub struct ProductResponseModel {
    pub id: Address,
    pub name: Seq<char>,
    pub description: Seq<char>,
    pub price: u32,
}

impl View for PositionWithProduct {
    type V = PositionWithProductModel;

    open spec fn view(&self) -> PositionWithProductModel {
        PositionWithProductModel { amount: self.amount, product: self.product@ }
    }
}

impl View for BasketResponse {
    type V = BasketResponseModel;

    open spec fn view(&self) -> BasketResponseModel {
        BasketResponseModel {
            id: self.id,
            name: self.name@,
            sum: self.sum,
            product_positions: self.product_positions@.map_values(|p: PositionWithProduct| p@),
        }
    }
}

impl View for BasketResponseAll {
    type V = BasketRowModel;

    open spec fn view(&self) -> BasketRowModel {
        BasketRowModel { name: self.name@, sum: self.sum, id: self.id }
    }
}

impl View for ProductResponse {
    type V = ProductResponseModel;

    open spec fn view(&self) -> ProductResponseModel {
        ProductResponseModel {
            id: self.id,
            name: self.name@,
            description: self.description@,
            price: self.price,
        }
    }
}

/// The product stored at `a`.
pub open spec fn product_at(m: StoreModel, a: Address) -> Result<ProductModel, StoreError> {
    match m.get(a) {
        Err(e) => Err(e),
        Ok(RecordModel::Product(p)) => Ok(p),
        Ok(_) => Err(StoreError::DecodeError),
    }
}

/// The basket version stored at `a`.
pub open spec fn basket_at(m: StoreModel, a: Address) -> Result<BasketModel, StoreError> {
    match m.get(a) {
        Err(e) => Err(e),
        Ok(RecordModel::Basket(b)) => Ok(b),
        Ok(_) => Err(StoreError::DecodeError),
    }
}

/// The position stored at `a`.
pub open spec fn position_at(m: StoreModel, a: Address) -> Result<PositionModel, StoreError> {
    match m.get(a) {
        Err(e) => Err(e),
        Ok(RecordModel::Position(q)) => Ok(q),
        Ok(_) => Err(StoreError::DecodeError),
    }
}

/// The position at `p` with its one linked product.
pub open spec fn resolve_position(m: StoreModel, p: Address) -> Result<
    PositionWithProductModel,
    StoreError,
> {
    match position_at(m, p) {
        Err(e) => Err(e),
        Ok(q) => {
            let products = m.links_from(p, LinkTag::Product);
            if products.len() != 1 {
                Err(StoreError::InconsistentLink)
            } else {
                match product_at(m, products[0]) {
                    Err(e) => Err(e),
                    Ok(pr) => Ok(PositionWithProductModel { amount: q.amount, product: pr }),
                }
            }
        },
    }
}

/// Every position of `ps` resolved in order, or the first failure.
pub open spec fn resolve_positions(m: StoreModel, ps: Seq<Address>) -> Result<
    Seq<PositionWithProductModel>,
    StoreError,
>
    decreases ps.len(),
{
    if ps.len() == 0 {
        Ok(Seq::empty())
    } else {
        match resolve_positions(m, ps.drop_last()) {
            Err(e) => Err(e),
            Ok(done) => match resolve_position(m, ps.last()) {
                Err(e) => Err(e),
                Ok(x) => Ok(done.push(x)),
            },
        }
    }
}

/// The current version of the basket that `a` belongs to, with its positions.
pub open spec fn basket_view(m: StoreModel, a: Address) -> Result<BasketResponseModel, StoreError> {
    let logical = m.logical(a);
    let head = m.head(logical);
    match basket_at(m, head) {
        Err(e) => Err(e),
        Ok(b) => match resolve_positions(m, m.links_from(logical, LinkTag::Positions)) {
            Err(e) => Err(e),
            Ok(ps) => Ok(
                BasketResponseModel { id: head, name: b.name, sum: b.sum, product_positions: ps },
            ),
        },
    }
}

/// The sum of `b` after adding `amount` items at `price`.
pub open spec fn next_sum(b: BasketModel, price: u32, amount: i8) -> int {
    b.sum + amount * price
}

/// Whether storing `r` as a new version of `logical` would land on an entry
/// that belongs to another logical entry.
pub open spec fn version_taken(m: StoreModel, r: RecordModel, logical: Address) -> bool {
    match find_index(m.entries, r) {
        Some(i) => m.logical(Address { index: i as usize }) != logical,
        None => false,
    }
}

/// The store after folding the position at `position_addr`, priced with the
/// product at `product_addr`, into the current version of the basket that
/// `basket_addr` belongs to, and the address of the new version. The position
/// must be linked from that basket and link to exactly that product.
pub open spec fn update_spec(
    m: StoreModel,
    basket_addr: Address,
    product_addr: Address,
    position_addr: Address,
) -> Result<(StoreModel, Address), StoreError> {
    let logical = m.logical(basket_addr);
    match basket_at(m, m.head(logical)) {
        Err(e) => Err(e),
        Ok(b) => match product_at(m, product_addr) {
            Err(e) => Err(e),
            Ok(pr) => match position_at(m, position_addr) {
                Err(e) => Err(e),
                Ok(q) => {
                    let sum = next_sum(b, pr.price, q.amount);
                    if m.links_from(position_addr, LinkTag::Product) != seq![product_addr]
                        || !m.links_from(logical, LinkTag::Positions).contains(position_addr) {
                        Err(StoreError::InconsistentLink)
                    } else if sum < i64::MIN || sum > i64::MAX {
                        Err(StoreError::Overflow)
                    } else {
                        let nb = RecordModel::Basket(BasketModel { name: b.name, sum: sum as i64 });
                        if version_taken(m, nb, logical) {
                            Err(StoreError::VersionConflict)
                        } else {
                            let (m1, a) = m.put(nb);
                            Ok((m1.redirect(logical, a), a))
                        }
                    }
                },
            },
        },
    }
}

/// Whether adding `position` with the product at `product_addr` to the basket
/// `basket_addr` belongs to is refused, and why: the basket or the product
/// cannot be read, the sum would overflow, the address the position takes
/// already links to a product, or the new version would be another basket's.
pub open spec fn add_refusal(
    m: StoreModel,
    product_addr: Address,
    basket_addr: Address,
    position: PositionModel,
) -> Option<StoreError> {
    let logical = m.logical(basket_addr);
    match basket_at(m, m.head(logical)) {
        Err(e) => Some(e),
        Ok(b) => match product_at(m, product_addr) {
            Err(e) => Some(e),
            Ok(pr) => {
                let sum = next_sum(b, pr.price, position.amount);
                let p = m.put(RecordModel::Position(position)).1;
                if sum < i64::MIN || sum > i64::MAX {
                    Some(StoreError::Overflow)
                } else if m.links_from(p, LinkTag::Product).len() > 0 {
                    Some(StoreError::InconsistentLink)
                } else if version_taken(
                    m,
                    RecordModel::Basket(BasketModel { name: b.name, sum: sum as i64 }),
                    logical,
                ) {
                    Some(StoreError::VersionConflict)
                } else {
                    None
                }
            },
        },
    }
}

/// The store after storing `position`, linking it from the basket and to the
/// product, and updating the basket's sum.
pub open spec fn add_spec(
    m: StoreModel,
    product_addr: Address,
    basket_addr: Address,
    position: PositionModel,
) -> Result<StoreModel, StoreError> {
    match add_refusal(m, product_addr, basket_addr, position) {
        Some(e) => Err(e),
        None => {
            let logical = m.logical(basket_addr);
            let (m1, p) = m.put(RecordModel::Position(position));
            let m2 = m1.link(logical, p, LinkTag::Positions).link(
                p,
                product_addr,
                LinkTag::Product,
            );
            match update_spec(m2, basket_addr, product_addr, p) {
                Err(e) => Err(e),
                Ok((m3, _)) => Ok(m3),
            }
        },
    }
}

proof fn lemma_resolve_err_prefix(m: StoreModel, ps: Seq<Address>, k: int, e: StoreError)
    requires
        0 <= k <= ps.len(),
        resolve_positions(m, ps.subrange(0, k)) == Err::<
            Seq<PositionWithProductModel>,
            StoreError,
        >(e),
    ensures
        resolve_positions(m, ps) == Err::<Seq<PositionWithProductModel>, StoreError>(e),
    decreases ps.len(),
{
    if k < ps.len() {
        assert(ps.drop_last().subrange(0, k) =~= ps.subrange(0, k));
        lemma_resolve_err_prefix(m, ps.drop_last(), k, e);
    } else {
        assert(ps.subrange(0, k) =~= ps);
    }
}

/// A put keeps every entry stored before where it was, and the versions as they were.
proof fn lemma_put_keeps(m: StoreModel, r: RecordModel, a: Address)
    requires
        a.index < m.entries.len(),
    ensures
        m.put(r).0.get(a) == m.get(a),
        m.put(r).0.versions == m.versions,
{
}

/// Whenever adding a position is not refused, it succeeds: the basket then links
/// to its old positions and the new one after them, and its current version holds
/// the old sum plus the position's amount times the product's price, under the
/// basket's old name.
pub proof fn lemma_add_product_sum(
    m: StoreModel,
    product_addr: Address,
    basket_addr: Address,
    position: PositionModel,
)
    requires
        m.wf(),
        m.entries.len() + 1 < usize::MAX,
    ensures
        add_spec(m, product_addr, basket_addr, position) is Ok <==> add_refusal(
            m,
            product_addr,
            basket_addr,
            position,
        ) is None,
        add_spec(m, product_addr, basket_addr, position) matches Ok(m3) ==> {
            &&& m3.wf()
            &&& m3.entries.len() <= m.entries.len() + 2
            &&& m3.logical(basket_addr) == m.logical(basket_addr)
            &&& m3.links_from(m.logical(basket_addr), LinkTag::Positions) == m.links_from(
                m.logical(basket_addr),
                LinkTag::Positions,
            ).push(m.put(RecordModel::Position(position)).1)
            &&& m.links_from(m.put(RecordModel::Position(position)).1, LinkTag::Product).len() == 0
            &&& m3.links_from(m.put(RecordModel::Position(position)).1, LinkTag::Product) == seq![
                product_addr,
            ]
            &&& m3.get(m.put(RecordModel::Position(position)).1) == Ok::<RecordModel, StoreError>(
                RecordModel::Position(position),
            )
            &&& forall|x: Address|
                x.index < m.entries.len() ==> #[trigger] m3.get(x) == m.get(x)
            &&& forall|x: Address|
                x != m.put(RecordModel::Position(position)).1 ==> #[trigger] m3.links_from(
                    x,
                    LinkTag::Product,
                ) == m.links_from(x, LinkTag::Product)
            &&& basket_at(m, m.head(m.logical(basket_addr))) matches Ok(b)
            &&& product_at(m, product_addr) matches Ok(pr)
            &&& basket_at(m3, m3.head(m3.logical(basket_addr))) == Ok::<BasketModel, StoreError>(
                BasketModel {
                    name: b.name,
                    sum: next_sum(b, pr.price, position.amount) as i64,
                },
            )
        },
{
    if add_refusal(m, product_addr, basket_addr, position) is None {
        let logical = m.logical(basket_addr);
        let head = m.head(logical);
        let b = basket_at(m, head)->Ok_0;
        let pr = product_at(m, product_addr)->Ok_0;
        lemma_logical_stable(m, basket_addr);
        let pos = RecordModel::Position(position);
        lemma_put_idempotent(m, pos);
        let (m1, p) = m.put(pos);
        lemma_put_keeps(m, pos, head);
        lemma_put_keeps(m, pos, product_addr);
        lemma_put_keeps(m, pos, logical);
        let m1b = m1.link(logical, p, LinkTag::Positions);
        let m2 = m1b.link(p, product_addr, LinkTag::Product);
        assert(m1b.links.drop_last() =~= m.links);
        assert(m2.links.drop_last() =~= m1b.links);
        let before = m.links_from(logical, LinkTag::Positions);
        assert(m1b.links_from(logical, LinkTag::Positions) == before.push(p));
        assert(m2.links_from(logical, LinkTag::Positions) == before.push(p));
        assert(m2.links_from(logical, LinkTag::Positions)[before.len() as int] == p);
        assert(m2.links_from(logical, LinkTag::Positions).contains(p));
        assert(m1b.links_from(p, LinkTag::Product) == m.links_from(p, LinkTag::Product));
        assert(m2.links_from(p, LinkTag::Product) =~= seq![product_addr]);
        assert(m2.get(head) == m.get(head));
        assert(m2.get(product_addr) == m.get(product_addr));
        assert(m2.get(p) == Ok::<RecordModel, StoreError>(pos));
        assert(m2.logical(basket_addr) == logical);
        assert(m2.head(logical) == head);
        let sum = next_sum(b, pr.price, position.amount);
        let nb = RecordModel::Basket(BasketModel { name: b.name, sum: sum as i64 });
        lemma_find_index_push_other(m.entries, pos, nb);
        assert(find_index(m2.entries, nb) == find_index(m.entries, nb));
        assert(!version_taken(m2, nb, logical));
        assert forall|k: int| 0 <= k < m2.links.len() implies (#[trigger] m2.links[k]).base.index
            < m2.entries.len() && m2.links[k].target.index < m2.entries.len() by {
            if k < m.links.len() {
                assert(m2.links[k] == m.links[k]);
            }
        }
        assert(m2.wf());
        lemma_new_version(m2, logical, nb);
        let (m4, a) = m2.put(nb);
        let m3 = m4.redirect(logical, a);
        assert(m3.versions.drop_last() =~= m.versions);
        assert(m3.logical(basket_addr) == logical);
        assert(m3.head(logical) == a);
        assert(m3.get(a) == m4.get(a));
        assert(m3.links == m2.links);
        lemma_put_keeps(m2, nb, p);
        assert forall|x: Address| x.index < m.entries.len() implies #[trigger] m3.get(x) == m.get(
            x,
        ) by {
            lemma_put_keeps(m, pos, x);
            lemma_put_keeps(m2, nb, x);
        }
        assert forall|x: Address| x != p implies #[trigger] m3.links_from(x, LinkTag::Product)
            == m.links_from(x, LinkTag::Product) by {
            assert(m1b.links_from(x, LinkTag::Product) == m.links_from(x, LinkTag::Product));
            assert(m2.links_from(x, LinkTag::Product) == m1b.links_from(x, LinkTag::Product));
        }
    }
}

proof fn lemma_resolve_frame(m: StoreModel, m1: StoreModel, ps: Seq<Address>)
    requires
        forall|i: int|
            0 <= i < ps.len() ==> #[trigger] resolve_position(m1, ps[i]) == resolve_position(
                m,
                ps[i],
            ),
    ensures
        resolve_positions(m1, ps) == resolve_positions(m, ps),
    decreases ps.len(),
{
    if ps.len() > 0 {
        let init = ps.drop_last();
        assert forall|i: int| 0 <= i < init.len() implies #[trigger] resolve_position(
            m1,
            init[i],
        ) == resolve_position(m, init[i]) by {
            assert(init[i] == ps[i]);
        }
        lemma_resolve_frame(m, m1, init);
        assert(resolve_position(m1, ps[ps.len() - 1]) == resolve_position(m, ps[ps.len() - 1]));
    }
}

/// Adding a position keeps a basket's sum in agreement with its positions: if
/// the current version held the created sum plus the total of the linked
/// positions before, it does after an accepted addition too.
pub proof fn lemma_add_keeps_sum(
    m: StoreModel,
    product_addr: Address,
    basket_addr: Address,
    position: PositionModel,
)
    requires
        m.wf(),
        m.entries.len() + 1 < usize::MAX,
        sum_consistent(m, m.logical(basket_addr)),
    ensures
        add_spec(m, product_addr, basket_addr, position) matches Ok(m3) ==> sum_consistent(
            m3,
            m.logical(basket_addr),
        ),
{
    lemma_add_product_sum(m, product_addr, basket_addr, position);
    if add_spec(m, product_addr, basket_addr, position) is Ok {
        let m3 = add_spec(m, product_addr, basket_addr, position)->Ok_0;
        let l = m.logical(basket_addr);
        let p = m.put(RecordModel::Position(position)).1;
        let pr = product_at(m, product_addr)->Ok_0;
        let ps = m.links_from(l, LinkTag::Positions);
        let v = resolve_positions(m, ps)->Ok_0;
        lemma_resolve_positions_each(m, ps);
        assert forall|i: int| 0 <= i < ps.len() implies #[trigger] resolve_position(m3, ps[i])
            == resolve_position(m, ps[i]) by {
            let q = ps[i];
            assert(resolve_position(m, q) == Ok::<PositionWithProductModel, StoreError>(v[i]));
            assert(m3.get(q) == m.get(q));
            assert(m.links_from(q, LinkTag::Product).len() == 1);
            assert(q != p);
            let target = m.links_from(q, LinkTag::Product)[0];
            assert(m3.get(target) == m.get(target));
        }
        lemma_resolve_frame(m, m3, ps);
        let x = PositionWithProductModel { amount: position.amount, product: pr };
        assert(m3.get(product_addr) == m.get(product_addr));
        assert(resolve_position(m3, p) == Ok::<PositionWithProductModel, StoreError>(x));
        assert(ps.push(p).drop_last() =~= ps);
        assert(resolve_positions(m3, ps.push(p)) == Ok::<
            Seq<PositionWithProductModel>,
            StoreError,
        >(v.push(x)));
        assert(v.push(x).drop_last() =~= v);
        assert(positions_total(v.push(x)) == positions_total(v) + x.amount * x.product.price);
        assert(m3.get(l) == m.get(l));
    }
}

proof fn lemma_find_index_push_other(s: Seq<RecordModel>, x: RecordModel, r: RecordModel)
    requires
        x != r,
    ensures
        find_index(s.push(x), r) == find_index(s, r),
{
    assert(s.push(x).drop_last() =~= s);
}

/// Storing `nb` and recording it as the latest version of `logical` keeps the
/// store well formed, unless the content already belongs to another entry.
proof fn lemma_new_version(m: StoreModel, logical: Address, nb: RecordModel)
    requires
        m.wf(),
        m.entries.len() < usize::MAX,
        logical.index < m.entries.len(),
        m.logical(logical) == logical,
        !version_taken(m, nb, logical),
    ensures
        ({
            let (m1, a) = m.put(nb);
            &&& m1.wf()
            &&& m1.get(a) == Ok::<RecordModel, StoreError>(nb)
            &&& logical.index < m1.entries.len()
            &&& a.index < m1.entries.len()
            &&& m1.logical(logical) == logical
            &&& m1.logical(a) == logical || m1.unversioned(a)
            &&& m1.redirect(logical, a).wf()
            &&& m1.links == m.links
        }),
{
    lemma_put_idempotent(m, nb);
    let (m1, a) = m.put(nb);
    if find_index(m.entries, nb) is None {
        lemma_fresh_address(m, a, LinkTag::Positions);
    }
    lemma_redirect_wf(m1, logical, a);
}

/// The entry at `address`, which must be of the type `expected`.
pub fn get_as_type(store: &Store, address: Address, expected: EntryType) -> (r: Result<
    &Record,
    StoreError,
>)
    ensures
        match r {
            Ok(e) => store@.get_as(address, expected) == Ok::<RecordModel, StoreError>(e@),
            Err(e) => store@.get_as(address, expected) == Err::<RecordModel, StoreError>(e),
        },
{
    let e = match store.get(address) {
        Ok(e) => e,
        Err(err) => return Err(err),
    };
    if e.entry_type() == expected {
        Ok(e)
    } else {
        Err(StoreError::DecodeError)
    }
}

/// The product stored at `a`.
pub fn load_product(store: &Store, a: Address) -> (r: Result<Product, StoreError>)
    ensures
        match r {
            Ok(p) => product_at(store@, a) == Ok::<ProductModel, StoreError>(p@),
            Err(e) => product_at(store@, a) == Err::<ProductModel, StoreError>(e),
        },
{
    match get_as_type(store, a, EntryType::Product) {
        Ok(Record::Product(p)) => Ok(p.cloned()),
        Ok(_) => Err(StoreError::DecodeError),
        Err(e) => Err(e),
    }
}

/// The basket version stored at `a`.
pub fn load_basket(store: &Store, a: Address) -> (r: Result<Basket, StoreError>)
    ensures
        match r {
            Ok(b) => basket_at(store@, a) == Ok::<BasketModel, StoreError>(b@),
            Err(e) => basket_at(store@, a) == Err::<BasketModel, StoreError>(e),
        },
{
    match get_as_type(store, a, EntryType::Basket) {
        Ok(Record::Basket(b)) => Ok(b.cloned()),
        Ok(_) => Err(StoreError::DecodeError),
        Err(e) => Err(e),
    }
}

/// The position stored at `a`.
pub fn load_position(store: &Store, a: Address) -> (r: Result<Position, StoreError>)
    ensures
        match r {
            Ok(q) => position_at(store@, a) == Ok::<PositionModel, StoreError>(q@),
            Err(e) => position_at(store@, a) == Err::<PositionModel, StoreError>(e),
        },
{
    match get_as_type(store, a, EntryType::Position) {
        Ok(Record::Position(q)) => Ok(q.cloned()),
        Ok(_) => Err(StoreError::DecodeError),
        Err(e) => Err(e),
    }
}

/// The position at `p` with its one linked product.
pub fn load_position_with_product(store: &Store, p: Address) -> (r: Result<
    PositionWithProduct,
    StoreError,
>)
    ensures
        match r {
            Ok(x) => resolve_position(store@, p) == Ok::<PositionWithProductModel, StoreError>(
                x@,
            ),
            Err(e) => resolve_position(store@, p) == Err::<PositionWithProductModel, StoreError>(
                e,
            ),
        },
{
    let q = match load_position(store, p) {
        Ok(q) => q,
        Err(e) => return Err(e),
    };
    let products = store.links_from(p, LinkTag::Product);
    if products.len() != 1 {
        return Err(StoreError::InconsistentLink);
    }
    match load_product(store, products[0]) {
        Ok(pr) => Ok(PositionWithProduct { amount: q.amount, product: pr }),
        Err(e) => Err(e),
    }
}

/// Every position of `ps` with its product, in order.
pub fn load_positions(store: &Store, ps: &Vec<Address>) -> (r: Result<
    Vec<PositionWithProduct>,
    StoreError,
>)
    ensures
        match r {
            Ok(v) => resolve_positions(store@, ps@) == Ok::<
                Seq<PositionWithProductModel>,
                StoreError,
            >(v@.map_values(|x: PositionWithProduct| x@)),
            Err(e) => resolve_positions(store@, ps@) == Err::<
                Seq<PositionWithProductModel>,
                StoreError,
            >(e),
        },
{
    let mut out: Vec<PositionWithProduct> = Vec::new();
    let n = ps.len();
    let mut i: usize = 0;
    assert(ps@.subrange(0, 0) =~= Seq::<Address>::empty());
    assert(out@.map_values(|x: PositionWithProduct| x@) =~= Seq::<
        PositionWithProductModel,
    >::empty());
    while i < n
        invariant
            n == ps.len(),
            0 <= i <= n,
            resolve_positions(store@, ps@.subrange(0, i as int)) == Ok::<
                Seq<PositionWithProductModel>,
                StoreError,
            >(out@.map_values(|x: PositionWithProduct| x@)),
        decreases n - i,
    {
        let ghost prefix = ps@.subrange(0, i + 1);
        assert(prefix.drop_last() =~= ps@.subrange(0, i as int));
        match load_position_with_product(store, ps[i]) {
            Ok(x) => {
                let ghost before = out@;
                out.push(x);
                assert(out@.map_values(|x: PositionWithProduct| x@) =~= before.map_values(
                    |x: PositionWithProduct| x@,
                ).push(x@));
            },
            Err(e) => {
                proof {
                    lemma_resolve_err_prefix(store@, ps@, i + 1, e);
                }
                return Err(e);
            },
        }
        i = i + 1;
    }
    assert(ps@.subrange(0, n as int) =~= ps@);
    Ok(out)
}

/// The current version of the basket that `basket_addr` belongs to, with every
/// position linked from it and each position's product.
pub fn handle_get_basket(store: &Store, basket_addr: Address) -> (r: Result<
    BasketResponse,
    StoreError,
>)
    ensures
        match r {
            Ok(v) => basket_view(store@, basket_addr) == Ok::<BasketResponseModel, StoreError>(
                v@,
            ),
            Err(e) => basket_view(store@, basket_addr) == Err::<BasketResponseModel, StoreError>(
                e,
            ),
        },
{
    let logical = store.logical(basket_addr);
    let head = store.head(logical);
    let b = match load_basket(store, head) {
        Ok(b) => b,
        Err(e) => return Err(e),
    };
    let ps = store.links_from(logical, LinkTag::Positions);
    match load_positions(store, &ps) {
        Ok(v) => Ok(BasketResponse { id: head, name: b.name, sum: b.sum, product_positions: v }),
        Err(e) => Err(e),
    }
}

/// `amount * price`, which always fits an `i64`.
fn position_total(amount: i8, price: u32) -> (r: i64)
    ensures
        r == amount * price,
{
    let a = amount as i64;
    let p = price as i64;
    assert(-128 * 4294967295 <= a * p <= 127 * 4294967295) by (nonlinear_arith)
        requires
            -128 <= a <= 127,
            0 <= p <= 4294967295,
    ;
    a * p
}

/// Stores a new version of the basket that `basket_addr` belongs to, whose sum
/// adds the position's amount times the product's price, and makes it current.
pub fn update_basket(
    store: &mut Store,
    basket_addr: Address,
    product_addr: Address,
    position_addr: Address,
) -> (r: Result<Address, StoreError>)
    requires
        old(store).wf(),
        old(store)@.entries.len() < usize::MAX,
    ensures
        final(store).wf(),
        match r {
            Ok(a) => update_spec(old(store)@, basket_addr, product_addr, position_addr) == Ok::<
                (StoreModel, Address),
                StoreError,
            >((final(store)@, a)),
            Err(e) => update_spec(old(store)@, basket_addr, product_addr, position_addr) == Err::<
                (StoreModel, Address),
                StoreError,
            >(e) && final(store)@ == old(store)@,
        },
{
    let ghost m0 = store@;
    proof {
        lemma_logical_stable(m0, basket_addr);
    }
    let logical = store.logical(basket_addr);
    let head = store.head(logical);
    let b = match load_basket(store, head) {
        Ok(b) => b,
        Err(e) => return Err(e),
    };
    let pr = match load_product(store, product_addr) {
        Ok(pr) => pr,
        Err(e) => return Err(e),
    };
    let q = match load_position(store, position_addr) {
        Ok(q) => q,
        Err(e) => return Err(e),
    };
    let products = store.links_from(position_addr, LinkTag::Product);
    if products.len() != 1 || products[0] != product_addr {
        proof {
            if products.len() == 1 {
                assert(products@ != seq![product_addr]);
            }
        }
        return Err(StoreError::InconsistentLink);
    }
    assert(products@ =~= seq![product_addr]);
    let positions = store.links_from(logical, LinkTag::Positions);
    if !contains_address(&positions, position_addr) {
        return Err(StoreError::InconsistentLink);
    }
    let delta = position_total(q.amount, pr.price);
    let sum = match b.sum.checked_add(delta) {
        None => return Err(StoreError::Overflow),
        Some(sum) => sum,
    };
    let nb = Record::Basket(Basket { name: b.name, sum });
    match store.find(&nb) {
        Some(existing) => {
            if store.logical(existing) != logical {
                return Err(StoreError::VersionConflict);
            }
        },
        None => {},
    }
    proof {
        lemma_new_version(m0, logical, nb@);
    }
    let a = store.put(nb);
    store.redirect(logical, a);
    Ok(a)
}

/// Whether `x` is among `v`.
fn contains_address(v: &Vec<Address>, x: Address) -> (r: bool)
    ensures
        r == v@.contains(x),
{
    let mut i: usize = 0;
    while i < v.len()
        invariant
            0 <= i <= v.len(),
            forall|k: int| 0 <= k < i ==> v@[k] != x,
        decreases v.len() - i,
    {
        if v[i] == x {
            return true;
        }
        i = i + 1;
    }
    false
}

/// Stores `position`, links it from the basket `basket_addr` belongs to and to
/// the product at `product_addr`, makes a new version of the basket with the
/// position's amount times the product's price added to its sum, and returns
/// the basket as `handle_get_basket` then reads it. Nothing is written when the
/// basket or the product cannot be read, when the sum would overflow, when the
/// address the position takes already links to a product, or when the new
/// version would be another basket's entry.
pub fn handle_add_product(
    store: &mut Store,
    product_addr: Address,
    basket_addr: Address,
    position: Position,
) -> (r: Result<BasketResponse, StoreError>)
    requires
        old(store).wf(),
        old(store)@.entries.len() + 1 < usize::MAX,
    ensures
        final(store).wf(),
        match add_spec(old(store)@, product_addr, basket_addr, position@) {
            Err(e) => r == Err::<BasketResponse, StoreError>(e) && final(store)@ == old(store)@,
            Ok(m) => final(store)@ == m && match r {
                Ok(v) => basket_view(m, basket_addr) == Ok::<BasketResponseModel, StoreError>(v@),
                Err(e) => basket_view(m, basket_addr) == Err::<BasketResponseModel, StoreError>(e),
            },
        },
        r matches Ok(v) ==> {
            &&& basket_at(
                old(store)@,
                old(store)@.head(old(store)@.logical(basket_addr)),
            ) matches Ok(b)
            &&& product_at(old(store)@, product_addr) matches Ok(pr)
            &&& v.sum == next_sum(b, pr.price, position.amount)
        },
{
    let ghost m0 = store@;
    let ghost pv = position@;
    proof {
        lemma_add_product_sum(m0, product_addr, basket_addr, pv);
    }
    let logical = store.logical(basket_addr);
    let head = store.head(logical);
    let b = match load_basket(store, head) {
        Ok(b) => b,
        Err(e) => return Err(e),
    };
    let pr = match load_product(store, product_addr) {
        Ok(pr) => pr,
        Err(e) => return Err(e),
    };
    let delta = position_total(position.amount, pr.price);
    let sum = match b.sum.checked_add(delta) {
        None => return Err(StoreError::Overflow),
        Some(sum) => sum,
    };
    let rec = Record::Position(position);
    let p_next = match store.find(&rec) {
        Some(existing) => existing,
        None => Address { index: store.len() },
    };
    if store.links_from(p_next, LinkTag::Product).len() > 0 {
        return Err(StoreError::InconsistentLink);
    }
    let nb = Record::Basket(Basket { name: b.name, sum });
    match store.find(&nb) {
        Some(existing) => {
            if store.logical(existing) != logical {
                return Err(StoreError::VersionConflict);
            }
        },
        None => {},
    }
    proof {
        lemma_logical_stable(m0, basket_addr);
        lemma_put_idempotent(m0, rec@);
    }
    let p = store.put(rec);
    store.link(logical, p, LinkTag::Positions);
    store.link(p, product_addr, LinkTag::Product);
    match update_basket(store, basket_addr, product_addr, p) {
        Ok(_) => {},
        Err(e) => return Err(e),
    }
    handle_get_basket(store, basket_addr)
}

/// Stores `product` and returns its address.
pub fn handle_create_product(store: &mut Store, product: Product) -> (a: Address)
    requires
        old(store).wf(),
        old(store)@.entries.len() < usize::MAX,
    ensures
        final(store).wf(),
        (final(store)@, a) == old(store)@.put(RecordModel::Product(product@)),
{
    store.put(Record::Product(product))
}

/// Stores `basket` and returns its address, by which the basket is known from
/// then on. A basket of new content is its own current version, has no
/// positions, and its sum agrees with them.
pub fn handle_create_basket(store: &mut Store, basket: Basket) -> (a: Address)
    requires
        old(store).wf(),
        old(store)@.entries.len() < usize::MAX,
    ensures
        final(store).wf(),
        (final(store)@, a) == old(store)@.put(RecordModel::Basket(basket@)),
        a.index == old(store)@.entries.len() ==> {
            &&& final(store)@.head(a) == a
            &&& final(store)@.logical(a) == a
            &&& final(store)@.links_from(a, LinkTag::Positions).len() == 0
            &&& sum_consistent(final(store)@, a)
        },
{
    let ghost m0 = store@;
    let ghost bv = basket@;
    let a = store.put(Record::Basket(basket));
    proof {
        if a.index == m0.entries.len() {
            lemma_fresh_address(m0, a, LinkTag::Positions);
            lemma_put_idempotent(m0, RecordModel::Basket(bv));
            let m1 = store@;
            assert(resolve_positions(m1, m1.links_from(a, LinkTag::Positions)) == Ok::<
                Seq<PositionWithProductModel>,
                StoreError,
            >(Seq::empty()));
        }
    }
    a
}

/// The product at `product_addr`, with its address.
pub fn handle_get_product(store: &Store, product_addr: Address) -> (r: Result<
    ProductResponse,
    StoreError,
>)
    ensures
        match product_at(store@, product_addr) {
            Ok(p) => r matches Ok(v) && v@ == ProductResponseModel {
                id: product_addr,
                name: p.name,
                description: p.description,
                price: p.price,
            },
            Err(e) => r == Err::<ProductResponse, StoreError>(e),
        },
{
    match load_product(store, product_addr) {
        Ok(p) => Ok(
            ProductResponse {
                id: product_addr,
                name: p.name,
                description: p.description,
                price: p.price,
            },
        ),
        Err(e) => Err(e),
    }
}

/// One row per address of `addrs` that holds a product, in order; the others
/// are left out.
pub open spec fn product_rows(m: StoreModel, addrs: Seq<Address>) -> Seq<ProductResponseModel>
    decreases addrs.len(),
{
    if addrs.len() == 0 {
        Seq::empty()
    } else {
        let prev = product_rows(m, addrs.drop_last());
        let a = addrs.last();
        match product_at(m, a) {
            Ok(p) => prev.push(
                ProductResponseModel {
                    id: a,
                    name: p.name,
                    description: p.description,
                    price: p.price,
                },
            ),
            Err(_) => prev,
        }
    }
}

/// One row per address of `addrs` that is no later version of another basket,
/// showing the address, name and sum of its current version; an address whose
/// current version cannot be read as a basket is left out.
pub open spec fn basket_rows(m: StoreModel, addrs: Seq<Address>) -> Seq<BasketRowModel>
    decreases addrs.len(),
{
    if addrs.len() == 0 {
        Seq::empty()
    } else {
        let prev = basket_rows(m, addrs.drop_last());
        let a = addrs.last();
        if m.logical(a) == a {
            match basket_at(m, m.head(a)) {
                Ok(b) => prev.push(BasketRowModel { name: b.name, sum: b.sum, id: m.head(a) }),
                Err(_) => prev,
            }
        } else {
            prev
        }
    }
}

/// Every product stored, each once, in the order they were first stored.
pub fn handle_get_products(store: &Store) -> (r: Vec<ProductResponse>)
    ensures
        r@.map_values(|x: ProductResponse| x@) == product_rows(
            store@,
            addresses_of_type(store@.entries, EntryType::Product),
        ),
{
    let addrs = store.all_of_type(EntryType::Product);
    let mut out: Vec<ProductResponse> = Vec::new();
    let n = addrs.len();
    let mut i: usize = 0;
    assert(addrs@.subrange(0, 0) =~= Seq::<Address>::empty());
    assert(out@.map_values(|x: ProductResponse| x@) =~= Seq::<ProductResponseModel>::empty());
    while i < n
        invariant
            n == addrs.len(),
            0 <= i <= n,
            out@.map_values(|x: ProductResponse| x@) == product_rows(
                store@,
                addrs@.subrange(0, i as int),
            ),
        decreases n - i,
    {
        let ghost s = addrs@.subrange(0, i + 1);
        assert(s.drop_last() =~= addrs@.subrange(0, i as int));
        let ghost before = out@;
        match handle_get_product(store, addrs[i]) {
            Ok(row) => {
                out.push(row);
                assert(out@.map_values(|x: ProductResponse| x@) =~= before.map_values(
                    |x: ProductResponse| x@,
                ).push(out@[before.len() as int]@));
            },
            Err(_) => {},
        }
        i = i + 1;
    }
    assert(addrs@.subrange(0, n as int) =~= addrs@);
    out
}

/// Every basket, each once, shown as its current version: that version's
/// address, name and sum.
pub fn handle_get_baskets(store: &Store) -> (r: Vec<BasketResponseAll>)
    ensures
        r@.map_values(|x: BasketResponseAll| x@) == basket_rows(
            store@,
            addresses_of_type(store@.entries, EntryType::Basket),
        ),
{
    let addrs = store.all_of_type(EntryType::Basket);
    let mut out: Vec<BasketResponseAll> = Vec::new();
    let n = addrs.len();
    let mut i: usize = 0;
    assert(addrs@.subrange(0, 0) =~= Seq::<Address>::empty());
    assert(out@.map_values(|x: BasketResponseAll| x@) =~= Seq::<BasketRowModel>::empty());
    while i < n
        invariant
            n == addrs.len(),
            0 <= i <= n,
            out@.map_values(|x: BasketResponseAll| x@) == basket_rows(
                store@,
                addrs@.subrange(0, i as int),
            ),
        decreases n - i,
    {
        let ghost s = addrs@.subrange(0, i + 1);
        assert(s.drop_last() =~= addrs@.subrange(0, i as int));
        let a = addrs[i];
        let ghost before = out@;
        if store.logical(a) == a {
            let head = store.head(a);
            match load_basket(store, head) {
                Ok(b) => {
                    out.push(BasketResponseAll { name: b.name, sum: b.sum, id: head });
                    assert(out@.map_values(|x: BasketResponseAll| x@) =~= before.map_values(
                        |x: BasketResponseAll| x@,
                    ).push(out@[before.len() as int]@));
                },
                Err(_) => {},
            }
        }
        i = i + 1;
    }
    assert(addrs@.subrange(0, n as int) =~= addrs@);
    out
}

/// Reading a basket through any address that belongs to it, the address of its
/// current version included, gives the same result.
pub proof fn lemma_read_through_any_version(m: StoreModel, a: Address)
    requires
        m.wf(),
    ensures
        basket_view(m, m.head(m.logical(a))) == basket_view(m, a),
        basket_view(m, a) matches Ok(v) ==> basket_view(m, v.id) == basket_view(m, a),
{
    lemma_logical_stable(m, a);
}

/// Two accepted additions to the same basket link their positions after the
/// earlier ones, in the order they were added.
pub proof fn lemma_adds_keep_order(
    m: StoreModel,
    basket_addr: Address,
    product1: Address,
    position1: PositionModel,
    product2: Address,
    position2: PositionModel,
)
    requires
        m.wf(),
        m.entries.len() + 3 < usize::MAX,
    ensures
        add_spec(m, product1, basket_addr, position1) matches Ok(m1) ==> (add_spec(
            m1,
            product2,
            basket_addr,
            position2,
        ) matches Ok(m2) ==> m2.links_from(m.logical(basket_addr), LinkTag::Positions)
            == m.links_from(m.logical(basket_addr), LinkTag::Positions).push(
            m.put(RecordModel::Position(position1)).1,
        ).push(m1.put(RecordModel::Position(position2)).1)),
{
    lemma_add_product_sum(m, product1, basket_addr, position1);
    if add_spec(m, product1, basket_addr, position1) is Ok {
        let m1 = add_spec(m, product1, basket_addr, position1)->Ok_0;
        lemma_add_product_sum(m1, product2, basket_addr, position2);
    }
}

/// What the resolved positions add to a basket: amount times price, summed.
pub open spec fn positions_total(v: Seq<PositionWithProductModel>) -> int
    decreases v.len(),
{
    if v.len() == 0 {
        0
    } else {
        positions_total(v.drop_last()) + v.last().amount * v.last().product.price
    }
}

/// The current version of the basket `l` holds the sum it was created with plus
/// the total of every position linked from it.
pub open spec fn sum_consistent(m: StoreModel, l: Address) -> bool {
    match (
        basket_at(m, m.head(l)),
        basket_at(m, l),
        resolve_positions(m, m.links_from(l, LinkTag::Positions)),
    ) {
        (Ok(current), Ok(created), Ok(v)) => current.sum == created.sum + positions_total(v),
        _ => false,
    }
}

/// A product read back from where it was stored is the product that was stored.
pub proof fn lemma_product_round_trip(m: StoreModel, p: ProductModel)
    requires
        m.wf(),
        m.entries.len() < usize::MAX,
    ensures
        ({
            let (m1, a) = m.put(RecordModel::Product(p));
            product_at(m1, a) == Ok::<ProductModel, StoreError>(p)
        }),
{
    lemma_put_idempotent(m, RecordModel::Product(p));
}

proof fn lemma_resolve_positions_each(m: StoreModel, ps: Seq<Address>)
    ensures
        resolve_positions(m, ps) matches Ok(v) ==> v.len() == ps.len() && forall|i: int|
            0 <= i < ps.len() ==> resolve_position(m, ps[i]) == Ok::<
                PositionWithProductModel,
                StoreError,
            >(#[trigger] v[i]),
        (forall|i: int| 0 <= i < ps.len() ==> (#[trigger] resolve_position(m, ps[i])) is Ok)
            ==> resolve_positions(m, ps) is Ok,
    decreases ps.len(),
{
    if ps.len() > 0 {
        let init = ps.drop_last();
        lemma_resolve_positions_each(m, init);
        assert forall|i: int| 0 <= i < init.len() implies init[i] == ps[i] by {}
        if forall|i: int| 0 <= i < ps.len() ==> (#[trigger] resolve_position(m, ps[i])) is Ok {
            assert forall|i: int| 0 <= i < init.len() implies (#[trigger] resolve_position(
                m,
                init[i],
            )) is Ok by {
                assert(resolve_position(m, ps[i]) is Ok);
            }
            assert(resolve_position(m, ps[ps.len() - 1]) is Ok);
        }
    }
}

/// A basket read holds exactly one entry per position linked from the basket,
/// in link order, each the resolved position at that place: none is missing and
/// none is extra. The read fails only where some linked position does not
/// resolve, or the basket's current version cannot be read.
pub proof fn lemma_traversal_complete(m: StoreModel, a: Address)
    ensures
        ({
            let linked = m.links_from(m.logical(a), LinkTag::Positions);
            &&& basket_view(m, a) matches Ok(v) ==> {
                &&& v.product_positions.len() == linked.len()
                &&& forall|i: int|
                    0 <= i < linked.len() ==> (#[trigger] m.links_from(
                        linked[i],
                        LinkTag::Product,
                    )).len() == 1
                &&& forall|i: int|
                    0 <= i < linked.len() ==> resolve_position(m, linked[i]) == Ok::<
                        PositionWithProductModel,
                        StoreError,
                    >(#[trigger] v.product_positions[i])
            }
            &&& (basket_at(m, m.head(m.logical(a))) is Ok && forall|i: int|
                0 <= i < linked.len() ==> (#[trigger] resolve_position(m, linked[i])) is Ok)
                ==> basket_view(m, a) is Ok
        }),
{
    let linked = m.links_from(m.logical(a), LinkTag::Positions);
    lemma_resolve_positions_each(m, linked);
    if basket_view(m, a) is Ok {
        let v = resolve_positions(m, linked)->Ok_0;
        assert forall|i: int| 0 <= i < linked.len() implies (#[trigger] m.links_from(
            linked[i],
            LinkTag::Product,
        )).len() == 1 by {
            assert(resolve_position(m, linked[i]) == Ok::<PositionWithProductModel, StoreError>(
                v[i],
            ));
        }
    }
}

/// The store after putting each of `rs` in turn, and the addresses returned.
pub open spec fn put_all(m: StoreModel, rs: Seq<RecordModel>) -> (StoreModel, Seq<Address>)
    decreases rs.len(),
{
    if rs.len() == 0 {
        (m, Seq::empty())
    } else {
        let (m1, addrs) = put_all(m, rs.drop_last());
        let (m2, a) = m1.put(rs.last());
        (m2, addrs.push(a))
    }
}

/// Puts each of `rs` in turn and returns the addresses.
fn put_each(store: &mut Store, rs: &Vec<Record>) -> (r: Vec<Address>)
    requires
        old(store).wf(),
        old(store)@.entries.len() + rs.len() < usize::MAX,
    ensures
        final(store).wf(),
        final(store)@.entries.len() <= old(store)@.entries.len() + rs.len(),
        (final(store)@, r@) == put_all(old(store)@, rs@.map_values(|x: Record| x@)),
{
    let ghost views = rs@.map_values(|x: Record| x@);
    let mut out: Vec<Address> = Vec::new();
    let mut i: usize = 0;
    let n = rs.len();
    assert(views.subrange(0, 0) =~= Seq::<RecordModel>::empty());
    while i < n
        invariant
            n == rs.len(),
            views == rs@.map_values(|x: Record| x@),
            0 <= i <= n,
            store.wf(),
            store@.entries.len() <= old(store)@.entries.len() + i,
            old(store)@.entries.len() + n < usize::MAX,
            (store@, out@) == put_all(old(store)@, views.subrange(0, i as int)),
        decreases n - i,
    {
        let ghost pre = views.subrange(0, i + 1);
        assert(pre.drop_last() =~= views.subrange(0, i as int));
        let a = store.put(rs[i].cloned());
        out.push(a);
        i = i + 1;
    }
    assert(views.subrange(0, n as int) =~= views);
    out
}

/// Stores every product and basket given, in order, and returns the addresses
/// of the baskets. The positions are not stored.
pub fn handle_init_mock_data(
    store: &mut Store,
    products: Vec<Product>,
    baskets: Vec<Basket>,
    _positions: Vec<Position>,
) -> (r: Vec<Address>)
    requires
        old(store).wf(),
        old(store)@.entries.len() + products.len() + baskets.len() < usize::MAX,
    ensures
        final(store).wf(),
        ({
            let (m1, _) = put_all(
                old(store)@,
                products@.map_values(|p: Product| RecordModel::Product(p@)),
            );
            let (m2, addrs) = put_all(
                m1,
                baskets@.map_values(|b: Basket| RecordModel::Basket(b@)),
            );
            final(store)@ == m2 && r@ == addrs
        }),
{
    let mut product_records: Vec<Record> = Vec::new();
    let mut i: usize = 0;
    while i < products.len()
        invariant
            0 <= i <= products.len(),
            product_records@.len() == i,
            forall|k: int|
                0 <= k < i ==> (#[trigger] product_records@[k])@ == RecordModel::Product(
                    products@[k]@,
                ),
        decreases products.len() - i,
    {
        product_records.push(Record::Product(products[i].cloned()));
        i = i + 1;
    }
    assert(product_records@.map_values(|x: Record| x@) =~= products@.map_values(
        |p: Product| RecordModel::Product(p@),
    ));
    let mut basket_records: Vec<Record> = Vec::new();
    let mut j: usize = 0;
    while j < baskets.len()
        invariant
            0 <= j <= baskets.len(),
            basket_records@.len() == j,
            forall|k: int|
                0 <= k < j ==> (#[trigger] basket_records@[k])@ == RecordModel::Basket(
                    baskets@[k]@,
                ),
        decreases baskets.len() - j,
    {
        basket_records.push(Record::Basket(baskets[j].cloned()));
        j = j + 1;
    }
    assert(basket_records@.map_values(|x: Record| x@) =~= baskets@.map_values(
        |b: Basket| RecordModel::Basket(b@),
    ));
    let _ = put_each(store, &product_records);
    put_each(store, &basket_records)
}

} // verus!
