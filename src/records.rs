use vstd::prelude::*;

verus! {

/// A product on offer. The price is held in minor currency units (cents).
pub struct Product {
    pub name: String,
    pub description: String,
    pub price: u32,
}

/// One line of a basket: how many of a product, and when it was added.
pub struct Position {
    pub amount: i8,
    pub timestamp: String,
}

/// A basket version: its name and the running sum of its positions.
pub struct Basket {
    pub name: String,
    pub sum: i64,
}

/// A table of a facility, known by its name.
pub struct Table {
    pub name: String,
}

/// The kinds of entries the store holds.
#[derive(Clone, Copy, Debug, PartialEq, Eq, Structural)]
pub enum EntryType {
    Product,
    Basket,
    Position,
}

/// A stored entry: its variant is its type tag.
pub enum Record {
    Product(Product),
    Basket(Basket),
    Position(Position),
}

pub struct ProductModel {
    pub name: Seq<char>,
    pub description: Seq<char>,
    pub price: u32,
}

pub struct PositionModel {
    pub amount: i8,
    pub timestamp: Seq<char>,
}

pub struct BasketModel {
    pub name: Seq<char>,
    pub sum: i64,
}

pub enum RecordModel {
    Product(ProductModel),
    Basket(BasketModel),
    Position(PositionModel),
}

impl View for Product {
    type V = ProductModel;

    open spec fn view(&self) -> ProductModel {
        ProductModel { name: self.name@, description: self.description@, price: self.price }
    }
}

impl View for Position {
    type V = PositionModel;

    open spec fn view(&self) -> PositionModel {
        PositionModel { amount: self.amount, timestamp: self.timestamp@ }
    }
}

impl View for Basket {
    type V = BasketModel;

    open spec fn view(&self) -> BasketModel {
        BasketModel { name: self.name@, sum: self.sum }
    }
}

impl View for Record {
    type V = RecordModel;

    open spec fn view(&self) -> RecordModel {
        match self {
            Record::Product(p) => RecordModel::Product(p@),
            Record::Basket(b) => RecordModel::Basket(b@),
            Record::Position(q) => RecordModel::Position(q@),
        }
    }
}

impl RecordModel {
    pub open spec fn entry_type(self) -> EntryType {
        match self {
            RecordModel::Product(_) => EntryType::Product,
            RecordModel::Basket(_) => EntryType::Basket,
            RecordModel::Position(_) => EntryType::Position,
        }
    }
}

impl Product {
    /// A copy with the same fields.
    pub fn cloned(&self) -> (r: Product)
        ensures
            r@ == self@,
    {
        Product {
            name: self.name.clone(),
            description: self.description.clone(),
            price: self.price,
        }
    }

    /// Whether both products have the same fields.
    pub fn same_as(&self, other: &Product) -> (r: bool)
        ensures
            r == (self@ == other@),
    {
        self.name == other.name && self.description == other.description && self.price
            == other.price
    }
}

impl Position {
    /// A copy with the same fields.
    pub fn cloned(&self) -> (r: Position)
        ensures
            r@ == self@,
    {
        Position { amount: self.amount, timestamp: self.timestamp.clone() }
    }

    /// Whether both positions have the same fields.
    pub fn same_as(&self, other: &Position) -> (r: bool)
        ensures
            r == (self@ == other@),
    {
        self.amount == other.amount && self.timestamp == other.timestamp
    }
}

impl Basket {
    /// A copy with the same fields.
    pub fn cloned(&self) -> (r: Basket)
        ensures
            r@ == self@,
    {
        Basket { name: self.name.clone(), sum: self.sum }
    }

    /// Whether both baskets have the same fields.
    pub fn same_as(&self, other: &Basket) -> (r: bool)
        ensures
            r == (self@ == other@),
    {
        self.name == other.name && self.sum == other.sum
    }
}

impl Record {
    /// The type tag of this entry.
    pub fn entry_type(&self) -> (r: EntryType)
        ensures
            r == self@.entry_type(),
    {
        match self {
            Record::Product(_) => EntryType::Product,
            Record::Basket(_) => EntryType::Basket,
            Record::Position(_) => EntryType::Position,
        }
    }

    /// A copy with the same type and content.
    pub fn cloned(&self) -> (r: Record)
        ensures
            r@ == self@,
    {
        match self {
            Record::Product(p) => Record::Product(p.cloned()),
            Record::Basket(b) => Record::Basket(b.cloned()),
            Record::Position(q) => Record::Position(q.cloned()),
        }
    }

    /// Whether both entries have the same type and the same content.
    pub fn same_as(&self, other: &Record) -> (r: bool)
        ensures
            r == (self@ == other@),
    {
        match (self, other) {
            (Record::Product(a), Record::Product(b)) => a.same_as(b),
            (Record::Basket(a), Record::Basket(b)) => a.same_as(b),
            (Record::Position(a), Record::Position(b)) => a.same_as(b),
            _ => false,
        }
    }
}

} // verus!
