//! The change log: what one entry records and how entries are ordered.

use vstd::prelude::*;
use crate::rows::{Row, Value, ValueView};
use crate::text::{rank, same_text, text_before, text_order_is_total, Rank};

verus! {

/// A hybrid logical clock reading: wall time in milliseconds, then a counter
/// that separates changes of the same millisecond.
#[derive(Clone, Copy, Debug, PartialEq, Eq, PartialOrd, Ord, Hash, Structural)]
pub struct Hlc {
    pub ms: i64,
    pub counter: u32,
}

impl Hlc {
    /// Whether this reading is earlier than the other.
    pub open spec fn before(self, other: Hlc) -> bool {
        self.ms < other.ms || (self.ms == other.ms && self.counter < other.counter)
    }

    /// Whether this reading is earlier than the other.
    pub fn is_before(&self, other: &Hlc) -> (r: bool)
        ensures
            r == self.before(*other),
    {
        self.ms < other.ms || (self.ms == other.ms && self.counter < other.counter)
    }
}

/// The table a change belongs to. Each variant carries what names its file.
#[derive(Clone, Copy, Debug, PartialEq, Eq, Hash, Structural)]
pub enum ChangeTable {
    Expenses { year: i32, month: u32 },
    Recurring { year: i32 },
    Investments { year: i32 },
    InvestmentsPrices { year: i32 },
    Liquidity { year: i32 },
    CreditsDebts { year: i32 },
    CashflowIncome { year: i32 },
    CurrencySettings,
    CategoryMappings,
    KnownCategories,
}

/// Where a change came from, when it was not typed by the user.
#[derive(Debug, PartialEq, Eq)]
pub enum ChangeOrigin {
    /// A row generated from a recurring template.
    RecurringApply,
    /// An origin this version does not know.
    Unknown(String),
}

/// What one change does to its row.
#[derive(Debug, PartialEq, Eq)]
pub enum ChangeOp {
    /// The whole row, created or replaced.
    Upsert { row: Row },
    /// The row is removed.
    Delete,
    /// One column of the row takes a value.
    Cell { column: String, value: Value },
}

/// One line of a change log.
#[derive(Debug, PartialEq, Eq)]
pub struct ChangeEntry {
    pub stamp: Hlc,
    pub device_id: String,
    pub table: ChangeTable,
    pub row_id: String,
    pub origin: Option<ChangeOrigin>,
    pub op: ChangeOp,
}

/// What a [`ChangeOrigin`] says.
pub enum OriginView {
    RecurringApply,
    Unknown(Seq<char>),
}

/// What a [`ChangeOp`] says.
pub enum OpView {
    Upsert(Map<Seq<char>, ValueView>),
    Delete,
    Cell(Seq<char>, ValueView),
}

/// What orders two changes: the stamp, then the device.
pub struct KeyView {
    pub stamp: Hlc,
    pub device: Seq<char>,
}

/// What a [`ChangeEntry`] says.
pub struct EntryView {
    pub stamp: Hlc,
    pub device: Seq<char>,
    pub table: ChangeTable,
    pub row_id: Seq<char>,
    pub origin: Option<OriginView>,
    pub op: OpView,
}

impl EntryView {
    /// What orders this change among others.
    pub open spec fn key(self) -> KeyView {
        KeyView { stamp: self.stamp, device: self.device }
    }

    /// Whether the change concerns this row of this table.
    pub open spec fn on_row(self, table: ChangeTable, row_id: Seq<char>) -> bool {
        self.table == table && self.row_id == row_id
    }
}

/// Order of changes: by stamp, then by device id.
pub open spec fn key_before(a: KeyView, b: KeyView) -> bool {
    a.stamp.before(b.stamp) || (a.stamp == b.stamp && text_before(a.device, b.device))
}

/// `key_before` is a strict total order, so two different keys never tie.
pub proof fn key_order_is_total()
    ensures
        forall|a: KeyView, b: KeyView| #[trigger]
            key_before(a, b) ==> !key_before(b, a) && a != b,
        forall|a: KeyView, b: KeyView|
            #![trigger key_before(a, b)]
            a == b || key_before(a, b) || key_before(b, a),
        forall|a: KeyView, b: KeyView, c: KeyView| #[trigger]
            key_before(a, b) && #[trigger] key_before(b, c) ==> key_before(a, c),
{
    text_order_is_total();
}

impl View for ChangeOrigin {
    type V = OriginView;

    open spec fn view(&self) -> OriginView {
        match self {
            ChangeOrigin::RecurringApply => OriginView::RecurringApply,
            ChangeOrigin::Unknown(s) => OriginView::Unknown(s@),
        }
    }
}

impl Clone for ChangeOrigin {
    fn clone(&self) -> (r: Self)
        ensures
            r@ == self@,
    {
        match self {
            ChangeOrigin::RecurringApply => ChangeOrigin::RecurringApply,
            ChangeOrigin::Unknown(s) => ChangeOrigin::Unknown(s.clone()),
        }
    }
}

impl View for ChangeOp {
    type V = OpView;

    open spec fn view(&self) -> OpView {
        match self {
            ChangeOp::Upsert { row } => OpView::Upsert(row@),
            ChangeOp::Delete => OpView::Delete,
            ChangeOp::Cell { column, value } => OpView::Cell(column@, value@),
        }
    }
}

impl View for ChangeEntry {
    type V = EntryView;

    open spec fn view(&self) -> EntryView {
        EntryView {
            stamp: self.stamp,
            device: self.device_id@,
            table: self.table,
            row_id: self.row_id@,
            origin: match self.origin {
                Some(o) => Some(o@),
                None => None,
            },
            op: self.op@,
        }
    }
}

impl Clone for ChangeOp {
    fn clone(&self) -> (r: Self)
        ensures
            r@ == self@,
    {
        match self {
            ChangeOp::Upsert { row } => ChangeOp::Upsert { row: row.clone() },
            ChangeOp::Delete => ChangeOp::Delete,
            ChangeOp::Cell { column, value } => ChangeOp::Cell {
                column: column.clone(),
                value: value.clone(),
            },
        }
    }
}

impl ChangeEntry {

    /// Where this change stands relative to another in the order of changes.
    pub fn rank_against(&self, other: &ChangeEntry) -> (r: Rank)
        ensures
            r == Rank::Before <==> key_before(self@.key(), other@.key()),
            r == Rank::Same <==> self@.key() == other@.key(),
            r == Rank::After <==> key_before(other@.key(), self@.key()),
    {
        proof {
            key_order_is_total();
            text_order_is_total();
        }
        if self.stamp.is_before(&other.stamp) {
            Rank::Before
        } else if other.stamp.is_before(&self.stamp) {
            Rank::After
        } else {
            rank(self.device_id.as_str(), other.device_id.as_str())
        }
    }

    /// Whether the change concerns this row of this table.
    pub fn is_on_row(&self, table: &ChangeTable, row_id: &str) -> (r: bool)
        ensures
            r == self@.on_row(*table, row_id@),
    {
        self.table == *table && same_text(self.row_id.as_str(), row_id)
    }
}

impl Clone for ChangeEntry {
    fn clone(&self) -> (r: Self)
        ensures
            r@ == self@,
    {
        ChangeEntry {
            stamp: self.stamp,
            device_id: self.device_id.clone(),
            table: self.table,
            row_id: self.row_id.clone(),
            origin: match &self.origin {
                Some(o) => Some(o.clone()),
                None => None,
            },
            op: self.op.clone(),
        }
    }
}

/// What the entries of a log say.
pub open spec fn views(entries: Seq<ChangeEntry>) -> Seq<EntryView> {
    Seq::new(entries.len(), |i: int| entries[i]@)
}

} // verus!
