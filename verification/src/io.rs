use vstd::prelude::*;
use vstd::string::StringExecFns;

use crate::errs::CustomErrs;

verus! {

/// The two logical tables the ledger keeps.
#[derive(Debug, Clone, Copy, PartialEq, Eq, Structural)]
pub enum TableKind {
    /// One row per signed record.
    Records,
    /// One row per published block: its digest and its position range.
    Blocks,
}

/// An inclusive range of row positions, assigned to one pushed block.
#[derive(Debug, Clone, Copy, PartialEq, Eq, Structural)]
pub struct QueryRange {
    pub begin: i64,
    pub end: i64,
}

impl QueryRange {
    /// Builds the inclusive range from begin to end.
    pub fn new(begin: i64, end: i64) -> (r: Self)
        ensures
            r.begin == begin,
            r.end == end,
    {
        Self { begin, end }
    }
}

/// The content of a storage backend: which tables exist and which rows they
/// hold, in order. A row is the ordered sequence of its column texts.
#[verifier::ext_equal]
pub ghost struct DbModel {
    pub records_present: bool,
    pub blocks_present: bool,
    pub records: Seq<Seq<Seq<char>>>,
    pub blocks: Seq<Seq<Seq<char>>>,
}

impl DbModel {
    /// Whether a table exists.
    pub open spec fn present(self, kind: TableKind) -> bool {
        match kind {
            TableKind::Records => self.records_present,
            TableKind::Blocks => self.blocks_present,
        }
    }

    /// The rows of a table, in stored order.
    pub open spec fn rows(self, kind: TableKind) -> Seq<Seq<Seq<char>>> {
        match kind {
            TableKind::Records => self.records,
            TableKind::Blocks => self.blocks,
        }
    }

    /// The content after a table is made present; its rows are untouched.
    pub open spec fn with_table(self, kind: TableKind) -> DbModel {
        match kind {
            TableKind::Records => DbModel { records_present: true, ..self },
            TableKind::Blocks => DbModel { blocks_present: true, ..self },
        }
    }

    /// The content after one row is appended to a table.
    pub open spec fn push_row(self, kind: TableKind, row: Seq<Seq<char>>) -> DbModel {
        match kind {
            TableKind::Records => DbModel { records: self.records.push(row), ..self },
            TableKind::Blocks => DbModel { blocks: self.blocks.push(row), ..self },
        }
    }
}

/// The name of a table.
pub open spec fn spec_table_name(kind: TableKind) -> Seq<char> {
    match kind {
        TableKind::Records => "RECORDCHAIN"@,
        TableKind::Blocks => "BLOCKCHAIN"@,
    }
}

/// The ordered column names of a table, the position column aside.
pub open spec fn spec_columns(kind: TableKind) -> Seq<Seq<char>> {
    match kind {
        TableKind::Records => seq!["Record"@, "Identity"@, "Signature"@],
        TableKind::Blocks => seq!["Hash"@, "BlockPosition"@],
    }
}

/// The name of a table.
pub fn table_name(kind: TableKind) -> (r: &'static str)
    ensures
        r@ == spec_table_name(kind),
{
    match kind {
        TableKind::Records => "RECORDCHAIN",
        TableKind::Blocks => "BLOCKCHAIN",
    }
}

/// The ordered column names of a table, the position column aside.
pub fn columns(kind: TableKind) -> (r: Vec<&'static str>)
    ensures
        r.deep_view() == spec_columns(kind),
{
    let mut v: Vec<&'static str> = Vec::new();
    match kind {
        TableKind::Records => {
            v.push("Record");
            v.push("Identity");
            v.push("Signature");
        },
        TableKind::Blocks => {
            v.push("Hash");
            v.push("BlockPosition");
        },
    }
    proof {
        assert(v.deep_view() =~~= spec_columns(kind));
    }
    v
}

/// The statement that creates a table when it is absent: an integer position
/// primary key, then one text column per schema column, in order.
pub open spec fn spec_create_table_statement(kind: TableKind) -> Seq<char> {
    match kind {
        TableKind::Records => "CREATE TABLE IF NOT EXISTS RECORDCHAIN (Position INTEGER PRIMARY KEY AUTOINCREMENT, Record TEXT, Identity TEXT, Signature TEXT)"@,
        TableKind::Blocks => "CREATE TABLE IF NOT EXISTS BLOCKCHAIN (Position INTEGER PRIMARY KEY AUTOINCREMENT, Hash TEXT, BlockPosition TEXT)"@,
    }
}

/// The statement that creates a table when it is absent.
pub fn create_table_statement(kind: TableKind) -> (r: String)
    ensures
        r@ == spec_create_table_statement(kind),
{
    match kind {
        TableKind::Records => String::from_str(
            "CREATE TABLE IF NOT EXISTS RECORDCHAIN (Position INTEGER PRIMARY KEY AUTOINCREMENT, Record TEXT, Identity TEXT, Signature TEXT)",
        ),
        TableKind::Blocks => String::from_str(
            "CREATE TABLE IF NOT EXISTS BLOCKCHAIN (Position INTEGER PRIMARY KEY AUTOINCREMENT, Hash TEXT, BlockPosition TEXT)",
        ),
    }
}

/// The statement that appends one row, a placeholder per schema column.
pub open spec fn spec_insert_statement(kind: TableKind) -> Seq<char> {
    match kind {
        TableKind::Records => "INSERT INTO RECORDCHAIN (Record, Identity, Signature) VALUES (?, ?, ?)"@,
        TableKind::Blocks => "INSERT INTO BLOCKCHAIN (Hash, BlockPosition) VALUES (?, ?)"@,
    }
}

/// The statement that appends one row.
pub fn insert_statement(kind: TableKind) -> (r: String)
    ensures
        r@ == spec_insert_statement(kind),
{
    match kind {
        TableKind::Records => String::from_str(
            "INSERT INTO RECORDCHAIN (Record, Identity, Signature) VALUES (?, ?, ?)",
        ),
        TableKind::Blocks => String::from_str(
            "INSERT INTO BLOCKCHAIN (Hash, BlockPosition) VALUES (?, ?)",
        ),
    }
}

/// The statement that counts the rows of a table.
pub open spec fn spec_count_statement(kind: TableKind) -> Seq<char> {
    match kind {
        TableKind::Records => "SELECT COUNT(*) FROM RECORDCHAIN"@,
        TableKind::Blocks => "SELECT COUNT(*) FROM BLOCKCHAIN"@,
    }
}

/// The statement that counts the rows of a table.
pub fn count_statement(kind: TableKind) -> (r: String)
    ensures
        r@ == spec_count_statement(kind),
{
    match kind {
        TableKind::Records => String::from_str("SELECT COUNT(*) FROM RECORDCHAIN"),
        TableKind::Blocks => String::from_str("SELECT COUNT(*) FROM BLOCKCHAIN"),
    }
}

/// What a value that can stand in a table says about itself: which table it
/// belongs to, that table's schema, and how many rows the value contributes.
pub trait DatabaseInsertable {
    /// The table this kind of value is stored in.
    spec fn kind() -> TableKind;

    /// How many rows this value contributes.
    spec fn spec_len(&self) -> int;

    /// The bound under which `len` fits the position space.
    spec fn len_ok(&self) -> bool;

    /// The name of the table this value is stored in.
    fn get_name() -> (r: &'static str)
        ensures
            r@ == spec_table_name(Self::kind()),
    ;

    /// The ordered column names of that table, the position column aside.
    fn columns() -> (r: Vec<&'static str>)
        ensures
            r.deep_view() == spec_columns(Self::kind()),
    ;

    /// How many rows this value contributes.
    fn len(&self) -> (r: i64)
        requires
            self.len_ok(),
        ensures
            r == self.spec_len(),
    ;
}

/// The storage capability the ledger depends on. A backend is anything that
/// holds the two tables durably; its observable content is the DbModel.
/// `committed` is the content a rollback returns to; it equals `state`
/// whenever no transaction is open. Writes happen only between
/// `begin_transaction` and `commit_transaction`, so that a failed push can
/// roll the whole unit back, as the position-range invariant demands.
pub trait Database2: Sized {
    /// The current content, the open transaction's writes included. A
    /// backend outside the library that leaves this unsaid gets an
    /// arbitrary model.
    open spec fn state(&self) -> DbModel {
        vstd::pervasive::arbitrary()
    }

    /// The content a rollback restores.
    open spec fn committed(&self) -> DbModel {
        vstd::pervasive::arbitrary()
    }

    /// Whether a transaction is open.
    open spec fn in_transaction(&self) -> bool {
        vstd::pervasive::arbitrary()
    }

    /// Checks whether a table exists.
    fn table_exists(&self, kind: TableKind) -> (r: bool)
        ensures
            r == self.state().present(kind),
    ;

    /// Creates a table when it is absent; when it is present the call does
    /// nothing and succeeds (checked first, never blindly retried).
    fn create_table_if_absent(&mut self, kind: TableKind) -> (r: Result<(), CustomErrs>)
        requires
            !old(self).in_transaction(),
            old(self).committed() == old(self).state(),
        ensures
            !final(self).in_transaction(),
            final(self).committed() == final(self).state(),
            old(self).state().present(kind) ==> r is Ok && final(self).state() == old(self).state(),
            r is Ok ==> final(self).state() == old(self).state().with_table(kind),
            r is Err ==> final(self).state() == old(self).state() && r->Err_0 == CustomErrs::CannotCreateSuchTable,
    ;

    /// The number of rows of a table.
    fn len(&self, kind: TableKind) -> (r: i64)
        requires
            self.state().present(kind),
            self.state().rows(kind).len() <= i64::MAX,
        ensures
            r == self.state().rows(kind).len(),
    ;

    /// Opens the transaction that makes a sequence of writes one unit.
    fn begin_transaction(&mut self) -> (r: Result<(), CustomErrs>)
        requires
            !old(self).in_transaction(),
            old(self).committed() == old(self).state(),
        ensures
            final(self).state() == old(self).state(),
            final(self).committed() == old(self).state(),
            r is Ok ==> final(self).in_transaction(),
            r is Err ==> !final(self).in_transaction() && r->Err_0 == CustomErrs::NoDatabaseConnected,
    ;

    /// Appends one row to a table, inside the open transaction.
    fn insert_row(&mut self, kind: TableKind, row: &Vec<String>) -> (r: Result<(), CustomErrs>)
        requires
            old(self).in_transaction(),
            old(self).state().present(kind),
        ensures
            final(self).in_transaction(),
            final(self).committed() == old(self).committed(),
            r is Ok ==> final(self).state() == old(self).state().push_row(kind, row.deep_view()),
            r is Err ==> final(self).state() == old(self).state(),
            r is Err && kind == TableKind::Records ==> r->Err_0 == CustomErrs::CouldNotInsertRecordsIntoDatabase,
            r is Err && kind == TableKind::Blocks ==> r->Err_0 == CustomErrs::CouldNotInsertHashIntoDatabase,
    ;

    /// Makes the open transaction's writes durable. A failed commit has
    /// rolled them back.
    fn commit_transaction(&mut self) -> (r: Result<(), CustomErrs>)
        requires
            old(self).in_transaction(),
        ensures
            !final(self).in_transaction(),
            final(self).committed() == final(self).state(),
            r is Ok ==> final(self).state() == old(self).state(),
            r is Err ==> final(self).state() == old(self).committed() && r->Err_0 == CustomErrs::NoDatabaseConnected,
    ;

    /// Discards the open transaction's writes.
    fn rollback_transaction(&mut self)
        requires
            old(self).in_transaction(),
        ensures
            !final(self).in_transaction(),
            final(self).state() == old(self).committed(),
            final(self).committed() == old(self).committed(),
    ;

    /// Reads one row of a table.
    fn get_row(&self, kind: TableKind, index: i64) -> (r: Vec<String>)
        requires
            self.state().present(kind),
            0 <= index < self.state().rows(kind).len(),
        ensures
            r.deep_view() == self.state().rows(kind)[index as int],
    ;

    /// The number of rows of a table, or None when the table is absent.
    fn size_of_table(&self, kind: TableKind) -> (r: Option<i64>)
        requires
            self.state().present(kind) ==> self.state().rows(kind).len() <= i64::MAX,
        ensures
            r == (if self.state().present(kind) {
                Some(self.state().rows(kind).len() as i64)
            } else {
                Option::<i64>::None
            }),
    {
        if self.table_exists(kind) {
            Some(self.len(kind))
        } else {
            None
        }
    }
}

} // verus!
