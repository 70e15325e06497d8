use vstd::prelude::*;
use vstd::string::StringExecFns;

use crate::blockchain::Block;
use crate::blockchain::FeedBack;
use crate::blockchain::Record;
use crate::blockchain::SignedRecord;
use crate::codec::parse_transaction_fields;
use crate::codec::transaction_text;
use crate::codec::transaction_to_text;
use crate::errs::CustomErrs;
use crate::io::Database2;
use crate::io::DbModel;
use crate::io::TableKind;
use crate::node::NodeId;

verus! {

/// The canonical byte encoding of three strings, as bincode writes it.
pub uninterp spec fn bincode_of_triple(a: Seq<char>, b: Seq<char>, c: Seq<char>) -> Seq<u8>;

/// Relies on bincode::serialize: the encoding of a tuple of strings is
/// deterministic, a function of the three character sequences alone, and
/// with no size limit set the call cannot fail on strings.
#[verifier::external_body]
fn bincode_string_triple(a: &String, b: &String, c: &String) -> (r: Vec<u8>)
    ensures
        r@ == bincode_of_triple(a@, b@, c@),
{
    bincode::serialize(&(a, b, c)).unwrap()
}

/// A transfer payload: source, destination and amount, each as text.
#[derive(Debug)]
pub struct Transaction {
    src: String,
    dst: String,
    amount: String,
}

impl Transaction {
    /// The source field.
    pub closed spec fn src_view(&self) -> Seq<char> {
        self.src@
    }

    /// The destination field.
    pub closed spec fn dst_view(&self) -> Seq<char> {
        self.dst@
    }

    /// The amount field.
    pub closed spec fn amount_view(&self) -> Seq<char> {
        self.amount@
    }

    /// Builds a transfer payload.
    pub fn new(src: &str, dst: &str, amount: &str) -> (r: Self)
        ensures
            r.src_view() == src@,
            r.dst_view() == dst@,
            r.amount_view() == amount@,
    {
        Self {
            src: String::from_str(src),
            dst: String::from_str(dst),
            amount: String::from_str(amount),
        }
    }
}

impl Record for Transaction {
    open spec fn canon(&self) -> Seq<u8> {
        bincode_of_triple(self.src_view(), self.dst_view(), self.amount_view())
    }

    open spec fn text(&self) -> Seq<char> {
        transaction_text(self.src_view(), self.dst_view(), self.amount_view())
    }

    fn canonical_bytes(&self) -> (r: Vec<u8>) {
        bincode_string_triple(&self.src, &self.dst, &self.amount)
    }

    fn to_text(&self) -> (r: String) {
        transaction_to_text(self.src.as_str(), self.dst.as_str(), self.amount.as_str())
    }

    fn from_text(s: &str) -> (r: Option<Self>) {
        match parse_transaction_fields(s) {
            Some((src, dst, amount)) => {
                let rec = Transaction { src, dst, amount };
                Some(rec)
            },
            None => {
                proof {
                    if exists|rec: Transaction| rec.text() == s@ {
                        let rec = choose|rec: Transaction| rec.text() == s@;
                        assert(s@ == transaction_text(
                            rec.src_view(),
                            rec.dst_view(),
                            rec.amount_view(),
                        ));
                        assert(false);
                    }
                }
                None
            },
        }
    }

    fn duplicate(&self) -> (r: Self) {
        Transaction { src: self.src.clone(), dst: self.dst.clone(), amount: self.amount.clone() }
    }
}

/// A peer that signs records and hears of published blocks; implementors
/// outside the library supply the key and the reaction.
pub trait Entity<T: Record> {
    /// The public key this entity signs under.
    fn public_key(&self) -> &[u8];

    /// Signs a record under this entity's public key with the given private
    /// key.
    fn sign_record(&self, record: T, pkey: &[u8]) -> (r: Result<SignedRecord<T>, CustomErrs>)
        ensures
            r is Ok <==> pkey@.len() == 32,
            r is Err ==> r->Err_0 == CustomErrs::InvalidPrivateKey,
    {
        record.sign(pkey, self.public_key())
    }

    /// Hears of a block published by a node.
    fn receive_broadcast(&self, block: &FeedBack<T>, from_node: NodeId);
}

/// Collects signed records into a block before it is pushed.
pub struct Miner<T: Record> {
    block: Block<T>,
}

impl<T: Record> Miner<T> {
    /// The records gathered so far, in order.
    pub closed spec fn block_view(&self) -> Seq<SignedRecord<T>> {
        self.block@
    }

    /// Starts with an empty block.
    pub fn new() -> (r: Self)
        ensures
            r.block_view() == Seq::<SignedRecord<T>>::empty(),
    {
        Self { block: Block::new() }
    }

    /// The block gathered so far.
    pub fn get_block(&self) -> (r: &Block<T>)
        ensures
            r@ == self.block_view(),
    {
        &self.block
    }

    /// Adds a signed record at the end of the gathered block.
    pub fn add_to_block(&mut self, record: SignedRecord<T>)
        ensures
            final(self).block_view() == old(self).block_view().push(record),
    {
        self.block.append(record)
    }

    /// Checks one signed record, and says which way it fails.
    pub fn verify_record(&self, record: SignedRecord<T>) -> (r: Result<(), CustomErrs>)
        ensures
            r is Ok <==> record.valid(),
    {
        record.verify()
    }
}

/// Copies one row of column texts.
fn copy_row(v: &Vec<String>) -> (r: Vec<String>)
    ensures
        r.deep_view() == v.deep_view(),
{
    let mut out: Vec<String> = Vec::new();
    let mut i: usize = 0;
    while i < v.len()
        invariant
            i <= v@.len(),
            out@.len() == i,
            forall|j: int| #![trigger out@[j]] 0 <= j < i ==> out@[j]@ == v@[j]@,
        decreases v@.len() - i,
    {
        out.push(v[i].clone());
        i = i + 1;
    }
    proof {
        assert(out.deep_view() =~~= v.deep_view());
    }
    out
}

/// Copies a table of rows.
fn copy_rows(v: &Vec<Vec<String>>) -> (r: Vec<Vec<String>>)
    ensures
        r.deep_view() == v.deep_view(),
{
    let mut out: Vec<Vec<String>> = Vec::new();
    let mut i: usize = 0;
    while i < v.len()
        invariant
            i <= v@.len(),
            out@.len() == i,
            forall|j: int| #![trigger out@[j]] 0 <= j < i ==> out@[j].deep_view() == v@[j].deep_view(),
        decreases v@.len() - i,
    {
        out.push(copy_row(&v[i]));
        i = i + 1;
    }
    proof {
        assert(out.deep_view() =~~= v.deep_view());
    }
    out
}

/// An in-memory storage backend: the two tables as vectors of rows. While a
/// transaction is open it keeps a snapshot, so a rollback restores the
/// content the transaction began from. None of its operations fails.
pub struct MemoryDB {
    records_present: bool,
    blocks_present: bool,
    records: Vec<Vec<String>>,
    blocks: Vec<Vec<String>>,
    tx_open: bool,
    saved_records_present: bool,
    saved_blocks_present: bool,
    saved_records: Vec<Vec<String>>,
    saved_blocks: Vec<Vec<String>>,
}

impl MemoryDB {
    /// An empty backend: no tables, no rows.
    pub fn new() -> (r: Self)
        ensures
            r.state() == (DbModel {
                records_present: false,
                blocks_present: false,
                records: Seq::<Seq<Seq<char>>>::empty(),
                blocks: Seq::<Seq<Seq<char>>>::empty(),
            }),
            !r.in_transaction(),
            r.committed() == r.state(),
    {
        let r = MemoryDB {
            records_present: false,
            blocks_present: false,
            records: Vec::new(),
            blocks: Vec::new(),
            tx_open: false,
            saved_records_present: false,
            saved_blocks_present: false,
            saved_records: Vec::new(),
            saved_blocks: Vec::new(),
        };
        proof {
            assert(r.records.deep_view() =~~= Seq::<Seq<Seq<char>>>::empty());
            assert(r.blocks.deep_view() =~~= Seq::<Seq<Seq<char>>>::empty());
        }
        r
    }
}

impl Database2 for MemoryDB {
    closed spec fn state(&self) -> DbModel {
        DbModel {
            records_present: self.records_present,
            blocks_present: self.blocks_present,
            records: self.records.deep_view(),
            blocks: self.blocks.deep_view(),
        }
    }

    closed spec fn committed(&self) -> DbModel {
        if self.tx_open {
            DbModel {
                records_present: self.saved_records_present,
                blocks_present: self.saved_blocks_present,
                records: self.saved_records.deep_view(),
                blocks: self.saved_blocks.deep_view(),
            }
        } else {
            self.state()
        }
    }

    closed spec fn in_transaction(&self) -> bool {
        self.tx_open
    }

    fn table_exists(&self, kind: TableKind) -> (r: bool) {
        match kind {
            TableKind::Records => self.records_present,
            TableKind::Blocks => self.blocks_present,
        }
    }

    fn create_table_if_absent(&mut self, kind: TableKind) -> (r: Result<(), CustomErrs>) {
        match kind {
            TableKind::Records => {
                if !self.records_present {
                    self.records_present = true;
                }
            },
            TableKind::Blocks => {
                if !self.blocks_present {
                    self.blocks_present = true;
                }
            },
        }
        proof {
            assert(self.state() =~= old(self).state().with_table(kind));
        }
        Ok(())
    }

    fn len(&self, kind: TableKind) -> (r: i64) {
        match kind {
            TableKind::Records => self.records.len() as i64,
            TableKind::Blocks => self.blocks.len() as i64,
        }
    }

    fn begin_transaction(&mut self) -> (r: Result<(), CustomErrs>) {
        let saved_records = copy_rows(&self.records);
        let saved_blocks = copy_rows(&self.blocks);
        self.saved_records = saved_records;
        self.saved_blocks = saved_blocks;
        self.saved_records_present = self.records_present;
        self.saved_blocks_present = self.blocks_present;
        self.tx_open = true;
        proof {
            assert(self.committed() =~= old(self).state());
            assert(self.state() =~= old(self).state());
        }
        Ok(())
    }

    fn insert_row(&mut self, kind: TableKind, row: &Vec<String>) -> (r: Result<(), CustomErrs>) {
        let copied = copy_row(row);
        match kind {
            TableKind::Records => self.records.push(copied),
            TableKind::Blocks => self.blocks.push(copied),
        }
        proof {
            match kind {
                TableKind::Records => {
                    assert(self.records.deep_view() =~~= old(self).records.deep_view().push(
                        row.deep_view(),
                    ));
                },
                TableKind::Blocks => {
                    assert(self.blocks.deep_view() =~~= old(self).blocks.deep_view().push(
                        row.deep_view(),
                    ));
                },
            }
            assert(self.state() =~= old(self).state().push_row(kind, row.deep_view()));
        }
        Ok(())
    }

    fn commit_transaction(&mut self) -> (r: Result<(), CustomErrs>) {
        self.tx_open = false;
        proof {
            assert(self.state() =~= old(self).state());
        }
        Ok(())
    }

    fn rollback_transaction(&mut self) {
        let restored_records = copy_rows(&self.saved_records);
        let restored_blocks = copy_rows(&self.saved_blocks);
        self.records = restored_records;
        self.blocks = restored_blocks;
        self.records_present = self.saved_records_present;
        self.blocks_present = self.saved_blocks_present;
        self.tx_open = false;
        proof {
            assert(self.state() =~= old(self).committed());
            assert(self.committed() =~= old(self).committed());
        }
    }

    fn get_row(&self, kind: TableKind, index: i64) -> (r: Vec<String>) {
        match kind {
            TableKind::Records => {
                let n: usize = self.records.len();
                proof {
                    assert(self.state().rows(kind).len() == n);
                }
                let i: usize = index as usize;
                let row = copy_row(&self.records[i]);
                proof {
                    assert(self.records.deep_view()[index as int] == self.records@[index as int].deep_view());
                }
                row
            },
            TableKind::Blocks => {
                let n: usize = self.blocks.len();
                proof {
                    assert(self.state().rows(kind).len() == n);
                }
                let i: usize = index as usize;
                let row = copy_row(&self.blocks[i]);
                proof {
                    assert(self.blocks.deep_view()[index as int] == self.blocks@[index as int].deep_view());
                }
                row
            },
        }
    }
}

} // verus!
