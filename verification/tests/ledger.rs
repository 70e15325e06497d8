use blockchain::blockchain::Block;
use blockchain::blockchain::BlockChain;
use blockchain::blockchain::Record;
use blockchain::blockchain::SignedRecord;
use blockchain::errs::CustomErrs;
use blockchain::gen::generate_key_pair;
use blockchain::io::count_statement;
use blockchain::io::create_table_statement;
use blockchain::io::insert_statement;
use blockchain::io::Database2;
use blockchain::io::QueryRange;
use blockchain::io::TableKind;
use blockchain::utils::MemoryDB;
use blockchain::utils::Miner;
use blockchain::utils::Transaction;

fn signed(
    src: &str,
    dst: &str,
    amount: &str,
    public_key: &[u8],
    private_key: &[u8],
) -> SignedRecord<Transaction> {
    Transaction::new(src, dst, amount).sign(private_key, public_key).unwrap()
}

#[test]
fn one_record_scenario() {
    let (public_key, private_key) = generate_key_pair();
    let payload = Transaction::new("A", "B", "2");
    let record = payload.sign(&private_key, &public_key).unwrap();
    let expected_row = record.to_vec();
    let mut block = Block::new();
    block.append(record);
    let mut chain = BlockChain::open(MemoryDB::new());
    let feedback = chain.push(&block).unwrap();
    assert_eq!(feedback.block_position, QueryRange::new(0, 0));
    let got: Block<Transaction> = chain.get_records(QueryRange::new(0, 0)).unwrap();
    assert_eq!(got.size(), 1);
    let row = got.get_signed_records()[0].to_vec();
    assert_eq!(row, expected_row);
    assert_eq!(row[0], "{\"src\":\"A\",\"dst\":\"B\",\"amount\":\"2\"}");
}

#[test]
fn valid_block_push_succeeds() {
    let (public_key, private_key) = generate_key_pair();
    let mut block = Block::new();
    block.append(signed("A", "B", "2", &public_key, &private_key));
    block.append(signed("B", "A", "5", &public_key, &private_key));
    let expected_hash = block.verify().unwrap().hash;
    let mut chain = BlockChain::open(MemoryDB::new());
    let feedback = chain.push(&block).unwrap();
    assert_eq!(
        feedback.block_position.end - feedback.block_position.begin + 1,
        block.size()
    );
    assert_eq!(feedback.block_position.begin, 0);
    assert_eq!(feedback.hash, expected_hash);
    assert_eq!(feedback.block.size(), block.size());
}

#[test]
fn invalid_signature_rejects_block_and_leaves_rows() {
    let (public_key, private_key) = generate_key_pair();
    let good = signed("A", "B", "1", &public_key, &private_key);
    let mut bad = signed("B", "A", "2", &public_key, &private_key);
    bad.signature[0] ^= 1;
    let mut block = Block::new();
    block.append(good);
    block.append(bad);
    let mut chain = BlockChain::open(MemoryDB::new());
    assert_eq!(chain.push(&block).err(), Some(CustomErrs::InvalidBlock));
    let mut block2 = Block::new();
    block2.append(signed("A", "B", "3", &public_key, &private_key));
    let feedback = chain.push(&block2).unwrap();
    assert_eq!(feedback.block_position, QueryRange::new(0, 0));
}

#[test]
fn empty_block_rejected() {
    let mut chain = BlockChain::open(MemoryDB::new());
    let block: Block<Transaction> = Block::new();
    assert_eq!(chain.push(&block).err(), Some(CustomErrs::EmptyBlocksNotAllowed));
}

#[test]
fn sequential_ranges_contiguous() {
    let (public_key, private_key) = generate_key_pair();
    let mut chain = BlockChain::open(MemoryDB::new());
    let mut first = Block::new();
    first.append(signed("A", "B", "1", &public_key, &private_key));
    let fb1 = chain.push(&first).unwrap();
    assert_eq!(fb1.block_position, QueryRange::new(0, 0));
    let mut second = Block::new();
    second.append(signed("B", "C", "2", &public_key, &private_key));
    second.append(signed("C", "A", "3", &public_key, &private_key));
    let fb2 = chain.push(&second).unwrap();
    assert_eq!(fb2.block_position, QueryRange::new(1, 2));
    assert_eq!(fb2.block_position.begin, fb1.block_position.end + 1);
}

#[test]
fn get_block_finds_by_hash() {
    let (public_key, private_key) = generate_key_pair();
    let mut chain = BlockChain::open(MemoryDB::new());
    let mut first = Block::new();
    first.append(signed("A", "B", "1", &public_key, &private_key));
    chain.push(&first).unwrap();
    let mut second = Block::new();
    second.append(signed("B", "C", "2", &public_key, &private_key));
    second.append(signed("C", "A", "3", &public_key, &private_key));
    let fb2 = chain.push(&second).unwrap();
    let digest = blockchain::gen::Hash::from_vec(fb2.hash.clone()).unwrap();
    let got: Block<Transaction> = chain.get_block(&digest).unwrap();
    assert_eq!(got.size(), 2);
    let rows: Vec<Vec<String>> =
        got.get_signed_records().iter().map(|r| r.to_vec()).collect();
    let expected: Vec<Vec<String>> =
        second.get_signed_records().iter().map(|r| r.to_vec()).collect();
    assert_eq!(rows, expected);
    let absent = blockchain::gen::Hash::from_vec(vec![0u8; 32]).unwrap();
    assert!(chain.get_block::<Transaction>(&absent).is_none());
}

#[test]
fn get_records_out_of_range_is_none() {
    let (public_key, private_key) = generate_key_pair();
    let mut chain = BlockChain::open(MemoryDB::new());
    let mut block = Block::new();
    block.append(signed("A", "B", "1", &public_key, &private_key));
    chain.push(&block).unwrap();
    assert!(chain.get_records::<Transaction>(QueryRange::new(0, 1)).is_none());
    assert!(chain.get_records::<Transaction>(QueryRange::new(-1, 0)).is_none());
    assert!(chain.get_records::<Transaction>(QueryRange::new(0, 0)).is_some());
}

#[test]
fn table_creation_idempotent() {
    let mut db = MemoryDB::new();
    assert!(!db.table_exists(TableKind::Records));
    assert_eq!(db.size_of_table(TableKind::Records), None);
    assert_eq!(db.create_table_if_absent(TableKind::Records), Ok(()));
    assert_eq!(db.create_table_if_absent(TableKind::Records), Ok(()));
    assert!(db.table_exists(TableKind::Records));
    assert_eq!(db.len(TableKind::Records), 0);
    assert_eq!(db.size_of_table(TableKind::Records), Some(0));
    assert_eq!(db.size_of_table(TableKind::Blocks), None);
}

#[test]
fn sqlite_statements_idempotent_and_usable() {
    let conn = rusqlite::Connection::open_in_memory().unwrap();
    conn.execute(&create_table_statement(TableKind::Records), []).unwrap();
    conn.execute(&create_table_statement(TableKind::Records), []).unwrap();
    conn.execute(&create_table_statement(TableKind::Blocks), []).unwrap();
    conn.execute(&insert_statement(TableKind::Records), ["r", "i", "s"]).unwrap();
    let n: i64 = conn
        .query_row(&count_statement(TableKind::Records), [], |row| row.get(0))
        .unwrap();
    assert_eq!(n, 1);
    let b: i64 = conn
        .query_row(&count_statement(TableKind::Blocks), [], |row| row.get(0))
        .unwrap();
    assert_eq!(b, 0);
}

#[test]
fn miner_gathers_records() {
    let (public_key, private_key) = generate_key_pair();
    let mut miner: Miner<Transaction> = Miner::new();
    assert_eq!(miner.get_block().size(), 0);
    let record = signed("A", "B", "2", &public_key, &private_key);
    assert_eq!(miner.verify_record(record.duplicate()), Ok(()));
    miner.add_to_block(record);
    assert_eq!(miner.get_block().size(), 1);
}
