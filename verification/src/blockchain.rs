use vstd::prelude::*;
use vstd::bytes::lemma_auto_spec_u64_to_from_le_bytes;
use vstd::bytes::spec_u64_to_le_bytes;
use vstd::bytes::u64_to_le_bytes;
use vstd::slice::slice_to_vec;

use crate::codec::bytes_text;
use crate::codec::bytes_to_text;
use crate::codec::parse_bytes_text;
use crate::codec::parse_range_text;
use crate::codec::range_text;
use crate::codec::range_to_text;
use crate::errs::CustomErrs;
use crate::gen;
use crate::gen::digest_of;
use crate::gen::public_part_of;
use crate::gen::signature_bytes_ok;
use crate::gen::signature_checks;
use crate::gen::signature_of;
use crate::gen::valid_public_key;
use crate::io::table_name;
use crate::io::Database2;
use crate::io::DatabaseInsertable;
use crate::io::DbModel;
use crate::io::QueryRange;
use crate::io::TableKind;

verus! {

/// A payload that can stand in the ledger: it has a canonical byte encoding
/// that is signed, and a stored text that goes into a row; both depend on
/// the value alone.
pub trait Record: Sized {
    /// The canonical byte encoding whose signature authenticates the value.
    spec fn canon(&self) -> Seq<u8>;

    /// The stored text of the value.
    spec fn text(&self) -> Seq<char>;

    /// Writes the canonical byte encoding.
    fn canonical_bytes(&self) -> (r: Vec<u8>)
        ensures
            r@ == self.canon(),
    ;

    /// Writes the stored text.
    fn to_text(&self) -> (r: String)
        ensures
            r@ == self.text(),
    ;

    /// Reads a value back from a stored text. A value that comes back
    /// re-encodes to exactly the text it was read from, and every text
    /// some value encodes to is read back.
    fn from_text(s: &str) -> (r: Option<Self>)
        ensures
            r matches Some(rec) ==> rec.text() == s@,
            (exists|rec: Self| (#[trigger] rec.text()) == s@) ==> r is Some,
    ;

    /// An equal payload: same canonical encoding, same stored text.
    fn duplicate(&self) -> (r: Self)
        ensures
            r.canon() == self.canon(),
            r.text() == self.text(),
    ;

    /// Encodes the payload canonically, signs those bytes, and wraps the
    /// payload with the signer's public key and the signature. The
    /// signature covers the canonical encoding of the payload itself,
    /// never the wrapper.
    fn sign(&self, private_key: &[u8], public_key: &[u8]) -> (r: Result<
        SignedRecord<Self>,
        CustomErrs,
    >)
        ensures
            r is Ok <==> private_key@.len() == 32,
            r is Err ==> r->Err_0 == CustomErrs::InvalidPrivateKey,
            r matches Ok(sr) ==> sr.public_key@ == public_key@,
            r matches Ok(sr) ==> sr.record.canon() == self.canon() && sr.record.text() == self.text(),
            r matches Ok(sr) ==> sr.signature@ == signature_of(private_key@, self.canon()),
            r matches Ok(sr) ==> signature_bytes_ok(sr.signature@),
            r matches Ok(sr) ==> signature_checks(public_part_of(private_key@), self.canon(), sr.signature@),
            r matches Ok(sr) ==> valid_public_key(public_part_of(private_key@)),
    {
        let msg = self.canonical_bytes();
        match gen::sign(msg.as_slice(), private_key) {
            Ok(signature) => Ok(
                SignedRecord {
                    public_key: slice_to_vec(public_key),
                    signature,
                    record: self.duplicate(),
                },
            ),
            Err(e) => Err(e),
        }
    }
}

/// A record bound to its signer's public key and signature.
#[derive(Debug)]
pub struct SignedRecord<T: Record> {
    pub public_key: Vec<u8>,
    pub signature: Vec<u8>,
    pub record: T,
}

impl<T: Record> SignedRecord<T> {
    /// Whether the carried signature authenticates the carried record under
    /// the carried public key.
    pub open spec fn valid(&self) -> bool {
        signature_bytes_ok(self.signature@) && valid_public_key(self.public_key@)
            && signature_checks(self.public_key@, self.record.canon(), self.signature@)
    }

    /// The row this record contributes: stored text, identity text,
    /// signature text.
    pub open spec fn row_view(&self) -> Seq<Seq<char>> {
        seq![self.record.text(), bytes_text(self.public_key@), bytes_text(self.signature@)]
    }

    /// The part of this record that the block digest covers: its key, its
    /// signature and its canonical encoding, each length-prefixed. This
    /// framing is the ledger's canonical encoding of a record, chosen so
    /// that it is provably injective; a ledger that hashed any other
    /// encoding of the same records would yield different digest bytes.
    pub open spec fn frame(&self) -> Seq<u8> {
        spec_u64_to_le_bytes(self.public_key@.len() as u64) + self.public_key@
            + spec_u64_to_le_bytes(self.signature@.len() as u64) + self.signature@
            + spec_u64_to_le_bytes(self.record.canon().len() as u64) + self.record.canon()
    }

    /// Re-encodes the carried record and checks the carried signature
    /// against the carried public key; this is the sole authority for
    /// validity, and nothing cached is trusted.
    pub fn verify(&self) -> (r: Result<(), CustomErrs>)
        ensures
            r is Ok <==> self.valid(),
            (r is Err && r->Err_0 == CustomErrs::InvalidSignature) <==> !signature_bytes_ok(self.signature@),
            (r is Err && r->Err_0 == CustomErrs::InvalidPublicKey) <==> (signature_bytes_ok(self.signature@) && !valid_public_key(self.public_key@)),
            (r is Err && r->Err_0 == CustomErrs::VerificationDoesNotMatch) <==> (signature_bytes_ok(self.signature@) && valid_public_key(self.public_key@) && !signature_checks(self.public_key@, self.record.canon(), self.signature@)),
    {
        let msg = self.record.canonical_bytes();
        gen::verify_signature(self.public_key.as_slice(), msg.as_slice(), self.signature.as_slice())
    }

    fn is_valid(&self) -> (r: bool)
        ensures
            r == self.valid(),
    {
        self.verify().is_ok()
    }

    /// The three column texts of this record's row.
    pub fn to_vec(&self) -> (r: Vec<String>)
        ensures
            r.deep_view() == self.row_view(),
    {
        let mut v: Vec<String> = Vec::new();
        v.push(self.record.to_text());
        v.push(bytes_to_text(self.public_key.as_slice()));
        v.push(bytes_to_text(self.signature.as_slice()));
        proof {
            assert(v.deep_view() =~~= self.row_view());
        }
        v
    }

    /// The signature bytes.
    pub fn get_signature(&self) -> (r: &[u8])
        ensures
            r@ == self.signature@,
    {
        self.signature.as_slice()
    }

    /// The carried record.
    pub fn get_record(&self) -> (r: &T)
        ensures
            r == &self.record,
    {
        &self.record
    }

    /// The signer's public key.
    pub fn get_signer(&self) -> (r: &Vec<u8>)
        ensures
            r@ == self.public_key@,
    {
        &self.public_key
    }

    /// An equal signed record: same key, signature and payload encodings.
    pub fn duplicate(&self) -> (r: Self)
        ensures
            r.public_key@ == self.public_key@,
            r.signature@ == self.signature@,
            r.record.canon() == self.record.canon(),
            r.record.text() == self.record.text(),
    {
        SignedRecord {
            public_key: slice_to_vec(self.public_key.as_slice()),
            signature: slice_to_vec(self.signature.as_slice()),
            record: self.record.duplicate(),
        }
    }
}

/// Whether two batches carry the same records: same length, and at each
/// position the same key, the same signature and the same payload
/// encodings.
pub open spec fn same_views<R: Record>(a: Seq<SignedRecord<R>>, b: Seq<SignedRecord<R>>) -> bool {
    a.len() == b.len() && (forall|i: int|
        #![trigger a[i]]
        0 <= i < a.len() ==> a[i].public_key@ == b[i].public_key@ && a[i].signature@
            == b[i].signature@ && a[i].record.canon() == b[i].record.canon() && a[i].record.text()
            == b[i].record.text())
}

/// The byte string the block digest covers: each record's frame, in block
/// order.
pub open spec fn block_frame<R: Record>(records: Seq<SignedRecord<R>>) -> Seq<u8>
    decreases records.len(),
{
    if records.len() == 0 {
        Seq::<u8>::empty()
    } else {
        block_frame(records.drop_last()) + records.last().frame()
    }
}

/// The byte string one record contributes to the digest, over its raw
/// parts.
spec fn parts_frame(p: Seq<u8>, s: Seq<u8>, c: Seq<u8>) -> Seq<u8> {
    spec_u64_to_le_bytes(p.len() as u64) + p + spec_u64_to_le_bytes(s.len() as u64) + s
        + spec_u64_to_le_bytes(c.len() as u64) + c
}

/// Reads a length-prefixed record frame back off the front of a byte
/// string: each part sits at an offset its prefixes determine.
proof fn lemma_frame_decomposition(p: Seq<u8>, s: Seq<u8>, c: Seq<u8>, tail: Seq<u8>, f: Seq<u8>)
    requires
        p.len() <= u64::MAX,
        s.len() <= u64::MAX,
        c.len() <= u64::MAX,
        f == parts_frame(p, s, c) + tail,
    ensures
        f.len() == 24 + p.len() + s.len() + c.len() + tail.len(),
        f.subrange(0, 8) == spec_u64_to_le_bytes(p.len() as u64),
        f.subrange(8, 8 + p.len() as int) == p,
        f.subrange(8 + p.len() as int, 16 + p.len() as int) == spec_u64_to_le_bytes(s.len() as u64),
        f.subrange(16 + p.len() as int, 16 + p.len() as int + s.len() as int) == s,
        f.subrange(16 + p.len() as int + s.len() as int, 24 + p.len() as int + s.len() as int) == spec_u64_to_le_bytes(c.len() as u64),
        f.subrange(24 + p.len() as int + s.len() as int, 24 + p.len() as int + s.len() as int + c.len() as int) == c,
        f.subrange(24 + p.len() as int + s.len() as int + c.len() as int, f.len() as int) == tail,
{
    lemma_auto_spec_u64_to_from_le_bytes();
    let pl = p.len() as int;
    let sl = s.len() as int;
    let cl = c.len() as int;
    assert(spec_u64_to_le_bytes(p.len() as u64).len() == 8);
    assert(spec_u64_to_le_bytes(s.len() as u64).len() == 8);
    assert(spec_u64_to_le_bytes(c.len() as u64).len() == 8);
    assert(f.subrange(0, 8) =~= spec_u64_to_le_bytes(p.len() as u64));
    assert(f.subrange(8, 8 + pl) =~= p);
    assert(f.subrange(8 + pl, 16 + pl) =~= spec_u64_to_le_bytes(s.len() as u64));
    assert(f.subrange(16 + pl, 16 + pl + sl) =~= s);
    assert(f.subrange(16 + pl + sl, 24 + pl + sl) =~= spec_u64_to_le_bytes(c.len() as u64));
    assert(f.subrange(24 + pl + sl, 24 + pl + sl + cl) =~= c);
    assert(f.subrange(24 + pl + sl + cl, f.len() as int) =~= tail);
}

/// Whether two batches agree in everything the digest covers: same length,
/// and at each position the same key, the same signature and the same
/// canonical payload encoding. (The stored text is not covered by the
/// digest.)
pub open spec fn same_signed_content<R: Record>(
    a: Seq<SignedRecord<R>>,
    b: Seq<SignedRecord<R>>,
) -> bool {
    a.len() == b.len() && (forall|i: int|
        #![trigger a[i]]
        0 <= i < a.len() ==> a[i].public_key@ == b[i].public_key@ && a[i].signature@
            == b[i].signature@ && a[i].record.canon() == b[i].record.canon())
}

/// Whether every record's parts are short enough for their length
/// prefixes.
pub open spec fn frames_fit<R: Record>(records: Seq<SignedRecord<R>>) -> bool {
    forall|i: int|
        0 <= i < records.len() ==> (#[trigger] records[i]).public_key@.len() <= u64::MAX
            && records[i].signature@.len() <= u64::MAX && records[i].record.canon().len()
            <= u64::MAX
}

/// The block frame again, read from the front; lemma_block_frame_front
/// identifies the two.
spec fn block_frame_front<R: Record>(records: Seq<SignedRecord<R>>) -> Seq<u8>
    decreases records.len(),
{
    if records.len() == 0 {
        Seq::<u8>::empty()
    } else {
        records.first().frame() + block_frame_front(records.drop_first())
    }
}

proof fn lemma_front_push<R: Record>(records: Seq<SignedRecord<R>>, x: SignedRecord<R>)
    ensures
        block_frame_front(records.push(x)) == block_frame_front(records) + x.frame(),
    decreases records.len(),
{
    let pushed = records.push(x);
    assert(pushed.len() > 0);
    assert(block_frame_front(pushed) == pushed.first().frame() + block_frame_front(
        pushed.drop_first(),
    ));
    if records.len() == 0 {
        assert(pushed.drop_first() =~= Seq::<SignedRecord<R>>::empty());
        assert(pushed.first() == x);
        assert(block_frame_front(pushed) =~= block_frame_front(records) + x.frame());
    } else {
        assert(pushed.first() == records.first());
        assert(pushed.drop_first() =~= records.drop_first().push(x));
        lemma_front_push(records.drop_first(), x);
        assert(block_frame_front(pushed.drop_first()) == block_frame_front(records.drop_first())
            + x.frame());
        assert(block_frame_front(records) == records.first().frame() + block_frame_front(
            records.drop_first(),
        ));
        assert(block_frame_front(pushed) =~= block_frame_front(records) + x.frame());
    }
}

proof fn lemma_block_frame_front<R: Record>(records: Seq<SignedRecord<R>>)
    ensures
        block_frame(records) == block_frame_front(records),
    decreases records.len(),
{
    if records.len() > 0 {
        lemma_block_frame_front(records.drop_last());
        lemma_front_push(records.drop_last(), records.last());
        assert(records.drop_last().push(records.last()) =~= records);
    }
}

/// The digest's byte string decodes: two batches of the same length whose
/// frames coincide carry the same records, position by position. So a
/// reordering or an alteration that changes any record's view changes the
/// bytes the block digest covers.
pub proof fn lemma_block_frame_injective<R: Record>(
    a: Seq<SignedRecord<R>>,
    b: Seq<SignedRecord<R>>,
)
    requires
        block_frame(a) == block_frame(b),
        a.len() == b.len(),
        frames_fit(a),
        frames_fit(b),
    ensures
        same_signed_content(a, b),
    decreases a.len(),
{
    lemma_block_frame_front(a);
    lemma_block_frame_front(b);
    if a.len() > 0 {
        let x = a.first();
        let y = b.first();
        assert(a[0] == x);
        assert(b[0] == y);
        let ta = block_frame_front(a.drop_first());
        let tb = block_frame_front(b.drop_first());
        let f = block_frame_front(a);
        assert(f == x.frame() + ta);
        assert(f == y.frame() + tb);
        assert(x.frame() == parts_frame(x.public_key@, x.signature@, x.record.canon()));
        assert(y.frame() == parts_frame(y.public_key@, y.signature@, y.record.canon()));
        lemma_frame_decomposition(x.public_key@, x.signature@, x.record.canon(), ta, f);
        lemma_frame_decomposition(y.public_key@, y.signature@, y.record.canon(), tb, f);
        lemma_auto_spec_u64_to_from_le_bytes();
        assert(spec_u64_to_le_bytes(x.public_key@.len() as u64) == spec_u64_to_le_bytes(
            y.public_key@.len() as u64,
        ));
        assert(x.public_key@.len() == y.public_key@.len());
        assert(x.public_key@ == y.public_key@);
        assert(spec_u64_to_le_bytes(x.signature@.len() as u64) == spec_u64_to_le_bytes(
            y.signature@.len() as u64,
        ));
        assert(x.signature@.len() == y.signature@.len());
        assert(x.signature@ == y.signature@);
        assert(spec_u64_to_le_bytes(x.record.canon().len() as u64) == spec_u64_to_le_bytes(
            y.record.canon().len() as u64,
        ));
        assert(x.record.canon().len() == y.record.canon().len());
        assert(x.record.canon() == y.record.canon());
        assert(ta == tb);
        lemma_block_frame_front(a.drop_first());
        lemma_block_frame_front(b.drop_first());
        assert(frames_fit(a.drop_first())) by {
            assert forall|i: int| 0 <= i < a.drop_first().len() implies (#[trigger] a.drop_first()[i]).public_key@.len() <= u64::MAX
                && a.drop_first()[i].signature@.len() <= u64::MAX
                && a.drop_first()[i].record.canon().len() <= u64::MAX by {
                assert(a.drop_first()[i] == a[i + 1]);
            }
        }
        assert(frames_fit(b.drop_first())) by {
            assert forall|i: int| 0 <= i < b.drop_first().len() implies (#[trigger] b.drop_first()[i]).public_key@.len() <= u64::MAX
                && b.drop_first()[i].signature@.len() <= u64::MAX
                && b.drop_first()[i].record.canon().len() <= u64::MAX by {
                assert(b.drop_first()[i] == b[i + 1]);
            }
        }
        lemma_block_frame_injective(a.drop_first(), b.drop_first());
        assert forall|i: int| 0 <= i < a.len() implies (#[trigger] a[i]).public_key@ == b[i].public_key@
            && a[i].signature@ == b[i].signature@ && a[i].record.canon() == b[i].record.canon() by {
            if i > 0 {
                assert(a[i] == a.drop_first()[i - 1]);
                assert(b[i] == b.drop_first()[i - 1]);
                assert(same_signed_content(a.drop_first(), b.drop_first()));
            }
        }
    }
}

/// An ordered batch of signed records, submitted together. The order is the
/// caller's and is preserved end to end.
#[derive(Debug)]
pub struct Block<R: Record> {
    pub signed_records: Vec<SignedRecord<R>>,
}

impl<R: Record> View for Block<R> {
    type V = Seq<SignedRecord<R>>;

    open spec fn view(&self) -> Seq<SignedRecord<R>> {
        self.signed_records@
    }
}

impl<R: Record> Block<R> {
    /// A block is well formed while its length fits the position space.
    pub open spec fn wf(&self) -> bool {
        self@.len() <= i64::MAX
    }

    /// Whether every signed record of the block verifies.
    pub open spec fn all_valid(&self) -> bool {
        forall|i: int| 0 <= i < self@.len() ==> (#[trigger] self@[i]).valid()
    }

    /// The rows this block contributes, in block order.
    pub open spec fn rows(&self) -> Seq<Seq<Seq<char>>> {
        self@.map(|i: int, sr: SignedRecord<R>| sr.row_view())
    }

    /// An empty block.
    pub fn new() -> (r: Self)
        ensures
            r@ == Seq::<SignedRecord<R>>::empty(),
    {
        Block { signed_records: Vec::new() }
    }

    /// Adds a signed record at the end; order is preserved, and nothing
    /// about the contents is unique.
    pub fn append(&mut self, signed_record: SignedRecord<R>)
        ensures
            final(self)@ == old(self)@.push(signed_record),
    {
        self.signed_records.push(signed_record)
    }

    /// The number of signed records held.
    pub fn size(&self) -> (r: i64)
        requires
            self.wf(),
        ensures
            r == self@.len(),
    {
        self.signed_records.len() as i64
    }

    /// The signed records held, in order.
    pub fn get_signed_records(&self) -> (r: &Vec<SignedRecord<R>>)
        ensures
            r == &self.signed_records,
    {
        &self.signed_records
    }

    /// Writes the byte string the block digest covers.
    fn frame_bytes(&self) -> (r: Vec<u8>)
        ensures
            r@ == block_frame(self@),
    {
        let mut out: Vec<u8> = Vec::new();
        proof {
            assert(block_frame(self@.subrange(0, 0)) =~= Seq::<u8>::empty());
        }
        let mut i: usize = 0;
        while i < self.signed_records.len()
            invariant
                i <= self@.len(),
                out@ == block_frame(self@.subrange(0, i as int)),
            decreases self@.len() - i,
        {
            let sr = &self.signed_records[i];
            append_len_prefixed(&mut out, sr.public_key.as_slice());
            append_len_prefixed(&mut out, sr.signature.as_slice());
            let canon = sr.record.canonical_bytes();
            append_len_prefixed(&mut out, canon.as_slice());
            proof {
                let pre = self@.subrange(0, i as int);
                let cur = self@.subrange(0, i as int + 1);
                assert(cur.drop_last() =~= pre);
                assert(cur.last() == self@[i as int]);
                assert(out@ =~= block_frame(pre) + self@[i as int].frame());
            }
            i = i + 1;
        }
        proof {
            assert(self@.subrange(0, self@.len() as int) =~= self@);
        }
        out
    }

    /// An equal block: the same records by their encodings, in the same
    /// order.
    pub fn duplicate(&self) -> (r: Self)
        ensures
            same_views(r@, self@),
    {
        let mut v: Vec<SignedRecord<R>> = Vec::new();
        let mut i: usize = 0;
        while i < self.signed_records.len()
            invariant
                i <= self@.len(),
                v@.len() == i,
                forall|j: int|
                    #![trigger v@[j]]
                    0 <= j < i ==> v@[j].public_key@ == self@[j].public_key@ && v@[j].signature@
                        == self@[j].signature@ && v@[j].record.canon() == self@[j].record.canon()
                        && v@[j].record.text() == self@[j].record.text(),
            decreases self@.len() - i,
        {
            let sr = &self.signed_records[i];
            v.push(sr.duplicate());
            i = i + 1;
        }
        Block { signed_records: v }
    }

    /// Verifies every signed record; when any fails the whole block is
    /// rejected, with nothing partial accepted. On success the digest is
    /// computed over the canonical byte string of the whole ordered batch,
    /// not per record.
    pub fn verify(&self) -> (r: Result<VerifiedBlock<R>, CustomErrs>)
        ensures
            r is Ok <==> self.all_valid(),
            r is Err ==> r->Err_0 == CustomErrs::InvalidBlock,
            r matches Ok(vb) ==> vb.hash@ == digest_of(block_frame(self@)) && vb.hash@.len() == 32,
            r matches Ok(vb) ==> same_views(vb.block@, self@),
    {
        let mut i: usize = 0;
        while i < self.signed_records.len()
            invariant
                i <= self@.len(),
                forall|j: int| 0 <= j < i ==> (#[trigger] self@[j]).valid(),
            decreases self@.len() - i,
        {
            let sr = &self.signed_records[i];
            if !sr.is_valid() {
                return Err(CustomErrs::InvalidBlock);
            }
            i = i + 1;
        }
        let frame = self.frame_bytes();
        let hash = gen::encrypt(frame.as_slice());
        Ok(VerifiedBlock { hash: hash.to_vec(), block: self.duplicate() })
    }
}

/// Appends a length prefix and then the bytes themselves.
fn append_len_prefixed(out: &mut Vec<u8>, data: &[u8])
    ensures
        final(out)@ == old(out)@ + spec_u64_to_le_bytes(data@.len() as u64) + data@,
{
    let len_bytes = u64_to_le_bytes(data.len() as u64);
    append_bytes(out, len_bytes.as_slice());
    append_bytes(out, data);
}

/// Appends bytes to a buffer.
fn append_bytes(out: &mut Vec<u8>, data: &[u8])
    ensures
        final(out)@ == old(out)@ + data@,
{
    let mut i: usize = 0;
    while i < data.len()
        invariant
            i <= data@.len(),
            out@ == old(out)@ + data@.subrange(0, i as int),
        decreases data@.len() - i,
    {
        out.push(data[i]);
        proof {
            assert(old(out)@ + data@.subrange(0, i as int + 1) =~= (old(out)@ + data@.subrange(
                0,
                i as int,
            )).push(data@[i as int]));
        }
        i = i + 1;
    }
    proof {
        assert(data@.subrange(0, data@.len() as int) =~= data@);
    }
}

/// A block together with its digest; produced only after every signed
/// record of the block independently verified.
pub struct VerifiedBlock<R: Record> {
    pub hash: Vec<u8>,
    pub block: Block<R>,
}

impl<R: Record> VerifiedBlock<R> {
    /// The digest bytes.
    pub fn get_hash(&self) -> (r: &[u8])
        ensures
            r@ == self.hash@,
    {
        self.hash.as_slice()
    }

    /// The verified block.
    pub fn get_block(&self) -> (r: &Block<R>)
        ensures
            r == &self.block,
    {
        &self.block
    }
}

/// What a push hands back as proof of append: the digest, the assigned
/// position range, and the block itself.
#[derive(Debug)]
pub struct FeedBack<R: Record> {
    pub block_position: QueryRange,
    pub hash: Vec<u8>,
    pub block: Block<R>,
}

impl<R: Record> FeedBack<R> {
    /// The appended block.
    pub fn get_block(&self) -> (r: &Block<R>)
        ensures
            r == &self.block,
    {
        &self.block
    }
}

/// What the hash table records of a published block: its digest and the
/// position range its rows were assigned.
pub struct PublishedBlock {
    pub hash: Vec<u8>,
    pub block_position: QueryRange,
}

impl PublishedBlock {
    /// The row this published block contributes: digest text and range
    /// text. The digest cell holds the same byte text the identity and
    /// signature cells use, the bytes' decimal values between brackets.
    pub open spec fn row_view(&self) -> Seq<Seq<char>> {
        seq![
            bytes_text(self.hash@),
            range_text(self.block_position.begin as int, self.block_position.end as int),
        ]
    }

    /// Wraps a digest and a position range.
    pub fn new(hash: Vec<u8>, block_position: QueryRange) -> (r: Self)
        ensures
            r.hash@ == hash@,
            r.block_position == block_position,
    {
        Self { hash, block_position }
    }

    /// The two column texts of this published block's row.
    pub fn to_vec(&self) -> (r: Vec<String>)
        requires
            0 <= self.block_position.begin,
            0 <= self.block_position.end,
        ensures
            r.deep_view() == self.row_view(),
    {
        let mut v: Vec<String> = Vec::new();
        v.push(bytes_to_text(self.hash.as_slice()));
        v.push(range_to_text(self.block_position.begin, self.block_position.end));
        proof {
            assert(v.deep_view() =~~= self.row_view());
        }
        v
    }
}

impl<R: Record> DatabaseInsertable for Block<R> {
    open spec fn kind() -> TableKind {
        TableKind::Records
    }

    open spec fn spec_len(&self) -> int {
        self@.len() as int
    }

    open spec fn len_ok(&self) -> bool {
        self.wf()
    }

    fn get_name() -> (r: &'static str) {
        table_name(TableKind::Records)
    }

    fn columns() -> (r: Vec<&'static str>) {
        crate::io::columns(TableKind::Records)
    }

    fn len(&self) -> (r: i64) {
        self.size()
    }
}

impl DatabaseInsertable for PublishedBlock {
    open spec fn kind() -> TableKind {
        TableKind::Blocks
    }

    open spec fn spec_len(&self) -> int {
        1
    }

    open spec fn len_ok(&self) -> bool {
        true
    }

    fn get_name() -> (r: &'static str) {
        table_name(TableKind::Blocks)
    }

    fn columns() -> (r: Vec<&'static str>) {
        crate::io::columns(TableKind::Blocks)
    }

    fn len(&self) -> (r: i64) {
        1
    }
}

/// The block digest is deterministic: two batches that carry the same
/// records in the same order cover the same canonical byte string, so
/// hashing them yields identical digests. (Reordering or changing records
/// changes that byte string; that the digest then differs is the hash's
/// collision resistance, which nothing here states.)
pub proof fn lemma_frame_of_views<R: Record>(a: Seq<SignedRecord<R>>, b: Seq<SignedRecord<R>>)
    requires
        same_views(a, b),
    ensures
        block_frame(a) == block_frame(b),
    decreases a.len(),
{
    if a.len() > 0 {
        assert(same_views(a.drop_last(), b.drop_last()));
        lemma_frame_of_views(a.drop_last(), b.drop_last());
        assert(a[a.len() - 1].frame() == b[b.len() - 1].frame());
    }
}

/// Signing round-trips with verification: a record signed with a key
/// pair's private key carries a signature that verifies under the paired
/// public key. The hypotheses are exactly what generate_key_pair and
/// Record::sign ensure about what they hand out.
pub proof fn lemma_sign_verify_round_trip<R: Record>(sr: SignedRecord<R>, private_key: Seq<u8>)
    requires
        sr.public_key@ == public_part_of(private_key),
        valid_public_key(sr.public_key@),
        sr.signature@ == signature_of(private_key, sr.record.canon()),
        signature_bytes_ok(sr.signature@),
        signature_checks(public_part_of(private_key), sr.record.canon(), sr.signature@),
    ensures
        sr.valid(),
{
}

/// Sequential pushes produce contiguous, non-overlapping position ranges:
/// when a push begins at the row count its predecessor left behind -- as
/// push ensures, the count having grown by the predecessor's size -- its
/// range starts right after the predecessor's last position.
pub proof fn lemma_sequential_ranges(
    count0: int,
    n1: int,
    count1: int,
    n2: int,
    first: QueryRange,
    second: QueryRange,
)
    requires
        n1 > 0,
        n2 > 0,
        first.begin == count0,
        first.end == count0 + n1 - 1,
        count1 == count0 + n1,
        second.begin == count1,
        second.end == count1 + n2 - 1,
    ensures
        second.begin == first.end + 1,
        first.end < second.begin,
        second.begin <= second.end,
{
}

/// Whether a stored row has the exact shape the library writes: three
/// cells, the first some record's stored text, the other two byte texts.
pub open spec fn well_formed_row<R: Record>(row: Seq<Seq<char>>) -> bool {
    &&& row.len() == 3
    &&& (exists|rec: R| (#[trigger] rec.text()) == row[0])
    &&& (exists|pk: Seq<u8>| (#[trigger] bytes_text(pk)) == row[1])
    &&& (exists|sg: Seq<u8>| (#[trigger] bytes_text(sg)) == row[2])
}

/// Every row a signed record contributes is well formed, so a pushed block
/// can always be read back.
pub proof fn lemma_row_well_formed<R: Record>(sr: SignedRecord<R>)
    ensures
        well_formed_row::<R>(sr.row_view()),
{
    assert(sr.record.text() == sr.row_view()[0]);
    assert(bytes_text(sr.public_key@) == sr.row_view()[1]);
    assert(bytes_text(sr.signature@) == sr.row_view()[2]);
}

/// Every row of a block is well formed: with get_records' contract, the
/// rows a push appends can always be read back as a block.
pub proof fn lemma_block_rows_well_formed<R: Record>(b: &Block<R>)
    ensures
        forall|i: int| 0 <= i < b.rows().len() ==> well_formed_row::<R>(#[trigger] b.rows()[i]),
{
    assert forall|i: int| 0 <= i < b.rows().len() implies well_formed_row::<R>(#[trigger] b.rows()[i]) by {
        assert(b.rows()[i] == b@[i].row_view());
        lemma_row_well_formed(b@[i]);
    }
}

/// Whether a hash-table row that names some digest is fully readable: two
/// cells, its second a range text with nonnegative in-bounds positions,
/// and well-formed records rows throughout that range.
pub open spec fn good_hash_row<R: Record>(db: DbModel, row: Seq<Seq<char>>) -> bool {
    &&& row.len() == 2
    &&& (exists|b: int, e: int|
        #![trigger range_text(b, e)]
        row[1] == range_text(b, e) && 0 <= b <= e && e < db.rows(TableKind::Records).len() && (
        forall|p: int|
            b <= p <= e ==> well_formed_row::<R>(#[trigger] db.rows(TableKind::Records)[p])))
}

/// Whether a reconstructed batch stands exactly for the records rows of the
/// inclusive range from `begin` to `end`: right length, and each record's
/// row re-encodes to the stored row.
pub open spec fn covers_range<R: Record>(
    b: Seq<SignedRecord<R>>,
    db: DbModel,
    begin: int,
    end: int,
) -> bool {
    &&& 0 <= begin
    &&& begin <= end
    &&& end < db.rows(TableKind::Records).len()
    &&& b.len() == end - begin + 1
    &&& forall|i: int|
        0 <= i < b.len() ==> (#[trigger] b[i]).row_view() == db.rows(TableKind::Records)[begin + i]
}

/// The ledger: it validates blocks, assigns position ranges, appends rows
/// and records digests, on top of a storage capability. It holds no copy of
/// history; all durable state lives in the backend.
pub struct BlockChain<D: Database2> {
    database: D,
}

impl<D: Database2> BlockChain<D> {
    /// The storage content behind this ledger.
    pub closed spec fn db(&self) -> DbModel {
        self.database.state()
    }

    /// The storage content a rollback would restore.
    pub closed spec fn committed_db(&self) -> DbModel {
        self.database.committed()
    }

    /// Whether a storage transaction is open.
    pub closed spec fn in_tx(&self) -> bool {
        self.database.in_transaction()
    }

    /// A ledger is well formed while no transaction is left open.
    pub open spec fn wf(&self) -> bool {
        !self.in_tx() && self.committed_db() == self.db()
    }

    /// Wraps a storage backend.
    pub fn open(database: D) -> (r: Self)
        ensures
            r.db() == database.state(),
            r.committed_db() == database.committed(),
            r.in_tx() == database.in_transaction(),
    {
        Self { database }
    }

    /// The number of rows of a table behind this ledger, or None when the
    /// table is absent.
    pub fn table_size(&self, kind: TableKind) -> (r: Option<i64>)
        requires
            self.db().present(kind) ==> self.db().rows(kind).len() <= i64::MAX,
        ensures
            r == (if self.db().present(kind) {
                Some(self.db().rows(kind).len() as i64)
            } else {
                Option::<i64>::None
            }),
    {
        self.database.size_of_table(kind)
    }

    /// Appends every record row of the block, in block order, inside the
    /// open transaction, and hands back the assigned position range.
    fn append<R: Record>(&mut self, block: &Block<R>) -> (r: Result<QueryRange, CustomErrs>)
        requires
            old(self).in_tx(),
            old(self).db().present(TableKind::Records),
            block.wf(),
            block@.len() > 0,
            old(self).db().rows(TableKind::Records).len() + block@.len() <= i64::MAX,
        ensures
            final(self).in_tx(),
            final(self).committed_db() == old(self).committed_db(),
            final(self).db().present(TableKind::Records) == old(self).db().present(TableKind::Records),
            final(self).db().present(TableKind::Blocks) == old(self).db().present(TableKind::Blocks),
            final(self).db().rows(TableKind::Blocks) == old(self).db().rows(TableKind::Blocks),
            r is Ok ==> final(self).db().rows(TableKind::Records) == old(self).db().rows(TableKind::Records) + block.rows(),
            r is Ok ==> r->Ok_0.begin == old(self).db().rows(TableKind::Records).len() && r->Ok_0.end == r->Ok_0.begin + block@.len() - 1,
            r is Err ==> r->Err_0 == CustomErrs::CouldNotInsertRecordsIntoDatabase,
    {
        let begin = self.database.len(TableKind::Records);
        let end = begin + block.size() - 1;
        let mut i: usize = 0;
        while i < block.signed_records.len()
            invariant
                i <= block@.len(),
                self.in_tx(),
                self.committed_db() == old(self).committed_db(),
                self.db().present(TableKind::Records),
                self.db().present(TableKind::Records) == old(self).db().present(TableKind::Records),
                self.db().present(TableKind::Blocks) == old(self).db().present(TableKind::Blocks),
                self.db().rows(TableKind::Blocks) == old(self).db().rows(TableKind::Blocks),
                self.db().rows(TableKind::Records) == old(self).db().rows(TableKind::Records) + block.rows().subrange(0, i as int),
            decreases block@.len() - i,
        {
            let sr = &block.signed_records[i];
            let row = sr.to_vec();
            let ghost pre = self.db();
            match self.database.insert_row(TableKind::Records, &row) {
                Ok(()) => {},
                Err(e) => {
                    proof {
                        assert(block.rows().subrange(0, 0) =~= Seq::<Seq<Seq<char>>>::empty());
                    }
                    return Err(e);
                },
            }
            proof {
                assert(self.db() == pre.push_row(TableKind::Records, row.deep_view()));
                assert(block.rows()[i as int] == block@[i as int].row_view());
                assert(row.deep_view() == block@[i as int].row_view());
                assert(old(self).db().rows(TableKind::Records) + block.rows().subrange(
                    0,
                    i as int + 1,
                ) =~= (old(self).db().rows(TableKind::Records) + block.rows().subrange(
                    0,
                    i as int,
                )).push(block@[i as int].row_view()));
            }
            i = i + 1;
        }
        proof {
            assert(block.rows().subrange(0, block@.len() as int) =~= block.rows());
        }
        Ok(QueryRange::new(begin, end))
    }

    /// Appends the digest row of a published block inside the open
    /// transaction; the range handed back is the hash-table row's own
    /// position.
    pub fn record(&mut self, published_block: &PublishedBlock) -> (r: Result<QueryRange, CustomErrs>)
        requires
            old(self).in_tx(),
            old(self).db().present(TableKind::Blocks),
            old(self).db().rows(TableKind::Blocks).len() < i64::MAX,
            0 <= published_block.block_position.begin,
            0 <= published_block.block_position.end,
        ensures
            final(self).in_tx(),
            final(self).committed_db() == old(self).committed_db(),
            final(self).db().present(TableKind::Records) == old(self).db().present(TableKind::Records),
            final(self).db().present(TableKind::Blocks) == old(self).db().present(TableKind::Blocks),
            final(self).db().rows(TableKind::Records) == old(self).db().rows(TableKind::Records),
            r is Ok ==> final(self).db().rows(TableKind::Blocks) == old(self).db().rows(TableKind::Blocks).push(published_block.row_view()),
            r is Ok ==> r->Ok_0.begin == old(self).db().rows(TableKind::Blocks).len() && r->Ok_0.end == r->Ok_0.begin,
            r is Err ==> final(self).db() == old(self).db() && r->Err_0 == CustomErrs::CouldNotInsertHashIntoDatabase,
    {
        let begin = self.database.len(TableKind::Blocks);
        let row = published_block.to_vec();
        match self.database.insert_row(TableKind::Blocks, &row) {
            Ok(()) => Ok(QueryRange::new(begin, begin)),
            Err(e) => Err(e),
        }
    }

    /// Validates a block, assigns it the next position range, appends its
    /// rows and its digest row as one transactional unit, and hands back
    /// the proof of append. An empty block and a block with any invalid
    /// signature are rejected before any storage access; a storage failure
    /// in the middle leaves no partial rows behind.
    pub fn push<R: Record>(&mut self, block: &Block<R>) -> (r: Result<FeedBack<R>, CustomErrs>)
        requires
            old(self).wf(),
            block.wf(),
            old(self).db().rows(TableKind::Records).len() + block@.len() <= i64::MAX,
            old(self).db().rows(TableKind::Blocks).len() < i64::MAX,
        ensures
            final(self).wf(),
            (r is Err && r->Err_0 == CustomErrs::EmptyBlocksNotAllowed) <==> block@.len() == 0,
            block@.len() == 0 ==> *final(self) == *old(self),
            (r is Err && r->Err_0 == CustomErrs::InvalidBlock) <==> (block@.len() > 0 && !block.all_valid()),
            block@.len() > 0 && !block.all_valid() ==> *final(self) == *old(self),
            r is Err ==> final(self).db().rows(TableKind::Records) == old(self).db().rows(TableKind::Records),
            r is Err ==> final(self).db().rows(TableKind::Blocks) == old(self).db().rows(TableKind::Blocks),
            r is Ok ==> block@.len() > 0 && block.all_valid(),
            r matches Ok(fb) ==> fb.block_position.begin == old(self).db().rows(TableKind::Records).len() && fb.block_position.end == fb.block_position.begin + block@.len() - 1,
            r matches Ok(fb) ==> fb.hash@ == digest_of(block_frame(block@)) && fb.hash@.len() == 32 && same_views(fb.block@, block@),
            r is Ok ==> final(self).db().present(TableKind::Records) && final(self).db().present(TableKind::Blocks),
            r is Ok ==> final(self).db().rows(TableKind::Records) == old(self).db().rows(TableKind::Records) + block.rows(),
            r is Ok ==> final(self).db().rows(TableKind::Blocks) == old(self).db().rows(TableKind::Blocks).push(seq![bytes_text(digest_of(block_frame(block@))), range_text(old(self).db().rows(TableKind::Records).len() as int, old(self).db().rows(TableKind::Records).len() + block@.len() - 1)]),
            r is Err ==> (r->Err_0 == CustomErrs::EmptyBlocksNotAllowed || r->Err_0 == CustomErrs::InvalidBlock || r->Err_0 == CustomErrs::CannotCreateSuchTable || r->Err_0 == CustomErrs::NoDatabaseConnected || r->Err_0 == CustomErrs::CouldNotInsertRecordsIntoDatabase || r->Err_0 == CustomErrs::CouldNotInsertHashIntoDatabase),
    {
        if block.size() == 0 {
            return Err(CustomErrs::EmptyBlocksNotAllowed);
        }
        let verified = match block.verify() {
            Ok(vb) => vb,
            Err(e) => {
                return Err(e);
            },
        };
        match self.database.create_table_if_absent(TableKind::Records) {
            Ok(()) => {},
            Err(e) => {
                return Err(e);
            },
        }
        match self.database.create_table_if_absent(TableKind::Blocks) {
            Ok(()) => {},
            Err(e) => {
                return Err(e);
            },
        }
        match self.database.begin_transaction() {
            Ok(()) => {},
            Err(e) => {
                return Err(e);
            },
        }
        let block_position = match self.append(block) {
            Ok(qr) => qr,
            Err(e) => {
                self.database.rollback_transaction();
                return Err(e);
            },
        };
        let published_block = PublishedBlock::new(
            slice_to_vec(verified.hash.as_slice()),
            block_position,
        );
        match self.record(&published_block) {
            Ok(_) => {},
            Err(e) => {
                self.database.rollback_transaction();
                return Err(e);
            },
        }
        match self.database.commit_transaction() {
            Ok(()) => {},
            Err(e) => {
                return Err(e);
            },
        }
        Ok(FeedBack { hash: verified.hash, block: verified.block, block_position })
    }

    /// Reconstructs a block from the records rows in the given inclusive
    /// range, in stored order. Everything handed back decodes from, and
    /// re-encodes to, exactly the stored rows; when the table is absent,
    /// the range is out of bounds, or a row does not decode, there is
    /// nothing to hand back.
    pub fn get_records<R: Record>(&self, block_position: QueryRange) -> (r: Option<Block<R>>)
        requires
            self.db().rows(TableKind::Records).len() <= i64::MAX,
        ensures
            r matches Some(b) ==> covers_range(
                b@,
                self.db(),
                block_position.begin as int,
                block_position.end as int,
            ),
            block_position.begin < 0 ==> r is None,
            block_position.end < block_position.begin ==> r is None,
            block_position.end >= self.db().rows(TableKind::Records).len() ==> r is None,
            !self.db().present(TableKind::Records) ==> r is None,
            (0 <= block_position.begin <= block_position.end < self.db().rows(TableKind::Records).len() && self.db().present(TableKind::Records) && (forall|p: int| block_position.begin <= p <= block_position.end ==> well_formed_row::<R>(#[trigger] self.db().rows(TableKind::Records)[p]))) ==> r is Some,
    {
        let ghost rows_ok = 0 <= block_position.begin <= block_position.end < self.db().rows(
            TableKind::Records,
        ).len() && self.db().present(TableKind::Records) && (forall|p: int|
            block_position.begin <= p <= block_position.end ==> well_formed_row::<R>(
                #[trigger] self.db().rows(TableKind::Records)[p],
            ));
        let begin = block_position.begin;
        let end = block_position.end;
        if begin < 0 || end < begin {
            return None;
        }
        if !self.database.table_exists(TableKind::Records) {
            return None;
        }
        let count = self.database.len(TableKind::Records);
        if end >= count {
            return None;
        }
        let mut records: Vec<SignedRecord<R>> = Vec::new();
        let mut pos: i64 = begin;
        while pos <= end
            invariant
                0 <= begin,
                begin <= pos <= end + 1,
                end < self.db().rows(TableKind::Records).len(),
                self.db().rows(TableKind::Records).len() <= i64::MAX,
                self.db().present(TableKind::Records),
                records@.len() == pos - begin,
                begin == block_position.begin,
                end == block_position.end,
                rows_ok == (0 <= begin <= end < self.db().rows(TableKind::Records).len() && self.db().present(TableKind::Records) && (forall|p: int| begin <= p <= end ==> well_formed_row::<R>(#[trigger] self.db().rows(TableKind::Records)[p]))),
                forall|i: int|
                    0 <= i < records@.len() ==> (#[trigger] records@[i]).row_view() == self.db().rows(TableKind::Records)[begin + i],
            decreases end - pos + 1,
        {
            let row = self.database.get_row(TableKind::Records, pos);
            proof {
                if rows_ok {
                    assert(well_formed_row::<R>(self.db().rows(TableKind::Records)[pos as int]));
                    assert(row.deep_view().len() == 3);
                    assert(row@.len() == 3);
                }
            }
            if row.len() != 3 {
                return None;
            }
            proof {
                assert(row.deep_view() =~= seq![row@[0]@, row@[1]@, row@[2]@]);
                if rows_ok {
                    let wrow = self.db().rows(TableKind::Records)[pos as int];
                    let rec0 = choose|rec: R| (#[trigger] rec.text()) == wrow[0];
                    assert(rec0.text() == row@[0]@);
                    let pk0 = choose|pk: Seq<u8>| (#[trigger] bytes_text(pk)) == wrow[1];
                    assert(bytes_text(pk0) == row@[1]@);
                    let sg0 = choose|sg: Seq<u8>| (#[trigger] bytes_text(sg)) == wrow[2];
                    assert(bytes_text(sg0) == row@[2]@);
                }
            }
            let rec = match R::from_text(row[0].as_str()) {
                Some(rec) => rec,
                None => {
                    proof {
                        if rows_ok {
                            assert(false);
                        }
                    }
                    return None;
                },
            };
            let public_key = match parse_bytes_text(row[1].as_str()) {
                Some(b) => b,
                None => {
                    proof {
                        if rows_ok {
                            assert(false);
                        }
                    }
                    return None;
                },
            };
            let signature = match parse_bytes_text(row[2].as_str()) {
                Some(b) => b,
                None => {
                    proof {
                        if rows_ok {
                            assert(false);
                        }
                    }
                    return None;
                },
            };
            let sr = SignedRecord { public_key, signature, record: rec };
            proof {
                assert(row.deep_view() =~= seq![row@[0]@, row@[1]@, row@[2]@]);
                assert(sr.row_view() =~= self.db().rows(TableKind::Records)[pos as int]);
            }
            records.push(sr);
            pos = pos + 1;
        }
        Some(Block { signed_records: records })
    }

    /// Looks the digest up in the hash table, reads the position range
    /// recorded beside it, and reconstructs that block from the records
    /// table.
    pub fn get_block<R: Record>(&self, hash: &crate::gen::Hash) -> (r: Option<Block<R>>)
        requires
            self.db().rows(TableKind::Records).len() <= i64::MAX,
            self.db().rows(TableKind::Blocks).len() <= i64::MAX,
        ensures
            r matches Some(b) ==> (exists|j: int, begin: int, end: int|
                #![trigger self.db().rows(TableKind::Blocks)[j], range_text(begin, end)]
                0 <= j < self.db().rows(TableKind::Blocks).len() && self.db().rows(
                    TableKind::Blocks,
                )[j] == seq![bytes_text(hash@), range_text(begin, end)] && covers_range(
                    b@,
                    self.db(),
                    begin,
                    end,
                )),
            !self.db().present(TableKind::Blocks) ==> r is None,
            (self.db().present(TableKind::Blocks) && self.db().present(TableKind::Records) && (exists|j: int| 0 <= j < self.db().rows(TableKind::Blocks).len() && (#[trigger] self.db().rows(TableKind::Blocks)[j])[0] == bytes_text(hash@)) && (forall|j: int| (0 <= j < self.db().rows(TableKind::Blocks).len() && (#[trigger] self.db().rows(TableKind::Blocks)[j])[0] == bytes_text(hash@)) ==> good_hash_row::<R>(self.db(), self.db().rows(TableKind::Blocks)[j]))) ==> r is Some,
    {
        let ghost lookup_ok = self.db().present(TableKind::Blocks) && self.db().present(
            TableKind::Records,
        ) && (exists|j: int|
            0 <= j < self.db().rows(TableKind::Blocks).len() && (#[trigger] self.db().rows(
                TableKind::Blocks,
            )[j])[0] == bytes_text(hash@)) && (forall|j: int|
            (0 <= j < self.db().rows(TableKind::Blocks).len() && (#[trigger] self.db().rows(
                TableKind::Blocks,
            )[j])[0] == bytes_text(hash@)) ==> good_hash_row::<R>(
                self.db(),
                self.db().rows(TableKind::Blocks)[j],
            ));
        if !self.database.table_exists(TableKind::Blocks) {
            return None;
        }
        let count = self.database.len(TableKind::Blocks);
        let wanted = bytes_to_text(hash.as_slice());
        let mut pos: i64 = 0;
        while pos < count
            invariant
                0 <= pos <= count,
                count == self.db().rows(TableKind::Blocks).len(),
                self.db().present(TableKind::Blocks),
                self.db().rows(TableKind::Records).len() <= i64::MAX,
                wanted@ == bytes_text(hash@),
                lookup_ok == (self.db().present(TableKind::Blocks) && self.db().present(TableKind::Records) && (exists|j: int| 0 <= j < self.db().rows(TableKind::Blocks).len() && (#[trigger] self.db().rows(TableKind::Blocks)[j])[0] == bytes_text(hash@)) && (forall|j: int| (0 <= j < self.db().rows(TableKind::Blocks).len() && (#[trigger] self.db().rows(TableKind::Blocks)[j])[0] == bytes_text(hash@)) ==> good_hash_row::<R>(self.db(), self.db().rows(TableKind::Blocks)[j]))),
                lookup_ok ==> (forall|j: int| 0 <= j < pos ==> (#[trigger] self.db().rows(TableKind::Blocks)[j])[0] != bytes_text(hash@)),
            decreases count - pos,
        {
            let row = self.database.get_row(TableKind::Blocks, pos);
            if row.len() == 2 {
                if row[0].eq(&wanted) {
                    proof {
                        assert(row.deep_view() =~= seq![row@[0]@, row@[1]@]);
                        assert(self.db().rows(TableKind::Blocks)[pos as int][0] == bytes_text(
                            hash@,
                        ));
                        if lookup_ok {
                            assert(good_hash_row::<R>(
                                self.db(),
                                self.db().rows(TableKind::Blocks)[pos as int],
                            ));
                            let (b0, e0) = choose|b: int, e: int|
                                #![trigger range_text(b, e)]
                                self.db().rows(TableKind::Blocks)[pos as int][1] == range_text(
                                    b,
                                    e,
                                ) && 0 <= b <= e && e < self.db().rows(TableKind::Records).len()
                                    && (forall|p: int|
                                    b <= p <= e ==> well_formed_row::<R>(
                                        #[trigger] self.db().rows(TableKind::Records)[p],
                                    ));
                            assert(row@[1]@ == range_text(b0, e0));
                            assert(0 <= b0 <= 0x7fffffffffffffff);
                            assert(0 <= e0 <= 0x7fffffffffffffff);
                        }
                    }
                    let (begin, end) = match parse_range_text(row[1].as_str()) {
                        Some(t) => t,
                        None => {
                            proof {
                                if lookup_ok {
                                    assert(false);
                                }
                            }
                            return None;
                        },
                    };
                    let b = match self.get_records::<R>(QueryRange::new(begin, end)) {
                        Some(b) => b,
                        None => {
                            proof {
                                if lookup_ok {
                                    let (b0, e0) = choose|b: int, e: int|
                                        #![trigger range_text(b, e)]
                                        self.db().rows(TableKind::Blocks)[pos as int][1]
                                            == range_text(b, e) && 0 <= b <= e && e < self.db().rows(
                                            TableKind::Records,
                                        ).len() && (forall|p: int|
                                            b <= p <= e ==> well_formed_row::<R>(
                                                #[trigger] self.db().rows(TableKind::Records)[p],
                                            ));
                                    assert(begin == b0 && end == e0);
                                    assert(false);
                                }
                            }
                            return None;
                        },
                    };
                    proof {
                        assert(self.db().rows(TableKind::Blocks)[pos as int] =~= seq![
                            bytes_text(hash@),
                            range_text(begin as int, end as int),
                        ]);
                    }
                    return Some(b);
                }
            }
            proof {
                assert(row.deep_view() == self.db().rows(TableKind::Blocks)[pos as int]);
                if lookup_ok && self.db().rows(TableKind::Blocks)[pos as int][0] == bytes_text(
                    hash@,
                ) {
                    assert(good_hash_row::<R>(
                        self.db(),
                        self.db().rows(TableKind::Blocks)[pos as int],
                    ));
                    assert(row@.len() == 2);
                    assert(row@[0]@ == bytes_text(hash@));
                    assert(false);
                }
            }
            pos = pos + 1;
        }
        proof {
            if lookup_ok {
                let j0 = choose|j: int|
                    0 <= j < self.db().rows(TableKind::Blocks).len() && (#[trigger] self.db().rows(
                        TableKind::Blocks,
                    )[j])[0] == bytes_text(hash@);
                assert(self.db().rows(TableKind::Blocks)[j0][0] != bytes_text(hash@));
                assert(false);
            }
        }
        None
    }
}

} // verus!
