use crate::hash::H256;
use vstd::prelude::*;

verus! {

/// The fixed-size part of a block: what is hashed to obtain the block's hash.
#[derive(Clone, Copy, Debug, PartialEq, Eq, Structural)]
pub struct BlockHeader {
    pub version: u32,
    pub previous_header_hash: H256,
    pub merkle_root_hash: H256,
    pub time: u32,
    pub bits: u32,
    pub nonce: u32,
}

/// The four bytes of a number, least significant first.
pub open spec fn u32_le_bytes(x: u32) -> Seq<u8> {
    seq![
        (x % 256) as u8,
        (x / 0x100 % 256) as u8,
        (x / 0x1_0000 % 256) as u8,
        (x / 0x100_0000) as u8,
    ]
}

/// Appends the four bytes of a number, least significant first.
fn push_u32_le(out: &mut Vec<u8>, x: u32)
    ensures
        final(out)@ == old(out)@ + u32_le_bytes(x),
{
    out.push((x % 256) as u8);
    out.push((x / 0x100 % 256) as u8);
    out.push((x / 0x1_0000 % 256) as u8);
    out.push((x / 0x100_0000) as u8);
    assert(out@ =~= old(out)@ + u32_le_bytes(x));
}

impl BlockHeader {
    /// The 80 bytes of the header: version, hash of the previous header,
    /// merkle root, time, bits and nonce.
    pub open spec fn spec_bytes(self) -> Seq<u8> {
        u32_le_bytes(self.version) + self.previous_header_hash.spec_bytes()
            + self.merkle_root_hash.spec_bytes() + u32_le_bytes(self.time) + u32_le_bytes(
            self.bits,
        ) + u32_le_bytes(self.nonce)
    }

    /// The header in its 80-byte form.
    pub fn to_bytes(&self) -> (r: Vec<u8>)
        ensures
            r@ == self.spec_bytes(),
            r@.len() == 80,
    {
        let mut out: Vec<u8> = Vec::new();
        push_u32_le(&mut out, self.version);
        self.previous_header_hash.write_to(&mut out);
        self.merkle_root_hash.write_to(&mut out);
        push_u32_le(&mut out, self.time);
        push_u32_le(&mut out, self.bits);
        push_u32_le(&mut out, self.nonce);
        assert(out@ =~= self.spec_bytes());
        out
    }
}

/// A header together with its precomputed hash.
#[derive(Clone, Copy, Debug, PartialEq, Eq, Structural)]
pub struct IndexedBlockHeader {
    pub hash: H256,
    pub raw: BlockHeader,
}

/// A transaction in serialized form together with its precomputed hash.
#[derive(Debug, PartialEq, Eq)]
pub struct IndexedTransaction {
    pub hash: H256,
    pub raw: Vec<u8>,
}

/// A block together with its precomputed hash.
#[derive(Debug, PartialEq, Eq)]
pub struct IndexedBlock {
    pub header: IndexedBlockHeader,
    pub transactions: Vec<IndexedTransaction>,
}

/// Mathematical value of an [`IndexedTransaction`].
pub struct TransactionView {
    pub hash: H256,
    pub raw: Seq<u8>,
}

/// Mathematical value of an [`IndexedBlock`].
pub struct BlockView {
    pub header: IndexedBlockHeader,
    pub transactions: Seq<TransactionView>,
}

impl BlockView {
    /// Hash under which the block is known.
    pub open spec fn hash(self) -> H256 {
        self.header.hash
    }

    /// Hash of the block that this block builds on.
    pub open spec fn parent(self) -> H256 {
        self.header.raw.previous_header_hash
    }
}

impl View for IndexedTransaction {
    type V = TransactionView;

    open spec fn view(&self) -> TransactionView {
        TransactionView { hash: self.hash, raw: self.raw@ }
    }
}

impl View for IndexedBlock {
    type V = BlockView;

    open spec fn view(&self) -> BlockView {
        BlockView {
            header: self.header,
            transactions: Seq::new(self.transactions@.len(), |i: int| self.transactions@[i]@),
        }
    }
}

impl IndexedBlockHeader {
    pub fn new(hash: H256, raw: BlockHeader) -> (r: Self)
        ensures
            r == (IndexedBlockHeader { hash, raw }),
    {
        IndexedBlockHeader { hash, raw }
    }
}

impl Clone for IndexedTransaction {
    fn clone(&self) -> (r: Self)
        ensures
            r@ == self@,
    {
        let mut raw: Vec<u8> = Vec::new();
        let mut i: usize = 0;
        while i < self.raw.len()
            invariant
                i <= self.raw@.len(),
                raw@ == self.raw@.subrange(0, i as int),
            decreases self.raw@.len() - i,
        {
            raw.push(self.raw[i]);
            assert(raw@ =~= self.raw@.subrange(0, i + 1));
            i += 1;
        }
        assert(raw@ =~= self.raw@);
        IndexedTransaction { hash: self.hash, raw }
    }
}

impl IndexedTransaction {
    pub fn new(hash: H256, raw: Vec<u8>) -> (r: Self)
        ensures
            r@ == (TransactionView { hash, raw: raw@ }),
    {
        IndexedTransaction { hash, raw }
    }
}

impl Clone for IndexedBlock {
    fn clone(&self) -> (r: Self)
        ensures
            r@ == self@,
    {
        let mut transactions: Vec<IndexedTransaction> = Vec::new();
        let mut i: usize = 0;
        while i < self.transactions.len()
            invariant
                i <= self.transactions@.len(),
                transactions@.len() == i,
                forall|j: int| 0 <= j < i ==> (#[trigger] transactions@[j])@ == self.transactions@[j]@,
            decreases self.transactions@.len() - i,
        {
            transactions.push(self.transactions[i].clone());
            i += 1;
        }
        let r = IndexedBlock { header: self.header, transactions };
        assert(r@.transactions =~= self@.transactions);
        r
    }
}

impl IndexedBlock {
    pub fn new(header: IndexedBlockHeader, transactions: Vec<IndexedTransaction>) -> (r: Self)
        ensures
            r.header == header,
            r.transactions == transactions,
    {
        IndexedBlock { header, transactions }
    }

    /// Hash under which the block is known.
    pub fn hash(&self) -> (r: H256)
        ensures
            r == self@.hash(),
    {
        self.header.hash
    }

    /// Hash of the block that this block builds on.
    pub fn parent_hash(&self) -> (r: H256)
        ensures
            r == self@.parent(),
    {
        self.header.raw.previous_header_hash
    }
}

} // verus!
