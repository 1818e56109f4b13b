use crate::chain::BlockHeader;
use crate::hash::H256;
use vstd::prelude::*;

verus! {

/// Largest number of hashes sent in answer to one `getblocks` request.
pub const GETBLOCKS_MAX_RESPONSE_HASHES: usize = 500;

/// Largest number of headers sent in answer to one `getheaders` request.
pub const GETHEADERS_MAX_RESPONSE_HEADERS: usize = 2000;

/// Kind of object that an inventory vector names.
#[derive(Clone, Copy, Debug, PartialEq, Eq, Structural)]
pub enum InventoryType {
    Error,
    MessageBlock,
}

/// One entry of an inventory: the kind of an object and its hash.
#[derive(Clone, Copy, Debug, PartialEq, Eq, Structural)]
pub struct InventoryVector {
    pub inv_type: InventoryType,
    pub hash: H256,
}

impl InventoryVector {
    /// The inventory vector that names the block with the given hash.
    pub open spec fn spec_block(hash: H256) -> InventoryVector {
        InventoryVector { inv_type: InventoryType::MessageBlock, hash }
    }

    /// The inventory vector that names the block with the given hash.
    pub fn block(hash: H256) -> (r: InventoryVector)
        ensures
            r == Self::spec_block(hash),
    {
        InventoryVector { inv_type: InventoryType::MessageBlock, hash }
    }
}

/// `getdata`: a request for the objects named in the inventory.
#[derive(Debug, PartialEq)]
pub struct GetData {
    pub inventory: Vec<InventoryVector>,
}

/// `notfound`: the requested objects that are not known here.
#[derive(Debug, PartialEq)]
pub struct NotFound {
    pub inventory: Vec<InventoryVector>,
}

/// `inv`: an announcement of objects.
#[derive(Debug, PartialEq)]
pub struct Inv {
    pub inventory: Vec<InventoryVector>,
}

/// `getblocks`: a request for the hashes that follow the best block common
/// to the local main chain and the locator.
#[derive(Debug, PartialEq)]
pub struct GetBlocks {
    pub version: u32,
    pub block_locator_hashes: Vec<H256>,
    pub hash_stop: H256,
}

/// `getheaders`: a request for the headers that follow the best block common
/// to the local main chain and the locator.
#[derive(Debug, PartialEq)]
pub struct GetHeaders {
    pub version: u32,
    pub block_locator_hashes: Vec<H256>,
    pub hash_stop: H256,
}

/// `headers`: a run of block headers.
#[derive(Debug, PartialEq)]
pub struct Headers {
    pub headers: Vec<BlockHeader>,
}

/// Mathematical value of a `getblocks` or `getheaders` request.
pub struct LocatorView {
    pub version: u32,
    pub block_locator_hashes: Seq<H256>,
    pub hash_stop: H256,
}

impl LocatorView {
    /// The hashes in the order in which they are tried as a common block:
    /// the locator, then the stop hash.
    pub open spec fn candidates(self) -> Seq<H256> {
        self.block_locator_hashes.push(self.hash_stop)
    }
}

impl View for GetData {
    type V = Seq<InventoryVector>;

    open spec fn view(&self) -> Seq<InventoryVector> {
        self.inventory@
    }
}

impl View for NotFound {
    type V = Seq<InventoryVector>;

    open spec fn view(&self) -> Seq<InventoryVector> {
        self.inventory@
    }
}

impl View for Inv {
    type V = Seq<InventoryVector>;

    open spec fn view(&self) -> Seq<InventoryVector> {
        self.inventory@
    }
}

impl View for Headers {
    type V = Seq<BlockHeader>;

    open spec fn view(&self) -> Seq<BlockHeader> {
        self.headers@
    }
}

impl View for GetBlocks {
    type V = LocatorView;

    open spec fn view(&self) -> LocatorView {
        LocatorView {
            version: self.version,
            block_locator_hashes: self.block_locator_hashes@,
            hash_stop: self.hash_stop,
        }
    }
}

impl View for GetHeaders {
    type V = LocatorView;

    open spec fn view(&self) -> LocatorView {
        LocatorView {
            version: self.version,
            block_locator_hashes: self.block_locator_hashes@,
            hash_stop: self.hash_stop,
        }
    }
}

impl GetData {
    pub fn with_inventory(inventory: Vec<InventoryVector>) -> (r: Self)
        ensures
            r@ == inventory@,
    {
        GetData { inventory }
    }
}

impl NotFound {
    pub fn with_inventory(inventory: Vec<InventoryVector>) -> (r: Self)
        ensures
            r@ == inventory@,
    {
        NotFound { inventory }
    }
}

impl Inv {
    pub fn with_inventory(inventory: Vec<InventoryVector>) -> (r: Self)
        ensures
            r@ == inventory@,
    {
        Inv { inventory }
    }
}

impl Headers {
    pub fn with_headers(headers: Vec<BlockHeader>) -> (r: Self)
        ensures
            r@ == headers@,
    {
        Headers { headers }
    }
}

} // verus!
