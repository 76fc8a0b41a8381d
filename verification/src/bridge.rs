//! The node's objects as plain values: blocks, transactions and their parts,
//! the position of a block in the block files, and decoded cash addresses.
//! The node hands them over, and the logic of this crate reads them here.
use vstd::prelude::*;

verus! {

/// A transaction hash (`uint256` in the node), its 32 bytes as stored.
#[derive(Clone, Copy, Debug)]
pub struct TxId {
    pub bytes: [u8; 32],
}

/// A reference to an output of an earlier transaction.
#[derive(Clone, Copy, Debug)]
pub struct TxOutpoint {
    pub txid: TxId,
    pub n: u32,
}

/// A script, as the bytes of its bytecode.
#[derive(Debug)]
pub struct Script {
    pub code: Vec<u8>,
}

/// A transaction input.
#[derive(Debug)]
pub struct TxInput {
    pub prevout: TxOutpoint,
    pub script: Script,
    pub n_sequence: u32,
}

/// A transaction output.
#[derive(Debug)]
pub struct TxOutput {
    pub value: i64,
    pub script: Script,
}

/// A transaction, with the id and serialized size that the node computed for it.
#[derive(Debug)]
pub struct Tx {
    pub txid: [u8; 32],
    pub n_version: i32,
    pub n_lock_time: u32,
    pub vin: Vec<TxInput>,
    pub vout: Vec<TxOutput>,
    pub size: usize,
}

/// A block: its transactions in order.
#[derive(Debug)]
pub struct Block {
    pub vtx: Vec<Tx>,
}

/// Where a block's data starts: the number of its block file and the byte
/// offset in that file.
#[derive(Copy, Clone, Debug, PartialEq, Eq, Structural)]
pub struct BlockIndexFilePos {
    pub file_num: i32,
    pub data_pos: u32,
}

/// An entry of the block index: where its block is stored, and its
/// predecessor in the chain, where it has one.
#[derive(Debug)]
pub struct BlockIndex {
    pub n_file: i32,
    pub n_data_pos: u32,
    pub pprev: Option<Box<BlockIndex>>,
}

/// The kind of a cash address.
#[allow(non_camel_case_types)]
#[derive(Clone, Copy, Debug, PartialEq, Eq, Structural)]
pub enum CashAddrType {
    PUBKEY_TYPE,
    SCRIPT_TYPE,
}

/// What the node's cash address decoder gives back: the kind and the hash;
/// an empty hash stands for an address that did not decode.
#[derive(Debug)]
pub struct DecodedCashAddr {
    pub kind: CashAddrType,
    pub hash: Vec<u8>,
}

impl CashAddrType {
    /// The number that stands for the kind: 0 for a public key hash, 1 for a
    /// script hash.
    pub open spec fn spec_repr(self) -> u8 {
        match self {
            CashAddrType::PUBKEY_TYPE => 0,
            CashAddrType::SCRIPT_TYPE => 1,
        }
    }

    /// The number that stands for the kind.
    pub fn repr(&self) -> (r: u8)
        ensures
            r == self.spec_repr(),
    {
        match self {
            CashAddrType::PUBKEY_TYPE => 0,
            CashAddrType::SCRIPT_TYPE => 1,
        }
    }
}

impl Block {
    /// The block's transactions.
    pub fn txs(&self) -> (r: &Vec<Tx>)
        ensures
            r@ == self.vtx@,
    {
        &self.vtx
    }
}

impl Tx {
    /// The transaction's id.
    pub fn id(&self) -> (r: [u8; 32])
        ensures
            r == self.txid,
    {
        self.txid
    }

    /// The transaction's version.
    pub fn version(&self) -> (r: i32)
        ensures
            r == self.n_version,
    {
        self.n_version
    }

    /// The transaction's lock time.
    pub fn lock_time(&self) -> (r: u32)
        ensures
            r == self.n_lock_time,
    {
        self.n_lock_time
    }

    /// The transaction's inputs.
    pub fn inputs(&self) -> (r: &Vec<TxInput>)
        ensures
            r@ == self.vin@,
    {
        &self.vin
    }

    /// The transaction's outputs.
    pub fn outputs(&self) -> (r: &Vec<TxOutput>)
        ensures
            r@ == self.vout@,
    {
        &self.vout
    }

    /// The size of the transaction's serialization, in bytes.
    pub fn serialize_size(&self) -> (r: usize)
        ensures
            r == self.size,
    {
        self.size
    }
}

impl TxInput {
    /// The output that this input spends.
    pub fn prev_out(&self) -> (r: &TxOutpoint)
        ensures
            *r == self.prevout,
    {
        &self.prevout
    }

    /// The input's unlocking script.
    pub fn script_sig(&self) -> (r: &Script)
        ensures
            r.code@ == self.script.code@,
    {
        &self.script
    }

    /// The input's sequence number.
    pub fn sequence(&self) -> (r: u32)
        ensures
            r == self.n_sequence,
    {
        self.n_sequence
    }
}

impl TxOutput {
    /// The output's amount, in satoshis.
    pub fn amount(&self) -> (r: i64)
        ensures
            r == self.value,
    {
        self.value
    }

    /// The output's locking script.
    pub fn script_pub_key(&self) -> (r: &Script)
        ensures
            r.code@ == self.script.code@,
    {
        &self.script
    }
}

impl TxOutpoint {
    /// Whether this outpoint is the null outpoint (of a coinbase input): a txid
    /// of 32 zero bytes and the index `u32::MAX`.
    pub open spec fn spec_is_null(self) -> bool {
        &&& forall|i: int| 0 <= i < 32 ==> #[trigger] self.txid.bytes@[i] == 0u8
        &&& self.n == u32::MAX
    }

    /// The index of the spent output in its transaction.
    pub fn index(&self) -> (r: u32)
        ensures
            r == self.n,
    {
        self.n
    }

    /// The id of the transaction whose output is spent.
    pub fn txid(&self) -> (r: &TxId)
        ensures
            *r == self.txid,
    {
        &self.txid
    }

    /// Whether this is the null outpoint.
    pub fn is_null(&self) -> (r: bool)
        ensures
            r == self.spec_is_null(),
    {
        if self.n != u32::MAX {
            return false;
        }
        let mut i: usize = 0;
        while i < 32
            invariant
                0 <= i <= 32,
                self.n == u32::MAX,
                forall|j: int| 0 <= j < i ==> #[trigger] self.txid.bytes@[j] == 0u8,
            decreases 32 - i,
        {
            if self.txid.bytes[i] != 0 {
                return false;
            }
            i = i + 1;
        }
        true
    }
}

impl Script {
    /// The script's bytecode.
    pub fn bytecode(&self) -> (r: &[u8])
        ensures
            r@ == self.code@,
    {
        self.code.as_slice()
    }
}

impl BlockIndex {
    /// The entry before this one in the chain, where there is one.
    pub fn prev(&self) -> (r: Option<&BlockIndex>)
        ensures
            match r {
                Some(p) => self.pprev is Some && *p == *self.pprev->0,
                None => self.pprev is None,
            },
    {
        match &self.pprev {
            Some(p) => Some(&**p),
            None => None,
        }
    }

    /// Where this entry's block is stored.
    pub fn file_pos(&self) -> (r: BlockIndexFilePos)
        ensures
            r.file_num == self.n_file,
            r.data_pos == self.n_data_pos,
    {
        BlockIndexFilePos { file_num: self.n_file, data_pos: self.n_data_pos }
    }
}

/// The result of decoding a cash address: `None` where the decoder found no
/// hash (the address did not decode), else the decoded address unchanged.
pub fn decode_cash_addr(decoded: DecodedCashAddr) -> (r: Option<DecodedCashAddr>)
    ensures
        decoded.hash@.len() == 0 ==> r is None,
        decoded.hash@.len() != 0 ==> (r matches Some(d) && d.kind == decoded.kind && d.hash@
            == decoded.hash@),
{
    if decoded.hash.is_empty() {
        return None;
    }
    Some(decoded)
}

} // verus!
