//! Address indexing for a Bitcoin node: the variable-length integer codec,
//! the raw transaction copier, script classification and the keys of the
//! address index, with their contracts.
pub mod address_index;
pub mod bridge;
pub mod hash;
pub mod le;
pub mod opcode;
pub mod script;
pub mod tx;
pub mod var_int;

pub use crate::bridge::{
    decode_cash_addr, Block, BlockIndex, BlockIndexFilePos, CashAddrType, DecodedCashAddr, Script,
    Tx, TxId, TxInput, TxOutpoint, TxOutput,
};
pub use crate::var_int::{
    encode_var_int, read_var_int, var_int_len_from_prefix, var_int_size, write_var_int, CodecError,
};
pub use crate::script::ScriptKind;
pub use crate::address_index::{
    address_search_prefix, block_connected_keys, block_is_indexable, entries_from_keys, AddressEntry,
    Key,
};
pub use crate::hash::sha256d;
pub use crate::tx::read_raw_tx;
