//! The keys of the address index. A key is the address kind (one byte), the
//! 20-byte address hash, then four variable-length integers: the block file
//! number, the block's offset in that file, the transaction's offset in the
//! block and the output's index in the transaction.
use crate::bridge::{Block, BlockIndex, BlockIndexFilePos, Tx, TxOutput};
use crate::tx::{lemma_minimal_tx_reads_back, spec_parse_tx};
use crate::script::{
    spec_is_p2pkh, spec_is_p2sh, spec_p2pkh_hash, spec_p2sh_hash, ScriptKind,
};
use crate::var_int::{
    encode_var_int, lemma_read_var_int_at, lemma_var_int_encode_len, read_var_int_at,
    spec_read_var_int_at, spec_var_int_encode, spec_var_int_size, var_int_size,
};
use vstd::prelude::*;

verus! {

/// The kind byte of a pay-to-public-key-hash address.
pub const P2PKH_KIND: u8 = 0;

/// The kind byte of a pay-to-script-hash address.
pub const P2SH_KIND: u8 = 1;

/// The length of a key's fixed part: the kind byte and the address hash.
pub const SIZE_WITHOUT_OUT_IDX: usize = 21;

/// Room for the variable-length integers of a key.
pub const KEY_DATA_SIZE: usize = 24;

/// A key under construction: the fixed part, and a buffer whose first
/// `tx_pos_idx` bytes hold the block's position.
#[derive(Debug)]
pub struct Key {
    pub kind: u8,
    pub addr_hash: [u8; 20],
    pub data: [u8; 24],
    pub tx_pos_idx: usize,
}

/// What an index entry tells of an output: where its block is, where its
/// transaction is in the block, and its index in the transaction.
#[derive(Debug, PartialEq, Eq, Structural)]
pub struct AddressEntry {
    pub file_pos: BlockIndexFilePos,
    pub tx_pos: usize,
    pub out_idx: u32,
}

/// The encoded position of a block, as a key holds it.
pub open spec fn spec_file_pos_bytes(file_pos: BlockIndexFilePos) -> Seq<u8> {
    spec_var_int_encode(file_pos.file_num as u64) + spec_var_int_encode(file_pos.data_pos as u64)
}

/// The index key of output `out_idx` of the transaction at offset `tx_pos` in
/// the block at `file_pos`, for an address of the given kind and hash.
pub open spec fn spec_key_bytes(
    kind: u8,
    addr_hash: Seq<u8>,
    file_pos: BlockIndexFilePos,
    tx_pos: usize,
    out_idx: usize,
) -> Seq<u8> {
    seq![kind] + addr_hash + spec_file_pos_bytes(file_pos) + spec_var_int_encode(tx_pos as u64)
        + spec_var_int_encode(out_idx as u64)
}

/// Whether a key for these positions fits in the key's buffer.
pub open spec fn spec_key_fits(file_pos: BlockIndexFilePos, tx_pos: usize, out_idx: usize) -> bool {
    spec_var_int_size(file_pos.file_num as u64) + spec_var_int_size(file_pos.data_pos as u64)
        + spec_var_int_size(tx_pos as u64) + spec_var_int_size(out_idx as u64) <= 24
}

/// What a key decodes to: `None` where it is shorter than its fixed part or
/// one of its four numbers does not read. The numbers are narrowed to the
/// entry's field types by truncation.
pub open spec fn spec_decode_key(key: Seq<u8>) -> Option<AddressEntry> {
    if key.len() < 21 {
        None
    } else {
        match spec_read_var_int_at(key, 21) {
            None => None,
            Some((file_num, n1)) => match spec_read_var_int_at(key, 21 + n1 as int) {
                None => None,
                Some((data_pos, n2)) => match spec_read_var_int_at(key, 21 + n1 + n2 as int) {
                    None => None,
                    Some((tx_pos, n3)) => match spec_read_var_int_at(key, 21 + n1 + n2 + n3 as int) {
                        None => None,
                        Some((out_idx, _n4)) => Some(
                            AddressEntry {
                                file_pos: BlockIndexFilePos {
                                    file_num: file_num as i32,
                                    data_pos: data_pos as u32,
                                },
                                tx_pos: tx_pos as usize,
                                out_idx: out_idx as u32,
                            },
                        ),
                    },
                },
            },
        }
    }
}

/// Writes the encoding of `number` into `data` at `offset`.
fn write_var_int_at(data: &mut [u8; 24], offset: usize, number: u64) -> (size: usize)
    requires
        offset + spec_var_int_size(number) <= 24,
    ensures
        size == spec_var_int_size(number),
        final(data)@ == old(data)@.take(offset as int) + spec_var_int_encode(number) + old(data)@.skip(offset + size),
{
    let enc = encode_var_int(number);
    proof {
        lemma_var_int_encode_len(number);
    }
    let n = enc.len();
    let mut i: usize = 0;
    while i < n
        invariant
            0 <= i <= n,
            n == enc@.len(),
            n == spec_var_int_size(number),
            offset + n <= 24,
            enc@ == spec_var_int_encode(number),
            data@ =~= old(data)@.take(offset as int) + enc@.take(i as int) + old(data)@.skip(
                offset + i,
            ),
        decreases n - i,
    {
        data[offset + i] = enc[i];
        i = i + 1;
        assert(data@ =~= old(data)@.take(offset as int) + enc@.take(i as int) + old(data)@.skip(offset + i));
    }
    assert(enc@.take(n as int) =~= enc@);
    n
}

impl Key {
    /// A key for the block at `block_file_pos`, with kind 0 and a zero hash.
    pub fn new(block_file_pos: BlockIndexFilePos) -> (key: Key)
        ensures
            key.kind == 0,
            forall|i: int| 0 <= i < 20 ==> #[trigger] key.addr_hash@[i] == 0u8,
            key.tx_pos_idx == spec_file_pos_bytes(block_file_pos).len(),
            key.data@.take(key.tx_pos_idx as int) == spec_file_pos_bytes(block_file_pos),
            forall|i: int| key.tx_pos_idx <= i < 24 ==> #[trigger] key.data@[i] == 0u8,
    {
        let mut key = Key { kind: 0, addr_hash: [0u8; 20], data: [0u8; 24], tx_pos_idx: 0 };
        let mut tx_pos_idx: usize = 0;
        let ghost d0 = key.data@;
        let n1 = write_var_int_at(&mut key.data, tx_pos_idx, block_file_pos.file_num as u64);
        tx_pos_idx = tx_pos_idx + n1;
        let ghost d1 = key.data@;
        let n2 = write_var_int_at(&mut key.data, tx_pos_idx, block_file_pos.data_pos as u64);
        tx_pos_idx = tx_pos_idx + n2;
        key.tx_pos_idx = tx_pos_idx;
        proof {
            lemma_var_int_encode_len(block_file_pos.file_num as u64);
            lemma_var_int_encode_len(block_file_pos.data_pos as u64);
            assert(key.data@.take(tx_pos_idx as int) =~= spec_file_pos_bytes(block_file_pos));
            assert forall|i: int| tx_pos_idx <= i < 24 implies #[trigger] key.data@[i] == 0u8 by {
                assert(d1[i] == d0[i]);
            }
        }
        key
    }

    /// Sets the kind and the hash from a pay-to-public-key-hash or
    /// pay-to-script-hash script, and returns whether it was one of them;
    /// the key is left as it was for any other script.
    pub fn set_script_kind(&mut self, script_kind: &ScriptKind<'_>) -> (indexed: bool)
        requires
            match *script_kind {
                ScriptKind::P2PKH(hash) => hash@.len() == 20,
                ScriptKind::P2SH(hash) => hash@.len() == 20,
                _ => true,
            },
        ensures
            match *script_kind {
                ScriptKind::P2PKH(hash) => indexed && final(self).kind == P2PKH_KIND && final(self).addr_hash@ == hash@,
                ScriptKind::P2SH(hash) => indexed && final(self).kind == P2SH_KIND && final(self).addr_hash@ == hash@,
                _ => !indexed && final(self).kind == old(self).kind && final(self).addr_hash@
                    == old(self).addr_hash@,
            },
            final(self).data@ == old(self).data@,
            final(self).tx_pos_idx == old(self).tx_pos_idx,
    {
        let (kind, hash) = match script_kind {
            ScriptKind::P2PKH(hash) => (P2PKH_KIND, *hash),
            ScriptKind::P2SH(hash) => (P2SH_KIND, *hash),
            _ => return false,
        };
        self.kind = kind;
        let mut i: usize = 0;
        while i < 20
            invariant
                0 <= i <= 20,
                hash@.len() == 20,
                self.data@ == old(self).data@,
                self.tx_pos_idx == old(self).tx_pos_idx,
                self.kind == kind,
                forall|j: int| 0 <= j < i ==> #[trigger] self.addr_hash@[j] == hash@[j],
            decreases 20 - i,
        {
            self.addr_hash[i] = hash[i];
            i = i + 1;
        }
        assert(self.addr_hash@ =~= hash@);
        true
    }

    /// Writes the transaction offset and the output index after the block's
    /// position, and returns the bytes of the key.
    pub fn make_slice(&mut self, tx_pos: usize, out_idx: usize) -> (key: Vec<u8>)
        requires
            old(self).tx_pos_idx + spec_var_int_size(tx_pos as u64) + spec_var_int_size(
                out_idx as u64,
            ) <= 24,
        ensures
            key@ == seq![old(self).kind] + old(self).addr_hash@ + old(self).data@.take(
                old(self).tx_pos_idx as int,
            ) + spec_var_int_encode(tx_pos as u64) + spec_var_int_encode(out_idx as u64),
            final(self).kind == old(self).kind,
            final(self).addr_hash@ == old(self).addr_hash@,
            final(self).tx_pos_idx == old(self).tx_pos_idx,
            final(self).data@ == old(self).data@.take(old(self).tx_pos_idx as int)
                + spec_var_int_encode(tx_pos as u64) + spec_var_int_encode(out_idx as u64) + old(self).data@.skip(
                old(self).tx_pos_idx + spec_var_int_size(tx_pos as u64) + spec_var_int_size(
                    out_idx as u64,
                ),
            ),
    {
        let idx = self.tx_pos_idx;
        let mut data_offset = idx;
        let n1 = write_var_int_at(&mut self.data, data_offset, tx_pos as u64);
        data_offset = data_offset + n1;
        let n2 = write_var_int_at(&mut self.data, data_offset, out_idx as u64);
        data_offset = data_offset + n2;
        proof {
            lemma_var_int_encode_len(tx_pos as u64);
            lemma_var_int_encode_len(out_idx as u64);
            assert(self.data@.take(data_offset as int) =~= old(self).data@.take(idx as int)
                + spec_var_int_encode(tx_pos as u64) + spec_var_int_encode(out_idx as u64));
            assert(self.data@.take(idx as int) =~= old(self).data@.take(idx as int));
            assert(self.data@ =~= old(self).data@.take(idx as int) + spec_var_int_encode(
                tx_pos as u64,
            ) + spec_var_int_encode(out_idx as u64) + old(self).data@.skip(data_offset as int));
        }
        let mut out: Vec<u8> = Vec::new();
        out.push(self.kind);
        let mut i: usize = 0;
        while i < 20
            invariant
                0 <= i <= 20,
                out@ =~= seq![self.kind] + self.addr_hash@.take(i as int),
            decreases 20 - i,
        {
            out.push(self.addr_hash[i]);
            i = i + 1;
        }
        assert(self.addr_hash@.take(20) =~= self.addr_hash@);
        let mut j: usize = 0;
        while j < data_offset
            invariant
                0 <= j <= data_offset,
                data_offset <= 24,
                out@ =~= seq![self.kind] + self.addr_hash@ + self.data@.take(j as int),
            decreases data_offset - j,
        {
            out.push(self.data[j]);
            j = j + 1;
        }
        out
    }
}

impl AddressEntry {
    /// Decodes a key of the index; `None` where it does not decode.
    pub fn try_from_key_slice(key: &[u8]) -> (entry: Option<AddressEntry>)
        ensures
            entry == spec_decode_key(key@),
    {
        let len = key.len();
        if len < SIZE_WITHOUT_OUT_IDX {
            return None;
        }
        let mut offset: usize = SIZE_WITHOUT_OUT_IDX;
        let (file_num, file_num_size) = match read_var_int_at(key, offset) {
            Ok(r) => r,
            Err(_) => return None,
        };
        offset = offset + file_num_size;
        let (data_pos, data_pos_size) = match read_var_int_at(key, offset) {
            Ok(r) => r,
            Err(_) => return None,
        };
        offset = offset + data_pos_size;
        let (tx_pos, tx_pos_size) = match read_var_int_at(key, offset) {
            Ok(r) => r,
            Err(_) => return None,
        };
        offset = offset + tx_pos_size;
        let (out_idx, _) = match read_var_int_at(key, offset) {
            Ok(r) => r,
            Err(_) => return None,
        };
        Some(
            AddressEntry {
                file_pos: BlockIndexFilePos {
                    file_num: file_num as i32,
                    data_pos: data_pos as u32,
                },
                tx_pos: tx_pos as usize,
                out_idx: out_idx as u32,
            },
        )
    }

    /// Decodes a key of the index.
    pub fn from_key_slice(key: &[u8]) -> (entry: AddressEntry)
        requires
            spec_decode_key(key@) is Some,
        ensures
            Some(entry) == spec_decode_key(key@),
    {
        Self::try_from_key_slice(key).unwrap()
    }
}


/// The key of an output, where its script is one that the index holds.
pub open spec fn spec_output_key(
    script: Seq<u8>,
    file_pos: BlockIndexFilePos,
    tx_pos: usize,
    out_idx: usize,
) -> Option<Seq<u8>> {
    if spec_is_p2pkh(script) {
        Some(spec_key_bytes(P2PKH_KIND, spec_p2pkh_hash(script), file_pos, tx_pos, out_idx))
    } else if spec_is_p2sh(script) {
        Some(spec_key_bytes(P2SH_KIND, spec_p2sh_hash(script), file_pos, tx_pos, out_idx))
    } else {
        None
    }
}

/// The keys of the first `n` outputs of a transaction, in order.
pub open spec fn spec_outputs_keys(
    outs: Seq<TxOutput>,
    file_pos: BlockIndexFilePos,
    tx_pos: usize,
    n: nat,
) -> Seq<Seq<u8>>
    decreases n,
{
    if n == 0 {
        seq![]
    } else {
        let prev = spec_outputs_keys(outs, file_pos, tx_pos, (n - 1) as nat);
        match spec_output_key(outs[n - 1].script.code@, file_pos, tx_pos, (n - 1) as usize) {
            Some(k) => prev.push(k),
            None => prev,
        }
    }
}

/// The offset of transaction `i` in its block's data: the transaction count,
/// then the transactions before it.
pub open spec fn spec_tx_offset(txs: Seq<Tx>, i: nat) -> int
    decreases i,
{
    if i == 0 {
        spec_var_int_size(txs.len() as u64) as int
    } else {
        spec_tx_offset(txs, (i - 1) as nat) + txs[i - 1].size
    }
}

/// The keys of the outputs of the first `i` transactions, in order.
pub open spec fn spec_block_keys(txs: Seq<Tx>, file_pos: BlockIndexFilePos, i: nat) -> Seq<
    Seq<u8>,
>
    decreases i,
{
    if i == 0 {
        seq![]
    } else {
        spec_block_keys(txs, file_pos, (i - 1) as nat) + spec_outputs_keys(
            txs[i - 1].vout@,
            file_pos,
            spec_tx_offset(txs, (i - 1) as nat) as usize,
            txs[i - 1].vout@.len(),
        )
    }
}

/// Whether an output can be indexed without failing: a matched template's
/// hash has 20 bytes, and its key fits.
pub open spec fn spec_output_indexable(
    script: Seq<u8>,
    file_pos: BlockIndexFilePos,
    tx_pos: usize,
    out_idx: usize,
) -> bool {
    &&& spec_is_p2pkh(script) ==> script.len() == 25 && spec_key_fits(file_pos, tx_pos, out_idx)
    &&& (!spec_is_p2pkh(script) && spec_is_p2sh(script)) ==> script.len() == 23 && spec_key_fits(
        file_pos,
        tx_pos,
        out_idx,
    )
}

/// `spec_output_indexable` for output `j` of transaction `i` of a block.
pub open spec fn spec_output_indexable_at(
    txs: Seq<Tx>,
    file_pos: BlockIndexFilePos,
    i: int,
    j: int,
) -> bool {
    spec_output_indexable(
        txs[i].vout@[j].script.code@,
        file_pos,
        spec_tx_offset(txs, i as nat) as usize,
        j as usize,
    )
}

/// Whether a block can be indexed without failing: the offsets fit in a
/// `usize`, and every output can be indexed.
pub open spec fn spec_block_indexable(txs: Seq<Tx>, file_pos: BlockIndexFilePos) -> bool {
    &&& spec_tx_offset(txs, txs.len()) <= usize::MAX
    &&& forall|i: int, j: int|
        0 <= i < txs.len() && 0 <= j < txs[i].vout@.len() ==> #[trigger] spec_output_indexable_at(
            txs,
            file_pos,
            i,
            j,
        )
}

/// The views of a sequence of byte vectors.
pub open spec fn spec_keys_view(keys: Seq<Vec<u8>>) -> Seq<Seq<u8>> {
    keys.map_values(|k: Vec<u8>| k@)
}

/// Offsets do not decrease along a block.
pub proof fn lemma_tx_offset_monotonic(txs: Seq<Tx>, i: nat, j: nat)
    requires
        i <= j <= txs.len(),
    ensures
        spec_tx_offset(txs, i) <= spec_tx_offset(txs, j),
    decreases j - i,
{
    if i < j {
        lemma_tx_offset_monotonic(txs, i, (j - 1) as nat);
    }
}

/// Whether an output can be indexed without failing.
fn output_indexable(
    txout: &TxOutput,
    file_pos: BlockIndexFilePos,
    tx_pos: usize,
    out_idx: usize,
) -> (r: bool)
    ensures
        r == spec_output_indexable(txout.script.code@, file_pos, tx_pos, out_idx),
{
    let fits = var_int_size(file_pos.file_num as u64) + var_int_size(file_pos.data_pos as u64)
        + var_int_size(tx_pos as u64) + var_int_size(out_idx as u64) <= KEY_DATA_SIZE;
    let len = txout.script.code.len();
    match txout.script_pub_key().kind() {
        ScriptKind::P2PKH(_) => len == 25 && fits,
        ScriptKind::P2SH(_) => len == 23 && fits,
        _ => true,
    }
}

/// Whether `block_connected_keys` can index the block without failing.
pub fn block_is_indexable(block: &Block, block_index: &BlockIndex) -> (r: bool)
    ensures
        r == spec_block_indexable(
            block.vtx@,
            BlockIndexFilePos { file_num: block_index.n_file, data_pos: block_index.n_data_pos },
        ),
{
    let file_pos = block_index.file_pos();
    let txs = block.txs();
    let ghost s = txs@;
    let n = txs.len();
    let mut tx_offset = var_int_size(n as u64);
    let mut i: usize = 0;
    while i < n
        invariant
            0 <= i <= n,
            n == s.len(),
            s == block.vtx@,
            txs@ == s,
            file_pos.file_num == block_index.n_file,
            file_pos.data_pos == block_index.n_data_pos,
            tx_offset == spec_tx_offset(s, i as nat),
            forall|i2: int, j2: int|
                0 <= i2 < i && 0 <= j2 < s[i2].vout@.len() ==> #[trigger] spec_output_indexable_at(
                    s,
                    file_pos,
                    i2,
                    j2,
                ),
        decreases n - i,
    {
        let outs = txs[i].outputs();
        let m = outs.len();
        let mut j: usize = 0;
        while j < m
            invariant
                0 <= i < n,
                0 <= j <= m,
                n == s.len(),
                m == s[i as int].vout@.len(),
                outs@ == s[i as int].vout@,
                tx_offset == spec_tx_offset(s, i as nat),
                file_pos.file_num == block_index.n_file,
                file_pos.data_pos == block_index.n_data_pos,
                s == block.vtx@,
                forall|j2: int| 0 <= j2 < j ==> #[trigger] spec_output_indexable_at(s, file_pos, i as int, j2),
            decreases m - j,
        {
            if !output_indexable(&outs[j], file_pos, tx_offset, j) {
                proof {
                    assert(outs@[j as int] == s[i as int].vout@[j as int]);
                    assert(!spec_output_indexable_at(s, file_pos, i as int, j as int));
                }
                return false;
            }
            j = j + 1;
        }
        match tx_offset.checked_add(txs[i].serialize_size()) {
            Some(o) => {
                tx_offset = o;
            },
            None => {
                proof {
                    lemma_tx_offset_monotonic(s, (i + 1) as nat, s.len());
                }
                return false;
            },
        }
        i = i + 1;
    }
    true
}

/// The keys under which a connected block's outputs are indexed, in order:
/// for each transaction and each of its outputs that pays to a public key
/// hash or a script hash, the key of that output.
pub fn block_connected_keys(block: &Block, block_index: &BlockIndex) -> (keys: Vec<Vec<u8>>)
    requires
        spec_block_indexable(
            block.vtx@,
            BlockIndexFilePos { file_num: block_index.n_file, data_pos: block_index.n_data_pos },
        ),
    ensures
        spec_keys_view(keys@) == spec_block_keys(
            block.vtx@,
            BlockIndexFilePos { file_num: block_index.n_file, data_pos: block_index.n_data_pos },
            block.vtx@.len(),
        ),
{
    let file_pos = block_index.file_pos();
    let mut key = Key::new(file_pos);
    let txs = block.txs();
    let ghost s = txs@;
    let n = txs.len();
    let mut keys: Vec<Vec<u8>> = Vec::new();
    let mut tx_offset = var_int_size(n as u64);
    let mut i: usize = 0;
    while i < n
        invariant
            0 <= i <= n,
            n == s.len(),
            s == block.vtx@,
            txs@ == s,
            file_pos.file_num == block_index.n_file,
            file_pos.data_pos == block_index.n_data_pos,
            spec_block_indexable(s, file_pos),
            tx_offset == spec_tx_offset(s, i as nat),
            key.tx_pos_idx == spec_file_pos_bytes(file_pos).len(),
            key.tx_pos_idx <= 24,
            key.data@.take(key.tx_pos_idx as int) == spec_file_pos_bytes(file_pos),
            spec_keys_view(keys@) == spec_block_keys(s, file_pos, i as nat),
        decreases n - i,
    {
        let tx = &txs[i];
        let outs = tx.outputs();
        let m = outs.len();
        let mut j: usize = 0;
        while j < m
            invariant
                0 <= i < n,
                0 <= j <= m,
                n == s.len(),
                m == s[i as int].vout@.len(),
                outs@ == s[i as int].vout@,
                spec_block_indexable(s, file_pos),
                tx_offset == spec_tx_offset(s, i as nat),
                key.tx_pos_idx == spec_file_pos_bytes(file_pos).len(),
                key.data@.take(key.tx_pos_idx as int) == spec_file_pos_bytes(file_pos),
                spec_keys_view(keys@) == spec_block_keys(s, file_pos, i as nat) + spec_outputs_keys(
                    s[i as int].vout@,
                    file_pos,
                    tx_offset,
                    j as nat,
                ),
            decreases m - j,
        {
            let kind = outs[j].script_pub_key().kind();
            proof {
                assert(spec_output_indexable_at(s, file_pos, i as int, j as int));
                lemma_var_int_encode_len(file_pos.file_num as u64);
                lemma_var_int_encode_len(file_pos.data_pos as u64);
            }
            let ghost keys_before = keys@;
            let should_index = key.set_script_kind(&kind);
            if should_index {
                let k = key.make_slice(tx_offset, j);
                keys.push(k);
                proof {
                    assert(spec_keys_view(keys@) =~= spec_keys_view(keys_before).push(k@));
                }
            }
            j = j + 1;
            proof {
                let code = s[i as int].vout@[j - 1].script.code@;
                if should_index {
                    assert(spec_output_key(code, file_pos, tx_offset, (j - 1) as usize) is Some);
                }
            }
        }
        proof {
            lemma_tx_offset_monotonic(s, (i + 1) as nat, s.len());
        }
        tx_offset = tx_offset + tx.serialize_size();
        i = i + 1;
    }
    keys
}

/// The bytes that every key of an address starts with.
pub fn address_search_prefix(kind: u8, addr_hash: &[u8]) -> (prefix: Vec<u8>)
    ensures
        prefix@ == seq![kind] + addr_hash@,
{
    let mut prefix: Vec<u8> = Vec::new();
    prefix.push(kind);
    let n = addr_hash.len();
    let mut i: usize = 0;
    while i < n
        invariant
            0 <= i <= n,
            n == addr_hash@.len(),
            prefix@ =~= seq![kind] + addr_hash@.take(i as int),
        decreases n - i,
    {
        prefix.push(addr_hash[i]);
        i = i + 1;
    }
    assert(addr_hash@.take(n as int) =~= addr_hash@);
    prefix
}

/// `s` without the elements equal to the one just before them.
pub open spec fn spec_dedup(s: Seq<AddressEntry>) -> Seq<AddressEntry>
    decreases s.len(),
{
    if s.len() == 0 {
        s
    } else {
        let d = spec_dedup(s.drop_last());
        if d.len() > 0 && d.last() == s.last() {
            d
        } else {
            d.push(s.last())
        }
    }
}

/// What a sequence of keys decodes to, each key on its own.
pub open spec fn spec_decode_keys(keys: Seq<Seq<u8>>) -> Seq<AddressEntry> {
    keys.map_values(|k: Seq<u8>| spec_decode_key(k)->0)
}

/// The entries that index keys stand for, in the keys' order, with entries
/// equal to the one before them left out.
pub fn entries_from_keys(keys: &Vec<Vec<u8>>) -> (entries: Vec<AddressEntry>)
    requires
        forall|i: int| 0 <= i < keys@.len() ==> #[trigger] spec_decode_key(keys@[i]@) is Some,
    ensures
        entries@ == spec_dedup(spec_decode_keys(spec_keys_view(keys@))),
{
    let ghost all = spec_decode_keys(spec_keys_view(keys@));
    let mut entries: Vec<AddressEntry> = Vec::new();
    let n = keys.len();
    let mut i: usize = 0;
    while i < n
        invariant
            0 <= i <= n,
            n == keys@.len(),
            all == spec_decode_keys(spec_keys_view(keys@)),
            forall|i2: int| 0 <= i2 < keys@.len() ==> #[trigger] spec_decode_key(keys@[i2]@) is Some,
            entries@ == spec_dedup(all.take(i as int)),
        decreases n - i,
    {
        let entry = AddressEntry::from_key_slice(keys[i].as_slice());
        proof {
            assert(all.take(i + 1).drop_last() =~= all.take(i as int));
            assert(all.take(i + 1).last() == entry);
        }
        let len = entries.len();
        if len == 0 || entries[len - 1] != entry {
            entries.push(entry);
        }
        i = i + 1;
    }
    assert(all.take(n as int) =~= all);
    entries
}

/// The key of an output decodes to the entry of that output, and starts with
/// the search prefix of its address.
#[verifier::spinoff_prover]
pub proof fn lemma_key_decodes_to_entry(
    kind: u8,
    addr_hash: Seq<u8>,
    file_pos: BlockIndexFilePos,
    tx_pos: usize,
    out_idx: usize,
)
    requires
        addr_hash.len() == 20,
    ensures
        spec_decode_key(spec_key_bytes(kind, addr_hash, file_pos, tx_pos, out_idx)) == Some(
            AddressEntry { file_pos, tx_pos, out_idx: out_idx as u32 },
        ),
        spec_key_bytes(kind, addr_hash, file_pos, tx_pos, out_idx).take(21) == seq![kind]
            + addr_hash,
{
    let key = spec_key_bytes(kind, addr_hash, file_pos, tx_pos, out_idx);
    let f = file_pos.file_num;
    let x1 = f as u64;
    let x2 = file_pos.data_pos as u64;
    let x3 = tx_pos as u64;
    let x4 = out_idx as u64;
    let e1 = spec_var_int_encode(x1);
    let e2 = spec_var_int_encode(x2);
    let e3 = spec_var_int_encode(x3);
    let e4 = spec_var_int_encode(x4);
    let head = seq![kind] + addr_hash;
    assert(key =~= head + (e1 + (e2 + (e3 + e4))));
    lemma_var_int_encode_len(x1);
    lemma_var_int_encode_len(x2);
    lemma_var_int_encode_len(x3);
    let l = key.len() as int;
    let n1 = e1.len() as int;
    let n2 = e2.len() as int;
    let n3 = e3.len() as int;
    assert(spec_read_var_int_at(key, 21) == Some((x1, n1 as nat))) by {
        assert(key.subrange(21, l) =~= e1 + (e2 + (e3 + e4)));
        lemma_read_var_int_at(key, 21, x1, e2 + (e3 + e4));
    }
    assert(spec_read_var_int_at(key, 21 + n1) == Some((x2, n2 as nat))) by {
        assert(key.subrange(21 + n1, l) =~= e2 + (e3 + e4));
        lemma_read_var_int_at(key, 21 + n1, x2, e3 + e4);
    }
    assert(spec_read_var_int_at(key, 21 + n1 + n2) == Some((x3, n3 as nat))) by {
        assert(key.subrange(21 + n1 + n2, l) =~= e3 + e4);
        lemma_read_var_int_at(key, 21 + n1 + n2, x3, e4);
    }
    assert(spec_read_var_int_at(key, 21 + n1 + n2 + n3) == Some((x4, spec_var_int_size(x4))))
        by {
        assert(key.subrange(21 + n1 + n2 + n3, l) =~= e4 + Seq::<u8>::empty());
        lemma_read_var_int_at(key, 21 + n1 + n2 + n3, x4, Seq::<u8>::empty());
    }
    assert((x1 as i32) == f) by (bit_vector)
        requires
            x1 == f as u64,
    ;
    assert((x4 as u32) == (out_idx as u32)) by (bit_vector)
        requires
            x4 == out_idx as u64,
    ;
    assert(key.take(21) =~= head);
}

/// The address that an output pays to, as its kind byte and hash, where its
/// script is one that the index holds.
pub open spec fn spec_script_address(script: Seq<u8>) -> Option<(u8, Seq<u8>)> {
    if spec_is_p2pkh(script) {
        Some((P2PKH_KIND, spec_p2pkh_hash(script)))
    } else if spec_is_p2sh(script) {
        Some((P2SH_KIND, spec_p2sh_hash(script)))
    } else {
        None
    }
}

/// The kind byte of the address an output pays to.
pub open spec fn spec_address_kind(script: Seq<u8>) -> u8 {
    match spec_script_address(script) {
        Some((kind, _)) => kind,
        None => 0,
    }
}

/// The hash of the address an output pays to.
pub open spec fn spec_address_hash(script: Seq<u8>) -> Seq<u8> {
    match spec_script_address(script) {
        Some((_, hash)) => hash,
        None => Seq::empty(),
    }
}

/// An indexed output's key starts with the search prefix of the address it
/// pays to, and decodes to where the output is.
pub proof fn lemma_output_key_found_by_address(
    script: Seq<u8>,
    file_pos: BlockIndexFilePos,
    tx_pos: usize,
    out_idx: usize,
)
    requires
        spec_output_indexable(script, file_pos, tx_pos, out_idx),
        spec_script_address(script) is Some,
    ensures
        spec_output_key(script, file_pos, tx_pos, out_idx) matches Some(key) && key.take(21)
            == seq![spec_address_kind(script)] + spec_address_hash(script)
            && spec_decode_key(key) == Some(
            AddressEntry { file_pos, tx_pos, out_idx: out_idx as u32 },
        ),
{
    let (kind, hash) = spec_script_address(script)->0;
    lemma_key_decodes_to_entry(kind, hash, file_pos, tx_pos, out_idx);
}

/// Deduplication leaves no two neighbours equal, keeps every element that
/// occurs and adds none, and does not lengthen the sequence.
pub proof fn lemma_dedup_properties(s: Seq<AddressEntry>)
    ensures
        forall|i: int|
            0 <= i < spec_dedup(s).len() - 1 ==> #[trigger] spec_dedup(s)[i] != spec_dedup(s)[i
                + 1],
        forall|x: AddressEntry| s.contains(x) <==> #[trigger] spec_dedup(s).contains(x),
        spec_dedup(s).len() <= s.len(),
    decreases s.len(),
{
    if s.len() > 0 {
        let t = s.drop_last();
        lemma_dedup_properties(t);
        let d = spec_dedup(t);
        assert forall|x: AddressEntry| s.contains(x) <==> #[trigger] spec_dedup(s).contains(x) by {
            if s.contains(x) {
                let k = choose|k: int| 0 <= k < s.len() && s[k] == x;
                if k < s.len() - 1 {
                    assert(t[k] == x);
                    assert(t.contains(x));
                    assert(d.contains(x));
                    let m = choose|m: int| 0 <= m < d.len() && d[m] == x;
                    assert(spec_dedup(s)[m] == x);
                } else {
                    if d.len() > 0 && d.last() == s.last() {
                        assert(spec_dedup(s)[d.len() - 1] == x);
                    } else {
                        assert(spec_dedup(s)[d.len() as int] == x);
                    }
                }
            }
            if spec_dedup(s).contains(x) {
                let m = choose|m: int| 0 <= m < spec_dedup(s).len() && spec_dedup(s)[m] == x;
                if m < d.len() {
                    assert(d[m] == x);
                    assert(d.contains(x));
                    let k = choose|k: int| 0 <= k < t.len() && t[k] == x;
                    assert(s[k] == x);
                } else {
                    assert(s[s.len() - 1] == x);
                }
            }
        }
    }
}

/// An indexed output's key is among the keys of the first `n` outputs, once
/// its own index is below `n`.
proof fn lemma_outputs_keys_contains(
    outs: Seq<TxOutput>,
    file_pos: BlockIndexFilePos,
    tx_pos: usize,
    n: nat,
    j: int,
)
    requires
        0 <= j < n <= outs.len(),
        spec_output_key(outs[j].script.code@, file_pos, tx_pos, j as usize) is Some,
    ensures
        spec_outputs_keys(outs, file_pos, tx_pos, n).contains(
            spec_output_key(outs[j].script.code@, file_pos, tx_pos, j as usize)->0,
        ),
    decreases n,
{
    let k = spec_output_key(outs[j].script.code@, file_pos, tx_pos, j as usize)->0;
    let prev = spec_outputs_keys(outs, file_pos, tx_pos, (n - 1) as nat);
    if n == j + 1 {
        assert(spec_outputs_keys(outs, file_pos, tx_pos, n) == prev.push(k));
        assert(prev.push(k)[prev.len() as int] == k);
    } else {
        lemma_outputs_keys_contains(outs, file_pos, tx_pos, (n - 1) as nat, j);
        let m = choose|m: int| 0 <= m < prev.len() && prev[m] == k;
        match spec_output_key(outs[n - 1].script.code@, file_pos, tx_pos, (n - 1) as usize) {
            Some(k2) => {
                assert(prev.push(k2)[m] == k);
            },
            None => {},
        }
    }
}

/// A key among the keys of transaction `i` is among the keys of the first
/// `m` transactions, once `i` is below `m`.
proof fn lemma_block_keys_contains(
    txs: Seq<Tx>,
    file_pos: BlockIndexFilePos,
    m: nat,
    i: int,
    key: Seq<u8>,
)
    requires
        0 <= i < m <= txs.len(),
        spec_outputs_keys(
            txs[i].vout@,
            file_pos,
            spec_tx_offset(txs, i as nat) as usize,
            txs[i].vout@.len(),
        ).contains(key),
    ensures
        spec_block_keys(txs, file_pos, m).contains(key),
    decreases m,
{
    let prev = spec_block_keys(txs, file_pos, (m - 1) as nat);
    let last = spec_outputs_keys(
        txs[m - 1].vout@,
        file_pos,
        spec_tx_offset(txs, (m - 1) as nat) as usize,
        txs[m - 1].vout@.len(),
    );
    if m == i + 1 {
        let q = choose|q: int| 0 <= q < last.len() && last[q] == key;
        assert((prev + last)[prev.len() + q] == key);
    } else {
        lemma_block_keys_contains(txs, file_pos, (m - 1) as nat, i, key);
        let q = choose|q: int| 0 <= q < prev.len() && prev[q] == key;
        assert((prev + last)[q] == key);
    }
}

/// Every output that pays to an address is indexed: its key is among the
/// keys `block_connected_keys` gives for its block, starts with the search
/// prefix of that address, and decodes to where the output is.
#[verifier::spinoff_prover]
pub proof fn lemma_indexed_output_in_block_keys(
    txs: Seq<Tx>,
    file_pos: BlockIndexFilePos,
    i: int,
    j: int,
)
    requires
        0 <= i < txs.len(),
        0 <= j < txs[i].vout@.len(),
        spec_output_indexable_at(txs, file_pos, i, j),
        spec_script_address(txs[i].vout@[j].script.code@) is Some,
    ensures
        spec_output_key(
            txs[i].vout@[j].script.code@,
            file_pos,
            spec_tx_offset(txs, i as nat) as usize,
            j as usize,
        ) matches Some(key) && spec_block_keys(txs, file_pos, txs.len()).contains(key)
            && key.take(21) == seq![spec_address_kind(txs[i].vout@[j].script.code@)]
            + spec_address_hash(txs[i].vout@[j].script.code@) && spec_decode_key(key) == Some(
            AddressEntry {
                file_pos,
                tx_pos: spec_tx_offset(txs, i as nat) as usize,
                out_idx: (j as usize) as u32,
            },
        ),
{
    let code = txs[i].vout@[j].script.code@;
    let tx_pos = spec_tx_offset(txs, i as nat) as usize;
    assert(spec_output_indexable(code, file_pos, tx_pos, j as usize));
    lemma_output_key_found_by_address(code, file_pos, tx_pos, j as usize);
    let key = spec_output_key(code, file_pos, tx_pos, j as usize)->0;
    assert(spec_block_keys(txs, file_pos, txs.len()).contains(key)) by {
        lemma_outputs_keys_contains(txs[i].vout@, file_pos, tx_pos, txs[i].vout@.len(), j);
        lemma_block_keys_contains(txs, file_pos, txs.len(), i, key);
    }
}

/// A scan of keys that holds an output's key yields that output's entry:
/// deduplication drops no entry.
pub proof fn lemma_scan_finds_entry(keys: Seq<Seq<u8>>, key: Seq<u8>)
    requires
        keys.contains(key),
        spec_decode_key(key) is Some,
    ensures
        spec_dedup(spec_decode_keys(keys)).contains(spec_decode_key(key)->0),
{
    let all = spec_decode_keys(keys);
    let q = choose|q: int| 0 <= q < keys.len() && keys[q] == key;
    assert(all[q] == spec_decode_key(key)->0);
    assert(all.contains(spec_decode_key(key)->0));
    lemma_dedup_properties(all);
}

/// The bytes of `n` transactions one after the other.
pub open spec fn spec_concat(raw: Seq<Seq<u8>>, n: nat) -> Seq<u8>
    decreases n,
{
    if n == 0 {
        Seq::empty()
    } else {
        spec_concat(raw, (n - 1) as nat) + raw[n - 1]
    }
}

/// A block's data after its header: the transaction count, then the
/// transactions.
pub open spec fn spec_block_body(raw: Seq<Seq<u8>>) -> Seq<u8> {
    spec_var_int_encode(raw.len() as u64) + spec_concat(raw, raw.len())
}

/// Where the sizes are the transactions' lengths, a transaction's offset is
/// the count's size plus the lengths before it.
proof fn lemma_tx_offset_is_concat_len(vtx: Seq<Tx>, raw: Seq<Seq<u8>>, i: nat)
    requires
        vtx.len() == raw.len(),
        i <= raw.len(),
        forall|k: int| 0 <= k < raw.len() ==> #[trigger] raw[k].len() == vtx[k].size,
    ensures
        spec_tx_offset(vtx, i) == spec_var_int_size(raw.len() as u64) + spec_concat(raw, i).len(),
    decreases i,
{
    if i > 0 {
        lemma_tx_offset_is_concat_len(vtx, raw, (i - 1) as nat);
        assert(raw[i - 1].len() == vtx[i - 1].size);
    }
}

/// Transaction `i` stands in the concatenation where its offset says.
proof fn lemma_concat_holds(raw: Seq<Seq<u8>>, m: nat, i: int)
    requires
        0 <= i < m <= raw.len(),
    ensures
        spec_concat(raw, i as nat).len() + raw[i].len() <= spec_concat(raw, m).len(),
        spec_concat(raw, m).subrange(
            spec_concat(raw, i as nat).len() as int,
            spec_concat(raw, i as nat).len() + raw[i].len() as int,
        ) == raw[i],
    decreases m,
{
    let a = spec_concat(raw, i as nat).len() as int;
    if m == i + 1 {
        assert(spec_concat(raw, m).subrange(a, a + raw[i].len()) =~= raw[i]);
    } else {
        lemma_concat_holds(raw, (m - 1) as nat, i);
        let prev = spec_concat(raw, (m - 1) as nat);
        assert(spec_concat(raw, m).subrange(a, a + raw[i].len()) =~= prev.subrange(
            a,
            a + raw[i].len(),
        ));
    }
}

/// The offset that a key stores leads back to its transaction: in a block's
/// data whose transactions are each in the shortest form, reading from
/// transaction `i`'s offset gives transaction `i`'s bytes.
#[verifier::spinoff_prover]
pub proof fn lemma_stored_offset_reads_tx(vtx: Seq<Tx>, raw: Seq<Seq<u8>>, i: int)
    requires
        vtx.len() == raw.len(),
        0 <= i < raw.len(),
        forall|k: int| 0 <= k < raw.len() ==> #[trigger] raw[k].len() == vtx[k].size,
        forall|k: int|
            0 <= k < raw.len() ==> spec_parse_tx(#[trigger] raw[k]) == Some(
                (raw[k], raw[k].len() as int),
            ),
    ensures
        spec_parse_tx(spec_block_body(raw).skip(spec_tx_offset(vtx, i as nat))) == Some(
            (raw[i], raw[i].len() as int),
        ),
{
    let n = raw.len();
    let body = spec_block_body(raw);
    let e = spec_var_int_encode(n as u64);
    lemma_var_int_encode_len(n as u64);
    lemma_tx_offset_is_concat_len(vtx, raw, i as nat);
    lemma_concat_holds(raw, n, i);
    let off = spec_tx_offset(vtx, i as nat);
    let c = spec_concat(raw, n);
    let a = spec_concat(raw, i as nat).len() as int;
    let t = raw[i];
    assert(off == e.len() + a);
    let rest = c.subrange(a + t.len(), c.len() as int);
    assert(body.skip(off) =~= c.skip(a));
    assert(c.skip(a) =~= t + rest) by {
        assert(c.subrange(a, a + t.len()) == t);
    }
    lemma_minimal_tx_reads_back(t, rest);
}

/// Outputs that pay to neither template never stop a block from being
/// indexed, whatever their length or position: a script that is not
/// `76 a9 14 .. 88 ac` and not `a9 14 .. 87` is always indexable. A standard
/// 25-byte pay-to-public-key-hash or 23-byte pay-to-script-hash output is
/// indexable exactly when its key fits.
pub proof fn lemma_output_indexable_by_bytes(
    b: Seq<u8>,
    file_pos: BlockIndexFilePos,
    tx_pos: usize,
    out_idx: usize,
)
    ensures
        (!(b.len() >= 5 && b[0] == 0x76u8 && b[1] == 0xa9u8 && b[2] == 0x14u8 && b[b.len() - 2]
            == 0x88u8 && b[b.len() - 1] == 0xacu8) && !(b.len() >= 3 && b[0] == 0xa9u8 && b[1]
            == 0x14u8 && b[b.len() - 1] == 0x87u8)) ==> spec_output_indexable(
            b,
            file_pos,
            tx_pos,
            out_idx,
        ),
        (b.len() == 25 && b[0] == 0x76u8 && b[1] == 0xa9u8 && b[2] == 0x14u8 && b[23] == 0x88u8
            && b[24] == 0xacu8) ==> (spec_output_indexable(b, file_pos, tx_pos, out_idx)
            <==> spec_key_fits(file_pos, tx_pos, out_idx)),
        (b.len() == 23 && b[0] == 0xa9u8 && b[1] == 0x14u8 && b[22] == 0x87u8) ==> (
        spec_output_indexable(b, file_pos, tx_pos, out_idx) <==> spec_key_fits(
            file_pos,
            tx_pos,
            out_idx,
        )),
{
}

/// A block none of whose outputs pays to either template can be indexed
/// exactly when its transaction offsets fit in a `usize`.
pub proof fn lemma_block_without_addresses_indexable(txs: Seq<Tx>, file_pos: BlockIndexFilePos)
    requires
        forall|i: int, j: int|
            0 <= i < txs.len() && 0 <= j < txs[i].vout@.len() ==> {
                let b = #[trigger] txs[i].vout@[j].script.code@;
                !(b.len() >= 5 && b[0] == 0x76u8 && b[1] == 0xa9u8 && b[2] == 0x14u8 && b[b.len()
                    - 2] == 0x88u8 && b[b.len() - 1] == 0xacu8) && !(b.len() >= 3 && b[0]
                    == 0xa9u8 && b[1] == 0x14u8 && b[b.len() - 1] == 0x87u8)
            },
    ensures
        spec_block_indexable(txs, file_pos) <==> spec_tx_offset(txs, txs.len()) <= usize::MAX,
{
    assert forall|i: int, j: int|
        0 <= i < txs.len() && 0 <= j < txs[i].vout@.len() implies #[trigger] spec_output_indexable_at(
        txs,
        file_pos,
        i,
        j,
    ) by {
        let b = txs[i].vout@[j].script.code@;
        lemma_output_indexable_by_bytes(
            b,
            file_pos,
            spec_tx_offset(txs, i as nat) as usize,
            j as usize,
        );
    }
}

/// Decoding keys gives one entry per key, in order: entry `i` is what key `i`
/// decodes to.
pub proof fn lemma_decode_keys_one_per_key(keys: Seq<Seq<u8>>)
    ensures
        spec_decode_keys(keys).len() == keys.len(),
        forall|i: int|
            0 <= i < keys.len() ==> Some(#[trigger] spec_decode_keys(keys)[i]) == spec_decode_key(
                keys[i],
            ) || spec_decode_key(keys[i]) is None,
{
}

/// Deduplication changes nothing where no two neighbours are equal, and a
/// repeat of the last element is dropped.
pub proof fn lemma_dedup_keeps_distinct_neighbours(s: Seq<AddressEntry>)
    ensures
        (forall|i: int| 0 <= i < s.len() - 1 ==> #[trigger] s[i] != s[i + 1]) ==> spec_dedup(s)
            == s,
        s.len() > 0 ==> spec_dedup(s.push(s.last())) == spec_dedup(s),
    decreases s.len(),
{
    if s.len() > 0 {
        let t = s.drop_last();
        lemma_dedup_keeps_distinct_neighbours(t);
        if forall|i: int| 0 <= i < s.len() - 1 ==> #[trigger] s[i] != s[i + 1] {
            assert forall|i: int| 0 <= i < t.len() - 1 implies #[trigger] t[i] != t[i + 1] by {
                assert(s[i] != s[i + 1]);
            }
            assert(spec_dedup(t) == t);
            if t.len() > 0 {
                assert(s[t.len() - 1] != s[t.len() as int]);
            }
            assert(spec_dedup(s) =~= s);
        }
        let u = s.push(s.last());
        assert(u.drop_last() =~= s);
        lemma_dedup_properties(s);
        assert(spec_dedup(s).last() == s.last()) by {
            let d = spec_dedup(t);
            if d.len() > 0 && d.last() == s.last() {
            } else {
            }
        }
    }
}

/// How many of the first `n` outputs pay to an address.
pub open spec fn spec_count_addressed(outs: Seq<TxOutput>, n: nat) -> nat
    decreases n,
{
    if n == 0 {
        0
    } else {
        spec_count_addressed(outs, (n - 1) as nat) + if spec_script_address(
            outs[n - 1].script.code@,
        ) is Some {
            1nat
        } else {
            0nat
        }
    }
}

/// How many outputs of the first `m` transactions pay to an address.
pub open spec fn spec_count_block_addressed(txs: Seq<Tx>, m: nat) -> nat
    decreases m,
{
    if m == 0 {
        0
    } else {
        spec_count_block_addressed(txs, (m - 1) as nat) + spec_count_addressed(
            txs[m - 1].vout@,
            txs[m - 1].vout@.len(),
        )
    }
}

/// Whether `k` is the key of one of the first `n` outputs that pay to an
/// address, made at that output's own index.
pub open spec fn spec_key_of_some_output(
    outs: Seq<TxOutput>,
    file_pos: BlockIndexFilePos,
    tx_pos: usize,
    n: nat,
    k: Seq<u8>,
) -> bool {
    exists|j: int|
        #![trigger outs[j]]
        0 <= j < n && spec_script_address(outs[j].script.code@) is Some && k == spec_output_key(
            outs[j].script.code@,
            file_pos,
            tx_pos,
            j as usize,
        )->0
}

/// Whether `k` is the key of an output that pays to an address, in one of
/// the first `m` transactions, made at its transaction's offset and its index.
pub open spec fn spec_key_of_some_block_output(
    txs: Seq<Tx>,
    file_pos: BlockIndexFilePos,
    m: nat,
    k: Seq<u8>,
) -> bool {
    exists|i: int, j: int|
        #![trigger txs[i].vout@[j]]
        0 <= i < m && 0 <= j < txs[i].vout@.len() && spec_script_address(
            txs[i].vout@[j].script.code@,
        ) is Some && k == spec_output_key(
            txs[i].vout@[j].script.code@,
            file_pos,
            spec_tx_offset(txs, i as nat) as usize,
            j as usize,
        )->0
}

/// The keys of a transaction's first `n` outputs: one per output that pays to
/// an address, each the key of such an output at its own index.
proof fn lemma_outputs_keys_one_per_output(
    outs: Seq<TxOutput>,
    file_pos: BlockIndexFilePos,
    tx_pos: usize,
    n: nat,
)
    requires
        n <= outs.len(),
    ensures
        spec_outputs_keys(outs, file_pos, tx_pos, n).len() == spec_count_addressed(outs, n),
        forall|q: int|
            0 <= q < spec_outputs_keys(outs, file_pos, tx_pos, n).len() ==> spec_key_of_some_output(
                outs,
                file_pos,
                tx_pos,
                n,
                #[trigger] spec_outputs_keys(outs, file_pos, tx_pos, n)[q],
            ),
    decreases n,
{
    if n > 0 {
        lemma_outputs_keys_one_per_output(outs, file_pos, tx_pos, (n - 1) as nat);
        let prev = spec_outputs_keys(outs, file_pos, tx_pos, (n - 1) as nat);
        let cur = spec_outputs_keys(outs, file_pos, tx_pos, n);
        assert forall|q: int| 0 <= q < cur.len() implies spec_key_of_some_output(
            outs,
            file_pos,
            tx_pos,
            n,
            #[trigger] cur[q],
        ) by {
            if q < prev.len() {
                assert(cur[q] == prev[q]);
                assert(spec_key_of_some_output(outs, file_pos, tx_pos, (n - 1) as nat, prev[q]));
                let j = choose|j: int|
                    #![trigger outs[j]]
                    0 <= j < n - 1 && spec_script_address(outs[j].script.code@) is Some && prev[q]
                        == spec_output_key(outs[j].script.code@, file_pos, tx_pos, j as usize)->0;
                let _ = outs[j];
            } else {
                let j = n - 1;
                assert(spec_script_address(outs[j].script.code@) is Some);
                assert(cur[q] == spec_output_key(outs[j].script.code@, file_pos, tx_pos, j as usize)->0);
                let _ = outs[j];
            }
        }
    }
}

/// The keys of the first `m` transactions of a block: one per output that
/// pays to an address, each the key of such an output at its own
/// transaction's offset and its own index.
proof fn lemma_block_keys_one_per_output(txs: Seq<Tx>, file_pos: BlockIndexFilePos, m: nat)
    requires
        m <= txs.len(),
    ensures
        spec_block_keys(txs, file_pos, m).len() == spec_count_block_addressed(txs, m),
        forall|q: int|
            0 <= q < spec_block_keys(txs, file_pos, m).len() ==> spec_key_of_some_block_output(
                txs,
                file_pos,
                m,
                #[trigger] spec_block_keys(txs, file_pos, m)[q],
            ),
    decreases m,
{
    if m > 0 {
        lemma_block_keys_one_per_output(txs, file_pos, (m - 1) as nat);
        let i0 = m - 1;
        let tp = spec_tx_offset(txs, i0 as nat) as usize;
        let outs = txs[i0].vout@;
        lemma_outputs_keys_one_per_output(outs, file_pos, tp, outs.len());
        let prev = spec_block_keys(txs, file_pos, (m - 1) as nat);
        let last = spec_outputs_keys(outs, file_pos, tp, outs.len());
        let cur = spec_block_keys(txs, file_pos, m);
        assert(cur == prev + last);
        assert forall|q: int| 0 <= q < cur.len() implies spec_key_of_some_block_output(
            txs,
            file_pos,
            m,
            #[trigger] cur[q],
        ) by {
            if q < prev.len() {
                assert(cur[q] == prev[q]);
                assert(spec_key_of_some_block_output(txs, file_pos, (m - 1) as nat, prev[q]));
                let (i, j) = choose|i: int, j: int|
                    #![trigger txs[i].vout@[j]]
                    0 <= i < m - 1 && 0 <= j < txs[i].vout@.len() && spec_script_address(
                        txs[i].vout@[j].script.code@,
                    ) is Some && prev[q] == spec_output_key(
                        txs[i].vout@[j].script.code@,
                        file_pos,
                        spec_tx_offset(txs, i as nat) as usize,
                        j as usize,
                    )->0;
                let _ = txs[i].vout@[j];
            } else {
                let r = q - prev.len();
                assert(cur[q] == last[r]);
                assert(spec_key_of_some_output(outs, file_pos, tp, outs.len(), last[r]));
                let j = choose|j: int|
                    #![trigger outs[j]]
                    0 <= j < outs.len() && spec_script_address(outs[j].script.code@) is Some
                        && last[r] == spec_output_key(outs[j].script.code@, file_pos, tp, j as usize)->0;
                assert(txs[i0].vout@[j] == outs[j]);
                let _ = txs[i0].vout@[j];
            }
        }
    }
}

/// The keys of an indexable block are exactly one per output that pays to a
/// public key hash or a script hash: there are as many keys as such outputs,
/// every such output's key is among them, and every key starts with the
/// address of the output it decodes to, at that output's own transaction
/// offset and index.
pub proof fn lemma_block_keys_are_its_addressed_outputs(txs: Seq<Tx>, file_pos: BlockIndexFilePos)
    requires
        spec_block_indexable(txs, file_pos),
    ensures
        spec_block_keys(txs, file_pos, txs.len()).len() == spec_count_block_addressed(
            txs,
            txs.len(),
        ),
        forall|q: int|
            #![trigger spec_block_keys(txs, file_pos, txs.len())[q]]
            0 <= q < spec_block_keys(txs, file_pos, txs.len()).len() ==> exists|i: int, j: int|
                #![trigger txs[i].vout@[j]]
                0 <= i < txs.len() && 0 <= j < txs[i].vout@.len() && spec_script_address(
                    txs[i].vout@[j].script.code@,
                ) is Some && spec_decode_key(spec_block_keys(txs, file_pos, txs.len())[q])
                    == Some(
                    AddressEntry {
                        file_pos,
                        tx_pos: spec_tx_offset(txs, i as nat) as usize,
                        out_idx: (j as usize) as u32,
                    },
                ) && spec_block_keys(txs, file_pos, txs.len())[q].take(21) == seq![
                    spec_address_kind(txs[i].vout@[j].script.code@),
                ] + spec_address_hash(txs[i].vout@[j].script.code@),
{
    lemma_block_keys_one_per_output(txs, file_pos, txs.len());
    let keys = spec_block_keys(txs, file_pos, txs.len());
    assert(forall|q: int| 0 <= q < keys.len() ==> spec_key_of_some_block_output(
        txs, file_pos, txs.len(), #[trigger] keys[q]));
    assert forall|q: int| 0 <= q < keys.len() implies exists|i: int, j: int|
        #![trigger txs[i].vout@[j]]
        0 <= i < txs.len() && 0 <= j < txs[i].vout@.len() && spec_script_address(
            txs[i].vout@[j].script.code@,
        ) is Some && spec_decode_key(#[trigger] keys[q]) == Some(
            AddressEntry {
                file_pos,
                tx_pos: spec_tx_offset(txs, i as nat) as usize,
                out_idx: (j as usize) as u32,
            },
        ) && keys[q].take(21) == seq![spec_address_kind(txs[i].vout@[j].script.code@)]
            + spec_address_hash(txs[i].vout@[j].script.code@) by {
        assert(spec_key_of_some_block_output(txs, file_pos, txs.len(), keys[q]));
        let (i, j) = choose|i: int, j: int|
            #![trigger txs[i].vout@[j]]
            0 <= i < txs.len() && 0 <= j < txs[i].vout@.len() && spec_script_address(
                txs[i].vout@[j].script.code@,
            ) is Some && keys[q] == spec_output_key(
                txs[i].vout@[j].script.code@,
                file_pos,
                spec_tx_offset(txs, i as nat) as usize,
                j as usize,
            )->0;
        assert(spec_output_indexable_at(txs, file_pos, i, j));
        lemma_output_key_found_by_address(
            txs[i].vout@[j].script.code@,
            file_pos,
            spec_tx_offset(txs, i as nat) as usize,
            j as usize,
        );
        let _ = txs[i].vout@[j];
    }
}

} // verus!
