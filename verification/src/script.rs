//! Classifying an output script by its standard templates.
use crate::bridge::Script;
use crate::opcode::{OP_CHECKSIG, OP_DUP, OP_EQUAL, OP_EQUALVERIFY, OP_HASH160, OP_RETURN};
use vstd::prelude::*;
use vstd::slice::slice_subrange;

verus! {

/// What a script is: pay to a public key hash, pay to a script hash, data, or
/// something else. The first three carry the part of the bytecode between the
/// template's fixed bytes.
#[derive(Debug)]
pub enum ScriptKind<'a> {
    P2PKH(&'a [u8]),
    P2SH(&'a [u8]),
    DATA(&'a [u8]),
    Other,
}

/// `OP_DUP OP_HASH160 20 <hash> OP_EQUALVERIFY OP_CHECKSIG`, whatever the
/// length of the middle part.
pub open spec fn spec_is_p2pkh(b: Seq<u8>) -> bool {
    &&& b.len() >= 5
    &&& b[0] == OP_DUP
    &&& b[1] == OP_HASH160
    &&& b[2] == 20
    &&& b[b.len() - 2] == OP_EQUALVERIFY
    &&& b[b.len() - 1] == OP_CHECKSIG
}

/// `OP_HASH160 20 <hash> OP_EQUAL`, whatever the length of the middle part.
pub open spec fn spec_is_p2sh(b: Seq<u8>) -> bool {
    &&& b.len() >= 3
    &&& b[0] == OP_HASH160
    &&& b[1] == 20
    &&& b[b.len() - 1] == OP_EQUAL
}

/// `OP_RETURN` followed by anything.
pub open spec fn spec_is_data(b: Seq<u8>) -> bool {
    b.len() >= 1 && b[0] == OP_RETURN
}

/// The hash of a pay-to-public-key-hash script.
pub open spec fn spec_p2pkh_hash(b: Seq<u8>) -> Seq<u8> {
    b.subrange(3, b.len() - 2)
}

/// The hash of a pay-to-script-hash script.
pub open spec fn spec_p2sh_hash(b: Seq<u8>) -> Seq<u8> {
    b.subrange(2, b.len() - 1)
}

impl Script {
    /// Classifies the script; the templates are tried in the order
    /// pay-to-public-key-hash, pay-to-script-hash, data.
    pub fn kind(&self) -> (r: ScriptKind<'_>)
        ensures
            ({
                let b = self.code@;
                match r {
                    ScriptKind::P2PKH(h) => spec_is_p2pkh(b) && h@ == spec_p2pkh_hash(b),
                    ScriptKind::P2SH(h) => !spec_is_p2pkh(b) && spec_is_p2sh(b) && h@
                        == spec_p2sh_hash(b),
                    ScriptKind::DATA(p) => !spec_is_p2pkh(b) && !spec_is_p2sh(b) && spec_is_data(
                        b,
                    ) && p@ == b.skip(1),
                    ScriptKind::Other => !spec_is_p2pkh(b) && !spec_is_p2sh(b) && !spec_is_data(
                        b,
                    ),
                }
            }),
    {
        let b = self.bytecode();
        let len = b.len();
        if len >= 5 && b[0] == OP_DUP && b[1] == OP_HASH160 && b[2] == 20 && b[len - 2]
            == OP_EQUALVERIFY && b[len - 1] == OP_CHECKSIG {
            ScriptKind::P2PKH(slice_subrange(b, 3, len - 2))
        } else if len >= 3 && b[0] == OP_HASH160 && b[1] == 20 && b[len - 1] == OP_EQUAL {
            ScriptKind::P2SH(slice_subrange(b, 2, len - 1))
        } else if len >= 1 && b[0] == OP_RETURN {
            ScriptKind::DATA(slice_subrange(b, 1, len))
        } else {
            ScriptKind::Other
        }
    }
}

/// The templates, byte by byte: data is exactly a script whose first byte is
/// OP_RETURN (0x6a); pay-to-public-key-hash is exactly `76 a9 14 .. 88 ac`;
/// pay-to-script-hash is exactly `a9 14 .. 87`. No script matches two of
/// them, and a script that starts with none of 0x76, 0xa9, 0x6a (or is
/// empty) matches none and is classified `Other`.
pub proof fn lemma_script_templates_by_bytes(b: Seq<u8>)
    ensures
        spec_is_data(b) <==> (b.len() >= 1 && b[0] == 0x6au8),
        spec_is_p2pkh(b) <==> (b.len() >= 5 && b[0] == 0x76u8 && b[1] == 0xa9u8 && b[2] == 0x14u8
            && b[b.len() - 2] == 0x88u8 && b[b.len() - 1] == 0xacu8),
        spec_is_p2sh(b) <==> (b.len() >= 3 && b[0] == 0xa9u8 && b[1] == 0x14u8 && b[b.len() - 1]
            == 0x87u8),
        !(spec_is_p2pkh(b) && spec_is_p2sh(b)),
        !(spec_is_data(b) && spec_is_p2pkh(b)),
        !(spec_is_data(b) && spec_is_p2sh(b)),
        (b.len() == 0 || (b[0] != 0x76u8 && b[0] != 0xa9u8 && b[0] != 0x6au8)) ==> (
        !spec_is_p2pkh(b) && !spec_is_p2sh(b) && !spec_is_data(b)),
{
}

/// A template's hash is what lies between its fixed bytes: three bytes
/// before and two after for pay-to-public-key-hash, two before and one after
/// for pay-to-script-hash; put back together they give the script.
pub proof fn lemma_template_hash_rebuilds_script(b: Seq<u8>)
    ensures
        spec_is_p2pkh(b) ==> spec_p2pkh_hash(b).len() == b.len() - 5 && b == seq![
            0x76u8,
            0xa9u8,
            0x14u8,
        ] + spec_p2pkh_hash(b) + seq![0x88u8, 0xacu8],
        spec_is_p2sh(b) ==> spec_p2sh_hash(b).len() == b.len() - 3 && b == seq![0xa9u8, 0x14u8]
            + spec_p2sh_hash(b) + seq![0x87u8],
{
    if spec_is_p2pkh(b) {
        assert(b =~= seq![0x76u8, 0xa9u8, 0x14u8] + spec_p2pkh_hash(b) + seq![0x88u8, 0xacu8]);
    }
    if spec_is_p2sh(b) {
        assert(b =~= seq![0xa9u8, 0x14u8] + spec_p2sh_hash(b) + seq![0x87u8]);
    }
}

} // verus!
