//! Canonical operation identity: a fixed-order encoding of a user operation,
//! salted by entry-point address and chain id, and its Keccak-256 digest. The
//! digest identifies the operation globally and is stable across processes.

use vstd::prelude::*;
use vstd::pervasive::unreached;

use crate::types::{be_seq, Address, OpHash, UserOperation, UserOperationModel};
use crate::u256::U256;

verus! {

/// The Keccak-256 digest of a byte string.
pub uninterp spec fn keccak_of(s: Seq<u8>) -> Seq<u8>;

/// Relies on ethers_core::utils::keccak256: the Keccak-256 digest of the
/// input, a function of those bytes alone, always 32 bytes long.
#[verifier::external_body]
fn keccak256(bytes: &Vec<u8>) -> (r: Vec<u8>)
    ensures
        r@ == keccak_of(bytes@),
        r@.len() == 32,
{
    ethers_core::utils::keccak256(bytes).to_vec()
}

/// The 32-byte big-endian encoding of a 256-bit integer.
pub open spec fn u256_be(x: U256) -> Seq<u8> {
    be_seq(x.w3 as nat, 8) + be_seq(x.w2 as nat, 8) + be_seq(x.w1 as nat, 8) + be_seq(
        x.w0 as nat,
        8,
    )
}

/// A presence tag followed by the address bytes, or a single zero byte.
pub open spec fn encode_opt_address(o: Option<Address>) -> Seq<u8> {
    match o {
        Option::Some(a) => seq![1u8] + a.bytes(),
        Option::None => seq![0u8],
    }
}

/// The canonical encoding over which an operation's hash is computed: the
/// entry-point salt and chain id, then every field of the operation in a
/// fixed order, the call data length-prefixed.
pub open spec fn encode_op(uo: UserOperationModel, entry_point: Address, chain_id: u64) -> Seq<
    u8,
> {
    entry_point.bytes() + be_seq(chain_id as nat, 8) + uo.sender.bytes() + u256_be(uo.nonce)
        + u256_be(uo.max_fee_per_gas) + u256_be(uo.max_priority_fee_per_gas) + encode_opt_address(
        uo.paymaster,
    ) + encode_opt_address(uo.factory) + encode_opt_address(uo.aggregator) + be_seq(
        uo.call_data.len(),
        8,
    ) + uo.call_data
}

/// The canonical hash of a user operation under a given entry point and
/// chain id.
pub open spec fn op_hash_spec(uo: UserOperationModel, entry_point: Address, chain_id: u64) -> OpHash {
    OpHash::of_bytes(keccak_of(encode_op(uo, entry_point, chain_id)))
}

/// Appends a 256-bit integer in 32-byte big-endian form.
fn push_u256(out: &mut Vec<u8>, x: &U256)
    ensures
        final(out)@ == old(out)@ + u256_be(*x),
{
    push_limbs(out, x.w3, x.w2);
    push_limbs(out, x.w1, x.w0);
    proof {
        assert(final(out)@ =~= old(out)@ + u256_be(*x));
    }
}

/// Appends two limbs in big-endian form, most significant first.
fn push_limbs(out: &mut Vec<u8>, a: u64, b: u64)
    ensures
        final(out)@ == old(out)@ + be_seq(a as nat, 8) + be_seq(b as nat, 8),
{
    crate::types::push_be(out, a as u128, 8);
    crate::types::push_be(out, b as u128, 8);
}

/// Appends the presence tag and bytes of an optional address.
fn push_opt_address(out: &mut Vec<u8>, o: &Option<Address>)
    ensures
        final(out)@ == old(out)@ + encode_opt_address(*o),
{
    match o {
        Option::Some(a) => {
            out.push(1u8);
            let b = a.to_bytes();
            let mut j: usize = 0;
            while j < b.len()
                invariant
                    j <= b@.len(),
                    b@ == a.bytes(),
                    out@ == old(out)@ + seq![1u8] + b@.subrange(0, j as int),
                decreases b@.len() - j,
            {
                out.push(b[j]);
                proof {
                    assert(b@.subrange(0, j + 1 as int) =~= b@.subrange(0, j as int) + seq![
                        b@[j as int],
                    ]);
                }
                j = j + 1;
            }
            proof {
                assert(b@.subrange(0, b@.len() as int) =~= b@);
                assert(out@ =~= old(out)@ + encode_opt_address(*o));
            }
        },
        Option::None => {
            out.push(0u8);
            proof {
                assert(out@ =~= old(out)@ + encode_opt_address(*o));
            }
        },
    }
}

/// The canonical encoding of `uo`, as laid out by `encode_op`.
pub fn encode_user_operation(uo: &UserOperation, entry_point: &Address, chain_id: u64) -> (r: Vec<
    u8,
>)
    ensures
        r@ == encode_op(uo@, *entry_point, chain_id),
{
    let mut out: Vec<u8> = Vec::new();
    let epb = entry_point.to_bytes();
    let mut j: usize = 0;
    while j < epb.len()
        invariant
            j <= epb@.len(),
            epb@ == entry_point.bytes(),
            out@ == epb@.subrange(0, j as int),
        decreases epb@.len() - j,
    {
        out.push(epb[j]);
        proof {
            assert(epb@.subrange(0, j + 1 as int) =~= epb@.subrange(0, j as int) + seq![
                epb@[j as int],
            ]);
        }
        j = j + 1;
    }
    proof {
        assert(epb@.subrange(0, epb@.len() as int) =~= epb@);
    }
    crate::types::push_be(&mut out, chain_id as u128, 8);
    let sb = uo.sender.to_bytes();
    let mut k: usize = 0;
    while k < sb.len()
        invariant
            k <= sb@.len(),
            sb@ == uo.sender.bytes(),
            out@ == entry_point.bytes() + be_seq(chain_id as nat, 8) + sb@.subrange(0, k as int),
        decreases sb@.len() - k,
    {
        out.push(sb[k]);
        proof {
            assert(sb@.subrange(0, k + 1 as int) =~= sb@.subrange(0, k as int) + seq![
                sb@[k as int],
            ]);
        }
        k = k + 1;
    }
    proof {
        assert(sb@.subrange(0, sb@.len() as int) =~= sb@);
    }
    push_u256(&mut out, &uo.nonce);
    push_u256(&mut out, &uo.max_fee_per_gas);
    push_u256(&mut out, &uo.max_priority_fee_per_gas);
    push_opt_address(&mut out, &uo.paymaster);
    push_opt_address(&mut out, &uo.factory);
    push_opt_address(&mut out, &uo.aggregator);
    crate::types::push_be(&mut out, uo.call_data.len() as u128, 8);
    let ghost before_cd = out@;
    let mut m: usize = 0;
    while m < uo.call_data.len()
        invariant
            m <= uo.call_data@.len(),
            out@ == before_cd + uo.call_data@.subrange(0, m as int),
        decreases uo.call_data@.len() - m,
    {
        out.push(uo.call_data[m]);
        proof {
            assert(uo.call_data@.subrange(0, m + 1 as int) =~= uo.call_data@.subrange(0, m as int)
                + seq![uo.call_data@[m as int]]);
        }
        m = m + 1;
    }
    proof {
        assert(uo.call_data@.subrange(0, uo.call_data@.len() as int) =~= uo.call_data@);
        assert(out@ =~= encode_op(uo@, *entry_point, chain_id));
    }
    out
}

/// The canonical hash of `uo`: the Keccak-256 digest of its canonical
/// encoding under the given entry point and chain id.
pub fn operation_hash(uo: &UserOperation, entry_point: &Address, chain_id: u64) -> (h: OpHash)
    ensures
        h == op_hash_spec(uo@, *entry_point, chain_id),
{
    let enc = encode_user_operation(uo, entry_point, chain_id);
    let digest = keccak256(&enc);
    match OpHash::parse(&digest) {
        Option::Some(h) => h,
        Option::None => unreached(),
    }
}

} // verus!
