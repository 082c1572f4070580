//! The wire shape of pool rejections: each maps to a reason code, and an
//! entity-throttled rejection carries one metadata entry, the entity kind's
//! name mapped to the 0x-prefixed hex address. The inverse reading turns a
//! received reason and metadata back into a typed error.

use vstd::prelude::*;

use crate::pool::MempoolError;
use crate::types::{Address, EntityKind};

verus! {

/// The reason codes rejections travel under.
#[derive(Clone, Copy, PartialEq, Eq, Structural, Debug)]
pub enum ErrorReason {
    EntityThrottled,
    OperationRejected,
    ReplacementUnderpriced,
    OperationDiscardedOnInsert,
    Unspecified,
}

/// The reason code of each pool rejection.
pub open spec fn reason_of(e: MempoolError) -> ErrorReason {
    match e {
        MempoolError::EntityThrottled(_, _) => ErrorReason::EntityThrottled,
        MempoolError::UnsupportedAggregator(_) => ErrorReason::OperationRejected,
        MempoolError::EntityRequiresStake(_, _) => ErrorReason::OperationRejected,
        MempoolError::ReplacementUnderpriced(_, _) => ErrorReason::ReplacementUnderpriced,
        MempoolError::DiscardedOnInsert => ErrorReason::OperationDiscardedOnInsert,
        MempoolError::Internal => ErrorReason::Unspecified,
    }
}

/// The reason code of a rejection.
pub fn error_reason(e: &MempoolError) -> (r: ErrorReason)
    ensures
        r == reason_of(*e),
{
    match e {
        MempoolError::EntityThrottled(_, _) => ErrorReason::EntityThrottled,
        MempoolError::UnsupportedAggregator(_) => ErrorReason::OperationRejected,
        MempoolError::EntityRequiresStake(_, _) => ErrorReason::OperationRejected,
        MempoolError::ReplacementUnderpriced(_, _) => ErrorReason::ReplacementUnderpriced,
        MempoolError::DiscardedOnInsert => ErrorReason::OperationDiscardedOnInsert,
        MempoolError::Internal => ErrorReason::Unspecified,
    }
}

/// The ASCII name of a reason code.
pub open spec fn reason_name(r: ErrorReason) -> Seq<u8> {
    match r {
        ErrorReason::EntityThrottled => seq![
            69u8, 78, 84, 73, 84, 89, 95, 84, 72, 82, 79, 84, 84, 76, 69, 68,
        ],
        ErrorReason::OperationRejected => seq![
            79u8, 80, 69, 82, 65, 84, 73, 79, 78, 95, 82, 69, 74, 69, 67, 84, 69, 68,
        ],
        ErrorReason::ReplacementUnderpriced => seq![
            82u8, 69, 80, 76, 65, 67, 69, 77, 69, 78, 84, 95, 85, 78, 68, 69, 82, 80, 82, 73, 67,
            69, 68,
        ],
        ErrorReason::OperationDiscardedOnInsert => seq![
            79u8, 80, 69, 82, 65, 84, 73, 79, 78, 95, 68, 73, 83, 67, 65, 82, 68, 69, 68, 95, 79,
            78, 95, 73, 78, 83, 69, 82, 84,
        ],
        ErrorReason::Unspecified => seq![85u8, 78, 83, 80, 69, 67, 73, 70, 73, 69, 68],
    }
}

/// The ASCII name of an entity kind, as the metadata key uses it.
pub open spec fn entity_name(k: EntityKind) -> Seq<u8> {
    match k {
        EntityKind::Account => seq![97u8, 99, 99, 111, 117, 110, 116],
        EntityKind::Paymaster => seq![112u8, 97, 121, 109, 97, 115, 116, 101, 114],
        EntityKind::Factory => seq![102u8, 97, 99, 116, 111, 114, 121],
        EntityKind::Aggregator => seq![97u8, 103, 103, 114, 101, 103, 97, 116, 111, 114],
    }
}

/// Writes the ASCII name of a reason code.
pub fn reason_name_bytes(r: ErrorReason) -> (out: Vec<u8>)
    ensures
        out@ == reason_name(r),
{
    let mut out: Vec<u8> = Vec::new();
    match r {
        ErrorReason::EntityThrottled => {
            out.push(69);
            out.push(78);
            out.push(84);
            out.push(73);
            out.push(84);
            out.push(89);
            out.push(95);
            out.push(84);
            out.push(72);
            out.push(82);
            out.push(79);
            out.push(84);
            out.push(84);
            out.push(76);
            out.push(69);
            out.push(68);
        },
        ErrorReason::OperationRejected => {
            out.push(79);
            out.push(80);
            out.push(69);
            out.push(82);
            out.push(65);
            out.push(84);
            out.push(73);
            out.push(79);
            out.push(78);
            out.push(95);
            out.push(82);
            out.push(69);
            out.push(74);
            out.push(69);
            out.push(67);
            out.push(84);
            out.push(69);
            out.push(68);
        },
        ErrorReason::ReplacementUnderpriced => {
            out.push(82);
            out.push(69);
            out.push(80);
            out.push(76);
            out.push(65);
            out.push(67);
            out.push(69);
            out.push(77);
            out.push(69);
            out.push(78);
            out.push(84);
            out.push(95);
            out.push(85);
            out.push(78);
            out.push(68);
            out.push(69);
            out.push(82);
            out.push(80);
            out.push(82);
            out.push(73);
            out.push(67);
            out.push(69);
            out.push(68);
        },
        ErrorReason::OperationDiscardedOnInsert => {
            out.push(79);
            out.push(80);
            out.push(69);
            out.push(82);
            out.push(65);
            out.push(84);
            out.push(73);
            out.push(79);
            out.push(78);
            out.push(95);
            out.push(68);
            out.push(73);
            out.push(83);
            out.push(67);
            out.push(65);
            out.push(82);
            out.push(68);
            out.push(69);
            out.push(68);
            out.push(95);
            out.push(79);
            out.push(78);
            out.push(95);
            out.push(73);
            out.push(78);
            out.push(83);
            out.push(69);
            out.push(82);
            out.push(84);
        },
        ErrorReason::Unspecified => {
            out.push(85);
            out.push(78);
            out.push(83);
            out.push(80);
            out.push(69);
            out.push(67);
            out.push(73);
            out.push(70);
            out.push(73);
            out.push(69);
            out.push(68);
        },
    }
    proof {
        assert(out@ =~= reason_name(r));
    }
    out
}

/// Writes the ASCII name of an entity kind.
pub fn entity_name_bytes(k: EntityKind) -> (out: Vec<u8>)
    ensures
        out@ == entity_name(k),
{
    let mut out: Vec<u8> = Vec::new();
    match k {
        EntityKind::Account => {
            out.push(97);
            out.push(99);
            out.push(99);
            out.push(111);
            out.push(117);
            out.push(110);
            out.push(116);
        },
        EntityKind::Paymaster => {
            out.push(112);
            out.push(97);
            out.push(121);
            out.push(109);
            out.push(97);
            out.push(115);
            out.push(116);
            out.push(101);
            out.push(114);
        },
        EntityKind::Factory => {
            out.push(102);
            out.push(97);
            out.push(99);
            out.push(116);
            out.push(111);
            out.push(114);
            out.push(121);
        },
        EntityKind::Aggregator => {
            out.push(97);
            out.push(103);
            out.push(103);
            out.push(114);
            out.push(101);
            out.push(103);
            out.push(97);
            out.push(116);
            out.push(111);
            out.push(114);
        },
    }
    proof {
        assert(out@ =~= entity_name(k));
    }
    out
}

/// The ASCII code of one hex digit, lowercase.
pub open spec fn hex_digit(n: nat) -> u8 {
    if n < 10 {
        (48 + n) as u8
    } else {
        (87 + n) as u8
    }
}

/// The lowercase hex spelling of a byte string, two digits per byte.
pub open spec fn hex_of(s: Seq<u8>) -> Seq<u8>
    decreases s.len(),
{
    if s.len() == 0 {
        Seq::empty()
    } else {
        hex_of(s.drop_last()) + seq![
            hex_digit(s.last() as nat / 16),
            hex_digit(s.last() as nat % 16),
        ]
    }
}

/// Writes the 0x-prefixed lowercase hex spelling of a byte string.
pub fn hex_encode_prefixed(v: &Vec<u8>) -> (out: Vec<u8>)
    ensures
        out@ == seq![48u8, 120u8] + hex_of(v@),
{
    let mut out: Vec<u8> = Vec::new();
    out.push(48);
    out.push(120);
    let mut i: usize = 0;
    proof {
        assert(out@ =~= seq![48u8, 120u8] + hex_of(v@.take(0)));
    }
    while i < v.len()
        invariant
            i <= v@.len(),
            out@ == seq![48u8, 120u8] + hex_of(v@.take(i as int)),
        decreases v@.len() - i,
    {
        let b = v[i];
        let hi = b / 16;
        let lo = b % 16;
        out.push(
            if hi < 10 {
                48 + hi
            } else {
                87 + hi
            },
        );
        out.push(
            if lo < 10 {
                48 + lo
            } else {
                87 + lo
            },
        );
        proof {
            let t1 = v@.take(i + 1 as int);
            assert(t1.drop_last() =~= v@.take(i as int));
            assert(t1.last() == v@[i as int]);
            assert(out@ =~= seq![48u8, 120u8] + hex_of(t1));
        }
        i = i + 1;
    }
    proof {
        assert(v@.take(v@.len() as int) =~= v@);
    }
    out
}

/// Whether `c` is a hex digit, either case.
pub open spec fn is_hex_digit(c: u8) -> bool {
    (48 <= c <= 57) || (97 <= c <= 102) || (65 <= c <= 70)
}

/// The value of a hex digit.
pub open spec fn hex_val(c: u8) -> nat {
    if 48 <= c <= 57 {
        (c - 48) as nat
    } else if 97 <= c <= 102 {
        (c - 87) as nat
    } else {
        (c - 55) as nat
    }
}

/// The bytes a string of hex digit pairs spells.
pub open spec fn hex_bytes(s: Seq<u8>) -> Seq<u8> {
    Seq::new(s.len() / 2, |i: int| (hex_val(s[2 * i]) * 16 + hex_val(s[2 * i + 1])) as u8)
}

/// A hex address string with any 0x prefix stripped.
pub open spec fn hex_addr_stripped(s: Seq<u8>) -> Seq<u8> {
    if s.len() >= 2 && s[0] == 48 && s[1] == 120 {
        s.skip(2)
    } else {
        s
    }
}

/// Whether a string spells an address in hex: 40 digits after any 0x prefix.
pub open spec fn hex_addr_valid(s: Seq<u8>) -> bool {
    hex_addr_stripped(s).len() == 40 && (forall|i: int|
        0 <= i < 40 ==> is_hex_digit(#[trigger] hex_addr_stripped(s)[i]))
}

/// Parses a 0x-prefixed or bare 40-digit hex string as an address; `None`
/// on any other shape.
pub fn parse_hex_address(s: &Vec<u8>) -> (r: Option<Address>)
    ensures
        r is Some <==> hex_addr_valid(s@),
        r is Some ==> r->Some_0 == Address::of_bytes(hex_bytes(hex_addr_stripped(s@))),
{
    let start: usize = if s.len() >= 2 && s[0] == 48 && s[1] == 120 {
        2
    } else {
        0
    };
    let ghost stripped = hex_addr_stripped(s@);
    proof {
        if start == 0 {
            assert(stripped =~= s@);
        } else {
            assert(stripped =~= s@.skip(2));
        }
    }
    if s.len() - start != 40 {
        return None;
    }
    let n: usize = s.len();
    assert(start + 40 == n);
    let mut bytes: Vec<u8> = Vec::new();
    let mut i: usize = 0;
    while i < 20
        invariant
            i <= 20,
            start + 40 <= usize::MAX,
            start + 40 == s@.len(),
            stripped == s@.skip(start as int),
            bytes@.len() == i,
            forall|k: int| 0 <= k < 2 * i ==> is_hex_digit(#[trigger] stripped[k]),
            forall|k: int|
                0 <= k < i ==> bytes@[k] == (hex_val(stripped[2 * k]) * 16 + hex_val(
                    stripped[2 * k + 1],
                )) as u8,
        decreases 20 - i,
    {
        let c1 = s[start + 2 * i];
        let c2 = s[start + 2 * i + 1];
        let v1 = match hex_digit_val(c1) {
            Some(v) => v,
            None => {
                proof {
                    assert(stripped[2 * i as int] == c1);
                    assert(!hex_addr_valid(s@));
                }
                return None;
            },
        };
        let v2 = match hex_digit_val(c2) {
            Some(v) => v,
            None => {
                proof {
                    assert(stripped[2 * i as int + 1] == c2);
                    assert(!hex_addr_valid(s@));
                }
                return None;
            },
        };
        proof {
            assert(stripped[2 * i as int] == c1);
            assert(stripped[2 * i as int + 1] == c2);
        }
        bytes.push(v1 * 16 + v2);
        i = i + 1;
    }
    proof {
        assert(bytes@ =~= hex_bytes(stripped));
    }
    match Address::parse(&bytes) {
        Some(a) => Some(a),
        None => None,
    }
}

/// The value of one hex digit, or `None`.
fn hex_digit_val(c: u8) -> (r: Option<u8>)
    ensures
        r is Some <==> is_hex_digit(c),
        r is Some ==> r->Some_0 as nat == hex_val(c) && r->Some_0 < 16,
{
    if 48 <= c && c <= 57 {
        Some(c - 48)
    } else if 97 <= c && c <= 102 {
        Some(c - 87)
    } else if 65 <= c && c <= 70 {
        Some(c - 55)
    } else {
        None
    }
}

/// The reason code and metadata a rejection travels with: for a throttled
/// or banned entity, one entry mapping the entity kind's name to the
/// 0x-prefixed hex address; nothing for the rest.
pub fn error_info(e: &MempoolError) -> (r: (ErrorReason, Vec<(Vec<u8>, Vec<u8>)>))
    ensures
        r.0 == reason_of(*e),
        match *e {
            MempoolError::EntityThrottled(k, a) => r.1@.len() == 1 && r.1@[0].0@ == entity_name(k)
                && r.1@[0].1@ == seq![48u8, 120u8] + hex_of(a.bytes()),
            _ => r.1@.len() == 0,
        },
{
    let reason = error_reason(e);
    let mut metadata: Vec<(Vec<u8>, Vec<u8>)> = Vec::new();
    if let MempoolError::EntityThrottled(k, a) = e {
        let key = entity_name_bytes(*k);
        let addr_bytes = a.to_bytes();
        let value = hex_encode_prefixed(&addr_bytes);
        metadata.push((key, value));
    }
    (reason, metadata)
}

/// A received rejection, read back into a typed error: a throttled or
/// banned entity with its address, an underpriced replacement, or an
/// unspecified failure for anything else or any malformed detail.
#[derive(Clone, Copy, PartialEq, Eq, Structural, Debug)]
pub enum RpcErrorKind {
    ThrottledOrBanned(EntityKind, Address),
    ReplacementUnderpriced,
    Internal,
}

/// Reads an entity kind back from its name.
pub fn entity_of_name(name: &Vec<u8>) -> (r: Option<EntityKind>)
    ensures
        r == (if name@ == entity_name(EntityKind::Account) {
            Some(EntityKind::Account)
        } else if name@ == entity_name(EntityKind::Paymaster) {
            Some(EntityKind::Paymaster)
        } else if name@ == entity_name(EntityKind::Factory) {
            Some(EntityKind::Factory)
        } else if name@ == entity_name(EntityKind::Aggregator) {
            Some(EntityKind::Aggregator)
        } else {
            None::<EntityKind>
        }),
{
    let account = entity_name_bytes(EntityKind::Account);
    let paymaster = entity_name_bytes(EntityKind::Paymaster);
    let factory = entity_name_bytes(EntityKind::Factory);
    let aggregator = entity_name_bytes(EntityKind::Aggregator);
    if bytes_eq(name, &account) {
        Some(EntityKind::Account)
    } else if bytes_eq(name, &paymaster) {
        Some(EntityKind::Paymaster)
    } else if bytes_eq(name, &factory) {
        Some(EntityKind::Factory)
    } else if bytes_eq(name, &aggregator) {
        Some(EntityKind::Aggregator)
    } else {
        None
    }
}

/// Byte-string equality.
pub fn bytes_eq(a: &Vec<u8>, b: &Vec<u8>) -> (r: bool)
    ensures
        r == (a@ == b@),
{
    if a.len() != b.len() {
        return false;
    }
    let mut i: usize = 0;
    while i < a.len()
        invariant
            i <= a@.len(),
            a@.len() == b@.len(),
            forall|k: int| 0 <= k < i ==> a@[k] == b@[k],
        decreases a@.len() - i,
    {
        if a[i] != b[i] {
            return false;
        }
        i = i + 1;
    }
    proof {
        assert(a@ =~= b@);
    }
    true
}

/// Turns a received reason and metadata back into a typed error: an
/// entity-throttled reason with a readable kind (other than the account)
/// and address names the entity; an underpriced replacement stands on its
/// own; everything else, and every malformed detail, is unspecified.
pub fn interpret_error_info(reason: &Vec<u8>, metadata: &Vec<(Vec<u8>, Vec<u8>)>) -> (r:
    RpcErrorKind)
    ensures
        ({
            let throttled = reason@ == reason_name(ErrorReason::EntityThrottled);
            let underpriced = reason@ == reason_name(ErrorReason::ReplacementUnderpriced);
            &&& (underpriced && !throttled ==> r == RpcErrorKind::ReplacementUnderpriced)
            &&& (!underpriced && !throttled ==> r == RpcErrorKind::Internal)
            &&& (throttled && metadata@.len() == 0 ==> r == RpcErrorKind::Internal)
            &&& (throttled && metadata@.len() > 0 ==> r == interpret_throttled(
                metadata@[0].0@,
                metadata@[0].1,
            ))
        }),
{
    let throttled_name = reason_name_bytes(ErrorReason::EntityThrottled);
    let underpriced_name = reason_name_bytes(ErrorReason::ReplacementUnderpriced);
    if bytes_eq(reason, &throttled_name) {
        if metadata.len() == 0 {
            return RpcErrorKind::Internal;
        }
        let kind = match entity_of_name(&metadata[0].0) {
            Some(EntityKind::Account) => {
                return RpcErrorKind::Internal;
            },
            Some(k) => k,
            None => {
                return RpcErrorKind::Internal;
            },
        };
        match parse_hex_address(&metadata[0].1) {
            Some(a) => RpcErrorKind::ThrottledOrBanned(kind, a),
            None => RpcErrorKind::Internal,
        }
    } else if bytes_eq(reason, &underpriced_name) {
        RpcErrorKind::ReplacementUnderpriced
    } else {
        RpcErrorKind::Internal
    }
}

/// The reading of one entity-throttled metadata entry.
pub open spec fn interpret_throttled(key: Seq<u8>, value: Vec<u8>) -> RpcErrorKind {
    let kind = if key == entity_name(EntityKind::Paymaster) {
        Some(EntityKind::Paymaster)
    } else if key == entity_name(EntityKind::Factory) {
        Some(EntityKind::Factory)
    } else if key == entity_name(EntityKind::Aggregator) {
        Some(EntityKind::Aggregator)
    } else {
        None::<EntityKind>
    };
    match kind {
        Some(k) => if hex_addr_valid(value@) {
            RpcErrorKind::ThrottledOrBanned(k, Address::of_bytes(hex_bytes(hex_addr_stripped(value@))))
        } else {
            RpcErrorKind::Internal
        },
        None => RpcErrorKind::Internal,
    }
}

} // verus!
