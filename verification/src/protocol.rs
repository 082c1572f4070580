//! The outbound fetch protocol: a single request/response exchange over a
//! peer-supplied byte stream. The request is framed as a length varint
//! followed by its compressed body; the response is a series of chunks, each
//! a status byte, a length varint and the chunk's bytes, with a configured
//! ceiling on chunk size. Compression and the SSZ encoding itself are
//! opaque external collaborators; this module owns the framing, the chunk
//! accounting and the timeout decisions.

use vstd::prelude::*;

verus! {

/// Failures of the exchange, each a distinct protocol-layer error.
#[derive(Clone, Copy, PartialEq, Eq, Structural, Debug)]
pub enum ProtocolError {
    /// The whole exchange overran its deadline.
    StreamTimeout,
    /// The first response byte did not arrive in time.
    ReadTimeout,
    /// The stream ended before the expected chunks arrived.
    IncompleteStream,
    /// A chunk claims or carries more than the configured ceiling.
    ChunkTooLarge,
    /// Bytes that fit no frame, or trailing bytes after the last chunk.
    DecodeError,
    /// The server answered with an in-band error status.
    InboundError(u8),
}

/// The request/response schemas of the protocol; only the metadata request
/// carries no body.
#[derive(Clone, Copy, PartialEq, Eq, Structural, Debug)]
pub enum ProtocolSchema {
    MetadataV1,
    PooledUserOpHashesV1,
    PooledUserOpsByHashV1,
}

/// Whether a request of this schema writes a body at all; a metadata
/// request writes nothing and immediately half-closes.
pub fn has_request_body(schema: ProtocolSchema) -> (r: bool)
    ensures
        r == !(schema is MetadataV1),
{
    !matches!(schema, ProtocolSchema::MetadataV1)
}

/// The little-endian base-128 varint encoding of `n`, as the framing uses
/// for lengths.
pub open spec fn varint(n: nat) -> Seq<u8>
    decreases n,
{
    if n < 128 {
        seq![n as u8]
    } else {
        seq![(128 + n % 128) as u8] + varint(n / 128)
    }
}

/// Parses a varint at `pos`: the value and the position after it, or `None`
/// when the bytes run out first.
pub open spec fn parse_varint(s: Seq<u8>, pos: int) -> Option<(nat, int)>
    decreases s.len() - pos,
{
    if pos < 0 || pos >= s.len() {
        None
    } else if s[pos] < 128 {
        Some((s[pos] as nat, pos + 1))
    } else {
        match parse_varint(s, pos + 1) {
            Some(ve) => Some(((s[pos] - 128) as nat + 128 * ve.0, ve.1)),
            None => None,
        }
    }
}

/// Appends the varint encoding of `n`.
pub fn push_varint(out: &mut Vec<u8>, n: u64)
    ensures
        final(out)@ == old(out)@ + varint(n as nat),
    decreases n,
{
    if n < 128 {
        out.push(n as u8);
        proof {
            assert(final(out)@ =~= old(out)@ + varint(n as nat));
        }
    } else {
        out.push(128 + (n % 128) as u8);
        push_varint(out, n / 128);
        proof {
            assert(final(out)@ =~= old(out)@ + varint(n as nat));
        }
    }
}

/// How an attempt to read a varint ended.
pub enum VarintRead {
    Value(u64, usize),
    Truncated,
    TooBig,
}

/// Reads the varint at `pos`: its value and the position after it;
/// `Truncated` when the bytes end first, `TooBig` when the value does not
/// fit 64 bits.
pub fn read_varint(bytes: &Vec<u8>, pos: usize) -> (r: VarintRead)
    ensures
        match r {
            VarintRead::Value(v, e) => parse_varint(bytes@, pos as int) == Some(
                (v as nat, e as int),
            ) && pos < e <= bytes@.len(),
            VarintRead::Truncated => parse_varint(bytes@, pos as int) is None,
            VarintRead::TooBig => parse_varint(bytes@, pos as int) is Some && parse_varint(
                bytes@,
                pos as int,
            )->Some_0.0 > u64::MAX,
        },
    decreases bytes@.len() - pos,
{
    if pos >= bytes.len() {
        return VarintRead::Truncated;
    }
    let b = bytes[pos];
    if b < 128 {
        return VarintRead::Value(b as u64, pos + 1);
    }
    match read_varint(bytes, pos + 1) {
        VarintRead::Value(v, e) => {
            let low: u64 = (b - 128) as u64;
            if v <= (u64::MAX - low) / 128 {
                VarintRead::Value(low + 128 * v, e)
            } else {
                proof {
                    assert((b - 128) as nat + 128 * (v as nat) > u64::MAX);
                }
                VarintRead::TooBig
            }
        },
        VarintRead::Truncated => VarintRead::Truncated,
        VarintRead::TooBig => VarintRead::TooBig,
    }
}

/// A framed request: the length varint, then the compressed body as the
/// external encoder produced it. `length` is the sender's length claim.
pub fn frame_request(length: u64, compressed: &Vec<u8>) -> (r: Vec<u8>)
    ensures
        r@ == varint(length as nat) + compressed@,
{
    let mut out: Vec<u8> = Vec::new();
    push_varint(&mut out, length);
    let mut i: usize = 0;
    while i < compressed.len()
        invariant
            i <= compressed@.len(),
            out@ == varint(length as nat) + compressed@.take(i as int),
        decreases compressed@.len() - i,
    {
        out.push(compressed[i]);
        proof {
            assert(compressed@.take(i + 1 as int) =~= compressed@.take(i as int).push(
                compressed@[i as int],
            ));
            assert(out@ =~= varint(length as nat) + compressed@.take(i + 1 as int));
        }
        i = i + 1;
    }
    proof {
        assert(compressed@.take(compressed@.len() as int) =~= compressed@);
    }
    out
}

/// What parsing the buffered response yields: the chunk payloads, or the
/// error that ends the exchange. A response must hold exactly the expected
/// number of success chunks: a non-zero status byte is an in-band error, a
/// length claim over the ceiling is `ChunkTooLarge`, bytes running out are
/// an `IncompleteStream`, and trailing bytes after the last chunk fit no
/// frame.
pub open spec fn parse_chunks(s: Seq<u8>, pos: int, remaining: nat, max_chunk: u64) -> Result<
    Seq<Seq<u8>>,
    ProtocolError,
>
    decreases remaining,
{
    if remaining == 0 {
        if pos == s.len() {
            Ok(Seq::empty())
        } else {
            Err(ProtocolError::DecodeError)
        }
    } else if pos >= s.len() {
        Err(ProtocolError::IncompleteStream)
    } else if s[pos] != 0 {
        Err(ProtocolError::InboundError(s[pos]))
    } else {
        match parse_varint(s, pos + 1) {
            None => Err(ProtocolError::IncompleteStream),
            Some(ve) => if ve.0 > max_chunk {
                Err(ProtocolError::ChunkTooLarge)
            } else if ve.1 + ve.0 > s.len() {
                Err(ProtocolError::IncompleteStream)
            } else {
                match parse_chunks(s, ve.1 + ve.0, (remaining - 1) as nat, max_chunk) {
                    Ok(rest) => Ok(seq![s.subrange(ve.1, ve.1 + ve.0)] + rest),
                    Err(e) => Err(e),
                }
            },
        }
    }
}

/// Parses a fully buffered response of `expected` chunks.
pub fn parse_response(bytes: &Vec<u8>, expected: usize, max_chunk: u64) -> (r: Result<
    Vec<Vec<u8>>,
    ProtocolError,
>)
    ensures
        r is Ok <==> parse_chunks(bytes@, 0, expected as nat, max_chunk) is Ok,
        r is Err ==> Err::<Seq<Seq<u8>>, ProtocolError>(r->Err_0) == parse_chunks(
            bytes@,
            0,
            expected as nat,
            max_chunk,
        ),
        r is Ok ==> ({
            let chunks = parse_chunks(bytes@, 0, expected as nat, max_chunk)->Ok_0;
            &&& r->Ok_0@.len() == chunks.len()
            &&& forall|k: int| 0 <= k < chunks.len() ==> (#[trigger] r->Ok_0@[k])@ == chunks[k]
        }),
{
    let ghost s = bytes@;
    let mut chunks: Vec<Vec<u8>> = Vec::new();
    let mut pos: usize = 0;
    let mut remaining: usize = expected;
    while remaining > 0
        invariant
            pos <= s.len(),
            bytes@ == s,
            chunks@.len() + remaining == expected,
            parse_chunks(s, 0, expected as nat, max_chunk) == (match parse_chunks(
                s,
                pos as int,
                remaining as nat,
                max_chunk,
            ) {
                Ok(rest) => Ok::<Seq<Seq<u8>>, ProtocolError>(
                    chunks@.map_values(|c: Vec<u8>| c@) + rest,
                ),
                Err(e) => Err(e),
            }),
        decreases remaining,
    {
        if pos >= bytes.len() {
            return Err(ProtocolError::IncompleteStream);
        }
        let status = bytes[pos];
        if status != 0 {
            return Err(ProtocolError::InboundError(status));
        }
        let (len, after) = match read_varint(bytes, pos + 1) {
            VarintRead::Value(v, e) => (v, e),
            VarintRead::Truncated => {
                return Err(ProtocolError::IncompleteStream);
            },
            VarintRead::TooBig => {
                proof {
                    assert(parse_varint(s, pos + 1)->Some_0.0 > max_chunk);
                }
                return Err(ProtocolError::ChunkTooLarge);
            },
        };
        if len > max_chunk {
            return Err(ProtocolError::ChunkTooLarge);
        }
        if len > (bytes.len() - after) as u64 {
            proof {
                assert(parse_varint(s, pos + 1)->Some_0.1 + parse_varint(s, pos + 1)->Some_0.0 > s.len());
            }
            return Err(ProtocolError::IncompleteStream);
        }
        let end: usize = after + (len as usize);
        let mut payload: Vec<u8> = Vec::new();
        let mut i: usize = after;
        while i < end
            invariant
                after <= i <= end <= bytes@.len(),
                bytes@ == s,
                payload@ == s.subrange(after as int, i as int),
            decreases end - i,
        {
            payload.push(bytes[i]);
            proof {
                assert(s.subrange(after as int, i + 1 as int) =~= s.subrange(
                    after as int,
                    i as int,
                ).push(s[i as int]));
            }
            i = i + 1;
        }
        let ghost old_chunks = chunks@;
        chunks.push(payload);
        proof {
            assert(chunks@.map_values(|c: Vec<u8>| c@) =~= old_chunks.map_values(|c: Vec<u8>| c@)
                + seq![s.subrange(after as int, end as int)]);
            assert(old_chunks.map_values(|c: Vec<u8>| c@) + (seq![
                s.subrange(after as int, end as int),
            ] + parse_chunks(s, end as int, (remaining - 1) as nat, max_chunk)->Ok_0)
                =~= chunks@.map_values(|c: Vec<u8>| c@) + parse_chunks(
                s,
                end as int,
                (remaining - 1) as nat,
                max_chunk,
            )->Ok_0);
        }
        pos = end;
        remaining = remaining - 1;
    }
    if pos != bytes.len() {
        return Err(ProtocolError::DecodeError);
    }
    proof {
        assert(chunks@.map_values(|c: Vec<u8>| c@) + Seq::<Seq<u8>>::empty() =~= chunks@.map_values(
            |c: Vec<u8>| c@,
        ));
    }
    Ok(chunks)
}

/// Holds a decompressed chunk to the configured ceiling, independent of the
/// sender's claim.
pub fn check_decoded_len(decoded_len: u64, max_chunk: u64) -> (r: Result<(), ProtocolError>)
    ensures
        r is Ok <==> decoded_len <= max_chunk,
        r is Err ==> r->Err_0 == ProtocolError::ChunkTooLarge,
{
    if decoded_len <= max_chunk {
        Ok(())
    } else {
        Err(ProtocolError::ChunkTooLarge)
    }
}

/// The decision at the end of the exchange: a deadline overrun beats all,
/// a closed stream without an item is an incomplete stream, and otherwise
/// the read item, good or bad, is the outcome.
pub fn exchange_outcome(timed_out: bool, item: Option<Result<Vec<Vec<u8>>, ProtocolError>>) -> (r:
    Result<Vec<Vec<u8>>, ProtocolError>)
    ensures
        timed_out ==> r == Err::<Vec<Vec<u8>>, ProtocolError>(ProtocolError::StreamTimeout),
        !timed_out && item is None ==> r == Err::<Vec<Vec<u8>>, ProtocolError>(
            ProtocolError::IncompleteStream,
        ),
        !timed_out && item is Some ==> r == item->0,
{
    if timed_out {
        Err(ProtocolError::StreamTimeout)
    } else {
        match item {
            Some(x) => x,
            None => Err(ProtocolError::IncompleteStream),
        }
    }
}

/// The error a failed socket read maps to: the time-to-first-byte window
/// elapsing is a read timeout; any other read fault is a decode error.
pub fn classify_read_failure(ttfb_elapsed: bool) -> (r: ProtocolError)
    ensures
        r == (if ttfb_elapsed {
            ProtocolError::ReadTimeout
        } else {
            ProtocolError::DecodeError
        }),
{
    if ttfb_elapsed {
        ProtocolError::ReadTimeout
    } else {
        ProtocolError::DecodeError
    }
}

/// A varint round-trips: parsing what `varint` wrote, with anything after
/// it, yields the value back and stops right past it.
pub proof fn lemma_varint_round_trip(n: nat, tail: Seq<u8>)
    ensures
        parse_varint(varint(n) + tail, 0) == Some((n, varint(n).len() as int)),
    decreases n,
{
    let s = varint(n) + tail;
    if n < 128 {
        assert(s[0] == n as u8);
    } else {
        lemma_varint_round_trip(n / 128, tail);
        assert(s[0] == (128 + n % 128) as u8);
        assert(s[0] >= 128);
        let s1 = varint(n / 128) + tail;
        assert forall|k: int| 0 <= k < s1.len() implies s[k + 1] == s1[k] by {}
        assert forall|m: int| 0 <= m < s1.len() implies s[m + 1] == s1[m] by {}
        lemma_parse_varint_shift_one(s, s1, 1, 0);
        assert(parse_varint(s, 1int + 0int) == Some((n / 128, (varint(n / 128).len() + 1) as int)));
        assert(parse_varint(s, 1) == Some((n / 128, (varint(n / 128).len() + 1) as int)));
        assert((s[0] - 128) as nat + 128 * (n / 128) == n);
    }
}

proof fn lemma_parse_varint_shift_one(s: Seq<u8>, t: Seq<u8>, d: int, k: int)
    requires
        0 <= d <= s.len(),
        0 <= k,
        t.len() == s.len() - d,
        forall|m: int| 0 <= m < t.len() ==> s[m + d] == t[m],
    ensures
        parse_varint(s, d + k) == (match parse_varint(t, k) {
            Some(ve) => Some((ve.0, ve.1 + d)),
            None => None,
        }),
    decreases t.len() - k,
{
    if k >= t.len() {
    } else {
        assert(s[k + d] == t[k]);
        if t[k] < 128 {
        } else {
            lemma_parse_varint_shift_one(s, t, d, k + 1);
        }
    }
}

} // verus!
