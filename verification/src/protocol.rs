//! The resolution protocol's messages and their wire format.
//!
//! An outbound request snapshots a market's question and options for the
//! oracle agent; the inbound callback carries a result payload. Both are
//! byte strings in the SCALE layout: little-endian integers, and strings as
//! a compact byte-length prefix followed by UTF-8 bytes.

use vstd::prelude::*;

use crate::errors::MarketError;
use crate::scale::{
    bytes_at, compact_bytes, decode_compact, encode_compact, lemma_compact_shape,
    lemma_le_bytes_len, lemma_le_bytes_of_val, lemma_le_val_of_bytes, lemma_pow256_vals, le_bytes,
    le_val, push_all, push_le, read_le,
};
use crate::types::{AccountId, BlockNumber, MarketId, OptionIndex};
use vstd::string::StrSliceExecFns;
use vstd::utf8::{
    decode_utf8, decode_utf8_encode_utf8, encode_utf8, encode_utf8_decode_utf8,
    encode_utf8_valid_utf8, valid_utf8,
};

verus! {

/// Request sent to the resolver oracle agent.
#[derive(Clone, Debug)]
pub struct MarketResolutionRequest {
    pub market_id: MarketId,
    pub question: String,
    pub options: Vec<String>,
    pub resolution_criteria: String,
    pub resolution_source: String,
}

/// Callback descriptor for the oracle's response: a routing selector and an
/// execution budget.
#[derive(Clone, Copy, Debug)]
pub struct CallbackSpec {
    /// Selector for the callback entry point.
    pub selector: [u8; 4],
    /// Gas budget for callback execution.
    pub gas_limit: u64,
}

/// Full outbound request handed to the host environment for dispatch.
#[derive(Clone, Debug)]
pub struct ContractAgentRequest {
    /// Target agent account id.
    pub target_agent: AccountId,
    /// Serialized input for the agent.
    pub input: Vec<u8>,
    /// Time-to-live in blocks.
    pub ttl_blocks: u32,
    /// Callback to invoke when the agent completes.
    pub callback: Option<CallbackSpec>,
}

/// Receipt returned by the host when a request is accepted.
#[derive(Clone, Copy, Debug)]
pub struct AgentRunReceipt {
    pub request_id: u64,
    pub estimated_start_block: BlockNumber,
}

/// Envelope delivered back by the host with the oracle's outcome.
#[derive(Clone, Debug)]
pub struct AgentCallbackPayload {
    pub request_id: u64,
    pub run_id: u64,
    pub success: bool,
    pub output: Vec<u8>,
}

/// Resolution result carried inside a callback payload.
#[derive(Clone, Debug)]
pub struct ResolutionResult {
    pub market_id: MarketId,
    /// Index of the winning option.
    pub winning_option: OptionIndex,
    /// Confidence percentage, informational only.
    pub confidence_pct: u8,
    /// Summary of the evidence used, informational only.
    pub evidence_summary: String,
}

/// The wire form of one string: compact byte length, then UTF-8 bytes.
pub open spec fn str_bytes(s: Seq<char>) -> Seq<u8> {
    compact_bytes(encode_utf8(s).len() as u64) + encode_utf8(s)
}

/// The wire form of a string sequence, in order.
pub open spec fn strs_bytes(ss: Seq<Seq<char>>) -> Seq<u8>
    decreases ss.len(),
{
    if ss.len() == 0 {
        seq![]
    } else {
        str_bytes(ss[0]) + strs_bytes(ss.drop_first())
    }
}

pub proof fn lemma_strs_bytes_push(ss: Seq<Seq<char>>, x: Seq<char>)
    ensures
        strs_bytes(ss.push(x)) == strs_bytes(ss) + str_bytes(x),
    decreases ss.len(),
{
    if ss.len() == 0 {
        assert(ss.push(x).drop_first() =~= Seq::<Seq<char>>::empty());
        assert(ss.push(x)[0] == x);
        assert(strs_bytes(ss.push(x).drop_first()) == Seq::<u8>::empty());
        assert(strs_bytes(ss) == Seq::<u8>::empty());
        assert(strs_bytes(ss.push(x)) =~= strs_bytes(ss) + str_bytes(x));
    } else {
        assert(ss.push(x).drop_first() =~= ss.drop_first().push(x));
        lemma_strs_bytes_push(ss.drop_first(), x);
        assert(strs_bytes(ss.push(x)) =~= strs_bytes(ss) + str_bytes(x));
    }
}

/// The wire form of a whole resolution request.
pub open spec fn request_bytes(
    mid: MarketId,
    q: Seq<char>,
    opts: Seq<Seq<char>>,
    crit: Seq<char>,
    src: Seq<char>,
) -> Seq<u8> {
    le_bytes(mid as int, 8) + str_bytes(q) + compact_bytes(opts.len() as u64) + strs_bytes(opts)
        + str_bytes(crit) + str_bytes(src)
}

/// The wire form of a resolution result.
pub open spec fn result_bytes(mid: MarketId, w: u8, c: u8, ev: Seq<char>) -> Seq<u8> {
    le_bytes(mid as int, 8) + seq![w, c] + str_bytes(ev)
}

/// `b` begins with the wire form of the given result fields.
pub open spec fn starts_with_result(b: Seq<u8>, mid: u64, w: u8, c: u8, ev: Seq<char>) -> bool {
    exists|t: Seq<u8>| b == result_bytes(mid, w, c, ev) + t
}

/// Relies on `String::from_utf8`: it succeeds exactly on valid UTF-8 input
/// and returns the string that those bytes encode.
#[verifier::external_body]
fn string_from_utf8(v: Vec<u8>) -> (r: Option<String>)
    ensures
        r is Some <==> valid_utf8(v@),
        r matches Some(s) ==> s@ == decode_utf8(v@),
{
    String::from_utf8(v).ok()
}

/// Append the wire form of one string.
fn push_string(out: &mut Vec<u8>, s: &String)
    ensures
        final(out)@ == old(out)@ + str_bytes(s@),
{
    let bytes = s.as_str().as_bytes_vec();
    encode_compact(out, bytes.len() as u64);
    push_all(out, &bytes);
    proof {
        assert(out@ =~= old(out)@ + str_bytes(s@));
    }
}

/// Serialize a resolution request into its wire form.
pub fn encode_resolution_request(req: &MarketResolutionRequest) -> (out: Vec<u8>)
    ensures
        out@ == request_bytes(
            req.market_id,
            req.question@,
            req.options.deep_view(),
            req.resolution_criteria@,
            req.resolution_source@,
        ),
{
    let mut out: Vec<u8> = Vec::new();
    push_le(&mut out, req.market_id, 8);
    push_string(&mut out, &req.question);
    encode_compact(&mut out, req.options.len() as u64);
    let ghost head = out@;
    let mut i: usize = 0;
    while i < req.options.len()
        invariant
            i <= req.options@.len(),
            out@ == head + strs_bytes(req.options.deep_view().subrange(0, i as int)),
        decreases req.options@.len() - i,
    {
        push_string(&mut out, &req.options[i]);
        proof {
            let dv = req.options.deep_view();
            assert(dv.subrange(0, i as int).push(dv[i as int]) =~= dv.subrange(0, i as int + 1));
            lemma_strs_bytes_push(dv.subrange(0, i as int), dv[i as int]);
            assert(out@ =~= head + strs_bytes(dv.subrange(0, i as int + 1)));
        }
        i = i + 1;
    }
    push_string(&mut out, &req.resolution_criteria);
    push_string(&mut out, &req.resolution_source);
    proof {
        let dv = req.options.deep_view();
        assert(dv.subrange(0, dv.len() as int) =~= dv);
        assert(out@ =~= request_bytes(
            req.market_id,
            req.question@,
            dv,
            req.resolution_criteria@,
            req.resolution_source@,
        ));
    }
    out
}

/// Serialize a resolution result into its wire form.
pub fn encode_resolution_result(res: &ResolutionResult) -> (out: Vec<u8>)
    ensures
        out@ == result_bytes(
            res.market_id,
            res.winning_option,
            res.confidence_pct,
            res.evidence_summary@,
        ),
{
    let mut out: Vec<u8> = Vec::new();
    push_le(&mut out, res.market_id, 8);
    out.push(res.winning_option);
    out.push(res.confidence_pct);
    push_string(&mut out, &res.evidence_summary);
    proof {
        assert(out@ =~= result_bytes(
            res.market_id,
            res.winning_option,
            res.confidence_pct,
            res.evidence_summary@,
        ));
    }
    out
}

/// Parse a resolution result from a callback payload. It succeeds exactly on
/// byte strings that begin with the wire form of some result; trailing bytes
/// are ignored, as the host may pad the payload.
#[verifier::rlimit(100)]
#[verifier::spinoff_prover]
pub fn decode_resolution_result(b: &Vec<u8>) -> (r: Result<ResolutionResult, MarketError>)
    ensures
        r matches Err(e) ==> e == MarketError::DecodeError,
        r matches Ok(x) ==> starts_with_result(
            b@,
            x.market_id,
            x.winning_option,
            x.confidence_pct,
            x.evidence_summary@,
        ),
        forall|mid: u64, w: u8, c: u8, ev: Seq<char>, t: Seq<u8>|
            b@ == #[trigger] (result_bytes(mid, w, c, ev) + t) ==> (r matches Ok(x) && x.market_id
                == mid && x.winning_option == w && x.confidence_pct == c && x.evidence_summary@
                == ev),
{
    let n = b.len();
    proof {
        assert(b@.len() <= u64::MAX as int);
    }
    if n < 10 {
        proof {
            assert forall|mid: u64, w: u8, c: u8, ev: Seq<char>, t: Seq<u8>|
                b@ != #[trigger] (result_bytes(mid, w, c, ev) + t) by {
                lemma_le_bytes_len(mid as int, 8);
                lemma_compact_shape(encode_utf8(ev).len() as u64);
                assert(result_bytes(mid, w, c, ev).len() >= 11);
            }
        }
        return Err(MarketError::DecodeError);
    }
    let mid = read_le(b, 0, 8);
    let w = b[8];
    let c = b[9];
    proof {
        lemma_result_bytes_head(b@, mid, w, c);
    }
    let (len_u, after) = match decode_compact(b, 10) {
        Some(p) => p,
        None => {
            proof {
                assert forall|mid2: u64, w2: u8, c2: u8, ev: Seq<char>, t: Seq<u8>|
                    b@ != #[trigger] (result_bytes(mid2, w2, c2, ev) + t) by {
                    if b@ == result_bytes(mid2, w2, c2, ev) + t {
                        lemma_result_bytes_parts(b@, mid2, w2, c2, ev, t);
                    }
                }
            }
            return Err(MarketError::DecodeError);
        },
    };
    let rem = n - after;
    if len_u > rem as u64 {
        proof {
            assert forall|mid2: u64, w2: u8, c2: u8, ev: Seq<char>, t: Seq<u8>|
                b@ != #[trigger] (result_bytes(mid2, w2, c2, ev) + t) by {
                if b@ == result_bytes(mid2, w2, c2, ev) + t {
                    lemma_result_bytes_parts(b@, mid2, w2, c2, ev, t);
                }
            }
        }
        return Err(MarketError::DecodeError);
    }
    let len = len_u as usize;
    let end = after + len;
    let mut evb: Vec<u8> = Vec::new();
    let mut i: usize = after;
    while i < end
        invariant
            after <= i <= end <= b@.len(),
            evb@ == b@.subrange(after as int, i as int),
        decreases end - i,
    {
        evb.push(b[i]);
        proof {
            assert(b@.subrange(after as int, i as int) + seq![b@[i as int]] =~= b@.subrange(
                after as int,
                i as int + 1,
            ));
        }
        i = i + 1;
    }
    let ev = match string_from_utf8(evb) {
        Some(s) => s,
        None => {
            proof {
                assert forall|mid2: u64, w2: u8, c2: u8, ev2: Seq<char>, t: Seq<u8>|
                    b@ != #[trigger] (result_bytes(mid2, w2, c2, ev2) + t) by {
                    if b@ == result_bytes(mid2, w2, c2, ev2) + t {
                        lemma_result_bytes_parts(b@, mid2, w2, c2, ev2, t);
                        encode_utf8_valid_utf8(ev2);
                        assert(b@.subrange(
                            10 + compact_bytes(encode_utf8(ev2).len() as u64).len() as int,
                            10 + compact_bytes(encode_utf8(ev2).len() as u64).len() as int
                                + encode_utf8(ev2).len() as int,
                        ) =~= encode_utf8(ev2));
                    }
                }
            }
            return Err(MarketError::DecodeError);
        },
    };
    proof {
        // The consumed prefix is exactly the wire form of what was read.
        lemma_pow256_vals();
        assert(valid_utf8(evb@));
        decode_utf8_encode_utf8(evb@);
        assert(encode_utf8(ev@) == evb@);
        assert(encode_utf8(ev@).len() == len as int);
        assert(encode_utf8(ev@).len() as u64 == len_u);
        let sub8 = b@.subrange(0, 8);
        lemma_le_bytes_of_val(sub8);
        assert(sub8 == le_bytes(mid as int, 8));
        lemma_le_bytes_len(mid as int, 8);
        assert(b@.subrange(10, after as int) == compact_bytes(len_u));
        lemma_compact_shape(len_u);
        assert(b@ =~= result_bytes(mid, w, c, ev@) + b@.subrange(end as int, b@.len() as int));
        assert forall|mid2: u64, w2: u8, c2: u8, ev2: Seq<char>, t: Seq<u8>|
            b@ == #[trigger] (result_bytes(mid2, w2, c2, ev2) + t) implies mid2 == mid && w2 == w
            && c2 == c && ev2 == ev@ by {
            lemma_result_bytes_parts(b@, mid2, w2, c2, ev2, t);
            let cl = compact_bytes(encode_utf8(ev2).len() as u64).len() as int;
            assert(after as int == 10 + cl && len_u as int == encode_utf8(ev2).len());
            assert(b@.subrange(after as int, end as int) =~= encode_utf8(ev2));
            assert(encode_utf8(ev2) == encode_utf8(ev@));
            encode_utf8_decode_utf8(ev2);
            encode_utf8_decode_utf8(ev@);
        }
    }
    let res = ResolutionResult {
        market_id: mid,
        winning_option: w,
        confidence_pct: c,
        evidence_summary: ev,
    };
    proof {
        let tw = b@.subrange(end as int, b@.len() as int);
        assert(starts_with_result(
            b@,
            res.market_id,
            res.winning_option,
            res.confidence_pct,
            res.evidence_summary@,
        )) by {
            assert(b@ == result_bytes(
                res.market_id,
                res.winning_option,
                res.confidence_pct,
                res.evidence_summary@,
            ) + tw);
        }
    }
    Ok(res)
}

/// If a result's wire form starts the buffer, the fixed head fields are the
/// ones read back directly.
proof fn lemma_result_bytes_head(b: Seq<u8>, mid: u64, w: u8, c: u8)
    requires
        b.len() >= 10,
        b.len() <= u64::MAX as int,
        mid as int == le_val(b.subrange(0, 8)),
        w == b[8],
        c == b[9],
    ensures
        forall|mid2: u64, w2: u8, c2: u8, ev: Seq<char>, t: Seq<u8>|
            b == #[trigger] (result_bytes(mid2, w2, c2, ev) + t) ==> mid2 == mid && w2 == w && c2
                == c,
{
    assert forall|mid2: u64, w2: u8, c2: u8, ev: Seq<char>, t: Seq<u8>|
        b == #[trigger] (result_bytes(mid2, w2, c2, ev) + t) implies mid2 == mid && w2 == w && c2
        == c by {
        lemma_result_bytes_parts(b, mid2, w2, c2, ev, t);
    }
}

/// Locate every component of a result's wire form inside the buffer.
proof fn lemma_result_bytes_parts(b: Seq<u8>, mid: u64, w: u8, c: u8, ev: Seq<char>, t: Seq<u8>)
    requires
        b == result_bytes(mid, w, c, ev) + t,
        b.len() <= u64::MAX as int,
    ensures
        b.len() >= 11,
        b.subrange(0, 8) == le_bytes(mid as int, 8),
        le_val(b.subrange(0, 8)) == mid as int,
        b[8] == w,
        b[9] == c,
        bytes_at(b, 10, compact_bytes(encode_utf8(ev).len() as u64)),
        encode_utf8(ev).len() as u64 as int == encode_utf8(ev).len(),
        ({
            let cl = compact_bytes(encode_utf8(ev).len() as u64).len() as int;
            &&& 10 + cl + encode_utf8(ev).len() <= b.len()
            &&& b.subrange(10 + cl, 10 + cl + encode_utf8(ev).len() as int) == encode_utf8(ev)
        }),
{
    let eb = encode_utf8(ev);
    lemma_le_bytes_len(mid as int, 8);
    lemma_compact_shape(eb.len() as u64);
    let cb = compact_bytes(eb.len() as u64);
    let rb = result_bytes(mid, w, c, ev);
    assert(rb.len() == 10 + cb.len() + eb.len());
    assert(eb.len() <= b.len());
    assert(b.subrange(0, 8) =~= le_bytes(mid as int, 8));
    lemma_pow256_vals();
    lemma_le_val_of_bytes(mid as int, 8);
    assert(b[8] == w && b[9] == c);
    assert(b.subrange(10, 10 + cb.len() as int) =~= cb);
    assert(b.subrange(10 + cb.len() as int, 10 + cb.len() as int + eb.len() as int) =~= eb);
}

} // verus!
