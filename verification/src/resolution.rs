//! The two-phase resolution exchange with the oracle agent.
//!
//! Requesting resolution moves an open market past its deadline into
//! `PendingResolution` and returns the outbound request for the host to
//! dispatch; the oracle's callback, once validated, moves it to `Resolved`.
//! The waiting state lives entirely in the stored status: nothing is held
//! in memory between the two calls.

use vstd::prelude::*;

use crate::errors::MarketError;
use crate::ledger::{market_fields_eq, PredictionMarket};
use crate::protocol::{
    decode_resolution_result, encode_resolution_request, request_bytes, result_bytes,
    starts_with_result, AgentCallbackPayload, CallbackSpec, ContractAgentRequest,
    MarketResolutionRequest,
};
use crate::types::{BlockNumber, MarketId, MarketStatus, OptionIndex};

verus! {

impl PredictionMarket {
    /// Why `request_resolution` would be refused, or `None` if it succeeds.
    pub open spec fn spec_request_err(self, market_id: MarketId, current_block: BlockNumber)
        -> Option<MarketError> {
        match self.spec_market(market_id) {
            None => Some(MarketError::NotFoundError),
            Some(m) => if current_block < m.resolution_deadline {
                Some(MarketError::StateError)
            } else if !(m.status is Open) {
                Some(MarketError::StateError)
            } else if self.config.resolver_oracle_agent is None {
                Some(MarketError::ConfigError)
            } else {
                None
            },
        }
    }

    /// Why the callback's outcome would be refused for market `mid` and
    /// winner `w`, or `None` if it applies.
    pub open spec fn spec_apply_err(self, mid: MarketId, w: OptionIndex) -> Option<MarketError> {
        match self.spec_market(mid) {
            None => Some(MarketError::NotFoundError),
            Some(m) => if !(m.status is PendingResolution) {
                Some(MarketError::StateError)
            } else if m.options@.len() <= w as int {
                Some(MarketError::ValidationError)
            } else {
                None
            },
        }
    }

    /// A change to one market that keeps its pools and alignment keeps the
    /// whole ledger well-formed.
    proof fn lemma_market_update_wf(pre: Self, post: Self, mid: MarketId)
        requires
            pre.wf(),
            post.markets@.len() == pre.markets@.len(),
            forall|i: int|
                0 <= i < pre.markets@.len() && i != mid ==> post.markets@[i] == pre.markets@[i],
            (mid as int) < pre.markets@.len(),
            post.markets@[mid as int].wf(),
            post.markets@[mid as int].id == pre.markets@[mid as int].id,
            post.markets@[mid as int].options@.len() == pre.markets@[mid as int].options@.len(),
            post.markets@[mid as int].shares_per_option == pre.markets@[
                mid as int
            ].shares_per_option,
            post.positions == pre.positions,
            post.next_market_id == pre.next_market_id,
        ensures
            post.wf(),
    {
        assert forall|i: int| 0 <= i < post.markets@.len() implies (
        #[trigger] post.markets@[i]).id == i && post.markets@[i].wf() by {
            assert(pre.markets@[i].id == i && pre.markets@[i].wf());
        }
        assert forall|j: int, k: int|
            0 <= j < post.positions@.len() && 0 <= k < post.positions@.len() && j
                != k implies #[trigger] post.keys_distinct(j, k) by {
            assert(pre.keys_distinct(j, k));
        }
        assert forall|j: int| 0 <= j < post.positions@.len() implies #[trigger] post.position_entry_wf(
            j,
        ) by {
            assert(pre.position_entry_wf(j));
            let pmid = pre.positions@[j].0.0;
            if pmid == mid {
                assert(post.markets@[pmid as int].shares_per_option == pre.markets@[
                    pmid as int
                ].shares_per_option);
            } else {
                assert(post.markets@[pmid as int] == pre.markets@[pmid as int]);
            }
        }
    }

    /// Request resolution of a market. Anyone may call, but only once the
    /// deadline has passed, the market is still open, and a resolver oracle
    /// is configured. Only after every check passes is the market moved to
    /// `PendingResolution`, and the returned request snapshots the market's
    /// question, options, criteria and source for the oracle, with a fixed
    /// time-to-live and a callback descriptor for the settlement entry
    /// point. Delivery belongs to the host; no I/O happens here.
    pub fn request_resolution(&mut self, market_id: MarketId, current_block: BlockNumber) -> (r:
        Result<ContractAgentRequest, MarketError>)
        requires
            old(self).wf(),
        ensures
            final(self).wf(),
            r is Ok <==> old(self).spec_request_err(market_id, current_block) is None,
            r matches Err(e) ==> Some(e) == old(self).spec_request_err(market_id, current_block)
                && *final(self) == *old(self),
            r matches Ok(req) ==> ({
                let m0 = old(self).spec_market(market_id)->0;
                let m1 = final(self).spec_market(market_id)->0;
                &&& final(self).markets@.len() == old(self).markets@.len()
                &&& forall|i: int|
                    0 <= i < old(self).markets@.len() && i != market_id ==> final(self).markets@[i]
                        == old(self).markets@[i]
                &&& market_fields_eq(m0, m1)
                &&& m1.shares_per_option == m0.shares_per_option
                &&& m1.winning_option == m0.winning_option
                &&& m1.status is PendingResolution
                &&& final(self).positions == old(self).positions
                &&& final(self).config == old(self).config
                &&& final(self).next_market_id == old(self).next_market_id
                &&& req.target_agent@ == old(self).config.resolver_oracle_agent->0@
                &&& req.input@ == request_bytes(
                    market_id,
                    m0.question@,
                    m0.options.deep_view(),
                    m0.resolution_criteria@,
                    m0.resolution_source@,
                )
                &&& req.ttl_blocks == 100
                &&& (req.callback matches Some(cb) && cb.selector@ == seq![
                    0x04u8,
                    0x00u8,
                    0x00u8,
                    0x01u8,
                ] && cb.gas_limit == 1_000_000_000)
            }),
    {
        if market_id >= self.markets.len() as u64 {
            return Err(MarketError::NotFoundError);
        }
        let mi = market_id as usize;
        if current_block < self.markets[mi].resolution_deadline {
            return Err(MarketError::StateError);
        }
        if self.markets[mi].status != MarketStatus::Open {
            return Err(MarketError::StateError);
        }
        let resolver = match self.config.resolver_oracle_agent {
            Some(a) => a,
            None => {
                return Err(MarketError::ConfigError);
            },
        };

        self.markets[mi].status = MarketStatus::PendingResolution;

        let request_input = MarketResolutionRequest {
            market_id,
            question: self.markets[mi].question.clone(),
            options: self.markets[mi].options.clone(),
            resolution_criteria: self.markets[mi].resolution_criteria.clone(),
            resolution_source: self.markets[mi].resolution_source.clone(),
        };
        proof {
            let opts = old(self).markets@[mi as int].options;
            assert forall|i: int|
                0 <= i < opts@.len() implies request_input.options@[i] == opts@[i] by {
                assert(vstd::pervasive::cloned(opts@[i], request_input.options@[i]));
            }
            assert(request_input.options@ =~= opts@);
            assert(request_input.options.deep_view() =~= opts.deep_view());
        }
        let input = encode_resolution_request(&request_input);

        let req = ContractAgentRequest {
            target_agent: resolver,
            input,
            ttl_blocks: 100,
            callback: Some(
                CallbackSpec { selector: [0x04, 0x00, 0x00, 0x01], gas_limit: 1_000_000_000 },
            ),
        };
        proof {
            Self::lemma_market_update_wf(*old(self), *self, market_id);
            assert(req.callback->0.selector@ =~= seq![0x04u8, 0x00u8, 0x00u8, 0x01u8]);
        }
        Ok(req)
    }

    /// Apply the oracle's resolution callback. The envelope must report
    /// success and carry a parsable result for a market that is pending
    /// resolution, with a winning option in range; then the market becomes
    /// `Resolved` with that winner recorded. Any failure leaves the ledger
    /// exactly as it was. No sender verification happens here: the host
    /// owns the authenticity of what it delivers.
    pub fn on_resolution_complete(&mut self, callback_payload: AgentCallbackPayload) -> (r: Result<
        (),
        MarketError,
    >)
        requires
            old(self).wf(),
        ensures
            final(self).wf(),
            r is Err ==> *final(self) == *old(self),
            !callback_payload.success ==> r == Err::<(), MarketError>(MarketError::ExternalFailure),
            callback_payload.success ==> ((r == Err::<(), MarketError>(MarketError::DecodeError))
                <==> !(exists|mid: u64, w: u8, c: u8, ev: Seq<char>| #[trigger] starts_with_result(
                callback_payload.output@,
                mid,
                w,
                c,
                ev,
            ))),
            r is Ok ==> callback_payload.success,
            forall|mid: u64, w: u8, c: u8, ev: Seq<char>|
                callback_payload.success && #[trigger] starts_with_result(
                    callback_payload.output@,
                    mid,
                    w,
                    c,
                    ev,
                ) ==> ({
                    &&& (r is Ok <==> old(self).spec_apply_err(mid, w) is None)
                    &&& (r matches Err(e) ==> Some(e) == old(self).spec_apply_err(mid, w))
                    &&& (r is Ok ==> ({
                        let m0 = old(self).spec_market(mid)->0;
                        let m1 = final(self).spec_market(mid)->0;
                        &&& final(self).markets@.len() == old(self).markets@.len()
                        &&& forall|i: int|
                            0 <= i < old(self).markets@.len() && i != mid ==> final(self).markets@[i] == old(self).markets@[i]
                        &&& market_fields_eq(m0, m1)
                        &&& m1.shares_per_option == m0.shares_per_option
                        &&& m1.status is Resolved
                        &&& m1.winning_option == Some(w)
                        &&& final(self).positions == old(self).positions
                        &&& final(self).config == old(self).config
                        &&& final(self).next_market_id == old(self).next_market_id
                    }))
                }),
    {
        if !callback_payload.success {
            return Err(MarketError::ExternalFailure);
        }

        let result = match decode_resolution_result(&callback_payload.output) {
            Ok(x) => x,
            Err(e) => {
                proof {
                    assert forall|mid: u64, w: u8, c: u8, ev: Seq<char>| !starts_with_result(
                        callback_payload.output@,
                        mid,
                        w,
                        c,
                        ev,
                    ) by {
                        if starts_with_result(callback_payload.output@, mid, w, c, ev) {
                            let t = choose|t: Seq<u8>|
                                callback_payload.output@ == result_bytes(mid, w, c, ev) + t;
                            assert(callback_payload.output@ == result_bytes(mid, w, c, ev) + t);
                        }
                    }
                }
                return Err(e);
            },
        };
        let mid = result.market_id;
        let w = result.winning_option;
        proof {
            // Every parse of the payload agrees with the decoded fields.
            assert forall|mid2: u64, w2: u8, c2: u8, ev2: Seq<char>| #[trigger] starts_with_result(
                callback_payload.output@,
                mid2,
                w2,
                c2,
                ev2,
            ) implies mid2 == mid && w2 == w by {
                let t = choose|t: Seq<u8>|
                    callback_payload.output@ == result_bytes(mid2, w2, c2, ev2) + t;
                assert(callback_payload.output@ == result_bytes(mid2, w2, c2, ev2) + t);
            }
        }
        if mid >= self.markets.len() as u64 {
            return Err(MarketError::NotFoundError);
        }
        let mi = mid as usize;
        if self.markets[mi].status != MarketStatus::PendingResolution {
            return Err(MarketError::StateError);
        }
        if w as usize >= self.markets[mi].options.len() {
            return Err(MarketError::ValidationError);
        }

        self.markets[mi].status = MarketStatus::Resolved;
        self.markets[mi].winning_option = Some(w);

        proof {
            Self::lemma_market_update_wf(*old(self), *self, mid);
        }
        Ok(())
    }
}

} // verus!
