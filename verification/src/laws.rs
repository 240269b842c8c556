//! Laws of the ledger that span more than one operation's contract.

use vstd::prelude::*;

use crate::errors::MarketError;
use crate::ledger::{spec_odds, PredictionMarket};
use crate::types::{lemma_total_zero, total, AccountId, Market, MarketId, MAX_OPTIONS};

verus! {

/// Every market stored in a well-formed ledger has between two and
/// `MAX_OPTIONS` options, and its pool vector is index-aligned with them;
/// creation refuses anything else, so no other market ever exists.
pub proof fn lemma_stored_market_option_count(s: PredictionMarket, market_id: MarketId)
    requires
        s.wf(),
        s.spec_market(market_id) is Some,
    ensures
        2 <= s.spec_market(market_id)->0.options@.len() <= MAX_OPTIONS as int,
        s.spec_market(market_id)->0.shares_per_option@.len() == s.spec_market(
            market_id,
        )->0.options@.len(),
{
    assert(s.markets@[market_id as int].id == market_id && s.markets@[market_id as int].wf());
}

/// After a successful claim the claimant's position is gone while the market
/// stays resolved, so a second claim of the same market by the same account
/// reports `NotFoundError`.
pub proof fn lemma_second_claim_fails(s: PredictionMarket, caller: AccountId, market_id: MarketId)
    requires
        s.wf(),
        s.spec_market(market_id) is Some,
        s.spec_market(market_id)->0.status is Resolved,
        !s.has_position(market_id, caller),
    ensures
        s.spec_claim_err(caller, market_id) == Some(MarketError::NotFoundError),
{
}

/// An account whose position holds no shares on the winning option can never
/// claim successfully.
pub proof fn lemma_zero_winning_shares_cannot_claim(
    s: PredictionMarket,
    caller: AccountId,
    market_id: MarketId,
)
    requires
        s.wf(),
        s.spec_market(market_id) is Some,
        s.has_position(market_id, caller),
        ({
            let m = s.spec_market(market_id)->0;
            let p = s.spec_position(market_id, caller);
            m.status is Resolved ==> (m.winning_option->0 as int) < p.shares@.len() && p.shares@[
                m.winning_option->0 as int
            ] == 0
        }),
    ensures
        s.spec_claim_err(caller, market_id) is Some,
{
}

/// A resolution request succeeds exactly when the market is still open and
/// the current block has reached its deadline, for any market that exists
/// while a resolver oracle is configured.
pub proof fn lemma_request_resolution_success_condition(
    s: PredictionMarket,
    market_id: MarketId,
    current_block: u64,
)
    requires
        s.wf(),
        s.spec_market(market_id) is Some,
        s.config.resolver_oracle_agent is Some,
    ensures
        s.spec_request_err(market_id, current_block) is None <==> (s.spec_market(
            market_id,
        )->0.status is Open && current_block >= s.spec_market(market_id)->0.resolution_deadline),
{
}

/// A successful oracle callback applies exactly when the market is pending
/// resolution and the reported winner indexes one of its options; then and
/// only then does the market become resolved.
pub proof fn lemma_callback_success_condition(s: PredictionMarket, market_id: MarketId, winner: u8)
    requires
        s.wf(),
        s.spec_market(market_id) is Some,
    ensures
        s.spec_apply_err(market_id, winner) is None <==> (s.spec_market(
            market_id,
        )->0.status is PendingResolution && (winner as int) < s.spec_market(
            market_id,
        )->0.options@.len()),
{
}

/// An untouched market with `n` options quotes `floor(100 / n)` for every
/// option.
pub proof fn lemma_untouched_market_equal_odds(m: Market)
    requires
        m.wf(),
        forall|i: int| 0 <= i < m.shares_per_option@.len() ==> m.shares_per_option@[i] == 0,
    ensures
        spec_odds(m).len() == m.options@.len(),
        forall|i: int|
            0 <= i < spec_odds(m).len() ==> spec_odds(m)[i] == (100int / m.options@.len() as int)
                as u8,
{
    lemma_total_zero(m.shares_per_option@);
    assert(total(m.shares_per_option@) == 0);
}

} // verus!

