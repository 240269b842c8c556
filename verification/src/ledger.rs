//! The ledger: all persistent state, and the market lifecycle operations.
//!
//! Markets are stored in creation order, so a market's identifier is its
//! index; positions are an association list keyed by (market, account) with
//! unique keys. Iteration order is never part of any contract.

use vstd::prelude::*;

use crate::errors::MarketError;
use crate::types::{
    accounts_equal, lemma_total_slot_bound, lemma_total_update, lemma_total_zero, total, AccountId,
    Balance, BlockNumber, Config, Market, MarketId, MarketStatus, OptionIndex, Position,
    MAX_OPTIONS,
};

verus! {

/// The fields of a market that betting never touches.
pub open spec fn market_fields_eq(m0: Market, m1: Market) -> bool {
    &&& m1.id == m0.id
    &&& m1.question == m0.question
    &&& m1.options == m0.options
    &&& m1.resolution_criteria == m0.resolution_criteria
    &&& m1.resolution_source == m0.resolution_source
    &&& m1.creator@ == m0.creator@
    &&& m1.resolution_deadline == m0.resolution_deadline
}

/// The floored proportional payout never exceeds the whole pool.
proof fn lemma_payout_bound(ws: int, tp: int, wp: int)
    requires
        0 <= ws <= wp,
        0 < wp,
        0 <= tp,
    ensures
        0 <= ws * tp / wp <= tp,
{
    vstd::arithmetic::mul::lemma_mul_inequality(ws, wp, tp);
    vstd::arithmetic::div_mod::lemma_div_is_ordered(ws * tp, wp * tp, wp);
    vstd::arithmetic::div_mod::lemma_div_multiples_vanish(tp, wp);
    vstd::arithmetic::mul::lemma_mul_nonnegative(ws, tp);
    vstd::arithmetic::div_mod::lemma_div_is_ordered(0, ws * tp, wp);
}

/// The parimutuel payout: the winning shares' floored proportional slice of
/// the whole pool, computed with wide intermediate precision. Refused, with
/// `ArithmeticError`, when the winning pool is empty; the division is never
/// allowed to fault.
pub fn claim_amount(user_shares: Balance, total_pool: Balance, winning_pool: Balance) -> (r:
    Result<Balance, MarketError>)
    requires
        user_shares <= winning_pool,
    ensures
        r is Ok <==> winning_pool != 0,
        r matches Ok(p) ==> p == user_shares * total_pool / (winning_pool as int),
        r matches Err(e) ==> e == MarketError::ArithmeticError,
{
    if winning_pool == 0 {
        return Err(MarketError::ArithmeticError);
    }
    proof {
        lemma_payout_bound(user_shares as int, total_pool as int, winning_pool as int);
        vstd::arithmetic::mul::lemma_mul_upper_bound(
            user_shares as int,
            u64::MAX as int,
            total_pool as int,
            u64::MAX as int,
        );
    }
    let wide: u128 = (user_shares as u128) * (total_pool as u128) / (winning_pool as u128);
    Ok(wide as u64)
}

/// The whole ledger: configuration, markets, and user positions.
pub struct PredictionMarket {
    /// Ledger configuration.
    pub config: Config,
    /// Next market id to assign; equals the number of markets created.
    pub next_market_id: MarketId,
    /// All markets, indexed by their id.
    pub markets: Vec<Market>,
    /// User positions, keyed by (market id, account).
    pub positions: Vec<((MarketId, AccountId), Position)>,
}

impl PredictionMarket {
    /// The market stored under `id`, if any.
    pub open spec fn spec_market(self, id: MarketId) -> Option<Market> {
        if (id as int) < self.markets@.len() {
            Some(self.markets@[id as int])
        } else {
            None
        }
    }

    /// Whether the position entry at `j` is keyed by (`mid`, `who`).
    pub open spec fn match_at(self, j: int, mid: MarketId, who: AccountId) -> bool {
        self.positions@[j].0.0 == mid && self.positions@[j].0.1@ == who@
    }

    /// Whether `who` holds a position in market `mid`.
    pub open spec fn has_position(self, mid: MarketId, who: AccountId) -> bool {
        exists|j: int| 0 <= j < self.positions@.len() && self.match_at(j, mid, who)
    }

    /// The index of `who`'s position in market `mid` (unique when `wf()`).
    pub open spec fn position_index(self, mid: MarketId, who: AccountId) -> int {
        choose|j: int| 0 <= j < self.positions@.len() && self.match_at(j, mid, who)
    }

    /// The stored position of `who` in market `mid`.
    pub open spec fn spec_position(self, mid: MarketId, who: AccountId) -> Position {
        self.positions@[self.position_index(mid, who)].1
    }

    /// The keys of position entries `j` and `k` differ.
    pub open spec fn keys_distinct(self, j: int, k: int) -> bool {
        !(self.positions@[j].0.0 == self.positions@[k].0.0
            && self.positions@[j].0.1@ == self.positions@[k].0.1@)
    }

    /// The position entry at `j` refers to a stored market, is index-aligned
    /// with it, and stakes no more per option than the market's whole slot.
    pub open spec fn position_entry_wf(self, j: int) -> bool {
        let mid = self.positions@[j].0.0;
        let p = self.positions@[j].1;
        &&& (mid as int) < self.markets@.len()
        &&& p.shares@.len() == self.markets@[mid as int].options@.len()
        &&& forall|q: int|
            0 <= q < p.shares@.len() ==> p.shares@[q]
                <= self.markets@[mid as int].shares_per_option@[q]
    }

    /// The ledger invariant, established by the constructor and preserved by
    /// every operation.
    pub open spec fn wf(self) -> bool {
        &&& self.next_market_id == self.markets@.len()
        &&& forall|i: int|
            0 <= i < self.markets@.len() ==> (#[trigger] self.markets@[i]).id == i
                && self.markets@[i].wf()
        &&& forall|j: int, k: int|
            0 <= j < self.positions@.len() && 0 <= k < self.positions@.len() && j != k
                ==> #[trigger] self.keys_distinct(j, k)
        &&& forall|j: int| 0 <= j < self.positions@.len() ==> #[trigger] self.position_entry_wf(j)
    }

    /// Well-formedness does not depend on the configuration.
    pub proof fn lemma_wf_unchanged_core(self, other: Self)
        requires
            self.wf(),
            other.markets == self.markets,
            other.positions == self.positions,
            other.next_market_id == self.next_market_id,
        ensures
            other.wf(),
    {
        assert forall|j: int, k: int|
            0 <= j < other.positions@.len() && 0 <= k < other.positions@.len() && j
                != k implies #[trigger] other.keys_distinct(j, k) by {
            assert(self.keys_distinct(j, k));
        }
        assert forall|j: int| 0 <= j < other.positions@.len() implies #[trigger] other.position_entry_wf(
            j,
        ) by {
            assert(self.position_entry_wf(j));
        }
    }

    /// In a well-formed ledger, any matching entry is the chosen one.
    pub proof fn lemma_position_index(self, mid: MarketId, who: AccountId, k: int)
        requires
            self.wf(),
            0 <= k < self.positions@.len(),
            self.match_at(k, mid, who),
        ensures
            self.has_position(mid, who),
            self.position_index(mid, who) == k,
    {
        assert(self.has_position(mid, who));
        let j = self.position_index(mid, who);
        if j != k {
            assert(self.keys_distinct(j, k));
        }
    }

    /// Initialize the ledger with an admin and no agents configured.
    pub fn new(admin: AccountId) -> (r: Self)
        ensures
            r.wf(),
            r.config.admin == admin,
            r.config.market_creator_agent is None,
            r.config.resolver_oracle_agent is None,
            r.next_market_id == 0,
            r.markets@.len() == 0,
            r.positions@.len() == 0,
    {
        PredictionMarket {
            config: Config { admin, market_creator_agent: None, resolver_oracle_agent: None },
            next_market_id: 0,
            markets: Vec::new(),
            positions: Vec::new(),
        }
    }

    /// Set the market creator agent address. Admin only.
    pub fn set_market_creator(&mut self, caller: AccountId, agent_id: AccountId) -> (r: Result<
        (),
        MarketError,
    >)
        ensures
            r is Ok <==> caller@ == old(self).config.admin@,
            r is Err ==> r == Err::<(), MarketError>(MarketError::AuthorizationError)
                && *final(self) == *old(self),
            r is Ok ==> final(self).config.market_creator_agent == Some(agent_id)
                && final(self).config.admin == old(self).config.admin
                && final(self).config.resolver_oracle_agent
                == old(self).config.resolver_oracle_agent,
            final(self).markets == old(self).markets,
            final(self).positions == old(self).positions,
            final(self).next_market_id == old(self).next_market_id,
            old(self).wf() ==> final(self).wf(),
    {
        if !accounts_equal(&caller, &self.config.admin) {
            return Err(MarketError::AuthorizationError);
        }
        self.config.market_creator_agent = Some(agent_id);
        proof {
            if old(self).wf() {
                old(self).lemma_wf_unchanged_core(*self);
            }
        }
        Ok(())
    }

    /// Set the resolver oracle agent address. Admin only.
    pub fn set_resolver_oracle(&mut self, caller: AccountId, agent_id: AccountId) -> (r: Result<
        (),
        MarketError,
    >)
        ensures
            r is Ok <==> caller@ == old(self).config.admin@,
            r is Err ==> r == Err::<(), MarketError>(MarketError::AuthorizationError)
                && *final(self) == *old(self),
            r is Ok ==> final(self).config.resolver_oracle_agent == Some(agent_id)
                && final(self).config.admin == old(self).config.admin
                && final(self).config.market_creator_agent
                == old(self).config.market_creator_agent,
            final(self).markets == old(self).markets,
            final(self).positions == old(self).positions,
            final(self).next_market_id == old(self).next_market_id,
            old(self).wf() ==> final(self).wf(),
    {
        if !accounts_equal(&caller, &self.config.admin) {
            return Err(MarketError::AuthorizationError);
        }
        self.config.resolver_oracle_agent = Some(agent_id);
        proof {
            if old(self).wf() {
                old(self).lemma_wf_unchanged_core(*self);
            }
        }
        Ok(())
    }

    /// Why `create_market` would be refused, or `None` if it succeeds.
    pub open spec fn spec_create_err(self, caller: AccountId, n_options: int) -> Option<
        MarketError,
    > {
        if self.config.market_creator_agent is None {
            Some(MarketError::AuthorizationError)
        } else if self.config.market_creator_agent->0@ != caller@ {
            Some(MarketError::AuthorizationError)
        } else if n_options < 2 || n_options > MAX_OPTIONS as int {
            Some(MarketError::ValidationError)
        } else {
            None
        }
    }

    /// Create a new market. Only the configured creator agent may call; the
    /// option count must be between two and `MAX_OPTIONS`. On success the
    /// market is appended under the next monotonically assigned id, open,
    /// unresolved, and with every pool slot zero.
    pub fn create_market(
        &mut self,
        caller: AccountId,
        question: String,
        options: Vec<String>,
        resolution_criteria: String,
        resolution_source: String,
        resolution_deadline: BlockNumber,
    ) -> (r: Result<MarketId, MarketError>)
        requires
            old(self).wf(),
            old(self).markets@.len() < u64::MAX as int,
        ensures
            final(self).wf(),
            r is Ok <==> old(self).spec_create_err(caller, options@.len() as int) is None,
            r matches Err(e) ==> Some(e) == old(self).spec_create_err(
                caller,
                options@.len() as int,
            ) && *final(self) == *old(self),
            r matches Ok(id) ==> ({
                &&& id == old(self).next_market_id
                &&& final(self).next_market_id == old(self).next_market_id + 1
                &&& final(self).markets@.len() == old(self).markets@.len() + 1
                &&& forall|i: int|
                    0 <= i < old(self).markets@.len() ==> final(self).markets@[i] == old(self).markets@[i]
                &&& ({
                    let m = final(self).markets@[id as int];
                    &&& m.id == id
                    &&& m.question == question
                    &&& m.options == options
                    &&& m.resolution_criteria == resolution_criteria
                    &&& m.resolution_source == resolution_source
                    &&& m.creator@ == caller@
                    &&& m.resolution_deadline == resolution_deadline
                    &&& m.shares_per_option@ == Seq::new(options@.len(), |i: int| 0u64)
                    &&& m.status is Open
                    &&& m.winning_option is None
                })
                &&& final(self).positions == old(self).positions
                &&& final(self).config == old(self).config
            }),
    {
        let creator_agent = match self.config.market_creator_agent {
            Some(a) => a,
            None => {
                return Err(MarketError::AuthorizationError);
            },
        };
        if !accounts_equal(&caller, &creator_agent) {
            return Err(MarketError::AuthorizationError);
        }
        if options.len() < 2 {
            return Err(MarketError::ValidationError);
        }
        if options.len() > MAX_OPTIONS {
            return Err(MarketError::ValidationError);
        }

        let market_id = self.next_market_id;
        self.next_market_id = self.next_market_id + 1;

        let num_options = options.len();
        let shares: Vec<Balance> = vec![0; num_options];
        proof {
            assert(shares@ =~= Seq::new(options@.len(), |i: int| 0u64));
        }
        let market = Market {
            id: market_id,
            question,
            options,
            resolution_criteria,
            resolution_source,
            creator: caller,
            resolution_deadline,
            shares_per_option: shares,
            status: MarketStatus::Open,
            winning_option: None,
        };
        self.markets.push(market);

        proof {
            let o = *old(self);
            let n = *self;
            lemma_total_zero(n.markets@.last().shares_per_option@);
            assert(n.markets@.last().wf());
            assert forall|i: int| 0 <= i < n.markets@.len() implies (
            #[trigger] n.markets@[i]).id == i && n.markets@[i].wf() by {
                if i < o.markets@.len() {
                    assert(o.markets@[i].id == i && o.markets@[i].wf());
                }
            }
            assert forall|j: int, k: int|
                0 <= j < n.positions@.len() && 0 <= k < n.positions@.len() && j
                    != k implies #[trigger] n.keys_distinct(j, k) by {
                assert(o.keys_distinct(j, k));
            }
            assert forall|j: int| 0 <= j < n.positions@.len() implies #[trigger] n.position_entry_wf(
                j,
            ) by {
                assert(o.position_entry_wf(j));
                assert(n.markets@[n.positions@[j].0.0 as int] == o.markets@[o.positions@[j].0.0 as int]);
            }
        }
        Ok(market_id)
    }

    /// Why `place_bet` would be refused, or `None` if it succeeds.
    pub open spec fn spec_bet_err(self, market_id: MarketId, option_index: OptionIndex) -> Option<
        MarketError,
    > {
        match self.spec_market(market_id) {
            None => Some(MarketError::NotFoundError),
            Some(m) => if !(m.status is Open) {
                Some(MarketError::StateError)
            } else if m.options@.len() <= option_index as int {
                Some(MarketError::ValidationError)
            } else {
                None
            },
        }
    }

    /// The machine limit on a bet: the market's pool must not overflow.
    pub open spec fn bet_fits(self, market_id: MarketId, option_index: OptionIndex, amount: Balance) -> bool {
        self.spec_bet_err(market_id, option_index) is None ==> total(
            self.spec_market(market_id)->0.shares_per_option@,
        ) + amount <= u64::MAX as int
    }

    /// Add `amount` to one option's pool and to the caller's position at the
    /// same index, creating the position on a first bet. Exactly those two
    /// slots change, each by `amount`; everything else is untouched. A zero
    /// amount is accepted as a no-op write.
    pub fn place_bet(
        &mut self,
        caller: AccountId,
        market_id: MarketId,
        option_index: OptionIndex,
        amount: Balance,
    ) -> (r: Result<(), MarketError>)
        requires
            old(self).wf(),
            old(self).bet_fits(market_id, option_index, amount),
        ensures
            final(self).wf(),
            r is Ok <==> old(self).spec_bet_err(market_id, option_index) is None,
            r matches Err(e) ==> Some(e) == old(self).spec_bet_err(market_id, option_index)
                && *final(self) == *old(self),
            r is Ok ==> ({
                let m0 = old(self).spec_market(market_id)->0;
                let m1 = final(self).spec_market(market_id)->0;
                let idx = option_index as int;
                &&& final(self).markets@.len() == old(self).markets@.len()
                &&& forall|i: int|
                    0 <= i < old(self).markets@.len() && i != market_id ==> final(self).markets@[i] == old(self).markets@[i]
                &&& market_fields_eq(m0, m1)
                &&& m1.status == m0.status
                &&& m1.winning_option == m0.winning_option
                &&& m1.shares_per_option@ == m0.shares_per_option@.update(
                    idx,
                    (m0.shares_per_option@[idx] + amount) as u64,
                )
                &&& total(m1.shares_per_option@) == total(m0.shares_per_option@) + amount
                &&& (if old(self).has_position(market_id, caller) {
                    let k = old(self).position_index(market_id, caller);
                    let p0 = old(self).positions@[k].1;
                    ({
                        &&& final(self).positions@.len() == old(self).positions@.len()
                        &&& forall|j: int|
                            0 <= j < old(self).positions@.len() && j != k ==> final(self).positions@[j] == old(self).positions@[j]
                        &&& final(self).positions@[k].0 == old(self).positions@[k].0
                        &&& final(self).positions@[k].1.shares@ == p0.shares@.update(
                            idx,
                            (p0.shares@[idx] + amount) as u64,
                        )
                    })
                } else {
                    ({
                        &&& final(self).positions@.len() == old(self).positions@.len() + 1
                        &&& forall|j: int|
                            0 <= j < old(self).positions@.len() ==> final(self).positions@[j]
                                == old(self).positions@[j]
                        &&& final(self).positions@.last().0.0 == market_id
                        &&& final(self).positions@.last().0.1@ == caller@
                        &&& final(self).positions@.last().1.shares@ == Seq::new(
                            m0.options@.len(),
                            |i: int| 0u64,
                        ).update(idx, amount)
                    })
                })
                &&& final(self).config == old(self).config
                &&& final(self).next_market_id == old(self).next_market_id
            }),
    {
        if market_id >= self.markets.len() as u64 {
            return Err(MarketError::NotFoundError);
        }
        let mi = market_id as usize;
        if self.markets[mi].status != MarketStatus::Open {
            return Err(MarketError::StateError);
        }
        let idx = option_index as usize;
        if idx >= self.markets[mi].options.len() {
            return Err(MarketError::ValidationError);
        }

        // Update the market's pool slot.
        let old_slot = self.markets[mi].shares_per_option[idx];
        proof {
            lemma_total_slot_bound(self.markets@[mi as int].shares_per_option@, idx as int);
        }
        self.markets[mi].shares_per_option[idx] = old_slot + amount;
        proof {
            lemma_total_update(
                old(self).markets@[mi as int].shares_per_option@,
                idx as int,
                (old_slot + amount) as u64,
            );
        }

        // Update the caller's position, creating it on a first bet. Stored
        // positions are always index-aligned with their market (`wf`).
        match self.find_position_index(market_id, &caller) {
            Some(k) => {
                proof {
                    old(self).lemma_position_index(market_id, caller, k as int);
                    assert(old(self).position_entry_wf(k as int));
                    lemma_total_slot_bound(
                        old(self).markets@[mi as int].shares_per_option@,
                        idx as int,
                    );
                }
                let cur = self.positions[k].1.shares[idx];
                self.positions[k].1.shares[idx] = cur + amount;
            },
            None => {
                proof {
                    assert(old(self).positions@ == self.positions@);
                    assert forall|j: int|
                        0 <= j < old(self).positions@.len() implies !old(self).match_at(
                        j,
                        market_id,
                        caller,
                    ) by {
                        assert(!self.match_at(j, market_id, caller));
                    }
                    assert(!old(self).has_position(market_id, caller));
                }
                let n_opts = self.markets[mi].options.len();
                let mut new_pos = Position::new(n_opts);
                new_pos.shares[idx] = amount;
                proof {
                    assert(new_pos.shares@ =~= Seq::new(
                        old(self).spec_market(market_id)->0.options@.len(),
                        |i: int| 0u64,
                    ).update(idx as int, amount));
                }
                self.positions.push(((market_id, caller), new_pos));
            },
        }

        proof {
            self.lemma_bet_wf(*old(self), caller, market_id, option_index, amount);
        }
        Ok(())
    }

    /// The state after a successful bet is well-formed again.
    proof fn lemma_bet_wf(
        self,
        pre: Self,
        caller: AccountId,
        market_id: MarketId,
        option_index: OptionIndex,
        amount: Balance,
    )
        requires
            pre.wf(),
            pre.spec_bet_err(market_id, option_index) is None,
            total(pre.spec_market(market_id)->0.shares_per_option@) + amount <= u64::MAX as int,
            self.markets@.len() == pre.markets@.len(),
            forall|i: int|
                0 <= i < pre.markets@.len() && i != market_id ==> self.markets@[i]
                    == pre.markets@[i],
            ({
                let m0 = pre.markets@[market_id as int];
                let m1 = self.markets@[market_id as int];
                &&& market_fields_eq(m0, m1)
                &&& m1.status == m0.status
                &&& m1.winning_option == m0.winning_option
                &&& m1.shares_per_option@ == m0.shares_per_option@.update(
                    option_index as int,
                    (m0.shares_per_option@[option_index as int] + amount) as u64,
                )
            }),
            (if pre.has_position(market_id, caller) {
                let k = pre.position_index(market_id, caller);
                let p0 = pre.positions@[k].1;
                ({
                    &&& self.positions@.len() == pre.positions@.len()
                    &&& forall|j: int|
                        0 <= j < pre.positions@.len() && j != k ==> self.positions@[j]
                            == pre.positions@[j]
                    &&& self.positions@[k].0 == pre.positions@[k].0
                    &&& self.positions@[k].1.shares@ == p0.shares@.update(
                        option_index as int,
                        (p0.shares@[option_index as int] + amount) as u64,
                    )
                })
            } else {
                ({
                    &&& self.positions@.len() == pre.positions@.len() + 1
                    &&& forall|j: int|
                        0 <= j < pre.positions@.len() ==> self.positions@[j] == pre.positions@[j]
                    &&& self.positions@.last().0.0 == market_id
                    &&& self.positions@.last().0.1@ == caller@
                    &&& self.positions@.last().1.shares@ == Seq::new(
                        pre.markets@[market_id as int].options@.len(),
                        |i: int| 0u64,
                    ).update(option_index as int, amount)
                })
            }),
            self.next_market_id == pre.next_market_id,
        ensures
            self.wf(),
    {
        let mid = market_id as int;
        let idx = option_index as int;
        let m0 = pre.markets@[mid];
        let m1 = self.markets@[mid];
        lemma_total_update(
            m0.shares_per_option@,
            idx,
            (m0.shares_per_option@[idx] + amount) as u64,
        );
        lemma_total_slot_bound(m0.shares_per_option@, idx);
        assert(m1.wf());
        assert forall|i: int| 0 <= i < self.markets@.len() implies (
        #[trigger] self.markets@[i]).id == i && self.markets@[i].wf() by {
            assert(pre.markets@[i].id == i && pre.markets@[i].wf());
        }
        assert forall|j: int, k2: int|
            0 <= j < self.positions@.len() && 0 <= k2 < self.positions@.len() && j
                != k2 implies #[trigger] self.keys_distinct(j, k2) by {
            if j < pre.positions@.len() && k2 < pre.positions@.len() {
                assert(pre.keys_distinct(j, k2));
                if pre.has_position(market_id, caller) {
                    let k = pre.position_index(market_id, caller);
                    assert(self.positions@[j].0 == pre.positions@[j].0);
                    assert(self.positions@[k2].0 == pre.positions@[k2].0);
                } else {
                    assert(self.positions@[j].0 == pre.positions@[j].0);
                    assert(self.positions@[k2].0 == pre.positions@[k2].0);
                }
            } else {
                // One of the two is the pushed entry; the scan found no match.
                assert(!pre.has_position(market_id, caller));
                if j < pre.positions@.len() {
                    assert(!pre.match_at(j, market_id, caller));
                    assert(self.positions@[j].0 == pre.positions@[j].0);
                } else {
                    assert(!pre.match_at(k2, market_id, caller));
                    assert(self.positions@[k2].0 == pre.positions@[k2].0);
                }
            }
        }
        assert forall|j: int| 0 <= j < self.positions@.len() implies #[trigger] self.position_entry_wf(
            j,
        ) by {
            if j < pre.positions@.len() {
                assert(pre.position_entry_wf(j));
                let pmid = pre.positions@[j].0.0;
                if pre.has_position(market_id, caller) && j == pre.position_index(
                    market_id,
                    caller,
                ) {
                    assert(pre.match_at(j, market_id, caller));
                    assert(pmid == market_id);
                    assert forall|q: int|
                        0 <= q < self.positions@[j].1.shares@.len() implies self.positions@[j].1.shares@[q]
                        <= self.markets@[pmid as int].shares_per_option@[q] by {
                        assert(pre.positions@[j].1.shares@[q]
                            <= pre.markets@[pmid as int].shares_per_option@[q]);
                    }
                } else {
                    assert(self.positions@[j] == pre.positions@[j]);
                    assert forall|q: int|
                        0 <= q < self.positions@[j].1.shares@.len() implies self.positions@[j].1.shares@[q]
                        <= self.markets@[pmid as int].shares_per_option@[q] by {
                        assert(pre.positions@[j].1.shares@[q]
                            <= pre.markets@[pmid as int].shares_per_option@[q]);
                        if pmid == market_id {
                            assert(self.markets@[pmid as int].shares_per_option@[q]
                                >= pre.markets@[pmid as int].shares_per_option@[q]);
                        } else {
                            assert(self.markets@[pmid as int] == pre.markets@[pmid as int]);
                        }
                    }
                }
            } else {
                // The pushed entry: index-aligned and bounded by the new slot.
                assert(self.positions@[j] == self.positions@.last());
            }
        }
    }

    /// Why `claim_winnings` would be refused, or `None` if it succeeds.
    pub open spec fn spec_claim_err(self, caller: AccountId, market_id: MarketId) -> Option<
        MarketError,
    > {
        match self.spec_market(market_id) {
            None => Some(MarketError::NotFoundError),
            Some(m) => if !(m.status is Resolved) {
                Some(MarketError::StateError)
            } else if !self.has_position(market_id, caller) {
                Some(MarketError::NotFoundError)
            } else {
                let w = m.winning_option->0 as int;
                let p = self.spec_position(market_id, caller);
                if p.shares@.len() <= w || p.shares@[w] == 0 {
                    Some(MarketError::ValidationError)
                } else if m.shares_per_option@[w] == 0 {
                    Some(MarketError::ArithmeticError)
                } else {
                    None
                }
            },
        }
    }

    /// Claim winnings from a resolved market. The payout is the caller's
    /// winning shares' proportional slice of the whole pool, rounded down:
    /// `floor(winning_shares * total_pool / winning_pool)`. On success the
    /// caller's position is deleted entirely, so a position pays out at most
    /// once; shares on losing options are forfeited.
    pub fn claim_winnings(&mut self, caller: AccountId, market_id: MarketId) -> (r: Result<
        Balance,
        MarketError,
    >)
        requires
            old(self).wf(),
        ensures
            final(self).wf(),
            r is Ok <==> old(self).spec_claim_err(caller, market_id) is None,
            r matches Err(e) ==> Some(e) == old(self).spec_claim_err(caller, market_id)
                && *final(self) == *old(self),
            r matches Ok(payout) ==> ({
                let m = old(self).spec_market(market_id)->0;
                let w = m.winning_option->0 as int;
                let p = old(self).spec_position(market_id, caller);
                let k = old(self).position_index(market_id, caller);
                &&& payout == p.shares@[w] * total(m.shares_per_option@) / (m.shares_per_option@[w] as int)
                &&& final(self).positions@ == old(self).positions@.remove(k)
                &&& final(self).markets == old(self).markets
                &&& final(self).config == old(self).config
                &&& final(self).next_market_id == old(self).next_market_id
                &&& !final(self).has_position(market_id, caller)
            }),
    {
        if market_id >= self.markets.len() as u64 {
            return Err(MarketError::NotFoundError);
        }
        let mi = market_id as usize;
        if self.markets[mi].status != MarketStatus::Resolved {
            return Err(MarketError::StateError);
        }
        let winning_idx = match self.markets[mi].winning_option {
            Some(w) => w as usize,
            None => {
                // A resolved market always has a winner set (`wf`).
                proof {
                    assert(false);
                }
                return Err(MarketError::StateError);
            },
        };
        let k = match self.find_position_index(market_id, &caller) {
            Some(k) => k,
            None => {
                return Err(MarketError::NotFoundError);
            },
        };
        proof {
            self.lemma_position_index(market_id, caller, k as int);
            assert(self.position_entry_wf(k as int));
        }
        if winning_idx >= self.positions[k].1.shares.len() {
            return Err(MarketError::ValidationError);
        }
        let winning_shares = self.positions[k].1.shares[winning_idx];
        if winning_shares == 0 {
            return Err(MarketError::ValidationError);
        }
        proof {
            assert(self.markets@[mi as int].wf());
        }
        let total_pool = self.markets[mi].total_pool();
        let winning_pool = self.markets[mi].shares_per_option[winning_idx];
        let payout = match claim_amount(winning_shares, total_pool, winning_pool) {
            Ok(p) => p,
            Err(e) => {
                return Err(e);
            },
        };

        self.positions.remove(k);

        proof {
            let pre = *old(self);
            let ki = k as int;
            pre.positions@.remove_ensures(ki);
            assert forall|i: int| 0 <= i < self.markets@.len() implies (
            #[trigger] self.markets@[i]).id == i && self.markets@[i].wf() by {
                assert(pre.markets@[i].id == i && pre.markets@[i].wf());
            }
            assert forall|j: int, k2: int|
                0 <= j < self.positions@.len() && 0 <= k2 < self.positions@.len() && j
                    != k2 implies #[trigger] self.keys_distinct(j, k2) by {
                let j0 = if j < ki {
                    j
                } else {
                    j + 1
                };
                let k0 = if k2 < ki {
                    k2
                } else {
                    k2 + 1
                };
                assert(self.positions@[j] == pre.positions@[j0]);
                assert(self.positions@[k2] == pre.positions@[k0]);
                assert(pre.keys_distinct(j0, k0));
            }
            assert forall|j: int| 0 <= j < self.positions@.len() implies #[trigger] self.position_entry_wf(
                j,
            ) by {
                let j0 = if j < ki {
                    j
                } else {
                    j + 1
                };
                assert(self.positions@[j] == pre.positions@[j0]);
                assert(pre.position_entry_wf(j0));
            }
            assert forall|j: int| 0 <= j < self.positions@.len() implies !self.match_at(
                j,
                market_id,
                caller,
            ) by {
                let j0 = if j < ki {
                    j
                } else {
                    j + 1
                };
                assert(self.positions@[j] == pre.positions@[j0]);
                if pre.match_at(j0, market_id, caller) {
                    assert(!pre.keys_distinct(j0, ki));
                }
            }
            assert(!self.has_position(market_id, caller));
        }
        Ok(payout)
    }

    /// Get a market by id.
    pub fn get_market(&self, market_id: MarketId) -> (r: Option<&Market>)
        ensures
            match r {
                Some(m) => self.spec_market(market_id) == Some(*m),
                None => self.spec_market(market_id) is None,
            },
    {
        if market_id < self.markets.len() as u64 {
            Some(&self.markets[market_id as usize])
        } else {
            None
        }
    }

    /// Get the ledger configuration.
    pub fn get_config(&self) -> (r: &Config)
        ensures
            *r == self.config,
    {
        &self.config
    }

    /// Find the index of `account`'s position entry in `market_id`, scanning
    /// from the front.
    fn find_position_index(&self, market_id: MarketId, account: &AccountId) -> (r: Option<usize>)
        ensures
            match r {
                Some(k) => (k as int) < self.positions@.len() && self.match_at(
                    k as int,
                    market_id,
                    *account,
                ),
                None => forall|j: int|
                    0 <= j < self.positions@.len() ==> !self.match_at(j, market_id, *account),
            },
    {
        let mut i: usize = 0;
        while i < self.positions.len()
            invariant
                0 <= i <= self.positions@.len(),
                forall|j: int| 0 <= j < i ==> !self.match_at(j, market_id, *account),
            decreases self.positions@.len() - i,
        {
            if self.positions[i].0.0 == market_id && accounts_equal(&self.positions[i].0.1, account)
            {
                return Some(i);
            }
            i = i + 1;
        }
        None
    }

    /// Get `account`'s position in a market; an empty position if none is
    /// stored.
    pub fn get_position(&self, market_id: MarketId, account: AccountId) -> (r: Position)
        requires
            self.wf(),
        ensures
            self.has_position(market_id, account) ==> r.shares@ == self.spec_position(
                market_id,
                account,
            ).shares@,
            !self.has_position(market_id, account) ==> r.shares@ == Seq::<Balance>::empty(),
    {
        match self.find_position_index(market_id, &account) {
            Some(k) => {
                proof {
                    self.lemma_position_index(market_id, account, k as int);
                }
                self.positions[k].1.clone()
            },
            None => {
                proof {
                    assert(!self.has_position(market_id, account));
                }
                Position { shares: Vec::new() }
            },
        }
    }

    /// Implied odds for each option of a market, if it exists. An untouched
    /// market gets `floor(100 / n)` for every option; otherwise each option
    /// gets its floored percentage share of the pool. Floor rounding means
    /// the percentages may sum to less than one hundred; that shortfall is
    /// accepted, not corrected.
    pub fn get_implied_odds(&self, market_id: MarketId) -> (r: Option<Vec<u8>>)
        requires
            self.wf(),
        ensures
            match r {
                Some(v) => self.spec_market(market_id) matches Some(m) && v@ == spec_odds(m),
                None => self.spec_market(market_id) is None,
            },
    {
        if market_id >= self.markets.len() as u64 {
            return None;
        }
        let mi = market_id as usize;
        proof {
            assert(self.markets@[mi as int].wf());
        }
        let t = self.markets[mi].total_pool();
        let n = self.markets[mi].options.len();
        let mut v: Vec<u8> = Vec::new();
        if t == 0 {
            let equal = (100 / n) as u8;
            let mut i: usize = 0;
            while i < n
                invariant
                    2 <= n,
                    i <= n,
                    equal == (100int / n as int) as u8,
                    v@.len() == i as int,
                    forall|j: int| 0 <= j < i ==> v@[j] == (100int / n as int) as u8,
                decreases n - i,
            {
                v.push(equal);
                i = i + 1;
            }
            proof {
                assert(v@ =~= spec_odds(self.markets@[mi as int]));
            }
            Some(v)
        } else {
            let mut i: usize = 0;
            while i < n
                invariant
                    self.wf(),
                    (mi as int) < self.markets@.len(),
                    n == self.markets@[mi as int].options@.len(),
                    n == self.markets@[mi as int].shares_per_option@.len(),
                    t == total(self.markets@[mi as int].shares_per_option@),
                    t != 0,
                    v@.len() == i as int,
                    i <= n,
                    forall|j: int|
                        0 <= j < i ==> v@[j] == (self.markets@[mi as int].shares_per_option@[j]
                            * 100 / (t as int)) as u8,
                decreases n - i,
            {
                let sh = self.markets[mi].shares_per_option[i];
                proof {
                    lemma_total_slot_bound(self.markets@[mi as int].shares_per_option@, i as int);
                    lemma_payout_bound(sh as int, 100, t as int);
                }
                let wide: u128 = (sh as u128) * 100u128 / (t as u128);
                v.push(wide as u8);
                i = i + 1;
            }
            proof {
                assert(v@ =~= spec_odds(self.markets@[mi as int]));
            }
            Some(v)
        }
    }
}

/// The implied odds of a market: each option's floored percentage share of
/// the pool, or equal floored shares when nothing is staked yet.
pub open spec fn spec_odds(m: Market) -> Seq<u8> {
    let t = total(m.shares_per_option@);
    if t == 0 {
        Seq::new(m.options@.len(), |i: int| (100int / m.options@.len() as int) as u8)
    } else {
        Seq::new(
            m.shares_per_option@.len(),
            |i: int| (m.shares_per_option@[i] * 100 / t) as u8,
        )
    }
}

} // verus!
