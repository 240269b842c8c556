//! Tests for each error kind and for the documented behaviors of the
//! lifecycle, resolution, and payout rules.

use prediction_market::account_from_hex;
use prediction_market::ledger::claim_amount;
use prediction_market::protocol::encode_resolution_result;
use prediction_market::{
    AgentCallbackPayload, MarketError, MarketStatus, Position, PredictionMarket, ResolutionResult,
};

fn admin() -> [u8; 32] {
    [1u8; 32]
}

fn creator() -> [u8; 32] {
    [10u8; 32]
}

fn oracle() -> [u8; 32] {
    [11u8; 32]
}

fn user(n: u8) -> [u8; 32] {
    [n; 32]
}

fn fresh_market(options: usize, deadline: u64) -> (PredictionMarket, u64) {
    let mut contract = PredictionMarket::new(admin());
    contract.set_market_creator(admin(), creator()).unwrap();
    contract.set_resolver_oracle(admin(), oracle()).unwrap();
    let labels: Vec<String> = (0..options).map(|i| format!("Option {}", i)).collect();
    let id = contract
        .create_market(
            creator(),
            "Question?".into(),
            labels,
            "Criteria".into(),
            "Source".into(),
            deadline,
        )
        .unwrap();
    (contract, id)
}

fn resolve(contract: &mut PredictionMarket, market_id: u64, winner: u8, block: u64) {
    contract.request_resolution(market_id, block).unwrap();
    let result = ResolutionResult {
        market_id,
        winning_option: winner,
        confidence_pct: 90,
        evidence_summary: "observed".into(),
    };
    let callback = AgentCallbackPayload {
        request_id: 7,
        run_id: 7,
        success: true,
        output: encode_resolution_result(&result),
    };
    contract.on_resolution_complete(callback).unwrap();
}

#[test]
fn create_without_creator_configured_is_authorization_error() {
    let mut contract = PredictionMarket::new(admin());
    let r = contract.create_market(
        creator(),
        "Q?".into(),
        vec!["A".into(), "B".into()],
        "C".into(),
        "S".into(),
        10,
    );
    assert_eq!(r, Err(MarketError::AuthorizationError));
    assert!(contract.get_market(0).is_none());
}

#[test]
fn create_by_wrong_caller_is_authorization_error() {
    let mut contract = PredictionMarket::new(admin());
    contract.set_market_creator(admin(), creator()).unwrap();
    let r = contract.create_market(
        user(9),
        "Q?".into(),
        vec!["A".into(), "B".into()],
        "C".into(),
        "S".into(),
        10,
    );
    assert_eq!(r, Err(MarketError::AuthorizationError));
    assert!(contract.get_market(0).is_none());
}

#[test]
fn create_with_too_few_or_too_many_options_is_validation_error() {
    let mut contract = PredictionMarket::new(admin());
    contract.set_market_creator(admin(), creator()).unwrap();
    let r = contract.create_market(
        creator(),
        "Q?".into(),
        vec!["only".into()],
        "C".into(),
        "S".into(),
        10,
    );
    assert_eq!(r, Err(MarketError::ValidationError));
    let labels: Vec<String> = (0..11).map(|i| format!("L{}", i)).collect();
    let r = contract.create_market(creator(), "Q?".into(), labels, "C".into(), "S".into(), 10);
    assert_eq!(r, Err(MarketError::ValidationError));
    assert!(contract.get_market(0).is_none());

    // Exactly ten options is still accepted.
    let labels: Vec<String> = (0..10).map(|i| format!("L{}", i)).collect();
    assert!(contract.create_market(creator(), "Q?".into(), labels, "C".into(), "S".into(), 10).is_ok());
}

#[test]
fn bet_on_missing_market_is_not_found_error() {
    let (mut contract, _) = fresh_market(2, 10);
    assert_eq!(contract.place_bet(user(5), 42, 0, 10), Err(MarketError::NotFoundError));
}

#[test]
fn bet_changes_exactly_the_two_touched_slots() {
    let (mut contract, id) = fresh_market(3, 10);
    contract.place_bet(user(5), id, 1, 70).unwrap();
    contract.place_bet(user(5), id, 1, 30).unwrap();

    let market = contract.get_market(id).unwrap();
    assert_eq!(market.shares_per_option, vec![0, 100, 0]);
    assert_eq!(market.total_pool(), 100);

    let pos = contract.get_position(id, user(5));
    assert_eq!(pos.shares, vec![0, 100, 0]);
    // Nobody else gained a position.
    assert_eq!(contract.get_position(id, user(6)).shares, Vec::<u64>::new());
}

#[test]
fn zero_amount_bet_is_accepted_as_a_no_op_write() {
    let (mut contract, id) = fresh_market(2, 10);
    assert!(contract.place_bet(user(5), id, 0, 0).is_ok());
    let market = contract.get_market(id).unwrap();
    assert_eq!(market.total_pool(), 0);
    assert_eq!(contract.get_position(id, user(5)).shares, vec![0, 0]);
}

#[test]
fn bet_on_closed_market_is_state_error() {
    let (mut contract, id) = fresh_market(2, 10);
    contract.request_resolution(id, 10).unwrap();
    assert_eq!(contract.place_bet(user(5), id, 0, 10), Err(MarketError::StateError));
}

#[test]
fn invalid_option_index_leaves_state_untouched() {
    let (mut contract, id) = fresh_market(2, 10);
    contract.place_bet(user(5), id, 0, 25).unwrap();
    let r = contract.place_bet(user(5), id, 5, 100);
    assert_eq!(r, Err(MarketError::ValidationError));
    let market = contract.get_market(id).unwrap();
    assert_eq!(market.shares_per_option, vec![25, 0]);
    assert_eq!(contract.get_position(id, user(5)).shares, vec![25, 0]);
}

#[test]
fn request_resolution_before_deadline_is_state_error() {
    let (mut contract, id) = fresh_market(2, 100);
    assert!(matches!(contract.request_resolution(id, 99), Err(MarketError::StateError)));
    assert_eq!(contract.get_market(id).unwrap().status, MarketStatus::Open);
}

#[test]
fn request_resolution_at_deadline_moves_to_pending() {
    let (mut contract, id) = fresh_market(2, 100);
    let req = contract.request_resolution(id, 100).unwrap();
    assert_eq!(req.ttl_blocks, 100);
    let cb = req.callback.unwrap();
    assert_eq!(cb.selector, [0x04, 0x00, 0x00, 0x01]);
    assert_eq!(cb.gas_limit, 1_000_000_000);
    assert_eq!(contract.get_market(id).unwrap().status, MarketStatus::PendingResolution);

    // A second request finds the market no longer open.
    assert!(matches!(contract.request_resolution(id, 101), Err(MarketError::StateError)));
}

#[test]
fn request_resolution_without_oracle_is_config_error() {
    let mut contract = PredictionMarket::new(admin());
    contract.set_market_creator(admin(), creator()).unwrap();
    let id = contract
        .create_market(creator(), "Q?".into(), vec!["A".into(), "B".into()], "C".into(), "S".into(), 5)
        .unwrap();
    assert!(matches!(contract.request_resolution(id, 9), Err(MarketError::ConfigError)));
    assert_eq!(contract.get_market(id).unwrap().status, MarketStatus::Open);
}

#[test]
fn failed_oracle_callback_is_external_failure_and_changes_nothing() {
    let (mut contract, id) = fresh_market(2, 10);
    contract.request_resolution(id, 10).unwrap();
    let callback = AgentCallbackPayload { request_id: 1, run_id: 1, success: false, output: vec![] };
    assert_eq!(contract.on_resolution_complete(callback), Err(MarketError::ExternalFailure));
    assert_eq!(contract.get_market(id).unwrap().status, MarketStatus::PendingResolution);
}

#[test]
fn undecodable_callback_payload_is_decode_error() {
    let (mut contract, id) = fresh_market(2, 10);
    contract.request_resolution(id, 10).unwrap();
    let callback = AgentCallbackPayload {
        request_id: 1,
        run_id: 1,
        success: true,
        output: vec![1, 2, 3],
    };
    assert_eq!(contract.on_resolution_complete(callback), Err(MarketError::DecodeError));
    assert_eq!(contract.get_market(id).unwrap().status, MarketStatus::PendingResolution);
}

#[test]
fn callback_for_unknown_market_is_not_found_error() {
    let (mut contract, id) = fresh_market(2, 10);
    contract.request_resolution(id, 10).unwrap();
    let result = ResolutionResult {
        market_id: 99,
        winning_option: 0,
        confidence_pct: 50,
        evidence_summary: "".into(),
    };
    let callback = AgentCallbackPayload {
        request_id: 1,
        run_id: 1,
        success: true,
        output: encode_resolution_result(&result),
    };
    assert_eq!(contract.on_resolution_complete(callback), Err(MarketError::NotFoundError));
}

#[test]
fn callback_with_winner_out_of_range_is_validation_error() {
    let (mut contract, id) = fresh_market(2, 10);
    contract.request_resolution(id, 10).unwrap();
    let result = ResolutionResult {
        market_id: id,
        winning_option: 2,
        confidence_pct: 50,
        evidence_summary: "".into(),
    };
    let callback = AgentCallbackPayload {
        request_id: 1,
        run_id: 1,
        success: true,
        output: encode_resolution_result(&result),
    };
    assert_eq!(contract.on_resolution_complete(callback), Err(MarketError::ValidationError));
    let market = contract.get_market(id).unwrap();
    assert_eq!(market.status, MarketStatus::PendingResolution);
    assert_eq!(market.winning_option, None);
}

#[test]
fn callback_on_open_market_is_state_error() {
    let (mut contract, id) = fresh_market(2, 10);
    let result = ResolutionResult {
        market_id: id,
        winning_option: 0,
        confidence_pct: 50,
        evidence_summary: "".into(),
    };
    let callback = AgentCallbackPayload {
        request_id: 1,
        run_id: 1,
        success: true,
        output: encode_resolution_result(&result),
    };
    assert_eq!(contract.on_resolution_complete(callback), Err(MarketError::StateError));
}

#[test]
fn claim_before_resolution_is_state_error() {
    let (mut contract, id) = fresh_market(2, 10);
    contract.place_bet(user(5), id, 0, 10).unwrap();
    assert_eq!(contract.claim_winnings(user(5), id), Err(MarketError::StateError));
}

#[test]
fn claim_payout_is_floored_proportional_share() {
    let (mut contract, id) = fresh_market(2, 10);
    // Winning pool 3 (two winners of 1 and 2), losing pool 7: total 10.
    contract.place_bet(user(5), id, 0, 1).unwrap();
    contract.place_bet(user(6), id, 0, 2).unwrap();
    contract.place_bet(user(7), id, 1, 7).unwrap();
    resolve(&mut contract, id, 0, 10);

    // floor(1 * 10 / 3) = 3 and floor(2 * 10 / 3) = 6.
    assert_eq!(contract.claim_winnings(user(5), id).unwrap(), 3);
    assert_eq!(contract.claim_winnings(user(6), id).unwrap(), 6);
}

#[test]
fn second_claim_is_not_found_error() {
    let (mut contract, id) = fresh_market(2, 10);
    contract.place_bet(user(5), id, 0, 100).unwrap();
    resolve(&mut contract, id, 0, 10);
    assert_eq!(contract.claim_winnings(user(5), id).unwrap(), 100);
    assert_eq!(contract.claim_winnings(user(5), id), Err(MarketError::NotFoundError));
}

#[test]
fn claim_without_position_is_not_found_error() {
    let (mut contract, id) = fresh_market(2, 10);
    contract.place_bet(user(5), id, 0, 100).unwrap();
    resolve(&mut contract, id, 0, 10);
    assert_eq!(contract.claim_winnings(user(9), id), Err(MarketError::NotFoundError));
}

#[test]
fn claim_with_zero_winning_shares_is_validation_error() {
    let (mut contract, id) = fresh_market(2, 10);
    contract.place_bet(user(5), id, 0, 100).unwrap();
    contract.place_bet(user(6), id, 1, 40).unwrap();
    resolve(&mut contract, id, 0, 10);
    // The loser forfeits: claiming with shares only on the losing option fails.
    assert_eq!(contract.claim_winnings(user(6), id), Err(MarketError::ValidationError));
}

#[test]
fn untouched_three_option_market_quotes_equal_floored_odds() {
    let (contract, id) = fresh_market(3, 10);
    assert_eq!(contract.get_implied_odds(id).unwrap(), vec![33, 33, 33]);
}

#[test]
fn implied_odds_of_missing_market_is_none() {
    let contract = PredictionMarket::new(admin());
    assert!(contract.get_implied_odds(3).is_none());
}

#[test]
fn position_helpers_report_totals_and_emptiness() {
    let mut pos = Position::new(3);
    assert!(pos.is_empty());
    assert_eq!(pos.total_shares(), 0);
    pos.shares[1] = 4;
    pos.shares[2] = 6;
    assert!(!pos.is_empty());
    assert_eq!(pos.total_shares(), 10);
}

#[test]
fn default_market_status_is_open() {
    assert_eq!(MarketStatus::default(), MarketStatus::Open);
}

#[test]
fn claim_amount_floors_and_guards_empty_pool() {
    assert_eq!(claim_amount(1, 10, 3), Ok(3));
    assert_eq!(claim_amount(2, 10, 3), Ok(6));
    assert_eq!(claim_amount(3, 10, 3), Ok(10));
    assert_eq!(claim_amount(0, 10, 0), Err(MarketError::ArithmeticError));
}

#[test]
fn account_from_hex_parses_with_and_without_prefix() {
    let expected = [0xABu8; 32];
    assert_eq!(account_from_hex(&"ab".repeat(32)), Some(expected));
    assert_eq!(account_from_hex(&format!("0x{}", "AB".repeat(32))), Some(expected));
    let mixed = account_from_hex("0x0102030405060708090a0b0c0d0e0f101112131415161718191a1b1c1d1e1f20");
    assert_eq!(
        mixed,
        Some([
            1, 2, 3, 4, 5, 6, 7, 8, 9, 10, 11, 12, 13, 14, 15, 16, 17, 18, 19, 20, 21, 22, 23,
            24, 25, 26, 27, 28, 29, 30, 31, 32
        ])
    );
}

#[test]
fn account_from_hex_rejects_bad_input() {
    assert_eq!(account_from_hex("ab"), None);
    assert_eq!(account_from_hex(&"ab".repeat(33)), None);
    assert_eq!(account_from_hex(&"zz".repeat(32)), None);
    assert_eq!(account_from_hex(""), None);
}
