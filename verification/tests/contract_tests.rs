//! End-to-end tests of the ledger operations.

use prediction_market::protocol::encode_resolution_result;
use prediction_market::{
    AgentCallbackPayload, MarketStatus, PredictionMarket, ResolutionResult,
};

fn alice() -> [u8; 32] {
    [1u8; 32]
}

fn bob() -> [u8; 32] {
    [2u8; 32]
}

fn charlie() -> [u8; 32] {
    [3u8; 32]
}

fn market_creator() -> [u8; 32] {
    [10u8; 32]
}

fn resolver_oracle() -> [u8; 32] {
    [11u8; 32]
}

#[test]
fn test_constructor() {
    let contract = PredictionMarket::new(alice());
    assert_eq!(contract.config.admin, alice());
    assert!(contract.config.market_creator_agent.is_none());
    assert!(contract.config.resolver_oracle_agent.is_none());
}

#[test]
fn test_set_agents() {
    let mut contract = PredictionMarket::new(alice());

    // Admin can set agents
    assert!(contract.set_market_creator(alice(), market_creator()).is_ok());
    assert!(contract.set_resolver_oracle(alice(), resolver_oracle()).is_ok());

    assert_eq!(contract.config.market_creator_agent, Some(market_creator()));
    assert_eq!(contract.config.resolver_oracle_agent, Some(resolver_oracle()));

    // Non-admin cannot
    assert!(contract.set_market_creator(bob(), bob()).is_err());
}

#[test]
fn test_create_binary_market() {
    let mut contract = PredictionMarket::new(alice());
    contract.set_market_creator(alice(), market_creator()).unwrap();

    // Binary market with Yes/No
    let market_id = contract
        .create_market(
            market_creator(),
            "Will BTC hit 100k?".into(),
            vec!["Yes".into(), "No".into()],
            "Price >= $100,000 on CoinGecko".into(),
            "https://coingecko.com".into(),
            100,
        )
        .unwrap();

    assert_eq!(market_id, 0);

    let market = contract.get_market(0).unwrap();
    assert_eq!(market.question, "Will BTC hit 100k?");
    assert_eq!(market.options.len(), 2);
    assert!(market.is_binary());
    assert_eq!(market.status, MarketStatus::Open);
}

#[test]
fn test_create_multi_option_market() {
    let mut contract = PredictionMarket::new(alice());
    contract.set_market_creator(alice(), market_creator()).unwrap();

    // Multi-option market
    let market_id = contract
        .create_market(
            market_creator(),
            "Who will win the championship?".into(),
            vec!["Team A".into(), "Team B".into(), "Team C".into(), "Draw".into()],
            "Official tournament results".into(),
            "https://tournament.com".into(),
            1000,
        )
        .unwrap();

    let market = contract.get_market(market_id).unwrap();
    assert_eq!(market.options.len(), 4);
    assert!(!market.is_binary());
}

#[test]
fn test_place_bet_multi_option() {
    let mut contract = PredictionMarket::new(alice());
    contract.set_market_creator(alice(), market_creator()).unwrap();

    contract
        .create_market(
            market_creator(),
            "Test?".into(),
            vec!["A".into(), "B".into(), "C".into()],
            "Criteria".into(),
            "Source".into(),
            100,
        )
        .unwrap();

    // Place bets on different options
    contract.place_bet(alice(), 0, 0, 100).unwrap(); // Alice bets on A
    contract.place_bet(bob(), 0, 1, 200).unwrap(); // Bob bets on B
    contract.place_bet(charlie(), 0, 2, 150).unwrap(); // Charlie bets on C

    let market = contract.get_market(0).unwrap();
    assert_eq!(market.shares_per_option[0], 100);
    assert_eq!(market.shares_per_option[1], 200);
    assert_eq!(market.shares_per_option[2], 150);
    assert_eq!(market.total_pool(), 450);

    let alice_pos = contract.get_position(0, alice());
    assert_eq!(alice_pos.shares, vec![100, 0, 0]);
}

#[test]
fn test_implied_odds() {
    let mut contract = PredictionMarket::new(alice());
    contract.set_market_creator(alice(), market_creator()).unwrap();

    contract
        .create_market(
            market_creator(),
            "Test?".into(),
            vec!["A".into(), "B".into()],
            "Criteria".into(),
            "Source".into(),
            100,
        )
        .unwrap();

    // No bets - equal odds
    let odds = contract.get_implied_odds(0).unwrap();
    assert_eq!(odds, vec![50, 50]);

    // After bets: 75% on A, 25% on B
    contract.place_bet(alice(), 0, 0, 300).unwrap();
    contract.place_bet(bob(), 0, 1, 100).unwrap();

    let odds = contract.get_implied_odds(0).unwrap();
    assert_eq!(odds, vec![75, 25]);
}

#[test]
fn test_full_lifecycle_multi_option() {
    let mut contract = PredictionMarket::new(alice());
    contract.set_market_creator(alice(), market_creator()).unwrap();
    contract.set_resolver_oracle(alice(), resolver_oracle()).unwrap();

    // Create market with 3 options
    let market_id = contract
        .create_market(
            market_creator(),
            "Which team wins?".into(),
            vec!["Team A".into(), "Team B".into(), "Draw".into()],
            "Official results".into(),
            "tournament.com".into(),
            100,
        )
        .unwrap();

    // Place bets
    contract.place_bet(alice(), market_id, 0, 100).unwrap(); // Team A
    contract.place_bet(bob(), market_id, 1, 100).unwrap(); // Team B
    contract.place_bet(charlie(), market_id, 2, 100).unwrap(); // Draw

    // Request resolution (after deadline)
    let request = contract.request_resolution(market_id, 101).unwrap();
    assert_eq!(request.target_agent, resolver_oracle());

    // Simulate callback (Team B wins - option index 1)
    let result = ResolutionResult {
        market_id,
        winning_option: 1, // Team B
        confidence_pct: 95,
        evidence_summary: "Team B won 3-1".into(),
    };

    let callback = AgentCallbackPayload {
        request_id: 1,
        run_id: 1,
        success: true,
        output: encode_resolution_result(&result),
    };

    contract.on_resolution_complete(callback).unwrap();

    let market = contract.get_market(market_id).unwrap();
    assert_eq!(market.status, MarketStatus::Resolved);
    assert_eq!(market.winning_option, Some(1));

    // Bob (Team B) wins - gets entire pool
    let bob_payout = contract.claim_winnings(bob(), market_id).unwrap();
    assert_eq!(bob_payout, 300); // Gets entire pool

    // Others have no winning shares
    assert!(contract.claim_winnings(alice(), market_id).is_err());
    assert!(contract.claim_winnings(charlie(), market_id).is_err());
}

#[test]
fn test_invalid_option_index() {
    let mut contract = PredictionMarket::new(alice());
    contract.set_market_creator(alice(), market_creator()).unwrap();

    contract
        .create_market(
            market_creator(),
            "Test?".into(),
            vec!["A".into(), "B".into()],
            "Criteria".into(),
            "Source".into(),
            100,
        )
        .unwrap();

    // Try to bet on non-existent option
    assert!(contract.place_bet(alice(), 0, 5, 100).is_err());
}
