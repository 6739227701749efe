use std::collections::HashMap;

use octopus::{ApplicationError, MatchingEngine, Order, PartialOrder, Side, TradingPlatform, Tx};

fn order(side: Side, signer: &str, price: u64, amount: u64) -> Order {
    Order { price, amount, side, signer: signer.to_string() }
}

fn funded(accounts: &[(&str, u64)]) -> TradingPlatform {
    let mut platform = TradingPlatform::new();
    for (signer, amount) in accounts {
        assert!(platform.deposit(signer, *amount).is_ok());
    }
    platform
}

fn replayed(journal: &[Tx]) -> HashMap<String, u64> {
    let mut balances: HashMap<String, u64> = HashMap::new();
    for tx in journal {
        match tx {
            Tx::Deposit { account, amount } => *balances.entry(account.clone()).or_insert(0) += amount,
            Tx::Withdraw { account, amount } => *balances.get_mut(account).unwrap() -= amount,
        }
    }
    balances
}

#[test]
fn journal_replays_to_balances_and_sums_match() {
    let mut platform = funded(&[("ALICE", 100), ("BOB", 100), ("CHARLIE", 50)]);
    assert!(platform.withdraw("CHARLIE", 20).is_ok());
    assert!(platform.send("BOB", "CHARLIE", 5).is_ok());
    assert!(platform.withdraw("BOB", 1000).is_err());
    assert!(platform.order(order(Side::Sell, "ALICE", 10, 3)).is_ok());
    assert!(platform.order(order(Side::Buy, "BOB", 10, 2)).is_ok());
    assert!(platform.order(order(Side::Buy, "CHARLIE", 11, 2)).is_ok());

    let balances = replayed(&platform.transactions);
    let mut total: u64 = 0;
    for (signer, balance) in &balances {
        assert_eq!(platform.balance_of(signer), Ok(balance));
        total += balance;
    }
    assert_eq!(balances.len(), 3);
    let mut net: i64 = 0;
    for tx in &platform.transactions {
        match tx {
            Tx::Deposit { amount, .. } => net += *amount as i64,
            Tx::Withdraw { amount, .. } => net -= *amount as i64,
        }
    }
    assert_eq!(total as i64, net);
    assert_eq!(total, 230);
    assert_eq!(platform.balance_of("ALICE"), Ok(&130));
    assert_eq!(platform.balance_of("BOB"), Ok(&75));
    assert_eq!(platform.balance_of("CHARLIE"), Ok(&25));
}

#[test]
fn receipt_ordinals_strictly_increase() {
    let mut engine = MatchingEngine::new();
    let mut last = 0;
    for (i, side) in [Side::Sell, Side::Buy, Side::Buy, Side::Sell, Side::Sell].iter().enumerate() {
        let receipt = engine.process(order(*side, if i % 2 == 0 { "A" } else { "B" }, 10, 1)).unwrap();
        assert!(receipt.ordinal > last);
        last = receipt.ordinal;
    }
    assert_eq!(last, 5);
    assert_eq!(engine.history.len(), 5);
    for pair in engine.history.windows(2) {
        assert!(pair[0].ordinal < pair[1].ordinal);
    }
}

#[test]
fn emptied_levels_are_removed() {
    let mut engine = MatchingEngine::new();
    engine.process(order(Side::Sell, "A", 10, 1)).unwrap();
    engine.process(order(Side::Sell, "B", 11, 1)).unwrap();
    engine.process(order(Side::Sell, "C", 12, 1)).unwrap();
    engine.process(order(Side::Buy, "D", 11, 2)).unwrap();
    assert_eq!(engine.asks.len(), 1);
    assert_eq!(engine.asks[0].price, 12);
    assert!(engine.bids.is_empty());
    for level in engine.asks.iter().chain(engine.bids.iter()) {
        assert!(!level.orders.is_empty());
    }
}

#[test]
fn self_trade_is_suppressed_and_keeps_priority() {
    let mut engine = MatchingEngine::new();
    engine.process(order(Side::Sell, "ALICE", 10, 1)).unwrap();
    engine.process(order(Side::Sell, "CHARLIE", 10, 1)).unwrap();
    let receipt = engine.process(order(Side::Buy, "ALICE", 10, 2)).unwrap();
    assert_eq!(receipt.matches.len(), 1);
    assert_eq!(receipt.matches[0].signer, "CHARLIE");
    let receipt = engine.process(order(Side::Sell, "BOB", 10, 1)).unwrap();
    assert_eq!(receipt.matches.len(), 1);
    assert_eq!(receipt.matches[0].signer, "ALICE");
    assert_eq!(receipt.matches[0].ordinal, 3);
    let receipt = engine.process(order(Side::Buy, "BOB", 10, 1)).unwrap();
    assert_eq!(receipt.matches.len(), 1);
    assert_eq!(receipt.matches[0].signer, "ALICE");
    assert_eq!(receipt.matches[0].ordinal, 1);
}

#[test]
fn matched_and_rested_quantity_add_up() {
    let mut platform = funded(&[("A", 1000), ("B", 1000), ("C", 1000)]);
    platform.order(order(Side::Sell, "A", 10, 3)).unwrap();
    platform.order(order(Side::Sell, "B", 11, 4)).unwrap();
    let receipt = platform.order(order(Side::Buy, "C", 11, 9)).unwrap();
    let matched: u64 = receipt.matches.iter().map(|m| m.amount).sum();
    assert_eq!(matched, 7);
    let book = platform.orderbook();
    assert_eq!(book.len(), 1);
    assert_eq!(book[0].side, Side::Buy);
    assert_eq!(book[0].amount, 2);
    assert_eq!(book[0].remaining, 2);
    assert_eq!(matched + book[0].amount, 9);
}

#[test]
fn trade_moves_amount_times_price() {
    let mut platform = funded(&[("SELLER", 0), ("BUYER", 1000)]);
    platform.order(order(Side::Sell, "SELLER", 7, 5)).unwrap();
    let receipt = platform.order(order(Side::Buy, "BUYER", 9, 3)).unwrap();
    assert_eq!(receipt.matches.len(), 1);
    assert_eq!(receipt.matches[0].price, 7);
    assert_eq!(receipt.matches[0].amount, 3);
    assert_eq!(platform.balance_of("BUYER"), Ok(&979));
    assert_eq!(platform.balance_of("SELLER"), Ok(&21));
    let receipt = platform.order(order(Side::Sell, "SELLER", 1, 1)).unwrap();
    assert!(receipt.matches.is_empty());
    let receipt = platform.order(order(Side::Buy, "BUYER", 8, 1)).unwrap();
    assert_eq!(receipt.matches[0].price, 1);
    assert_eq!(platform.balance_of("BUYER"), Ok(&978));
    assert_eq!(platform.balance_of("SELLER"), Ok(&22));
    let receipt = platform.order(order(Side::Buy, "BUYER", 6, 1)).unwrap();
    assert!(receipt.matches.is_empty());
    let receipt = platform.order(order(Side::Sell, "SELLER", 5, 1)).unwrap();
    assert_eq!(receipt.matches.len(), 1);
    assert_eq!(receipt.matches[0].signer, "BUYER");
    assert_eq!(receipt.matches[0].price, 6);
    assert_eq!(platform.balance_of("BUYER"), Ok(&972));
    assert_eq!(platform.balance_of("SELLER"), Ok(&28));
}

#[test]
fn underfunded_buy_is_rejected_without_effect() {
    let mut platform = funded(&[("ALICE", 100), ("BOB", 15)]);
    platform.order(order(Side::Sell, "ALICE", 10, 2)).unwrap();
    let book_before = platform.orderbook();
    assert_eq!(
        platform.order(order(Side::Buy, "BOB", 10, 2)),
        Err(ApplicationError::AccountUnderFunded("BOB".to_string(), 20))
    );
    assert_eq!(platform.orderbook(), book_before);
    assert_eq!(platform.matching_engine.ordinal, 1);
    assert_eq!(platform.balance_of("BOB"), Ok(&15));
    assert_eq!(platform.balance_of("ALICE"), Ok(&100));
    assert_eq!(platform.transactions.len(), 2);
}

#[test]
fn buy_with_overflowing_cost_is_underfunded() {
    let mut platform = funded(&[("BOB", u64::MAX)]);
    assert_eq!(
        platform.order(order(Side::Buy, "BOB", 2, u64::MAX)),
        Err(ApplicationError::AccountUnderFunded("BOB".to_string(), u64::MAX))
    );
    assert!(platform.orderbook().is_empty());
}

#[test]
fn buy_exactly_covered_is_admitted() {
    let mut platform = funded(&[("BOB", 20)]);
    assert!(platform.order(order(Side::Buy, "BOB", 10, 2)).is_ok());
    assert_eq!(platform.orderbook().len(), 1);
}

#[test]
fn sell_without_account_is_rejected() {
    let mut platform = TradingPlatform::new();
    assert_eq!(
        platform.order(order(Side::Sell, "ALICE", 10, 1)),
        Err(ApplicationError::AccountNotFound("ALICE".to_string()))
    );
    assert!(platform.matching_engine.asks.is_empty());
    assert!(platform.matching_engine.bids.is_empty());
}

#[test]
fn buy_takes_lowest_asks_first() {
    let mut engine = MatchingEngine::new();
    engine.process(order(Side::Sell, "A", 12, 1)).unwrap();
    engine.process(order(Side::Sell, "B", 10, 1)).unwrap();
    engine.process(order(Side::Sell, "C", 11, 1)).unwrap();
    engine.process(order(Side::Sell, "E", 13, 1)).unwrap();
    let receipt = engine.process(order(Side::Buy, "D", 12, 4)).unwrap();
    let prices: Vec<u64> = receipt.matches.iter().map(|m| m.price).collect();
    assert_eq!(prices, vec![10, 11, 12]);
    assert_eq!(receipt.ordinal, 5);
    assert_eq!(engine.asks.len(), 1);
    assert_eq!(engine.asks[0].price, 13);
    assert_eq!(engine.bids.len(), 1);
    assert_eq!(engine.bids[0].orders[0].amount, 1);
    assert_eq!(engine.bids[0].orders[0].ordinal, 5);
}

#[test]
fn sell_takes_highest_bids_first() {
    let mut engine = MatchingEngine::new();
    engine.process(order(Side::Buy, "A", 9, 1)).unwrap();
    engine.process(order(Side::Buy, "B", 11, 1)).unwrap();
    engine.process(order(Side::Buy, "C", 10, 1)).unwrap();
    let receipt = engine.process(order(Side::Sell, "D", 10, 3)).unwrap();
    let signers: Vec<&str> = receipt.matches.iter().map(|m| m.signer.as_str()).collect();
    assert_eq!(signers, vec!["B", "C"]);
    assert_eq!(engine.bids.len(), 1);
    assert_eq!(engine.bids[0].price, 9);
    assert_eq!(engine.asks.len(), 1);
    assert_eq!(engine.asks[0].price, 10);
    assert_eq!(engine.asks[0].orders[0].amount, 1);
}

#[test]
fn partially_filled_maker_keeps_its_ordinal() {
    let mut engine = MatchingEngine::new();
    engine.process(order(Side::Sell, "A", 10, 5)).unwrap();
    let receipt = engine.process(order(Side::Buy, "B", 10, 2)).unwrap();
    assert_eq!(
        receipt.matches,
        vec![PartialOrder {
            price: 10,
            amount: 2,
            remaining: 0,
            side: Side::Sell,
            signer: "A".to_string(),
            ordinal: 1
        }]
    );
    assert_eq!(
        engine.asks[0].orders,
        vec![PartialOrder {
            price: 10,
            amount: 3,
            remaining: 3,
            side: Side::Sell,
            signer: "A".to_string(),
            ordinal: 1
        }]
    );
    engine.process(order(Side::Sell, "C", 10, 2)).unwrap();
    let receipt = engine.process(order(Side::Buy, "B", 10, 4)).unwrap();
    let filled: Vec<(u64, u64)> = receipt.matches.iter().map(|m| (m.ordinal, m.amount)).collect();
    assert_eq!(filled, vec![(1, 3), (3, 1)]);
    assert_eq!(engine.asks[0].orders.len(), 1);
    assert_eq!(engine.asks[0].orders[0].ordinal, 3);
    assert_eq!(engine.asks[0].orders[0].amount, 1);
}

#[test]
fn zero_amount_order_neither_matches_nor_rests() {
    let mut engine = MatchingEngine::new();
    engine.process(order(Side::Sell, "A", 10, 1)).unwrap();
    let receipt = engine.process(order(Side::Buy, "B", 10, 0)).unwrap();
    assert!(receipt.matches.is_empty());
    assert_eq!(receipt.ordinal, 2);
    assert!(engine.bids.is_empty());
    assert_eq!(engine.asks.len(), 1);
}

#[test]
fn orderbook_lists_asks_then_bids_by_ascending_price() {
    let mut platform = funded(&[("A", 1000), ("B", 1000)]);
    platform.order(order(Side::Sell, "A", 12, 1)).unwrap();
    platform.order(order(Side::Sell, "A", 11, 1)).unwrap();
    platform.order(order(Side::Sell, "B", 11, 1)).unwrap();
    platform.order(order(Side::Buy, "B", 5, 1)).unwrap();
    platform.order(order(Side::Buy, "A", 8, 1)).unwrap();
    platform.order(order(Side::Buy, "B", 6, 1)).unwrap();
    let book: Vec<(Side, u64, u64)> = platform.orderbook().iter().map(|o| (o.side, o.price, o.ordinal)).collect();
    assert_eq!(
        book,
        vec![
            (Side::Sell, 11, 2),
            (Side::Sell, 11, 3),
            (Side::Sell, 12, 1),
            (Side::Buy, 5, 4),
            (Side::Buy, 6, 6),
            (Side::Buy, 8, 5),
        ]
    );
}

#[test]
fn failed_settlement_is_reported_and_stops() {
    let mut platform = funded(&[("BUYER", 100), ("SELLER", 0)]);
    platform.order(order(Side::Buy, "BUYER", 10, 5)).unwrap();
    assert!(platform.withdraw("BUYER", 95).is_ok());
    assert_eq!(
        platform.order(order(Side::Sell, "SELLER", 10, 5)),
        Err(ApplicationError::AccountUnderFunded("BUYER".to_string(), 50))
    );
    assert_eq!(platform.matching_engine.ordinal, 2);
    assert_eq!(platform.balance_of("BUYER"), Ok(&5));
    assert_eq!(platform.balance_of("SELLER"), Ok(&0));
    assert_eq!(platform.transactions.len(), 3);
}

#[test]
fn platform_send_journals_both_sides() {
    let mut platform = funded(&[("A", 10), ("B", 0)]);
    assert_eq!(
        platform.send("A", "B", 4),
        Ok((
            Tx::Withdraw { account: "A".to_string(), amount: 4 },
            Tx::Deposit { account: "B".to_string(), amount: 4 }
        ))
    );
    assert_eq!(platform.transactions.len(), 4);
    assert_eq!(platform.transactions[2], Tx::Withdraw { account: "A".to_string(), amount: 4 });
    assert_eq!(platform.transactions[3], Tx::Deposit { account: "B".to_string(), amount: 4 });
    assert_eq!(platform.send("A", "C", 1), Err(ApplicationError::AccountNotFound("C".to_string())));
    assert_eq!(platform.transactions.len(), 4);
}

#[test]
fn settlement_journals_one_pair_per_match() {
    let mut platform = funded(&[("A", 0), ("B", 0), ("C", 100)]);
    platform.order(order(Side::Sell, "A", 10, 1)).unwrap();
    platform.order(order(Side::Sell, "B", 12, 2)).unwrap();
    let receipt = platform.order(order(Side::Buy, "C", 12, 3)).unwrap();
    assert_eq!(receipt.matches.len(), 2);
    assert_eq!(
        platform.transactions[3..].to_vec(),
        vec![
            Tx::Withdraw { account: "C".to_string(), amount: 10 },
            Tx::Deposit { account: "A".to_string(), amount: 10 },
            Tx::Withdraw { account: "C".to_string(), amount: 24 },
            Tx::Deposit { account: "B".to_string(), amount: 24 },
        ]
    );
    assert_eq!(platform.balance_of("C"), Ok(&66));
    assert_eq!(platform.balance_of("A"), Ok(&10));
    assert_eq!(platform.balance_of("B"), Ok(&24));
}
