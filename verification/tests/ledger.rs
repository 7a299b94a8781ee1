use pos_chain::account::{AccountState, FAUCET_GRANT};
use pos_chain::block::{clone_transactions, Block};
use pos_chain::blockchain::{BlockError, Blockchain, PROPOSER_REWARD, STAKE_REWARD};
use pos_chain::digest::append_text_digest;
use pos_chain::tally::Tally;
use pos_chain::text::{append_hex, decimal_string, position, rest_after, same_text};
use pos_chain::transaction::Transaction;

const GENESIS_AT_1700000000: &str =
    "74464f91924b98a91f7f23ed59e06a0cd8e88f35e67b0576261f275d7352836a";

fn alice_to_bob() -> Transaction {
    Transaction::new("Alice", "Bob", 10)
}

fn bob_to_charlie() -> Transaction {
    Transaction::new("Bob", "Charlie", 5)
}

fn genesis_chain() -> Blockchain {
    let mut chain = Blockchain::new();
    assert_eq!(
        chain.accept_block(Block::assemble(
            0,
            "0".to_string(),
            1700000000,
            vec![],
            "genesis".to_string()
        )),
        Ok(())
    );
    chain
}

#[test]
fn decimal_of_zero_and_of_the_largest_number() {
    assert_eq!(decimal_string(0), "0");
    assert_eq!(decimal_string(7), "7");
    assert_eq!(decimal_string(10), "10");
    assert_eq!(decimal_string(1700000000), "1700000000");
    assert_eq!(decimal_string(u64::MAX), "18446744073709551615");
}

#[test]
fn hex_is_lower_case_with_two_digits_a_byte() {
    let mut out = String::from("x");
    append_hex(&mut out, &[0x00, 0x0f, 0xa0, 0xff]);
    assert_eq!(out, "x000fa0ff");
    let mut empty = String::new();
    append_hex(&mut empty, &[]);
    assert_eq!(empty, "");
}

#[test]
fn digest_of_the_empty_text() {
    let mut out = String::new();
    append_text_digest(&mut out, "");
    assert_eq!(out, "e3b0c44298fc1c149afbf4c8996fb92427ae41e4649b934ca495991b7852b855");
}

#[test]
fn position_finds_the_first_match_only() {
    let list = vec!["a".to_string(), "b".to_string(), "a".to_string()];
    assert_eq!(position(&list, "a"), Some(0));
    assert_eq!(position(&list, "b"), Some(1));
    assert_eq!(position(&list, "c"), None);
    assert!(same_text("abc", "abc"));
    assert!(!same_text("abc", "abd"));
}

#[test]
fn rest_after_splits_at_the_first_separator() {
    assert_eq!(rest_after("head\r\n\r\nbody\r\n\r\nmore", "\r\n\r\n"), Some("body\r\n\r\nmore"));
    assert_eq!(rest_after("no separator", "\r\n\r\n"), None);
    assert_eq!(rest_after("end\r\n\r\n", "\r\n\r\n"), Some(""));
}

#[test]
fn transaction_new_copies_its_parts() {
    let tx = alice_to_bob();
    assert_eq!(tx.from, "Alice");
    assert_eq!(tx.to, "Bob");
    assert_eq!(tx.amount, 10);
    assert_eq!(tx, tx.clone());
    assert_ne!(tx, bob_to_charlie());
}

#[test]
fn transaction_hash_is_the_digest_of_its_parts() {
    assert_eq!(alice_to_bob().hash(), "0xb4806c2ac1f4f460061ad43e7ad4e9e4ffcde36e028eacdec34a63a378384334");
    assert_eq!(Transaction::new("", "", 0).hash(), "0xe8ca2bd51293d64a258fa06d61809d2630efb827bfde97f6fa9209b51bb32ba7");
    assert_eq!(Transaction::new("é", "b", 2).hash(), "0x51f42e195e00764e3f42687275f7e2b9ad5e2f696f5f1bb120733efc2ca52e77");
    assert_eq!(alice_to_bob().hash().len(), 66);
    assert_eq!(alice_to_bob().hash(), alice_to_bob().hash());
    assert_ne!(alice_to_bob().hash(), Transaction::new("Alice", "Bob", 11).hash());
}

#[test]
fn transactions_that_differ_in_a_field_differ_in_their_hash() {
    assert_ne!(Transaction::new("ab", "c", 1).hash(), Transaction::new("a", "bc", 1).hash());
    assert_ne!(Transaction::new("a", "b1", 2).hash(), Transaction::new("a", "b", 12).hash());
    assert_ne!(Transaction::new("", "ab", 1).hash(), Transaction::new("ab", "", 1).hash());
    assert_ne!(Transaction::new("1:a", "b", 1).hash(), Transaction::new("a", "1:b", 1).hash());
    assert_ne!(Transaction::new("a", "b", 1).hash(), Transaction::new("b", "a", 1).hash());
}

#[test]
fn genesis_block_hash() {
    let block = Block::assemble(0, "0".to_string(), 1700000000, vec![], "genesis".to_string());
    assert_eq!(block.index, 0);
    assert_eq!(block.previous_hash, "0");
    assert_eq!(block.timestamp, 1700000000);
    assert!(block.transactions.is_empty());
    assert_eq!(block.proposer, "genesis");
    assert_eq!(block.hash, GENESIS_AT_1700000000);
    assert_eq!(block.hash.len(), 64);
    assert_eq!(block.calculate_hash(), block.hash);
    assert!(block.hash_matches());
}

#[test]
fn block_hash_covers_the_transactions_in_their_order() {
    let one = Block::assemble(1, "abc".to_string(), 42, vec![alice_to_bob()], "Alice".to_string());
    assert_eq!(one.hash, "aa3ff77bc1786c6906b20ee5e0304435f506cd8ac585df278e1a283de12713ea");
    let two = Block::assemble(
        1,
        "abc".to_string(),
        42,
        vec![alice_to_bob(), bob_to_charlie()],
        "Alice".to_string(),
    );
    assert_eq!(two.hash, "3e34b04511554d0293ccebd8f76c54aca90ace24b55af03617914bb9338c3c9a");
    let swapped = Block::assemble(
        1,
        "abc".to_string(),
        42,
        vec![bob_to_charlie(), alice_to_bob()],
        "Alice".to_string(),
    );
    assert_eq!(swapped.hash, "8fb0506ce5fc11b84dbd69d7edcb916123e51fc949119576cd820d40736ebbe1");
    assert_ne!(two.hash, swapped.hash);
}

#[test]
fn block_hash_quotes_and_escapes_addresses() {
    let tx = Transaction::new("a\"b", "c\\d\n", 0);
    let block = Block::assemble(7, "p".to_string(), 9, vec![tx], "x".to_string());
    assert_eq!(block.hash, "4df4774b6dcf82125a6a5781bf3883cd211afe46ffc73a0d01202d7c016b5a76");
}

#[test]
fn a_changed_block_no_longer_matches_its_hash() {
    let mut block =
        Block::assemble(1, "abc".to_string(), 42, vec![alice_to_bob()], "Alice".to_string());
    assert!(block.hash_matches());
    block.transactions[0].amount = 11;
    assert!(!block.hash_matches());
    block.transactions[0].amount = 10;
    assert!(block.hash_matches());
    block.hash.push('0');
    assert!(!block.hash_matches());
}

#[test]
fn block_new_seals_with_the_time_it_carries() {
    let block = Block::new(3, "prev".to_string(), vec![alice_to_bob()], "Bob".to_string());
    assert!(block.timestamp > 1_600_000_000);
    assert!(block.hash_matches());
    let again = Block::assemble(
        3,
        "prev".to_string(),
        block.timestamp,
        vec![alice_to_bob()],
        "Bob".to_string(),
    );
    assert_eq!(again.hash, block.hash);
    let copy = block.clone();
    assert_eq!(copy.hash, block.hash);
    assert_eq!(copy.transactions, block.transactions);
    assert_eq!(clone_transactions(&block.transactions), block.transactions);
}

#[test]
fn tally_sets_gets_and_sums() {
    let mut t = Tally::new();
    assert_eq!(t.len(), 0);
    assert_eq!(t.get("a"), None);
    assert_eq!(t.sum(), 0);
    t.set("a", 5);
    t.set("b", 7);
    t.set("a", 6);
    assert_eq!(t.len(), 2);
    assert_eq!(t.get("a"), Some(6));
    assert_eq!(t.get("b"), Some(7));
    assert_eq!(t.find("b"), Some(1));
    assert_eq!(t.find("c"), None);
    assert_eq!(t.address_at(0), "a");
    assert_eq!(t.amount_at(1), 7);
    assert_eq!(t.sum(), 13);
    assert!(t.credit("c", 3));
    assert_eq!(t.get("c"), Some(3));
    assert!(!t.credit("c", u64::MAX));
    assert_eq!(t.get("c"), Some(3));
    t.set("big", u64::MAX);
    t.set("bigger", u64::MAX);
    assert_eq!(t.sum(), 16 + 2 * (u64::MAX as u128));
    assert_eq!(t.clone().sum(), t.sum());
}

#[test]
fn a_new_sender_is_opened_with_the_faucet_grant() {
    let mut state = AccountState::new();
    assert_eq!(FAUCET_GRANT, 100);
    assert_eq!(state.balance("Alice"), None);
    assert!(state.apply_transaction("Alice", "Bob", 10));
    assert_eq!(state.balance("Alice"), Some(90));
    assert_eq!(state.balance("Bob"), Some(10));
    assert_eq!(state.supply(), 100);
    assert_eq!(state.len(), 2);
    assert_eq!(state.address_at(0), "Alice");
    assert_eq!(state.amount_at(1), 10);
}

#[test]
fn a_transfer_that_is_not_covered_changes_no_balance() {
    let mut state = AccountState::new();
    assert!(!state.apply_transaction("Alice", "Bob", 101));
    assert_eq!(state.balance("Alice"), Some(100));
    assert_eq!(state.balance("Bob"), None);
    assert!(state.apply_transaction("Alice", "Bob", 100));
    assert_eq!(state.balance("Alice"), Some(0));
    assert_eq!(state.balance("Bob"), Some(100));
    assert!(!state.apply_transaction("Alice", "Bob", 1));
    assert_eq!(state.balance("Alice"), Some(0));
    assert_eq!(state.balance("Bob"), Some(100));
    assert!(state.apply_transaction("Alice", "Bob", 0));
    assert_eq!(state.supply(), 100);
}

#[test]
fn a_transfer_to_oneself_changes_nothing() {
    let mut state = AccountState::new();
    assert!(state.apply_transaction("Alice", "Alice", 40));
    assert_eq!(state.balance("Alice"), Some(100));
    assert!(!state.apply_transaction("Alice", "Alice", 101));
    assert_eq!(state.balance("Alice"), Some(100));
    assert_eq!(state.len(), 1);
}

#[test]
fn transfers_between_known_accounts_keep_the_supply() {
    let mut state = AccountState::new();
    state.restore("Alice", 100);
    state.restore("Bob", 100);
    state.restore("admin", 1_000_000);
    let before = state.supply();
    assert!(state.apply_transaction("Alice", "Bob", 30));
    assert!(state.apply_transaction("Bob", "admin", 130));
    assert!(!state.apply_transaction("Bob", "Alice", 1));
    assert!(state.apply_transaction("admin", "Alice", 999_999));
    assert_eq!(state.supply(), before);
    assert_eq!(state.balance("Alice"), Some(70 + 999_999));
    assert_eq!(state.balance("Bob"), Some(0));
    assert_eq!(state.balance("admin"), Some(131));
}

#[test]
fn a_credit_that_would_not_fit_is_refused() {
    let mut state = AccountState::new();
    state.restore("Bob", u64::MAX - 5);
    assert!(!state.apply_transaction("Alice", "Bob", 6));
    assert_eq!(state.balance("Alice"), Some(100));
    assert_eq!(state.balance("Bob"), Some(u64::MAX - 5));
    assert!(state.apply_transaction("Alice", "Bob", 5));
    assert_eq!(state.balance("Bob"), Some(u64::MAX));
    assert!(!state.credit("Bob", 1));
    assert!(state.credit("Carol", 50));
    assert_eq!(state.balance("Carol"), Some(50));
}

#[test]
fn the_faucet_grant_can_be_chosen() {
    let mut state = AccountState::with_faucet(7);
    assert!(!state.apply_transaction("Alice", "Bob", 8));
    assert_eq!(state.balance("Alice"), Some(7));
    assert!(state.apply_transaction("Alice", "Bob", 7));
    assert_eq!(state.balance("Bob"), Some(7));
    assert_eq!(state.clone().balance("Bob"), Some(7));
}

#[test]
fn settle_keeps_the_transfers_that_went_through() {
    let mut state = AccountState::new();
    let txs = vec![
        alice_to_bob(),
        Transaction::new("Alice", "Bob", 500),
        bob_to_charlie(),
        Transaction::new("Charlie", "Alice", 6),
    ];
    let kept = state.settle(&txs);
    assert_eq!(kept, vec![alice_to_bob(), bob_to_charlie()]);
    assert_eq!(state.balance("Alice"), Some(90));
    assert_eq!(state.balance("Bob"), Some(5));
    assert_eq!(state.balance("Charlie"), Some(5));
    assert_eq!(state.supply(), 100);
}

#[test]
fn show_lists_the_balances() {
    let mut state = AccountState::new();
    assert_eq!(state.show(), "📊 账户余额：\n");
    assert!(state.apply_transaction("Alice", "Bob", 10));
    assert_eq!(state.show(), "📊 账户余额：\n - Alice: 90\n - Bob: 10\n");
}

#[test]
fn a_new_chain_has_the_founding_validators() {
    let chain = Blockchain::new();
    assert_eq!(chain.len(), 0);
    assert_eq!(chain.get_last_hash(), "0");
    assert_eq!(chain.validators().get("Alice"), Some(100));
    assert_eq!(chain.validators().get("Bob"), Some(50));
    assert_eq!(chain.validators().len(), 2);
    assert_eq!(chain.total_stake(), 150);
    assert_eq!(chain.state().len(), 0);
}

#[test]
fn create_genesis_block_seeds_an_empty_chain_only() {
    let mut chain = Blockchain::new();
    chain.create_genesis_block();
    assert_eq!(chain.len(), 1);
    let first = chain.blocks()[0].clone();
    assert_eq!(first.index, 0);
    assert_eq!(first.previous_hash, "0");
    assert_eq!(first.proposer, "genesis");
    assert!(first.transactions.is_empty());
    assert!(first.hash_matches());
    assert_eq!(chain.get_last_hash(), first.hash);
    chain.create_genesis_block();
    assert_eq!(chain.len(), 1);
    assert_eq!(chain.blocks()[0].hash, first.hash);
}

#[test]
fn tickets_go_to_the_validators_in_order() {
    let chain = Blockchain::new();
    assert_eq!(chain.proposer_for_ticket(0), "Alice");
    assert_eq!(chain.proposer_for_ticket(99), "Alice");
    assert_eq!(chain.proposer_for_ticket(100), "Bob");
    assert_eq!(chain.proposer_for_ticket(149), "Bob");
    assert_eq!(chain.proposer_for_ticket(150), "fallback");
    assert_eq!(chain.proposer_for_ticket(u128::MAX), "fallback");
}

#[test]
fn the_drawn_proposer_is_a_validator_with_stake() {
    let chain = Blockchain::new();
    let mut seen_alice = false;
    let mut seen_bob = false;
    for _ in 0..400 {
        let p = chain.select_proposer();
        assert!(p == "Alice" || p == "Bob");
        seen_alice = seen_alice || p == "Alice";
        seen_bob = seen_bob || p == "Bob";
    }
    assert!(seen_alice && seen_bob);
}

#[test]
fn without_stake_the_fallback_proposes() {
    let empty = Blockchain::with_validators(Tally::new());
    assert_eq!(empty.total_stake(), 0);
    assert_eq!(empty.select_proposer(), "fallback");
    assert_eq!(empty.proposer_for_ticket(0), "fallback");
    let mut idle = Tally::new();
    idle.set("Zed", 0);
    let idle = Blockchain::with_validators(idle);
    assert_eq!(idle.select_proposer(), "fallback");
    let mut chain = empty;
    chain.add_block(vec![]);
    assert_eq!(chain.blocks()[0].proposer, "fallback");
    assert_eq!(chain.validators().get("fallback"), Some(STAKE_REWARD));
    assert_eq!(chain.select_proposer(), "fallback");
}

#[test]
fn a_validator_without_stake_is_never_drawn() {
    let mut stakes = Tally::new();
    stakes.set("Zed", 0);
    stakes.set("Amy", 5);
    stakes.set("Zoe", 0);
    let chain = Blockchain::with_validators(stakes);
    assert_eq!(chain.total_stake(), 5);
    for ticket in 0..5 {
        assert_eq!(chain.proposer_for_ticket(ticket), "Amy");
    }
    for _ in 0..200 {
        assert_eq!(chain.select_proposer(), "Amy");
    }
}

#[test]
fn one_round_after_genesis() {
    let mut chain = genesis_chain();
    chain.add_block_as(vec![alice_to_bob()], "Alice", 1700000003);
    assert_eq!(chain.len(), 2);
    assert_eq!(chain.state().balance("Alice"), Some(90 + PROPOSER_REWARD));
    assert_eq!(chain.state().balance("Bob"), Some(10));
    assert_eq!(chain.validators().get("Alice"), Some(100 + STAKE_REWARD));
    assert_eq!(chain.validators().get("Bob"), Some(50));
    let tip = &chain.blocks()[1];
    assert_eq!(tip.index, 1);
    assert_eq!(tip.previous_hash, GENESIS_AT_1700000000);
    assert_eq!(tip.timestamp, 1700000003);
    assert_eq!(tip.proposer, "Alice");
    assert_eq!(tip.transactions, vec![alice_to_bob()]);
    assert_eq!(tip.hash, "b41d6e1254d133172dbd3b1a5f7f298ff0e4eb3ebdf28dba61910778bd130c74");
    assert_eq!(chain.get_last_hash(), tip.hash);
    assert_eq!(chain.state().supply(), 150);
}

#[test]
fn one_round_with_a_proposer_drawn() {
    let mut chain = Blockchain::new();
    chain.create_genesis_block();
    chain.add_block(vec![alice_to_bob()]);
    assert_eq!(chain.len(), 2);
    let tip = chain.blocks()[1].clone();
    assert!(tip.hash_matches());
    assert_eq!(tip.previous_hash, chain.blocks()[0].hash);
    assert_eq!(tip.transactions, vec![alice_to_bob()]);
    if tip.proposer == "Alice" {
        assert_eq!(chain.state().balance("Alice"), Some(140));
        assert_eq!(chain.state().balance("Bob"), Some(10));
        assert_eq!(chain.validators().get("Alice"), Some(110));
    } else {
        assert_eq!(tip.proposer, "Bob");
        assert_eq!(chain.state().balance("Alice"), Some(90));
        assert_eq!(chain.state().balance("Bob"), Some(60));
        assert_eq!(chain.validators().get("Bob"), Some(60));
    }
}

#[test]
fn a_transfer_beyond_the_balance_is_dropped_from_the_block() {
    let mut chain = genesis_chain();
    chain.add_block_as(vec![Transaction::new("Alice", "Bob", 500)], "Carol", 1700000003);
    assert_eq!(chain.len(), 2);
    assert!(chain.blocks()[1].transactions.is_empty());
    assert_eq!(chain.blocks()[1].hash, {
        let expected =
            Block::assemble(1, GENESIS_AT_1700000000.to_string(), 1700000003, vec![], "Carol".to_string());
        expected.hash
    });
    assert_eq!(chain.state().balance("Alice"), Some(100));
    assert_eq!(chain.state().balance("Bob"), None);
    assert_eq!(chain.state().balance("Carol"), Some(50));
    assert_eq!(chain.validators().get("Carol"), Some(10));
}

#[test]
fn an_empty_round_still_produces_a_block() {
    let mut chain = genesis_chain();
    chain.add_block_as(vec![], "Alice", 1700000003);
    assert_eq!(chain.len(), 2);
    assert_eq!(
        chain.blocks()[1].hash,
        "812b8f6b03acac961837085b46998e1b8fada29a45c109198de8a8183aa6b67a"
    );
    assert_eq!(chain.state().balance("Alice"), Some(50));
}

#[test]
fn a_block_with_the_wrong_previous_hash_is_refused() {
    let mut chain = genesis_chain();
    let stray = Block::assemble(1, "not the tip".to_string(), 5, vec![], "Alice".to_string());
    assert_eq!(chain.accept_block(stray), Err(BlockError::WrongPreviousHash));
    assert_eq!(chain.len(), 1);
    assert_eq!(chain.get_last_hash(), GENESIS_AT_1700000000);
}

#[test]
fn a_block_with_the_wrong_index_is_refused() {
    let mut chain = genesis_chain();
    let early = Block::assemble(0, GENESIS_AT_1700000000.to_string(), 5, vec![], "A".to_string());
    assert_eq!(chain.accept_block(early), Err(BlockError::WrongIndex));
    let late = Block::assemble(2, GENESIS_AT_1700000000.to_string(), 5, vec![], "A".to_string());
    assert_eq!(chain.accept_block(late), Err(BlockError::WrongIndex));
    assert_eq!(chain.len(), 1);
}

#[test]
fn a_block_with_the_wrong_hash_is_refused() {
    let mut chain = genesis_chain();
    let mut forged =
        Block::assemble(1, GENESIS_AT_1700000000.to_string(), 5, vec![], "A".to_string());
    forged.proposer = "B".to_string();
    assert_eq!(chain.accept_block(forged), Err(BlockError::WrongHash));
    assert_eq!(chain.len(), 1);
    let sound = Block::assemble(1, GENESIS_AT_1700000000.to_string(), 5, vec![], "A".to_string());
    assert_eq!(chain.accept_block(sound), Ok(()));
    assert_eq!(chain.len(), 2);
}

#[test]
fn a_refusal_names_the_offending_field() {
    assert_eq!(BlockError::WrongIndex.message(), "index is not the length of the chain");
    assert_eq!(
        BlockError::WrongPreviousHash.message(),
        "previous_hash is not the hash of the tip"
    );
    assert_eq!(BlockError::WrongHash.message(), "hash is not the hash of the content");
}

#[test]
fn the_objections_are_raised_in_order() {
    let mut chain = genesis_chain();
    let mut all_wrong = Block::assemble(5, "x".to_string(), 5, vec![], "A".to_string());
    all_wrong.hash = "y".to_string();
    assert_eq!(chain.accept_block(all_wrong), Err(BlockError::WrongIndex));
    let mut two_wrong = Block::assemble(1, "x".to_string(), 5, vec![], "A".to_string());
    two_wrong.hash = "y".to_string();
    assert_eq!(chain.accept_block(two_wrong), Err(BlockError::WrongPreviousHash));
}

#[test]
fn every_block_of_a_grown_chain_is_linked() {
    let mut chain = Blockchain::new();
    chain.create_genesis_block();
    for round in 0..5u64 {
        chain.add_block(vec![Transaction::new("Alice", "Bob", round)]);
    }
    let blocks = chain.blocks();
    assert_eq!(blocks.len(), 6);
    for (i, b) in blocks.iter().enumerate() {
        assert_eq!(b.index, i as u64);
        assert_eq!(b.hash, b.calculate_hash());
        if i > 0 {
            assert_eq!(b.previous_hash, blocks[i - 1].hash);
        } else {
            assert_eq!(b.previous_hash, "0");
        }
    }
}

#[test]
fn print_chain_lists_the_blocks() {
    let chain = genesis_chain();
    assert_eq!(
        chain.print_chain(),
        format!("📦 区块链结构：\n - 区块 0 | Hash: {} | 提议者: genesis\n", GENESIS_AT_1700000000)
    );
    assert_eq!(Blockchain::new().print_chain(), "📦 区块链结构：\n");
}

#[test]
fn into_arc_shares_the_chain() {
    let shared = genesis_chain().into_arc();
    let other = shared.clone();
    other.lock().unwrap().add_block_as(vec![], "Alice", 1);
    assert_eq!(shared.lock().unwrap().len(), 2);
}

#[test]
fn restore_balance_sets_what_an_address_holds() {
    let mut chain = Blockchain::new();
    chain.restore_balance("admin", 1_000_000);
    chain.restore_balance("admin", 7);
    assert_eq!(chain.state().balance("admin"), Some(7));
    assert_eq!(chain.len(), 0);
}
