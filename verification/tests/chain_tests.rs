use fm_chain::chain::{canonical_chain, filter_by_hashes};
use fm_chain::messages::{FlashMessage, FlashMessageLevel};
use fm_chain::models::Block;

fn block(hash: &str, parent_hash: Option<&str>, height: i64, solution_moves: u8) -> Block {
    Block {
        version: 2,
        hash: hash.to_string(),
        parent_hash: parent_hash.map(|p| p.to_string()),
        height,
        name: "name".to_string(),
        message: "message".to_string(),
        solution: "U".to_string(),
        solution_moves,
        solution_description: "desc".to_string(),
        created_at: Some(0),
    }
}

#[test]
fn longest_chain_wins() {
    let blocks = vec![
        block("genesis_block_hash_001", None, 0, 0),
        block("main_chain_block_002", Some("genesis_block_hash_001"), 1, 6),
        block("main_chain_block_003", Some("main_chain_block_002"), 2, 6),
        block("main_chain_block_004", Some("main_chain_block_003"), 3, 6),
        block("fork_chain_block_A_001", Some("genesis_block_hash_001"), 1, 1),
        block("fork_chain_block_A_002", Some("fork_chain_block_A_001"), 2, 1),
        block("fork_chain_block_B_001", Some("genesis_block_hash_001"), 1, 1),
    ];
    let hashes = Block::get_main_chain_hashes(&blocks);
    assert_eq!(hashes.len(), 4);
    assert!(hashes.contains(&"genesis_block_hash_001".to_string()));
    assert!(hashes.contains(&"main_chain_block_002".to_string()));
    assert!(hashes.contains(&"main_chain_block_003".to_string()));
    assert!(hashes.contains(&"main_chain_block_004".to_string()));
    assert!(!hashes.contains(&"fork_chain_block_A_001".to_string()));
    assert!(!hashes.contains(&"fork_chain_block_A_002".to_string()));
    assert!(!hashes.contains(&"fork_chain_block_B_001".to_string()));
    // Newest first, root last.
    assert_eq!(hashes[0], "main_chain_block_004");
    assert_eq!(hashes[3], "genesis_block_hash_001");
}

#[test]
fn equal_length_branches_break_the_tie_by_cumulative_move_count() {
    let blocks = vec![
        block("g", None, 0, 0),
        block("a1", Some("g"), 1, 5),
        block("b1", Some("g"), 1, 8),
        block("a2", Some("a1"), 2, 3),
        block("b2", Some("b1"), 2, 1),
    ];
    // Both branches have length three; branch a weighs 8, branch b 9.
    let hashes = Block::get_main_chain_hashes(&blocks);
    assert_eq!(hashes, vec!["a2".to_string(), "a1".to_string(), "g".to_string()]);
}

#[test]
fn fully_tied_branches_pick_the_earlier_leaf() {
    let blocks = vec![
        block("A0C1E2G3", None, 0, 6),
        block("A0C1E2G4", Some("A0C1E2G3"), 1, 6),
        block("A0C1E2G5", Some("A0C1E2G3"), 1, 6),
    ];
    let hashes = Block::get_main_chain_hashes(&blocks);
    assert_eq!(hashes.len(), 2);
    assert!(hashes.contains(&"A0C1E2G3".to_string()));
    assert_eq!(hashes, vec!["A0C1E2G4".to_string(), "A0C1E2G3".to_string()]);
}

#[test]
fn zero_roots_yield_an_empty_chain() {
    let blocks = vec![
        block("a", Some("missing"), 1, 1),
        block("b", Some("a"), 2, 1),
    ];
    assert_eq!(canonical_chain(&blocks).len(), 0);
    assert_eq!(Block::get_main_chain_hashes(&blocks).len(), 0);
}

#[test]
fn several_roots_yield_an_empty_chain() {
    let blocks = vec![
        block("r1", None, 0, 1),
        block("r2", None, 0, 1),
        block("c", Some("r1"), 1, 1),
    ];
    assert_eq!(canonical_chain(&blocks).len(), 0);
}

#[test]
fn empty_snapshot_yields_an_empty_chain() {
    let blocks: Vec<Block> = Vec::new();
    assert_eq!(canonical_chain(&blocks).len(), 0);
}

#[test]
fn lone_genesis_is_its_own_canonical_chain() {
    let blocks = vec![block("g", None, 0, 0)];
    let chain = canonical_chain(&blocks);
    assert_eq!(chain, vec![0]);
}

#[test]
fn dangling_branches_do_not_join_the_chain() {
    let blocks = vec![
        block("g", None, 0, 0),
        block("child", Some("g"), 1, 2),
        block("orphan", Some("gone"), 7, 1),
    ];
    let hashes = Block::get_main_chain_hashes(&blocks);
    assert_eq!(hashes, vec!["child".to_string(), "g".to_string()]);
}

#[test]
fn filter_by_hashes_keeps_snapshot_order() {
    let blocks = vec![
        block("g", None, 0, 0),
        block("a", Some("g"), 1, 1),
        block("b", Some("g"), 1, 2),
    ];
    let wanted = vec!["b".to_string(), "g".to_string()];
    assert_eq!(filter_by_hashes(&blocks, &wanted), vec![0, 2]);
    let nothing: Vec<String> = Vec::new();
    assert_eq!(filter_by_hashes(&blocks, &nothing), Vec::<usize>::new());
}

#[test]
fn flash_messages_carry_level_and_text() {
    let info = FlashMessage::info("Block created successfully. Thank you!");
    assert_eq!(info.level, FlashMessageLevel::Info);
    assert_eq!(info.message, "Block created successfully. Thank you!");
    let error = FlashMessage::error("This solution already exists");
    assert_eq!(error.level, FlashMessageLevel::Error);
    assert_eq!(error.message, "This solution already exists");
}
