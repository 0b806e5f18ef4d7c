use chrono::{Duration, NaiveDateTime};
use fm_chain::models::{Block, BlockTag};
use fm_chain::utils::{calculate_hash, format_data, format_moves, invert_sequence, scramble_from_hash};

fn ts(t: NaiveDateTime) -> u64 {
    t.and_utc().timestamp() as u64
}

fn block(
    hash: &str,
    parent_hash: Option<&str>,
    height: i64,
    name: &str,
    message: &str,
    solution: &str,
    solution_moves: u8,
    solution_description: &str,
    created_at: Option<u64>,
) -> Block {
    Block {
        version: 2,
        hash: hash.to_string(),
        parent_hash: parent_hash.map(|p| p.to_string()),
        height,
        name: name.to_string(),
        message: message.to_string(),
        solution: solution.to_string(),
        solution_moves,
        solution_description: solution_description.to_string(),
        created_at,
    }
}

#[test]
fn test_tags() {
    let current_test_time =
        NaiveDateTime::parse_from_str("2024-09-19 18:45:00", "%Y-%m-%d %H:%M:%S")
            .expect("Failed to parse test time");

    let genesis_block = block(
        "genesis_hash",
        None,
        0,
        "Genesis Block",
        "Initial block",
        "",
        0,
        "",
        Some(ts(current_test_time)),
    );

    let block_a = block(
        "block_a_hash",
        Some("genesis_hash"),
        1,
        "Block A",
        "Child of Genesis",
        "A",
        5,
        "Solution A",
        Some(ts(current_test_time - Duration::minutes(1))),
    );

    let block_b = block(
        "block_b_hash",
        Some("genesis_hash"),
        1,
        "Block B",
        "Another Child of Genesis",
        "B",
        8,
        "Solution B",
        Some(ts(current_test_time - Duration::hours(1))),
    );

    let block_c = block(
        "block_c_hash",
        Some("genesis_hash"),
        1,
        "Block C",
        "Old Child of Genesis",
        "C",
        5,
        "Solution C",
        Some(ts(current_test_time - Duration::weeks(2))),
    );

    let block_d = block(
        "block_d_hash",
        Some("block_a_hash"),
        2,
        "Block D",
        "Child of Block A",
        "D",
        3,
        "Solution D",
        Some(ts(current_test_time - Duration::minutes(30))),
    );
    let optimal_height = block_a.height;

    let mut blocks = vec![&block_a, &block_d, &genesis_block, &block_b, &block_c];

    // Sort by height DESC and then by solution_moves ASC
    blocks.sort_by(|a, b| {
        if a.height == b.height {
            a.solution_moves.cmp(&b.solution_moves)
        } else {
            b.height.cmp(&a.height)
        }
    });

    let mut main_chain_hashes: Vec<String> = Vec::new();
    main_chain_hashes.push(genesis_block.hash.clone());
    main_chain_hashes.push(block_a.hash.clone());
    main_chain_hashes.push(block_d.hash.clone());

    let now = ts(current_test_time);

    let actual_tags_a = blocks
        .iter()
        .find(|b| b.hash == block_a.hash)
        .expect("Block A should be present")
        .tags(now, &main_chain_hashes, optimal_height);
    let expected_tags_a = vec![BlockTag::New, BlockTag::MainChain];
    assert_eq!(actual_tags_a, expected_tags_a, "Tags mismatch for Block A");

    let actual_tags_d = blocks
        .iter()
        .find(|b| b.hash == block_d.hash)
        .expect("Block D should be present")
        .tags(now, &main_chain_hashes, optimal_height);
    let expected_tags_d = vec![BlockTag::New, BlockTag::MainChain];
    assert_eq!(actual_tags_d, expected_tags_d, "Tags mismatch for Block D");

    let actual_tags_genesis = blocks
        .iter()
        .find(|b| b.hash == genesis_block.hash)
        .expect("Genesis block should be present")
        .tags(now, &main_chain_hashes, optimal_height);
    let expected_tags_genesis = vec![BlockTag::MainChain, BlockTag::Genesis];
    assert_eq!(
        actual_tags_genesis, expected_tags_genesis,
        "Tags mismatch for Genesis Block"
    );

    let actual_tags_b = blocks
        .iter()
        .find(|b| b.hash == block_b.hash)
        .expect("Block B should be present")
        .tags(now, &main_chain_hashes, optimal_height);
    let expected_tags_b = vec![BlockTag::New];
    assert_eq!(actual_tags_b, expected_tags_b, "Tags mismatch for Block B");

    let actual_tags_c = blocks
        .iter()
        .find(|b| b.hash == block_c.hash)
        .expect("Block C should be present")
        .tags(now, &main_chain_hashes, optimal_height);
    let expected_tags_c = vec![BlockTag::Recommended];
    assert_eq!(actual_tags_c, expected_tags_c, "Tags mismatch for Block C");
}

#[test]
fn genesis_is_always_extendable() {
    // Monday 2024-09-16 00:00:00 UTC.
    let week_start: u64 = 1726444800;
    let genesis = block("g", None, 0, "n", "m", "", 0, "", Some(week_start + 3600));
    assert!(genesis.can_create_child(week_start + 3600));
    assert!(genesis.can_create_child(week_start + 6 * 86400));
}

#[test]
fn block_created_this_week_is_not_extendable() {
    let week_start: u64 = 1726444800;
    let now = week_start + 4 * 86400;
    let fresh = block("f", Some("g"), 1, "n", "m", "U", 1, "", Some(week_start));
    assert!(!fresh.can_create_child(now));
    let last_sunday = block(
        "s",
        Some("g"),
        1,
        "n",
        "m",
        "U",
        1,
        "",
        Some(week_start - 1),
    );
    assert!(last_sunday.can_create_child(now));
}

#[test]
fn is_valid_accepts_a_well_formed_block_and_rejects_tampering() {
    let name = "tester";
    let message = "first block";
    let data = format_data("", name, message);
    let hash = calculate_hash(&data);
    let scramble = scramble_from_hash(&hash);
    let solution = invert_sequence(&scramble);
    let good = block(
        &hash,
        None,
        0,
        name,
        message,
        &format_moves(&solution),
        solution.len() as u8,
        "reversed the scramble",
        Some(1726444800),
    );
    assert!(good.is_valid());

    let mut wrong_count = block(
        &hash,
        None,
        0,
        name,
        message,
        &format_moves(&solution),
        solution.len() as u8,
        "",
        Some(1726444800),
    );
    wrong_count.solution_moves = wrong_count.solution_moves.wrapping_add(1);
    assert!(!wrong_count.is_valid());

    let wrong_message = block(
        &hash,
        None,
        0,
        name,
        "another message",
        &format_moves(&solution),
        solution.len() as u8,
        "",
        Some(1726444800),
    );
    assert!(!wrong_message.is_valid());

    let empty_hash = block(
        "",
        None,
        0,
        name,
        message,
        "",
        0,
        "",
        Some(1726444800),
    );
    assert!(!empty_hash.is_valid());
}

#[test]
fn scramble_comes_from_the_block_hash() {
    let b = block("A0C1E2G3", None, 0, "test", "message", "U", 1, "desc", Some(0));
    let expected_scramble_moves = scramble_from_hash("A0C1E2G3");
    let expected_scramble_string = format_moves(&expected_scramble_moves);
    assert_eq!(b.scramble(), expected_scramble_string);
}

#[test]
fn short_hash_takes_the_first_eight_characters() {
    let b = block(
        "abcdefghijklmnop",
        None,
        0,
        "test",
        "message",
        "U",
        1,
        "desc",
        Some(0),
    );
    assert_eq!(b.short_hash(), "abcdefgh");
    let tiny = block("abc", None, 0, "t", "m", "U", 1, "d", Some(0));
    assert_eq!(tiny.short_hash(), "abc");
    let wide = block("ábçdéfghij", None, 0, "t", "m", "U", 1, "d", Some(0));
    assert_eq!(wide.short_hash(), "ábçdéfgh");
}

#[test]
fn tag_labels_and_values() {
    assert_eq!(BlockTag::Genesis.label(), "Genesis");
    assert_eq!(BlockTag::New.label(), "New");
    assert_eq!(BlockTag::Recommended.label(), "Recommended");
    assert_eq!(BlockTag::MainChain.label(), "Main Chain");
    assert_eq!(BlockTag::Genesis.value(), "genesis");
    assert_eq!(BlockTag::New.value(), "new");
    assert_eq!(BlockTag::Recommended.value(), "recommended");
    assert_eq!(BlockTag::MainChain.value(), "main_chain");
}

#[test]
fn recommended_count_is_the_lowest_extendable_level() {
    let week_start: u64 = 1726444800;
    let now = week_start + 86400;
    let old = week_start - 10;
    let blocks = vec![
        block("g", None, 0, "n", "m", "", 0, "", Some(old)),
        block("a", Some("g"), 1, "n", "m", "U", 1, "", Some(old)),
        block("b", Some("g"), 1, "n", "m", "U", 1, "", Some(old)),
        block("c", Some("a"), 2, "n", "m", "U", 1, "", Some(now)),
    ];
    // Genesis alone sits at the lowest extendable height.
    assert_eq!(Block::get_recommended_count(&blocks, now), 1);

    let without_genesis = vec![
        block("a", Some("g"), 1, "n", "m", "U", 1, "", Some(old)),
        block("b", Some("g"), 1, "n", "m", "U", 1, "", Some(old)),
        block("c", Some("a"), 2, "n", "m", "U", 1, "", Some(old)),
    ];
    assert_eq!(Block::get_recommended_count(&without_genesis, now), 2);

    let none_extendable = vec![block("a", Some("g"), 1, "n", "m", "U", 1, "", Some(now))];
    assert_eq!(Block::get_recommended_count(&none_extendable, now), 0);
}
