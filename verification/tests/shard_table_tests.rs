use ingest_retry::shard_table::{Shard, ShardState, ShardTable, ShardTableEntry, ShardTableError};

fn open_shard(index_uid: &str, shard_id: u64, leader_id: &str) -> Shard {
    Shard {
        index_uid: index_uid.to_string(),
        shard_id,
        leader_id: leader_id.to_string(),
        shard_state: ShardState::Open,
    }
}

fn closed_shard(index_uid: &str, shard_id: u64, leader_id: &str) -> Shard {
    Shard {
        index_uid: index_uid.to_string(),
        shard_id,
        leader_id: leader_id.to_string(),
        shard_state: ShardState::Closed,
    }
}

#[test]
fn test_shard_table() {
    let mut table = ShardTable::default();
    assert!(!table.contains_entry("test-index", "test-source"));

    table
        .insert_shards(
            "test-index",
            "test-source",
            vec![
                open_shard("test-index:0", 0, "node-0"),
                open_shard("test-index:0", 1, "node-1"),
                open_shard("test-index:0", 0, "node-0"),
                closed_shard("test-index:0", 2, "node-2"),
            ],
        )
        .unwrap();
    assert!(table.contains_entry("test-index", "test-source"));

    let entry = table.find_entry("test-index", "test-source").unwrap();
    assert_eq!(entry.shards().len(), 2);
    assert_eq!(entry.shards()[0].shard_id, 0);
    assert_eq!(entry.shards()[1].shard_id, 1);

    let entry = table.find_entry_mut("test-index", "test-source").unwrap();
    assert_eq!(entry.next_shard_round_robin().shard_id, 0);
    assert_eq!(entry.next_shard_round_robin().shard_id, 1);
    assert_eq!(entry.next_shard_round_robin().shard_id, 0);
}

#[test]
fn test_entry_filters_sorts_and_dedups() {
    let entry = ShardTableEntry::new(vec![
        open_shard("idx:0", 7, "node-2"),
        closed_shard("idx:0", 1, "node-1"),
        open_shard("idx:0", 3, "node-0"),
        open_shard("idx:0", 7, "node-3"),
        open_shard("idx:0", 0, "node-4"),
    ])
    .unwrap();
    assert_eq!(entry.len(), 3);
    assert_eq!(entry.shards()[0].shard_id, 0);
    assert_eq!(entry.shards()[1].shard_id, 3);
    assert_eq!(entry.shards()[2].shard_id, 7);
    for shard in entry.shards() {
        assert!(shard.is_open());
    }
}

#[test]
fn test_entry_rejects_all_closed() {
    let result = ShardTableEntry::new(vec![
        closed_shard("idx:0", 0, "node-0"),
        closed_shard("idx:0", 1, "node-1"),
    ]);
    assert_eq!(result.err(), Some(ShardTableError::EmptyShardSet));
}

#[test]
fn test_entry_rejects_empty_input() {
    let result = ShardTableEntry::new(Vec::new());
    assert_eq!(result.err(), Some(ShardTableError::EmptyShardSet));
}

#[test]
fn test_round_robin_covers_all_shards_then_wraps() {
    let mut entry = ShardTableEntry::new(vec![
        open_shard("idx:0", 2, "node-2"),
        open_shard("idx:0", 0, "node-0"),
        open_shard("idx:0", 1, "node-1"),
    ])
    .unwrap();
    // Three shards: three consecutive selections cover ids 0, 1, 2 in
    // ascending order, then the fourth wraps back to the first.
    assert_eq!(entry.next_shard_round_robin().shard_id, 0);
    assert_eq!(entry.next_shard_round_robin().shard_id, 1);
    assert_eq!(entry.next_shard_round_robin().shard_id, 2);
    assert_eq!(entry.next_shard_round_robin().shard_id, 0);
}

#[test]
fn test_insert_rejects_all_closed_and_keeps_table() {
    let mut table = ShardTable::default();
    assert!(table.is_empty());
    let result = table.insert_shards(
        "test-index",
        "test-source",
        vec![closed_shard("test-index:0", 0, "node-0")],
    );
    assert_eq!(result, Err(ShardTableError::EmptyShardSet));
    assert!(!table.contains_entry("test-index", "test-source"));
    assert!(table.is_empty());
    assert_eq!(table.len(), 0);
}

#[test]
fn test_insert_replaces_entry_and_resets_cursor() {
    let mut table = ShardTable::default();
    table
        .insert_shards(
            "test-index",
            "test-source",
            vec![
                open_shard("test-index:0", 0, "node-0"),
                open_shard("test-index:0", 1, "node-1"),
            ],
        )
        .unwrap();
    table
        .insert_shards(
            "other-index",
            "test-source",
            vec![open_shard("other-index:0", 9, "node-9")],
        )
        .unwrap();
    assert_eq!(table.len(), 2);

    // Advance the first entry's cursor off its fresh position.
    let entry = table.find_entry_mut("test-index", "test-source").unwrap();
    assert_eq!(entry.next_shard_round_robin().shard_id, 0);
    assert_eq!(entry.next_shard_round_robin().shard_id, 1);

    // Re-inserting for the same key replaces the entry wholesale: the new
    // shard set and a cursor starting fresh at zero.
    table
        .insert_shards(
            "test-index",
            "test-source",
            vec![
                open_shard("test-index:0", 5, "node-5"),
                open_shard("test-index:0", 6, "node-6"),
            ],
        )
        .unwrap();
    assert_eq!(table.len(), 2);
    let entry = table.find_entry_mut("test-index", "test-source").unwrap();
    assert_eq!(entry.len(), 2);
    assert_eq!(entry.next_shard_round_robin().shard_id, 5);
    assert_eq!(entry.next_shard_round_robin().shard_id, 6);

    // The other key's entry is untouched.
    let other = table.find_entry("other-index", "test-source").unwrap();
    assert_eq!(other.shards()[0].shard_id, 9);
    assert_eq!(other.shards()[0].leader_id, "node-9");
}

#[test]
fn test_find_entry_absent() {
    let table = ShardTable::default();
    assert!(table.find_entry("missing-index", "missing-source").is_none());
    assert_eq!(table.len(), 0);
}
