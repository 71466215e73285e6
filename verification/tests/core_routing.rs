use corelamo::database::{group_by_shard, shard_for, DatabaseState, RetrieveResponse};

#[test]
fn test_shard_for_deterministic() {
    // Same input always returns same shard
    let shard1 = shard_for("user:123", 4);
    let shard2 = shard_for("user:123", 4);
    assert_eq!(shard1, shard2);
}

#[test]
fn test_shard_for_bounded() {
    // Result is always in valid range
    for id in 0..100 {
        let shard = shard_for(&format!("id:{}", id), 16);
        assert!(shard < 16);
    }
}

#[test]
fn test_shard_for_different_inputs() {
    // Different inputs can route to different shards
    let shards: std::collections::HashSet<_> = (0..100)
        .map(|i| shard_for(&format!("id:{}", i), 16))
        .collect();
    // Rough check: should use multiple shards (not all the same)
    assert!(shards.len() > 1);
}

#[test]
fn shard_for_no_shards_is_zero() {
    assert_eq!(shard_for("anything", 0), 0);
    assert_eq!(shard_for("", 0), 0);
}

#[test]
fn shard_for_single_shard_is_zero() {
    for id in 0..20 {
        assert_eq!(shard_for(&format!("doc-{}", id), 1), 0);
    }
}

#[test]
fn database_state_names() {
    assert_eq!(DatabaseState::Running.as_str(), "running");
    assert_eq!(DatabaseState::Swapping.as_str(), "swapping");
    assert_eq!(DatabaseState::Stopped.as_str(), "stopped");
}

#[test]
fn retrieve_response_keeps_its_parts() {
    let r = RetrieveResponse::new(
        vec![b"{\"a\":1}".to_vec()],
        vec!["x".to_string()],
        vec!["y".to_string(), "z".to_string()],
    );
    assert_eq!(r.documents().len(), 1);
    assert_eq!(r.documents()[0], b"{\"a\":1}".to_vec());
    assert_eq!(r.not_found(), &vec!["x".to_string()]);
    assert_eq!(r.skipped(), &vec!["y".to_string(), "z".to_string()]);
}

#[test]
fn group_by_shard_puts_each_id_once_where_shard_for_routes_it() {
    let ids: Vec<String> = (0..50).map(|i| format!("doc:{i}")).collect();
    let groups = group_by_shard(&ids, 4);
    assert_eq!(groups.len(), 4);
    let mut seen = 0;
    for (s, g) in groups.iter().enumerate() {
        assert!(g.windows(2).all(|w| w[0] < w[1]));
        for &i in g {
            assert_eq!(shard_for(&ids[i], 4) as usize, s);
            seen += 1;
        }
    }
    assert_eq!(seen, ids.len());
    let none = group_by_shard(&ids, 0);
    assert_eq!(none.len(), 1);
    assert_eq!(none[0], (0..50).collect::<Vec<usize>>());
    assert_eq!(group_by_shard(&[], 3), vec![Vec::<usize>::new(); 3]);
}
