use polymarket_backtest::availability::{
    availability_step, checkpoint_due, partition_by_cache, AvailabilityCache, AvailabilityStep,
};

#[test]
fn cache_reads_back_what_was_written() {
    let mut cache = AvailabilityCache::new();
    assert_eq!(cache.len(), 0);
    assert_eq!(cache.get("asset-a"), None);
    cache.insert("asset-b".to_string(), "btc-updown-5m-1778587500".to_string(), "Up".to_string());
    cache.insert("asset-a".to_string(), "btc-updown-5m-1778587200".to_string(), "Down".to_string());
    assert_eq!(cache.len(), 2);
    assert_eq!(
        cache.get("asset-a"),
        Some(("btc-updown-5m-1778587200".to_string(), "Down".to_string()))
    );
    cache.insert("asset-a".to_string(), "other".to_string(), "Up".to_string());
    assert_eq!(cache.len(), 2);
    assert_eq!(cache.get("asset-a"), Some(("other".to_string(), "Up".to_string())));
    assert_eq!(
        cache.get("asset-b"),
        Some(("btc-updown-5m-1778587500".to_string(), "Up".to_string()))
    );
}

#[test]
fn cache_entries_reload_in_sorted_order() {
    let mut cache = AvailabilityCache::new();
    cache.insert("asset-b".to_string(), "btc-updown-5m-1778587500".to_string(), "Up".to_string());
    cache.insert("asset-a".to_string(), "btc-updown-5m-1778587200".to_string(), "Down".to_string());
    let rows = cache.sorted_entries();
    let mut reloaded = AvailabilityCache::new();
    for (asset, slug, outcome) in rows.iter().cloned() {
        reloaded.insert(asset, slug, outcome);
    }
    assert_eq!(reloaded.sorted_entries(), rows);
    assert_eq!(rows[0].0, "asset-a");
    assert_eq!(rows[1].0, "asset-b");
}

#[test]
fn assets_split_into_known_and_unknown() {
    let mut cache = AvailabilityCache::new();
    cache.insert("k".to_string(), "slug-1".to_string(), "Up".to_string());
    let ids = vec!["u1".to_string(), "k".to_string(), "u2".to_string()];
    let (known, unknown) = partition_by_cache(&ids, "2026-05-05", &cache);
    assert_eq!(
        known,
        vec![("k".to_string(), "slug-1".to_string(), "Up".to_string(), "2026-05-05".to_string())]
    );
    assert_eq!(unknown, vec!["u1".to_string(), "u2".to_string()]);
}

#[test]
fn checkpoints_every_hundred_entries() {
    assert!(checkpoint_due(100));
    assert!(checkpoint_due(300));
    assert!(!checkpoint_due(99));
    assert!(!checkpoint_due(101));
}

#[test]
fn rate_limited_requests_back_off_up_to_a_minute() {
    assert_eq!(
        availability_step(0, 429, None, 1),
        AvailabilityStep::Wait { wait_secs: 1, next_backoff_secs: 2 }
    );
    assert_eq!(
        availability_step(3, 429, Some(7), 40),
        AvailabilityStep::Wait { wait_secs: 7, next_backoff_secs: 60 }
    );
    assert_eq!(availability_step(9, 429, None, 60), AvailabilityStep::GiveUp);
    assert_eq!(availability_step(0, 200, None, 1), AvailabilityStep::Decode);
    assert_eq!(availability_step(0, 204, None, 1), AvailabilityStep::Decode);
    assert_eq!(availability_step(0, 404, None, 1), AvailabilityStep::Failed);
    assert_eq!(availability_step(0, 199, None, 1), AvailabilityStep::Failed);
}

#[test]
fn retries_stop_at_the_first_answer_that_is_not_rate_limited() {
    let mut backoff = 1u64;
    let mut waits = Vec::new();
    let answers = [(429u16, None), (429, Some(5)), (429, None), (200, None)];
    let mut last = None;
    for (attempt, (status, retry_after)) in answers.iter().enumerate() {
        match availability_step(attempt as u32, *status, *retry_after, backoff) {
            AvailabilityStep::Wait { wait_secs, next_backoff_secs } => {
                waits.push(wait_secs);
                backoff = next_backoff_secs;
            }
            other => {
                last = Some(other);
                break;
            }
        }
    }
    assert_eq!(waits, vec![1, 5, 4]);
    assert_eq!(last, Some(AvailabilityStep::Decode));
}
