use selection_cache::selection_order_cache::CachedSelectionOrder;
use selection_cache::Entity;

fn e(id: u64) -> Entity {
    Entity { id }
}

#[test]
fn update_is_idempotent() {
    let mut cache = CachedSelectionOrder::default();
    let live = vec![(4u32, e(9)), (1u32, e(3)), (4u32, e(2))];
    cache.update(&live);
    let first_cache = cache.cache.clone();
    let first_cached = cache.cached.clone();
    cache.update(&live);
    assert_eq!(cache.cache, first_cache);
    assert_eq!(cache.cached, first_cached);
}

#[test]
fn update_sorts_by_key_then_entity() {
    let mut cache = CachedSelectionOrder::default();
    let live = vec![(7u32, e(1)), (2u32, e(5)), (2u32, e(4)), (9u32, e(0))];
    cache.update(&live);
    assert_eq!(
        cache.cache,
        vec![(2u32, e(4)), (2u32, e(5)), (7u32, e(1)), (9u32, e(0))]
    );
    for w in cache.cache.windows(2) {
        let (k1, e1) = w[0];
        let (k2, e2) = w[1];
        assert!(k1 < k2 || (k1 == k2 && e1.id < e2.id));
    }
}

#[test]
fn membership_mirrors_live_set() {
    let mut cache = CachedSelectionOrder::default();
    let live = vec![(3u32, e(30)), (1u32, e(10)), (2u32, e(20))];
    cache.update(&live);
    let mut in_cache: Vec<u64> = cache.cache.iter().map(|p| p.1.id).collect();
    in_cache.sort_unstable();
    let mut in_cached: Vec<u64> = cache.cached.iter().map(|p| p.id).collect();
    in_cached.sort_unstable();
    assert_eq!(in_cache, vec![10, 20, 30]);
    assert_eq!(in_cached, vec![10, 20, 30]);
}

#[test]
fn removal_of_stale_entity() {
    let a = e(100);
    let b = e(200);
    let c = e(300);
    let mut cache = CachedSelectionOrder::default();
    cache.update(&vec![(1u32, a), (2u32, b), (3u32, c)]);
    assert_eq!(cache.cache, vec![(1u32, a), (2u32, b), (3u32, c)]);
    // b loses its selectable capability
    cache.update(&vec![(1u32, a), (3u32, c)]);
    assert_eq!(cache.cache, vec![(1u32, a), (3u32, c)]);
    assert_eq!(cache.cached, vec![a, c]);
}

#[test]
fn insertion_into_empty_cache_is_ordered() {
    let a = e(1);
    let b = e(2);
    let c = e(3);
    let mut cache = CachedSelectionOrder::default();
    cache.update(&vec![(5u32, a), (1u32, b), (3u32, c)]);
    assert_eq!(cache.cache, vec![(1u32, b), (3u32, c), (5u32, a)]);
}

#[test]
fn equal_keys_tie_break_on_entity_id() {
    let x = e(10);
    let y = e(11);
    let mut cache = CachedSelectionOrder::default();
    cache.update(&vec![(2u32, y), (2u32, x)]);
    assert_eq!(cache.cache, vec![(2u32, x), (2u32, y)]);
}

#[test]
fn refresh_tracks_changed_order_keys() {
    let a = e(1);
    let b = e(2);
    let mut cache = CachedSelectionOrder::default();
    cache.update(&vec![(1u32, a), (2u32, b)]);
    // the keys change between cycles; the cache must track the live values
    cache.update(&vec![(9u32, a), (2u32, b)]);
    assert_eq!(cache.cache, vec![(2u32, b), (9u32, a)]);
}

#[test]
fn empty_live_set_clears_cache() {
    let mut cache = CachedSelectionOrder::default();
    cache.update(&vec![(1u32, e(1)), (2u32, e(2))]);
    cache.update(&vec![]);
    assert!(cache.cache.is_empty());
    assert!(cache.cached.is_empty());
}

#[test]
fn extreme_key_and_id_values_sort_last() {
    let mut cache = CachedSelectionOrder::default();
    let live = vec![
        (u32::MAX, e(u64::MAX)),
        (u32::MAX, e(0)),
        (0u32, e(u64::MAX)),
    ];
    cache.update(&live);
    assert_eq!(
        cache.cache,
        vec![(0u32, e(u64::MAX)), (u32::MAX, e(0)), (u32::MAX, e(u64::MAX))]
    );
}

#[test]
fn highest_order_selected_index_picks_highest() {
    let a = e(1);
    let b = e(2);
    let c = e(3);
    let mut cache = CachedSelectionOrder::default();
    cache.update(&vec![(1u32, a), (2u32, b), (3u32, c)]);
    assert_eq!(cache.cache, vec![(1u32, a), (2u32, b), (3u32, c)]);
    // only b carries the selected marker
    assert_eq!(cache.highest_order_selected_index(&vec![b]), Some(1));
    // the highest selected entry wins
    assert_eq!(cache.highest_order_selected_index(&vec![a, c]), Some(2));
    // nothing selected
    assert_eq!(cache.highest_order_selected_index(&vec![]), None);
    // a selected entity outside the cache does not count
    assert_eq!(cache.highest_order_selected_index(&vec![e(99)]), None);
}

#[test]
fn index_of_finds_present_entity() {
    let mut cache = CachedSelectionOrder::default();
    cache.update(&vec![(5u32, e(50)), (1u32, e(10))]);
    assert_eq!(cache.index_of(e(10)), Some(0));
    assert_eq!(cache.index_of(e(50)), Some(1));
}

#[test]
fn index_of_absent_entity_is_none() {
    let mut cache = CachedSelectionOrder::default();
    assert_eq!(cache.index_of(e(1)), None);
    cache.update(&vec![(1u32, e(1))]);
    assert_eq!(cache.index_of(e(2)), None);
}
