use routing::cache::{cache_path, load_step, LoadAction, LoadEvent, LoadState};

#[test]
fn test_cache_path() {
    assert_eq!(cache_path("/data/italy.osm.pbf", "auto"), "/data/italy.osm.pbf.auto.routing");
}

#[test]
fn cache_path_of_other_modes() {
    assert_eq!(cache_path("map.pbf", "bicycle"), "map.pbf.bicycle.routing");
    assert_eq!(cache_path("map.pbf", "pedestrian"), "map.pbf.pedestrian.routing");
    assert_eq!(cache_path("", ""), "..routing");
    assert_eq!(cache_path("d\u{e9}p\u{f4}t/x", "auto"), "d\u{e9}p\u{f4}t/x.auto.routing");
}

#[test]
fn load_from_a_good_cache() {
    let (state, action) = load_step(LoadState::Start, LoadEvent::CacheFound);
    assert_eq!((state, action), (LoadState::ReadingCache, LoadAction::ReadCache));
    let (state, action) = load_step(state, LoadEvent::CacheRead);
    assert_eq!((state, action), (LoadState::Done, LoadAction::Install));
}

#[test]
fn load_without_a_cache() {
    let (state, action) = load_step(LoadState::Start, LoadEvent::CacheMissing);
    assert_eq!((state, action), (LoadState::Building, LoadAction::Build));
    let (state, action) = load_step(state, LoadEvent::Built);
    assert_eq!((state, action), (LoadState::Done, LoadAction::WriteCacheAndInstall));
}

#[test]
fn corrupt_cache_is_rebuilt_and_overwritten() {
    let (state, action) = load_step(LoadState::Start, LoadEvent::CacheFound);
    assert_eq!(action, LoadAction::ReadCache);
    let (state, action) = load_step(state, LoadEvent::CacheUnreadable);
    assert_eq!((state, action), (LoadState::Building, LoadAction::Build));
    let (state, action) = load_step(state, LoadEvent::Built);
    assert_eq!((state, action), (LoadState::Done, LoadAction::WriteCacheAndInstall));
}

#[test]
fn failed_build_fails_the_load() {
    let (state, _) = load_step(LoadState::Start, LoadEvent::CacheMissing);
    assert_eq!(load_step(state, LoadEvent::BuildFailed), (LoadState::Done, LoadAction::Fail));
    let (state, _) = load_step(LoadState::Start, LoadEvent::CacheFound);
    let (state, _) = load_step(state, LoadEvent::CacheUnreadable);
    assert_eq!(load_step(state, LoadEvent::BuildFailed), (LoadState::Done, LoadAction::Fail));
}

#[test]
fn events_out_of_turn_fail_the_load() {
    let events = [
        LoadEvent::CacheFound,
        LoadEvent::CacheMissing,
        LoadEvent::CacheRead,
        LoadEvent::CacheUnreadable,
        LoadEvent::Built,
        LoadEvent::BuildFailed,
    ];
    for event in events {
        assert_eq!(load_step(LoadState::Done, event), (LoadState::Done, LoadAction::Fail));
    }
    assert_eq!(load_step(LoadState::Start, LoadEvent::Built), (LoadState::Done, LoadAction::Fail));
    assert_eq!(
        load_step(LoadState::Start, LoadEvent::CacheRead),
        (LoadState::Done, LoadAction::Fail)
    );
    assert_eq!(
        load_step(LoadState::ReadingCache, LoadEvent::Built),
        (LoadState::Done, LoadAction::Fail)
    );
    assert_eq!(
        load_step(LoadState::Building, LoadEvent::CacheRead),
        (LoadState::Done, LoadAction::Fail)
    );
}

#[test]
fn every_load_ends_within_three_steps() {
    let events = [
        LoadEvent::CacheFound,
        LoadEvent::CacheMissing,
        LoadEvent::CacheRead,
        LoadEvent::CacheUnreadable,
        LoadEvent::Built,
        LoadEvent::BuildFailed,
    ];
    for a in events {
        for b in events {
            for c in events {
                let (s1, _) = load_step(LoadState::Start, a);
                let (s2, _) = load_step(s1, b);
                let (s3, _) = load_step(s2, c);
                assert_eq!(s3, LoadState::Done);
            }
        }
    }
}
