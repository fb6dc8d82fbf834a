//! Where a bundle is kept on disk, and the order of steps that loads one.
//!
//! Reading, building and writing are the caller's work. After each piece of
//! work the caller reports what came of it and is told what to do next.

use vstd::prelude::*;
use vstd::string::StringExecFns;

verus! {

/// The path of the cache file of a map extract and a mode: the path of the
/// extract, a dot, the mode, and `.routing`.
pub fn cache_path(pbf_path: &str, mode: &str) -> (path: String)
    ensures
        path@ == pbf_path@ + "."@ + mode@ + ".routing"@,
{
    String::from_str(pbf_path).concat(".").concat(mode).concat(".routing")
}

/// How far loading has come.
#[derive(Clone, Copy, Debug, PartialEq, Eq, Structural)]
pub enum LoadState {
    /// Nothing has been done yet.
    Start,
    /// The cache file is being read.
    ReadingCache,
    /// The bundle is being built from the map extract.
    Building,
    /// Loading has ended.
    Done,
}

/// What came of the caller's last piece of work.
#[derive(Clone, Copy, Debug, PartialEq, Eq, Structural)]
pub enum LoadEvent {
    /// There is a cache file.
    CacheFound,
    /// There is no cache file.
    CacheMissing,
    /// The cache file gave a bundle.
    CacheRead,
    /// The cache file could not be read or did not hold a bundle.
    CacheUnreadable,
    /// The build gave a bundle.
    Built,
    /// The build failed.
    BuildFailed,
}

/// What the caller is to do next.
#[derive(Clone, Copy, Debug, PartialEq, Eq, Structural)]
pub enum LoadAction {
    /// Read the cache file.
    ReadCache,
    /// Build the bundle from the map extract.
    Build,
    /// Write the built bundle to the cache file, not minding whether that
    /// works, and install it.
    WriteCacheAndInstall,
    /// Install the bundle read from the cache file.
    Install,
    /// Give up; the slot stays as it was.
    Fail,
}

/// The next state and action after `event` in `state`. A cache file that is
/// there is read; one that is missing or unreadable leads to a build; a
/// built bundle is written back and installed. An event that cannot follow
/// the state ends the load in failure.
pub open spec fn load_plan(state: LoadState, event: LoadEvent) -> (LoadState, LoadAction) {
    match (state, event) {
        (LoadState::Start, LoadEvent::CacheFound) => (LoadState::ReadingCache, LoadAction::ReadCache),
        (LoadState::Start, LoadEvent::CacheMissing) => (LoadState::Building, LoadAction::Build),
        (LoadState::ReadingCache, LoadEvent::CacheRead) => (LoadState::Done, LoadAction::Install),
        (LoadState::ReadingCache, LoadEvent::CacheUnreadable) => (
            LoadState::Building,
            LoadAction::Build,
        ),
        (LoadState::Building, LoadEvent::Built) => (
            LoadState::Done,
            LoadAction::WriteCacheAndInstall,
        ),
        _ => (LoadState::Done, LoadAction::Fail),
    }
}

/// Decides the next step of a load.
pub fn load_step(state: LoadState, event: LoadEvent) -> (next: (LoadState, LoadAction))
    ensures
        next == load_plan(state, event),
{
    match state {
        LoadState::Start => match event {
            LoadEvent::CacheFound => (LoadState::ReadingCache, LoadAction::ReadCache),
            LoadEvent::CacheMissing => (LoadState::Building, LoadAction::Build),
            _ => (LoadState::Done, LoadAction::Fail),
        },
        LoadState::ReadingCache => match event {
            LoadEvent::CacheRead => (LoadState::Done, LoadAction::Install),
            LoadEvent::CacheUnreadable => (LoadState::Building, LoadAction::Build),
            _ => (LoadState::Done, LoadAction::Fail),
        },
        LoadState::Building => match event {
            LoadEvent::Built => (LoadState::Done, LoadAction::WriteCacheAndInstall),
            _ => (LoadState::Done, LoadAction::Fail),
        },
        LoadState::Done => (LoadState::Done, LoadAction::Fail),
    }
}

/// A load ends after at most three reports: whatever is reported, the third
/// step leaves the load done.
pub proof fn lemma_load_ends(first: LoadEvent, second: LoadEvent, third: LoadEvent)
    ensures
        load_plan(
            load_plan(load_plan(LoadState::Start, first).0, second).0,
            third,
        ).0 == LoadState::Done,
{
}

/// A bundle is installed only when it was read from the cache or built, and
/// a built bundle is always written back.
pub proof fn lemma_install_follows_work(state: LoadState, event: LoadEvent)
    ensures
        load_plan(state, event).1 == LoadAction::Install ==> state == LoadState::ReadingCache
            && event == LoadEvent::CacheRead,
        load_plan(state, event).1 == LoadAction::WriteCacheAndInstall <==> state
            == LoadState::Building && event == LoadEvent::Built,
{
}

} // verus!
