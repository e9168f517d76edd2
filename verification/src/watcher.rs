//! Decision logic of the file-change watcher.
//!
//! The watcher observes exactly one path for modification events; the event
//! wait itself is outside work. For every event the loop delivers, this
//! module decides what follows: each observed modification triggers exactly
//! one reload (no debouncing), any other event is ignored, and termination
//! of the watch degrades the feature without stopping the process.

use vstd::prelude::*;

verus! {

/// What the event loop observed on the watched path.
#[derive(Clone, Copy, PartialEq, Eq, Structural, Debug)]
pub enum WatchEvent {
    /// The watched file was modified.
    Modified,
    /// Some other event on the watch descriptor.
    Other,
    /// The watch ended (for instance the watch target disappeared).
    Terminated,
}

/// What the loop must do in response.
#[derive(Clone, Copy, PartialEq, Eq, Structural, Debug)]
pub enum WatchAction {
    /// Call the service's `reload` exactly once.
    Reload,
    /// Nothing.
    Ignore,
    /// Report the watch failure; reads and writes keep being served.
    ReportFailure,
}

/// State of the watch: alive until the watch loop dies.
pub struct ChangeWatcher {
    alive: bool,
}

impl ChangeWatcher {
    /// Whether the watch is still delivering events.
    pub closed spec fn is_alive(&self) -> bool {
        self.alive
    }

    pub fn new() -> (r: ChangeWatcher)
        ensures
            r.is_alive(),
    {
        ChangeWatcher { alive: true }
    }

    pub fn alive(&self) -> (r: bool)
        ensures
            r == self.is_alive(),
    {
        self.alive
    }

    /// Maps one observed event to the action the loop performs: exactly one
    /// reload per observed modification while the watch lives; termination
    /// is reported once and ends the watch, after which everything is
    /// ignored.
    pub fn on_event(&mut self, ev: WatchEvent) -> (a: WatchAction)
        ensures
            old(self).is_alive() && ev == WatchEvent::Modified ==> a == WatchAction::Reload
                && final(self).is_alive(),
            old(self).is_alive() && ev == WatchEvent::Other ==> a == WatchAction::Ignore
                && final(self).is_alive(),
            old(self).is_alive() && ev == WatchEvent::Terminated ==> a
                == WatchAction::ReportFailure && !final(self).is_alive(),
            !old(self).is_alive() ==> a == WatchAction::Ignore && !final(self).is_alive(),
    {
        if !self.alive {
            return WatchAction::Ignore;
        }
        match ev {
            WatchEvent::Modified => WatchAction::Reload,
            WatchEvent::Other => WatchAction::Ignore,
            WatchEvent::Terminated => {
                self.alive = false;
                WatchAction::ReportFailure
            },
        }
    }
}

} // verus!
