//! Waiting in the background until the window is wanted again.

use vstd::prelude::*;

use crate::text::bytes_equal;

verus! {

/// What is known about a directory that is watched: something happened to it or to
/// a file in it.
#[derive(Debug)]
pub struct WatchEvent {
    /// Which watch saw it.
    pub watch: i32,
    /// The directory itself was moved.
    pub moved: bool,
    /// The watch is gone.
    pub ignored: bool,
    /// The name of the file that it happened to.
    pub file_name: Option<Vec<u8>>,
}

/// What to do about an event.
#[derive(Copy, Clone, Eq, PartialEq, Debug)]
pub struct SleepStep {
    /// Stop this watch.
    pub remove_watch: Option<i32>,
    /// Show the window.
    pub wake: bool,
}

/// One wait for the sleep file to disappear.
#[derive(Debug)]
pub struct SleepWait {
    /// The watch on the directory, as long as there is one.
    pub watch: Option<i32>,
    /// Whether the watch was seen to be gone.
    pub watch_deleted: bool,
    /// Whether something was seen to happen to the sleep file.
    pub file_changed: bool,
}

impl SleepWait {
    #[must_use]
    pub fn new(watch: Option<i32>) -> (wait: SleepWait)
        ensures
            wait.watch == watch,
            !wait.watch_deleted,
            !wait.file_changed,
    {
        SleepWait { watch, watch_deleted: false, file_changed: false }
    }

    /// Whether the directory has to be watched anew before the next wait.
    #[must_use]
    pub fn needs_watch(&self) -> (needs: bool)
        ensures
            needs == (self.watch is None),
    {
        match self.watch {
            None => true,
            Some(_) => false,
        }
    }

    /// Takes note of an event. `file` is the name of the sleep file, and `last` says
    /// that no further event is at hand: only then does the wait end.
    pub fn step(&mut self, event: &WatchEvent, file: &[u8], last: bool) -> (step: SleepStep)
        ensures
            ({
                let ours = old(self).watch == Some(event.watch);
                let moved = ours && event.moved;
                let name = event.file_name;
                &&& final(self).watch_deleted == (old(self).watch_deleted || (ours
                    && event.ignored))
                &&& final(self).file_changed == (old(self).file_changed || (ours && (name
                    is Some && name->0@ == file@)))
                &&& final(self).watch == if moved || (ours && final(self).watch_deleted) {
                    None
                } else {
                    old(self).watch
                }
                &&& step.remove_watch == if moved {
                    Some(event.watch)
                } else {
                    None
                }
                &&& step.wake == (last && (moved || final(self).watch_deleted
                    || final(self).file_changed))
            }),
    {
        let ours = match self.watch {
            Some(watch) => watch == event.watch,
            None => false,
        };
        let mut moved = false;
        let mut remove_watch: Option<i32> = None;
        if ours {
            moved = event.moved;
            if event.ignored {
                self.watch_deleted = true;
            }
            if let Some(name) = &event.file_name {
                if bytes_equal(name.as_slice(), file) {
                    self.file_changed = true;
                }
            }
            if moved {
                remove_watch = self.watch;
                self.watch = None;
            }
            if self.watch_deleted {
                self.watch = None;
            }
        }
        SleepStep { remove_watch, wake: last && (moved || self.watch_deleted || self.file_changed) }
    }
}

/// What another watch saw changes nothing.
pub proof fn lemma_other_watches_are_ignored(
    wait: &mut SleepWait,
    event: &WatchEvent,
    file: &[u8],
    last: bool,
    step: SleepStep,
)
    requires
        old(wait).watch != Some(event.watch),
        call_ensures(SleepWait::step, (wait, event, file, last), step),
    ensures
        *final(wait) == *old(wait),
        step.remove_watch is None,
        !old(wait).watch_deleted && !old(wait).file_changed ==> !step.wake,
{
}

/// What happens to the sleep file, or to the directory that it is in, wakes the window up
/// unless more is to come, and what happens to another file does not.
pub proof fn lemma_sleep_file_wakes(
    wait: &mut SleepWait,
    event: &WatchEvent,
    file: &[u8],
    last: bool,
    step: SleepStep,
)
    requires
        old(wait).watch == Some(event.watch),
        call_ensures(SleepWait::step, (wait, event, file, last), step),
    ensures
        !last ==> !step.wake,
        last && (event.moved || event.ignored || (event.file_name matches Some(name) && name@
            == file@)) ==> step.wake,
        !old(wait).watch_deleted && !old(wait).file_changed && !event.moved && !event.ignored && !(
        event.file_name matches Some(name) && name@ == file@) ==> !step.wake,
        event.file_name matches Some(name) && name@ == file@ ==> final(wait).file_changed,
        old(wait).file_changed ==> final(wait).file_changed,
{
}

/// The directory is watched anew once the watch on it is gone or it was moved, and only then;
/// the watch on a directory that was moved is stopped.
pub proof fn lemma_directory_is_watched_anew(
    wait: &mut SleepWait,
    event: &WatchEvent,
    file: &[u8],
    last: bool,
    step: SleepStep,
    needs: bool,
)
    requires
        old(wait).watch == Some(event.watch),
        !old(wait).watch_deleted,
        call_ensures(SleepWait::step, (wait, event, file, last), step),
        call_ensures(SleepWait::needs_watch, (final(wait),), needs),
    ensures
        needs <==> event.moved || event.ignored,
        step.remove_watch is Some <==> event.moved,
        step.remove_watch matches Some(watch) ==> watch == event.watch,
{
}

} // verus!
