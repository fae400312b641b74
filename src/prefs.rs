//! The two display preferences and the write-on-change rule that decides
//! when they are saved.
use vstd::prelude::*;

verus! {

/// How often, in milliseconds, the live toggles are compared with what was
/// saved last.
pub const POLL_INTERVAL_MS: u64 = 250;

/// The persisted display toggles.
#[derive(Clone, Copy, Debug, PartialEq, Eq, Structural)]
pub struct Preferences {
    pub fullscreen: bool,
    pub show_fps: bool,
}

impl Default for Preferences {
    /// Both toggles off: what a first run starts from.
    fn default() -> (r: Preferences)
        ensures
            !r.fullscreen,
            !r.show_fps,
    {
        Preferences { fullscreen: false, show_fps: false }
    }
}

/// What one comparison decides: save `current` where it differs from what
/// was saved last, else nothing.
pub open spec fn poll_outcome(saved: Preferences, current: Preferences) -> Option<Preferences> {
    if current != saved {
        Some(current)
    } else {
        None
    }
}

/// Remembers the preferences saved last.
pub struct PreferenceSync {
    saved: Preferences,
}

impl View for PreferenceSync {
    type V = Preferences;

    closed spec fn view(&self) -> Preferences {
        self.saved
    }
}

impl PreferenceSync {
    /// Starts from the preferences as they were loaded.
    pub fn new(loaded: Preferences) -> (r: PreferenceSync)
        ensures
            r@ == loaded,
    {
        PreferenceSync { saved: loaded }
    }

    /// The preferences saved last.
    pub fn saved(&self) -> (r: Preferences)
        ensures
            r == self@,
    {
        self.saved
    }

    /// Compares the live toggles with what was saved last. Returns what to
    /// save, where they differ, and remembers it as saved.
    pub fn poll(&mut self, current: Preferences) -> (save: Option<Preferences>)
        ensures
            save == poll_outcome(old(self)@, current),
            final(self)@ == current,
    {
        if current != self.saved {
            self.saved = current;
            Some(current)
        } else {
            None
        }
    }
}

/// Polling each of `seen` in turn from `saved`: the preferences then held as
/// saved, and how many saves were made.
pub open spec fn run_polls(saved: Preferences, seen: Seq<Preferences>) -> (Preferences, nat)
    decreases seen.len(),
{
    if seen.len() == 0 {
        (saved, 0)
    } else {
        let (held, n) = run_polls(saved, seen.drop_last());
        match poll_outcome(held, seen.last()) {
            Some(p) => (p, n + 1),
            None => (held, n),
        }
    }
}

/// The value seen before position `k`: the saved one before the first.
pub open spec fn seen_before(saved: Preferences, seen: Seq<Preferences>, k: int) -> Preferences {
    if k == 0 {
        saved
    } else {
        seen[k - 1]
    }
}

/// How many of `seen` differ from the value seen just before them.
pub open spec fn value_changes(saved: Preferences, seen: Seq<Preferences>) -> nat
    decreases seen.len(),
{
    if seen.len() == 0 {
        0
    } else {
        value_changes(saved, seen.drop_last()) + if seen.last() != seen_before(
            saved,
            seen,
            seen.len() - 1,
        ) {
            1nat
        } else {
            0nat
        }
    }
}

/// Polling saves once for each change of value between successive
/// observations, and holds the last value seen as saved.
pub proof fn law_saves_match_changes(saved: Preferences, seen: Seq<Preferences>)
    ensures
        run_polls(saved, seen).1 == value_changes(saved, seen),
        run_polls(saved, seen).0 == seen_before(saved, seen, seen.len() as int),
    decreases seen.len(),
{
    if seen.len() > 0 {
        let d = seen.drop_last();
        law_saves_match_changes(saved, d);
        if seen.len() > 1 {
            assert(d[d.len() - 1] == seen[seen.len() - 2]);
        }
    }
}

/// Polling values that never differ from the saved ones saves nothing.
pub proof fn law_no_change_no_save(saved: Preferences, seen: Seq<Preferences>)
    requires
        forall|k: int| 0 <= k < seen.len() ==> #[trigger] seen[k] == saved,
    ensures
        run_polls(saved, seen).1 == 0,
        run_polls(saved, seen).0 == saved,
    decreases seen.len(),
{
    if seen.len() > 0 {
        let d = seen.drop_last();
        assert forall|k: int| 0 <= k < d.len() implies #[trigger] d[k] == saved by {
            assert(d[k] == seen[k]);
        }
        law_no_change_no_save(saved, d);
        assert(seen.last() == seen[seen.len() - 1]);
    }
}

} // verus!
