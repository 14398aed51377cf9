//! The decision cores of the threads that share the history store and the
//! visibility flag: the clipboard poller, the global-hotkey watcher and the
//! UI consumer. Each is a small state machine from plain values to plain
//! values; the surrounding threads perform the OS calls and hand the
//! results in.

use vstd::prelude::*;

verus! {

/// Milliseconds within which two presses of the toggle key count as a
/// double tap.
pub const DOUBLE_TAP_MS: u64 = 300;

/// State of the global hotkey watcher: the time of the previous genuine
/// press of the toggle key, and whether the key is physically held (so
/// that OS key-repeat events are filtered out).
pub struct HotkeyState {
    pub last_press: Option<u64>,
    pub key_down: bool,
}

impl HotkeyState {
    /// A watcher that has seen nothing yet.
    pub fn new() -> (s: Self)
        ensures
            s.last_press is None,
            !s.key_down,
    {
        HotkeyState { last_press: None, key_down: false }
    }

    /// A key-down event of the toggle key at `now` (milliseconds on a
    /// monotonic clock). Returns whether a double tap was completed, that
    /// is whether the visibility flag should toggle: the key was not
    /// already held, and a previous genuine press lies less than
    /// `DOUBLE_TAP_MS` before `now`. A completed tap clears the pending
    /// press, so a triple tap does not toggle twice.
    pub fn on_key_press(&mut self, now: u64) -> (toggled: bool)
        ensures
            final(self).key_down,
            toggled == (!old(self).key_down && match old(self).last_press {
                Some(p) => p <= now && now - p < DOUBLE_TAP_MS,
                None => false,
            }),
            final(self).last_press == (if old(self).key_down {
                old(self).last_press
            } else if toggled {
                None::<u64>
            } else {
                Some(now)
            }),
    {
        if self.key_down {
            return false;
        }
        self.key_down = true;
        if let Some(p) = self.last_press {
            if p <= now && now - p < DOUBLE_TAP_MS {
                self.last_press = None;
                return true;
            }
        }
        self.last_press = Some(now);
        false
    }

    /// A key-up event of the toggle key: the key is no longer held.
    pub fn on_key_release(&mut self)
        ensures
            !final(self).key_down,
            final(self).last_press == old(self).last_press,
    {
        self.key_down = false;
    }
}

/// State of the clipboard poller: the last text it observed.
pub struct PollerState {
    pub last_text: String,
}

impl PollerState {
    /// A poller that has observed `initial` (what the clipboard held at
    /// start-up, or the empty string).
    pub fn new(initial: String) -> (s: Self)
        ensures
            s.last_text@ == initial@,
    {
        PollerState { last_text: initial }
    }

    /// A poll tick read `current` off the OS clipboard. Returns whether
    /// the text is new — non-empty and different from the last observed
    /// text — and should therefore be pushed into the history; only then
    /// does the observed text advance.
    pub fn observe(&mut self, current: String) -> (push_it: bool)
        ensures
            push_it == (current@ != old(self).last_text@ && current@.len() > 0),
            final(self).last_text@ == (if push_it {
                current@
            } else {
                old(self).last_text@
            }),
    {
        if current.as_str().is_empty() {
            return false;
        }
        if self.last_text.eq(&current) {
            return false;
        }
        self.last_text = current;
        true
    }
}

/// What the display layer must do after a consumer wake.
pub enum VisTransition {
    /// The view just became visible: show the window and focus it.
    Shown,
    /// The view just became hidden: hide the window.
    Hidden,
    /// The visibility did not change.
    Unchanged,
}

/// Where the arrow keys move the selection over `count` results: up first,
/// then down, then clamped into range (when there are any results).
pub open spec fn spec_navigate(sel: int, up: bool, down: bool, count: int) -> int {
    let s1 = if up && sel > 0 {
        sel - 1
    } else {
        sel
    };
    let s2 = if down && s1 + 1 < count {
        s1 + 1
    } else {
        s1
    };
    if count > 0 && s2 >= count {
        count - 1
    } else {
        s2
    }
}

/// State of the UI consumer: the visibility it observed at its previous
/// wake, the live search text, and the selected result index.
pub struct UiState {
    pub was_visible: bool,
    pub query: String,
    pub selected: usize,
}

impl UiState {
    /// A consumer that starts hidden with no query.
    pub fn new() -> (s: Self)
        ensures
            !s.was_visible,
            s.query@.len() == 0,
            s.selected == 0,
    {
        UiState { was_visible: false, query: String::new(), selected: 0 }
    }

    /// One wake of the consumer, handed the visibility flag it read. The
    /// consumer's recorded visibility equals that reading afterwards — a
    /// wake never acts on a stale value, so however a toggle reached the
    /// flag, and even if the wake signal itself was lost and this is only
    /// the periodic re-check, the consumer observes the toggle at its next
    /// wake. On becoming visible the transient search state is cleared.
    pub fn on_wake(&mut self, visible: bool) -> (t: VisTransition)
        ensures
            final(self).was_visible == visible,
            t == (if visible && !old(self).was_visible {
                VisTransition::Shown
            } else if !visible && old(self).was_visible {
                VisTransition::Hidden
            } else {
                VisTransition::Unchanged
            }),
            (visible && !old(self).was_visible) ==> final(self).query@.len() == 0 && final(self).selected == 0,
            !(visible && !old(self).was_visible) ==> final(self).query@ == old(self).query@
                && final(self).selected == old(self).selected,
    {
        let was = self.was_visible;
        self.was_visible = visible;
        if visible && !was {
            self.query = String::new();
            self.selected = 0;
            VisTransition::Shown
        } else if !visible && was {
            VisTransition::Hidden
        } else {
            VisTransition::Unchanged
        }
    }

    /// Arrow-key navigation over `count` search results.
    pub fn navigate(&mut self, up: bool, down: bool, count: usize)
        ensures
            final(self).was_visible == old(self).was_visible,
            final(self).query@ == old(self).query@,
            final(self).selected as int == spec_navigate(
                old(self).selected as int,
                up,
                down,
                count as int,
            ),
    {
        if up && self.selected > 0 {
            self.selected = self.selected - 1;
        }
        if down && count > 0 && self.selected < count - 1 {
            self.selected = self.selected + 1;
        }
        if count > 0 && self.selected >= count {
            self.selected = count - 1;
        }
    }

    /// Clear the transient search state (on escape, or after a selection
    /// was written back to the clipboard).
    pub fn clear(&mut self)
        ensures
            final(self).was_visible == old(self).was_visible,
            final(self).query@.len() == 0,
            final(self).selected == 0,
    {
        self.query = String::new();
        self.selected = 0;
    }
}

/// Visibility race bound, as far as the state machine can carry it: take
/// any toggle of the flag (`flag` is its new value, written by whichever
/// watcher won the race) and any consumer state; the very next wake — the
/// display layer guarantees one within a polling period, since the
/// consumer re-arms a periodic re-check even when no signal arrives — has
/// the consumer observe exactly `flag`, and report the show or hide
/// transition exactly when the flag differs from what it last observed.
pub proof fn lemma_wake_observes_toggle(pre: UiState, post: UiState, flag: bool, t: VisTransition)
    requires
        final_of_wake(pre, post, flag, t),
    ensures
        post.was_visible == flag,
        (flag != pre.was_visible) <==> !(t is Unchanged),
{
}

/// The relation `on_wake` establishes between the state before a wake, the
/// state after it, the flag value read, and the reported transition.
pub open spec fn final_of_wake(pre: UiState, post: UiState, flag: bool, t: VisTransition) -> bool {
    &&& post.was_visible == flag
    &&& t == (if flag && !pre.was_visible {
        VisTransition::Shown
    } else if !flag && pre.was_visible {
        VisTransition::Hidden
    } else {
        VisTransition::Unchanged
    })
}

/// Where to place the view when it is revealed: a little left of and below
/// the pointer; lifted above the pointer when it would not fit the screen
/// below, and never above the top edge. Coordinates and sizes are pixels.
pub fn view_position(cursor_x: i64, cursor_y: i64, window_height: i64, screen_height: i64) -> (pos:
    (i64, i64))
    requires
        -0x40000000 <= cursor_x <= 0x40000000,
        -0x40000000 <= cursor_y <= 0x40000000,
        0 <= window_height <= 0x40000000,
        0 <= screen_height <= 0x40000000,
    ensures
        pos.0 == cursor_x - 200,
        pos.1 == (if cursor_y - 50 + window_height > screen_height {
            if cursor_y - window_height > 0 {
                cursor_y - window_height
            } else {
                0
            }
        } else {
            cursor_y - 50
        }),
{
    let x = cursor_x - 200;
    let y = if cursor_y - 50 + window_height > screen_height {
        if cursor_y - window_height > 0 {
            cursor_y - window_height
        } else {
            0
        }
    } else {
        cursor_y - 50
    };
    (x, y)
}

} // verus!
