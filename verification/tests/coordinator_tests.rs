use clipboard_history::config::Config;
use clipboard_history::coordinator::{
    view_position, HotkeyState, PollerState, UiState, VisTransition,
};
use clipboard_history::tray::icon_rgba;

#[test]
fn test_double_tap_within_window_toggles() {
    let mut hk = HotkeyState::new();
    assert!(!hk.on_key_press(1000));
    hk.on_key_release();
    assert!(hk.on_key_press(1200));
}

#[test]
fn test_slow_second_tap_does_not_toggle() {
    let mut hk = HotkeyState::new();
    assert!(!hk.on_key_press(1000));
    hk.on_key_release();
    assert!(!hk.on_key_press(1400));
}

#[test]
fn test_key_repeat_is_ignored() {
    let mut hk = HotkeyState::new();
    assert!(!hk.on_key_press(1000));
    // Held key: the OS repeats the press event; no release in between.
    assert!(!hk.on_key_press(1100));
    assert!(!hk.on_key_press(1200));
}

#[test]
fn test_triple_tap_toggles_once() {
    let mut hk = HotkeyState::new();
    assert!(!hk.on_key_press(1000));
    hk.on_key_release();
    assert!(hk.on_key_press(1100));
    hk.on_key_release();
    // The completed tap cleared the pending press.
    assert!(!hk.on_key_press(1200));
}

#[test]
fn test_poller_pushes_only_new_nonempty_text() {
    let mut poller = PollerState::new(String::new());
    assert!(poller.observe("hello".into()));
    assert!(!poller.observe("hello".into()));
    assert!(!poller.observe("".into()));
    assert!(poller.observe("world".into()));
}

#[test]
fn test_wake_observes_toggle_and_clears_state_on_reveal() {
    let mut ui = UiState::new();
    assert!(matches!(ui.on_wake(true), VisTransition::Shown));
    assert!(ui.was_visible);
    assert!(matches!(ui.on_wake(true), VisTransition::Unchanged));
    assert!(matches!(ui.on_wake(false), VisTransition::Hidden));
    assert!(!ui.was_visible);
    assert!(matches!(ui.on_wake(false), VisTransition::Unchanged));
}

#[test]
fn test_navigation_moves_and_clamps() {
    let mut ui = UiState::new();
    ui.navigate(false, true, 3);
    assert_eq!(ui.selected, 1);
    ui.navigate(false, true, 3);
    assert_eq!(ui.selected, 2);
    ui.navigate(false, true, 3);
    assert_eq!(ui.selected, 2);
    ui.navigate(true, false, 3);
    assert_eq!(ui.selected, 1);
    // Result list shrank: the selection is clamped into range.
    ui.navigate(false, false, 1);
    assert_eq!(ui.selected, 0);
}

#[test]
fn test_view_position_below_and_above_cursor() {
    // Enough space below: a little left of and below the pointer.
    assert_eq!(view_position(300, 100, 500, 1080), (100, 50));
    // Not enough space below: lifted above the pointer.
    assert_eq!(view_position(300, 900, 500, 1080), (100, 400));
    // Never above the top edge.
    assert_eq!(view_position(300, 200, 1500, 1080), (100, 0));
}

#[test]
fn test_icon_rgba_is_solid_blue() {
    let v = icon_rgba(16);
    assert_eq!(v.len(), 16 * 16 * 4);
    for px in v.chunks(4) {
        assert_eq!(px, &[60, 120, 216, 255]);
    }
}

#[test]
fn test_config_defaults() {
    let c = Config::default();
    assert_eq!(c.max_size, 100);
    assert_eq!(c.poll_interval_ms, 500);
    assert_eq!(c.window_width, 400);
    assert_eq!(c.window_height, 500);
}
