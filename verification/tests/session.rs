use fpz7d::session::{ViewKeys, ViewMode, ViewSettings, ViewStep};

#[test]
fn session_starts_in_gameplay() {
    let mode = ViewMode::initial();
    assert_eq!(mode, ViewMode::Gameplay);
    assert_eq!(
        mode.settings(),
        ViewSettings {
            gameplay_camera_active: true,
            debug_camera_active: false,
            cursor_visible: false,
            cursor_locked: true,
        }
    );
    assert!(mode.accepts_attack());
}

#[test]
fn debug_mode_frees_the_cursor() {
    let mode = ViewMode::Gameplay.toggled();
    assert_eq!(mode, ViewMode::Debug);
    assert_eq!(
        mode.settings(),
        ViewSettings {
            gameplay_camera_active: false,
            debug_camera_active: true,
            cursor_visible: true,
            cursor_locked: false,
        }
    );
    assert!(!mode.accepts_attack());
    assert_eq!(mode.toggled(), ViewMode::Gameplay);
}

#[test]
fn keys_of_a_frame() {
    let idle = ViewKeys { toggle: false, quit: false };
    let toggle = ViewKeys { toggle: true, quit: false };
    let quit = ViewKeys { toggle: false, quit: true };
    let both = ViewKeys { toggle: true, quit: true };
    for mode in [ViewMode::Gameplay, ViewMode::Debug] {
        assert_eq!(mode.on_keys(idle), ViewStep { mode, apply: None, quit: false });
        assert_eq!(mode.on_keys(quit), ViewStep { mode, apply: None, quit: true });
        let other = mode.toggled();
        assert_eq!(
            mode.on_keys(toggle),
            ViewStep { mode: other, apply: Some(other.settings()), quit: false }
        );
        assert_eq!(
            mode.on_keys(both),
            ViewStep { mode: other, apply: Some(other.settings()), quit: true }
        );
        assert_eq!(mode.on_keys(toggle).mode.on_keys(toggle).mode, mode);
    }
}
