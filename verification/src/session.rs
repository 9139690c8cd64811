//! The view mode of a session: whether the player looks through the
//! first-person camera or through the debug camera, and what follows from
//! that for the cameras and the cursor.
//!
//! The mode is the one piece of state. Which camera is active and how the
//! cursor is held are functions of it, so the two can never disagree.

use vstd::prelude::*;

verus! {

/// How the player looks at the world.
#[derive(Clone, Copy, Debug, PartialEq, Eq, Structural)]
pub enum ViewMode {
    /// Through the first-person camera, with the cursor grabbed.
    Gameplay,
    /// Through the debug camera above the map, with the cursor free.
    Debug,
}

/// What a view mode asks of the cameras and the cursor.
#[derive(Clone, Copy, Debug, PartialEq, Eq, Structural)]
pub struct ViewSettings {
    /// Whether the first-person camera renders.
    pub gameplay_camera_active: bool,
    /// Whether the debug camera renders.
    pub debug_camera_active: bool,
    /// Whether the cursor is shown.
    pub cursor_visible: bool,
    /// Whether the cursor is locked to the window.
    pub cursor_locked: bool,
}

/// The keys of one frame that bear on the view.
#[derive(Clone, Copy, Debug, PartialEq, Eq, Structural)]
pub struct ViewKeys {
    /// The key that switches the camera went down in this frame.
    pub toggle: bool,
    /// The key that ends the session went down in this frame.
    pub quit: bool,
}

/// What a frame's keys lead to.
#[derive(Clone, Copy, Debug, PartialEq, Eq, Structural)]
pub struct ViewStep {
    /// The mode after the frame.
    pub mode: ViewMode,
    /// The settings to apply, where the mode changed.
    pub apply: Option<ViewSettings>,
    /// Whether to end the session.
    pub quit: bool,
}

/// The other mode.
pub open spec fn other_mode(mode: ViewMode) -> ViewMode {
    match mode {
        ViewMode::Gameplay => ViewMode::Debug,
        ViewMode::Debug => ViewMode::Gameplay,
    }
}

/// The settings of a mode: exactly one camera renders, and the cursor is
/// free exactly in debug mode.
pub open spec fn settings_of(mode: ViewMode) -> ViewSettings {
    let debug = mode == ViewMode::Debug;
    ViewSettings {
        gameplay_camera_active: !debug,
        debug_camera_active: debug,
        cursor_visible: debug,
        cursor_locked: !debug,
    }
}

/// What a frame's keys lead to from a mode: the toggle key switches the
/// mode and has its settings applied, the quit key ends the session, and
/// neither hinders the other.
pub open spec fn step_of(mode: ViewMode, keys: ViewKeys) -> ViewStep {
    if keys.toggle {
        ViewStep {
            mode: other_mode(mode),
            apply: Some(settings_of(other_mode(mode))),
            quit: keys.quit,
        }
    } else {
        ViewStep { mode, apply: None, quit: keys.quit }
    }
}

impl ViewMode {
    /// The mode in which a session starts.
    pub fn initial() -> (mode: ViewMode)
        ensures
            mode == ViewMode::Gameplay,
    {
        ViewMode::Gameplay
    }

    /// The other mode.
    pub fn toggled(self) -> (mode: ViewMode)
        ensures
            mode == other_mode(self),
    {
        match self {
            ViewMode::Gameplay => ViewMode::Debug,
            ViewMode::Debug => ViewMode::Gameplay,
        }
    }

    /// What the mode asks of the cameras and the cursor.
    pub fn settings(self) -> (settings: ViewSettings)
        ensures
            settings == settings_of(self),
            settings.gameplay_camera_active != settings.debug_camera_active,
            settings.cursor_visible != settings.cursor_locked,
    {
        let debug = match self {
            ViewMode::Gameplay => false,
            ViewMode::Debug => true,
        };
        ViewSettings {
            gameplay_camera_active: !debug,
            debug_camera_active: debug,
            cursor_visible: debug,
            cursor_locked: !debug,
        }
    }

    /// Whether a press of the attack button starts an attack: only where
    /// the player looks through the first-person camera.
    pub fn accepts_attack(self) -> (accepted: bool)
        ensures
            accepted == (self == ViewMode::Gameplay),
    {
        match self {
            ViewMode::Gameplay => true,
            ViewMode::Debug => false,
        }
    }

    /// Takes the keys of one frame.
    pub fn on_keys(self, keys: ViewKeys) -> (step: ViewStep)
        ensures
            step == step_of(self, keys),
    {
        if keys.toggle {
            let mode = self.toggled();
            ViewStep { mode, apply: Some(mode.settings()), quit: keys.quit }
        } else {
            ViewStep { mode: self, apply: None, quit: keys.quit }
        }
    }
}

/// Toggling twice leads back: two presses of the toggle key leave the mode
/// as it was, and the settings applied last are those of that mode.
pub proof fn lemma_toggle_twice(mode: ViewMode, first: ViewKeys, second: ViewKeys)
    requires
        first.toggle,
        second.toggle,
    ensures
        step_of(step_of(mode, first).mode, second).mode == mode,
        step_of(step_of(mode, first).mode, second).apply == Some(settings_of(mode)),
{
}

} // verus!
