//! The decisions of the application window: launcher or running scene, Escape, the start
//! button, and resizing.
use vstd::prelude::*;
use crate::scene_type::SceneType;

verus! {

/// What the application shows: the launcher with the scene picked there, if any, or a
/// running scene.
#[derive(Debug, Clone, Copy, PartialEq, Eq, Structural)]
pub enum AppMode {
    Launcher { selected_scene: Option<SceneType> },
    Running { scene_type: SceneType },
}

/// What pressing Escape does.
#[derive(Debug, Clone, Copy, PartialEq, Eq, Structural)]
pub enum EscapeAction {
    /// Leave the running scene for the launcher.
    ReturnToLauncher,
    /// Close the application.
    Exit,
}

/// The launcher as the application opens it, and returns to it: the first scene picked.
pub open spec fn launcher_mode() -> AppMode {
    AppMode::Launcher { selected_scene: Some(SceneType::FallingParticles) }
}

impl AppMode {
    /// The launcher with the first scene picked.
    pub fn launcher() -> (m: AppMode)
        ensures
            m == launcher_mode(),
    {
        AppMode::Launcher { selected_scene: Some(SceneType::FallingParticles) }
    }

    /// What Escape does in this mode: a running scene returns to the launcher, the launcher
    /// closes the application.
    pub fn on_escape(&self) -> (a: EscapeAction)
        ensures
            a == (match *self {
                AppMode::Running { .. } => EscapeAction::ReturnToLauncher,
                AppMode::Launcher { .. } => EscapeAction::Exit,
            }),
    {
        match self {
            AppMode::Running { .. } => EscapeAction::ReturnToLauncher,
            AppMode::Launcher { .. } => EscapeAction::Exit,
        }
    }

    /// The scene that the launcher's start button starts: the picked one; the button is
    /// disabled while none is picked, and absent while a scene runs.
    pub fn start_request(&self) -> (s: Option<SceneType>)
        ensures
            s == (match *self {
                AppMode::Launcher { selected_scene } => selected_scene,
                AppMode::Running { .. } => None,
            }),
    {
        match self {
            AppMode::Launcher { selected_scene } => *selected_scene,
            AppMode::Running { .. } => None,
        }
    }
}

/// The size of the drawing surface and whether the window is minimised.
#[derive(Debug, Clone, Copy, PartialEq, Eq, Structural)]
pub struct WindowSize {
    pub width: u32,
    pub height: u32,
    pub is_minimized: bool,
}

/// The window state after a resize to `w` by `h`, and whether the surface must be
/// reconfigured: a zero side minimises the window and keeps the size, any other size
/// restores it and is taken over when it differs.
pub open spec fn resized(s: WindowSize, w: u32, h: u32) -> (WindowSize, bool) {
    if w == 0 || h == 0 {
        (WindowSize { is_minimized: true, ..s }, false)
    } else {
        (
            WindowSize { width: w, height: h, is_minimized: false },
            w != s.width || h != s.height,
        )
    }
}

impl WindowSize {
    /// A window of the given size, shown.
    pub fn new(width: u32, height: u32) -> (s: WindowSize)
        ensures
            s == (WindowSize { width, height, is_minimized: false }),
    {
        WindowSize { width, height, is_minimized: false }
    }

    /// Handles a resize of the window to `new_width` by `new_height`; returns whether the
    /// surface must be reconfigured to the new size.
    pub fn resize(&mut self, new_width: u32, new_height: u32) -> (reconfigure: bool)
        ensures
            (*final(self), reconfigure) == resized(*old(self), new_width, new_height),
            new_width != 0 && new_height != 0 ==> final(self).width == new_width
                && final(self).height == new_height && !final(self).is_minimized && reconfigure
                == (new_width != old(self).width || new_height != old(self).height),
            new_width == 0 || new_height == 0 ==> final(self).width == old(self).width
                && final(self).height == old(self).height && final(self).is_minimized
                && !reconfigure,
    {
        if new_height == 0 || new_width == 0 {
            self.is_minimized = true;
            return false;
        }
        self.is_minimized = false;

        if new_width != self.width || new_height != self.height {
            self.width = new_width;
            self.height = new_height;
            true
        } else {
            false
        }
    }
}

/// A resize to a size with no zero side shows the window at exactly that size and asks for
/// a reconfiguration exactly when either side differs from the former size; a resize with a
/// zero side minimises the window, keeps its size and asks for none.
pub proof fn lemma_resize_takes_new_size(s: WindowSize, w: u32, h: u32)
    ensures
        w != 0 && h != 0 ==> resized(s, w, h).0.width == w && resized(s, w, h).0.height == h
            && !resized(s, w, h).0.is_minimized && (resized(s, w, h).1 <==> (w != s.width
            || h != s.height)),
        w == 0 || h == 0 ==> resized(s, w, h).0.width == s.width && resized(s, w, h).0.height
            == s.height && resized(s, w, h).0.is_minimized && !resized(s, w, h).1,
{
}

/// Resizing twice to the same size reconfigures the surface at most once, and a window
/// minimised and restored to its former size needs no reconfiguration.
pub proof fn lemma_resize_idempotent(s: WindowSize, w: u32, h: u32)
    ensures
        !resized(resized(s, w, h).0, w, h).1,
        resized(resized(s, w, h).0, w, h).0 == resized(s, w, h).0,
        !resized(resized(s, 0, h).0, s.width, s.height).1,
{
}

} // verus!
