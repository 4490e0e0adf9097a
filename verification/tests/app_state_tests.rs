use particle_playground::app_state::{AppMode, EscapeAction, WindowSize};
use particle_playground::scene_type::SceneType;

#[test]
fn launcher_starts_with_falling_particles() {
    assert_eq!(
        AppMode::launcher(),
        AppMode::Launcher { selected_scene: Some(SceneType::FallingParticles) }
    );
}

#[test]
fn escape_leaves_scene_then_closes() {
    let running = AppMode::Running { scene_type: SceneType::LavaLamp };
    assert_eq!(running.on_escape(), EscapeAction::ReturnToLauncher);
    assert_eq!(AppMode::launcher().on_escape(), EscapeAction::Exit);
}

#[test]
fn start_starts_the_picked_scene() {
    let picked = AppMode::Launcher { selected_scene: Some(SceneType::NBodyScene) };
    assert_eq!(picked.start_request(), Some(SceneType::NBodyScene));
    let none = AppMode::Launcher { selected_scene: None };
    assert_eq!(none.start_request(), None);
    let running = AppMode::Running { scene_type: SceneType::TestScene };
    assert_eq!(running.start_request(), None);
}

#[test]
fn resize_to_zero_minimizes() {
    let mut w = WindowSize::new(800, 600);
    assert!(!w.resize(0, 300));
    assert!(w.is_minimized);
    assert_eq!((w.width, w.height), (800, 600));
    assert!(!w.resize(800, 600));
    assert!(!w.is_minimized);
}

#[test]
fn resize_reconfigures_once() {
    let mut w = WindowSize::new(800, 600);
    assert!(w.resize(1024, 768));
    assert_eq!((w.width, w.height), (1024, 768));
    assert!(!w.resize(1024, 768));
    assert!(w.resize(1024, 769));
}
