use particle_playground::scene_type::SceneType;
use particle_playground::{WINDOW_HEIGHT, WINDOW_WIDTH};

#[test]
fn test_scene_type() {
    for scene_type in SceneType::all() {
        //name not empty
        let name = scene_type.display_name();
        assert!(!name.is_empty(), "A SceneType doesn't have a name.");

        //description not empty
        let description = scene_type.description();
        assert!(
            !description.is_empty(),
            "A SceneType doesn't have a description."
        );

        //description minimum value
        assert!(
            description.len() >= 10,
            "A scene description is too small (under 10 signs)."
        );
    }
}

#[test]
fn all_lists_scenes_in_launcher_order() {
    assert_eq!(
        SceneType::all(),
        vec![
            SceneType::FallingParticles,
            SceneType::BenchmarkScene,
            SceneType::TestScene,
            SceneType::NBodyScene,
            SceneType::BarnesHutNbody,
            SceneType::LavaLamp,
        ]
    );
}

#[test]
fn display_names_match_launcher_titles() {
    assert_eq!(SceneType::FallingParticles.display_name(), "Falling Particles");
    assert_eq!(SceneType::BenchmarkScene.display_name(), "Benchmark Scene");
    assert_eq!(SceneType::TestScene.display_name(), "Test Scene");
    assert_eq!(SceneType::NBodyScene.display_name(), "N-Body Scene");
    assert_eq!(SceneType::BarnesHutNbody.display_name(), "Barnes Hut N-Body");
    assert_eq!(SceneType::LavaLamp.display_name(), "Lava Lamp");
}

#[test]
fn descriptions_match_launcher_texts() {
    assert_eq!(
        SceneType::FallingParticles.description(),
        "Particles falling down to customizable gravity"
    );
    assert_eq!(
        SceneType::BenchmarkScene.description(),
        "Performance-Test: Continuously spawns particles until the fps fall under 30."
    );
    assert_eq!(
        SceneType::TestScene.description(),
        "Test-Scene with different collider-types (circle and triangle)."
    );
    assert_eq!(
        SceneType::NBodyScene.description(),
        "N-Body gravitation simulation, left: single particle, right: particle-cluster, mmb: heavy mass."
    );
    assert_eq!(SceneType::BarnesHutNbody.description(), "Barnes Hut N-Body");
    assert!(SceneType::LavaLamp.description().starts_with("A lava lamp simulation"));
}

#[test]
fn every_scene_is_listed_once() {
    let all = SceneType::all();
    for (i, a) in all.iter().enumerate() {
        for (j, b) in all.iter().enumerate() {
            assert_eq!(i == j, a == b);
        }
    }
}

#[test]
fn test_window_dimensions() {
    assert_eq!(WINDOW_HEIGHT, 600);
    assert_eq!(WINDOW_WIDTH, 800);
}

#[test]
fn test_window_dimensions_are_positive() {
    // Test that dimensions are valid positive values
    assert!(WINDOW_WIDTH > 0, "Window width must be positive");
    assert!(WINDOW_HEIGHT > 0, "Window height must be positive");

    // Test that dimensions are reasonable (not too small or too large)
    assert!(WINDOW_WIDTH >= 100, "Window width should be at least 100 pixels");
    assert!(WINDOW_HEIGHT >= 100, "Window height should be at least 100 pixels");
    assert!(WINDOW_WIDTH <= 10000, "Window width should be reasonable");
    assert!(WINDOW_HEIGHT <= 10000, "Window height should be reasonable");
}

#[test]
fn test_coordinate_centering_logic() {
    let screen_size = [800.0, 600.0];
    let particle_pos = [0.0, 0.0];

    // Simulation der Shader-Logik:
    let center_offset = [screen_size[0] / 2.0, screen_size[1] / 2.0];
    let screen_pos = [
        particle_pos[0] + center_offset[0],
        particle_pos[1] + center_offset[1],
    ];

    let ndc_x: f64 = (screen_pos[0] / screen_size[0]) * 2.0 - 1.0;
    let ndc_y: f64 = (screen_pos[1] / screen_size[1]) * 2.0 - 1.0;

    assert!(
        ndc_x.abs() < 1e-6,
        "NDC X sollte 0 sein, ist aber {}",
        ndc_x
    );
    assert!(
        ndc_y.abs() < 1e-6,
        "NDC Y sollte 0 sein, ist aber {}",
        ndc_y
    );
}

#[test]
fn test_mouse_to_world_conversion() {
    let window_size = (800.0, 600.0);

    let mouse_top_left = (0.0, 0.0);
    let world_x = mouse_top_left.0 - (window_size.0 / 2.0);
    let world_y = mouse_top_left.1 - (window_size.1 / 2.0);

    assert_eq!(world_x, -400.0);
    assert_eq!(world_y, -300.0);

    let mouse_center = (400.0, 300.0);
    let world_center_x = mouse_center.0 - (window_size.0 / 2.0);
    let world_center_y = mouse_center.1 - (window_size.1 / 2.0);

    assert_eq!(world_center_x, 0.0);
    assert_eq!(world_center_y, 0.0);
}
