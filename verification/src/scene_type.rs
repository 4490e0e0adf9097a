//! The simulations that the launcher offers, with their titles and descriptions.
use vstd::prelude::*;

verus! {

/// The simulations that the launcher offers.
#[derive(Debug, Clone, Copy, PartialEq, Eq, Hash, Structural)]
pub enum SceneType {
    FallingParticles,
    BenchmarkScene,
    TestScene,
    NBodyScene,
    BarnesHutNbody,
    LavaLamp,
}

/// The scenes in the order in which the launcher lists them.
pub open spec fn all_scenes() -> Seq<SceneType> {
    seq![
        SceneType::FallingParticles,
        SceneType::BenchmarkScene,
        SceneType::TestScene,
        SceneType::NBodyScene,
        SceneType::BarnesHutNbody,
        SceneType::LavaLamp,
    ]
}

/// The title under which the launcher shows a scene.
pub open spec fn scene_name(s: SceneType) -> Seq<char> {
    match s {
        SceneType::FallingParticles => "Falling Particles"@,
        SceneType::BenchmarkScene => "Benchmark Scene"@,
        SceneType::TestScene => "Test Scene"@,
        SceneType::NBodyScene => "N-Body Scene"@,
        SceneType::BarnesHutNbody => "Barnes Hut N-Body"@,
        SceneType::LavaLamp => "Lava Lamp"@,
    }
}

/// The one-line explanation that the launcher shows under a scene's title.
pub open spec fn scene_description(s: SceneType) -> Seq<char> {
    match s {
        SceneType::FallingParticles => "Particles falling down to customizable gravity"@,
        SceneType::BenchmarkScene =>
            "Performance-Test: Continuously spawns particles until the fps fall under 30."@,
        SceneType::TestScene =>
            "Test-Scene with different collider-types (circle and triangle)."@,
        SceneType::NBodyScene =>
            "N-Body gravitation simulation, left: single particle, right: particle-cluster, mmb: heavy mass."@,
        SceneType::BarnesHutNbody => "Barnes Hut N-Body"@,
        SceneType::LavaLamp =>
            "A lava lamp simulation using oscillating magnets to push and pull particles inside a rectangular container."@,
    }
}

impl SceneType {
    /// Every scene type, in launcher order.
    pub fn all() -> (r: Vec<SceneType>)
        ensures
            r@ == all_scenes(),
    {
        vec![
            SceneType::FallingParticles,
            SceneType::BenchmarkScene,
            SceneType::TestScene,
            SceneType::NBodyScene,
            SceneType::BarnesHutNbody,
            SceneType::LavaLamp,
        ]
    }

    /// The title of this scene.
    pub fn display_name(&self) -> (r: &'static str)
        ensures
            r@ == scene_name(*self),
    {
        match self {
            SceneType::FallingParticles => "Falling Particles",
            SceneType::BenchmarkScene => "Benchmark Scene",
            SceneType::TestScene => "Test Scene",
            SceneType::NBodyScene => "N-Body Scene",
            SceneType::BarnesHutNbody => "Barnes Hut N-Body",
            SceneType::LavaLamp => "Lava Lamp",
        }
    }

    /// The description of this scene.
    pub fn description(&self) -> (r: &'static str)
        ensures
            r@ == scene_description(*self),
    {
        match self {
            SceneType::FallingParticles => "Particles falling down to customizable gravity",
            SceneType::BenchmarkScene =>
                "Performance-Test: Continuously spawns particles until the fps fall under 30.",
            SceneType::TestScene =>
                "Test-Scene with different collider-types (circle and triangle).",
            SceneType::NBodyScene =>
                "N-Body gravitation simulation, left: single particle, right: particle-cluster, mmb: heavy mass.",
            SceneType::BarnesHutNbody => "Barnes Hut N-Body",
            SceneType::LavaLamp =>
                "A lava lamp simulation using oscillating magnets to push and pull particles inside a rectangular container.",
        }
    }
}

/// Every scene is listed by the launcher exactly once.
pub proof fn lemma_all_lists_each_scene_once(s: SceneType)
    ensures
        all_scenes().contains(s),
        all_scenes().no_duplicates(),
{
    let a = all_scenes();
    match s {
        SceneType::FallingParticles => assert(a[0] == s),
        SceneType::BenchmarkScene => assert(a[1] == s),
        SceneType::TestScene => assert(a[2] == s),
        SceneType::NBodyScene => assert(a[3] == s),
        SceneType::BarnesHutNbody => assert(a[4] == s),
        SceneType::LavaLamp => assert(a[5] == s),
    }
}

/// The launcher's text for each scene: the title it lists and the line that explains what
/// the scene simulates.
pub proof fn lemma_launcher_texts()
    ensures
        scene_name(SceneType::FallingParticles) == "Falling Particles"@,
        scene_name(SceneType::BenchmarkScene) == "Benchmark Scene"@,
        scene_name(SceneType::TestScene) == "Test Scene"@,
        scene_name(SceneType::NBodyScene) == "N-Body Scene"@,
        scene_name(SceneType::BarnesHutNbody) == "Barnes Hut N-Body"@,
        scene_name(SceneType::LavaLamp) == "Lava Lamp"@,
        scene_description(SceneType::FallingParticles)
            == "Particles falling down to customizable gravity"@,
        scene_description(SceneType::BenchmarkScene)
            == "Performance-Test: Continuously spawns particles until the fps fall under 30."@,
        scene_description(SceneType::TestScene)
            == "Test-Scene with different collider-types (circle and triangle)."@,
        scene_description(SceneType::NBodyScene)
            == "N-Body gravitation simulation, left: single particle, right: particle-cluster, mmb: heavy mass."@,
        scene_description(SceneType::BarnesHutNbody) == "Barnes Hut N-Body"@,
        scene_description(SceneType::LavaLamp)
            == "A lava lamp simulation using oscillating magnets to push and pull particles inside a rectangular container."@,
{
}

/// Every scene has a non-empty title and a description of at least ten characters.
pub proof fn lemma_scene_texts_present(s: SceneType)
    ensures
        scene_name(s).len() > 0,
        scene_description(s).len() >= 10,
{
    reveal_strlit("Falling Particles");
    reveal_strlit("Benchmark Scene");
    reveal_strlit("Test Scene");
    reveal_strlit("N-Body Scene");
    reveal_strlit("Barnes Hut N-Body");
    reveal_strlit("Lava Lamp");
    reveal_strlit(
        "A lava lamp simulation using oscillating magnets to push and pull particles inside a rectangular container.",
    );
    reveal_strlit("Particles falling down to customizable gravity");
    reveal_strlit("Performance-Test: Continuously spawns particles until the fps fall under 30.");
    reveal_strlit("Test-Scene with different collider-types (circle and triangle).");
    reveal_strlit(
        "N-Body gravitation simulation, left: single particle, right: particle-cluster, mmb: heavy mass.",
    );
}

} // verus!
