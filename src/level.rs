use vstd::prelude::*;

verus! {

/// The screen the game shows.
#[derive(Clone, Copy, Debug, Default, PartialEq, Eq, Hash, Structural)]
pub enum Screen {
    /// Nothing shown yet.
    #[default]
    Empty,
    Title,
    Loading,
    Playing,
}

/// Requests that drive the level's life cycle.  `D` is the payload of a
/// level description handed over directly.
#[derive(Debug)]
pub enum GameEvent<D> {
    LoadLevel(String),
    LoadLevelData(D),
    LoadingComplete,
    ExitLevel,
}

/// Marks the entity that owns a level's terrain.
#[derive(Clone, Copy, Debug, Default)]
pub struct LevelLabel;

/// Marks the entity of a level's water plane.
#[derive(Clone, Copy, Debug, Default)]
pub struct WaterLabel;

/// Tag of the host's elevation-tile loader.  Reading and decoding tile
/// files happens outside this library; the tag carries no state.
#[derive(Clone, Copy, Debug, Default)]
pub struct ElevationFileLoader;

/// What the host does for a game event besides switching screens.
#[derive(Debug)]
pub enum LevelAction<D> {
    /// Create a level loaded from the file at this path.
    SpawnFromPath(String),
    /// Create a level from this description.
    SpawnFromData(D),
    /// Make the level visible, kept for the playing screen.
    ShowLevel,
    Nothing,
}

/// The screen to switch to and the action to take for `event`.
pub fn handle_game_event<D>(event: GameEvent<D>) -> (r: (Screen, LevelAction<D>))
    ensures
        match event {
            GameEvent::LoadLevel(path) => r.0 == Screen::Loading && r.1 == LevelAction::<D>::SpawnFromPath(path),
            GameEvent::LoadLevelData(d) => r.0 == Screen::Loading && r.1 == LevelAction::<D>::SpawnFromData(d),
            GameEvent::LoadingComplete => r.0 == Screen::Playing && r.1 == LevelAction::<D>::ShowLevel,
            GameEvent::ExitLevel => r.0 == Screen::Title && r.1 == LevelAction::<D>::Nothing,
        },
{
    match event {
        GameEvent::LoadLevel(path) => (Screen::Loading, LevelAction::SpawnFromPath(path)),
        GameEvent::LoadLevelData(d) => (Screen::Loading, LevelAction::SpawnFromData(d)),
        GameEvent::LoadingComplete => (Screen::Playing, LevelAction::ShowLevel),
        GameEvent::ExitLevel => (Screen::Title, LevelAction::Nothing),
    }
}

/// Stages of loading a level.
#[derive(Clone, Copy, Debug, PartialEq, Eq, Structural)]
pub enum LoadingStage {
    LoadingData,
    LoadingTerrain,
    ReticulatingSplines,
    CreatingObjects,
}

/// Progress of a loading stage as a whole percentage; 0 when nothing is
/// expected.
pub fn loading_percent(done: u32, expected: u32) -> (r: u32)
    requires
        done * 100 <= u32::MAX,
    ensures
        expected == 0 ==> r == 0,
        expected > 0 ==> r == done * 100 / expected as int,
{
    if expected == 0 { 0 } else { done * 100 / expected }
}

} // verus!
