use rreng::level::{handle_game_event, loading_percent, GameEvent, LevelAction, Screen};

#[test]
fn game_events_switch_screens() {
    let (s, a) = handle_game_event::<u8>(GameEvent::LoadLevel("levels/one.ron".to_string()));
    assert_eq!(s, Screen::Loading);
    assert!(matches!(a, LevelAction::SpawnFromPath(p) if p == "levels/one.ron"));
    let (s, a) = handle_game_event(GameEvent::LoadLevelData(7u8));
    assert_eq!(s, Screen::Loading);
    assert!(matches!(a, LevelAction::SpawnFromData(7)));
    let (s, a) = handle_game_event::<u8>(GameEvent::LoadingComplete);
    assert_eq!(s, Screen::Playing);
    assert!(matches!(a, LevelAction::ShowLevel));
    let (s, a) = handle_game_event::<u8>(GameEvent::ExitLevel);
    assert_eq!(s, Screen::Title);
    assert!(matches!(a, LevelAction::Nothing));
    assert_eq!(Screen::default(), Screen::Empty);
}

#[test]
fn loading_percentages() {
    assert_eq!(loading_percent(0, 0), 0);
    assert_eq!(loading_percent(1, 2), 50);
    assert_eq!(loading_percent(2, 3), 66);
    assert_eq!(loading_percent(5, 5), 100);
}
