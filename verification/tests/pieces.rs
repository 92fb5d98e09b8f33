use cavegen::components::{Actor, LightFlicker, Position};
use cavegen::config::{Development, Graphical, PostProcessing};
use cavegen::gui::{HorizontalAlignment, PlayerCard, TextBoxBuilder};
use cavegen::map::VisibilityMap;

#[test]
fn position_holds_its_coordinates() {
    let p = Position::new(4, -7);
    assert_eq!(p.x, 4);
    assert_eq!(p.y, -7);
}

#[test]
fn fresh_actor_has_baseline_stats() {
    let a = Actor::new();
    assert_eq!(a.strength, 10);
    assert_eq!(a.max_health, 100);
    assert_eq!(a.current_health, 100);
}

#[test]
fn light_flicker_wraps() {
    let mut f = LightFlicker::new();
    for _ in 0..1001 {
        f.advance();
    }
    // after a thousand and one steps the accumulator has wrapped to zero
    let mut g = LightFlicker::new();
    g.advance();
    let _ = (f, g);
}

#[test]
fn player_card_docks_right() {
    let card = PlayerCard::new();
    assert_eq!(card.alignment, HorizontalAlignment::RIGHT);
}

#[test]
fn text_box_builder_chains() {
    let _builder = TextBoxBuilder::new()
        .max_width(30)
        .max_height(10)
        .text(String::from("an old journal"))
        .is_animated(true)
        .is_close_on_end(false)
        .is_focused(true);
}

#[test]
fn visibility_map_starts_blank_and_resets() {
    let mut v = VisibilityMap::new(6, 4);
    assert_eq!(v.visible_tiles.len(), 24);
    assert!(v.visible_tiles.iter().all(|b| !b));
    v.write(vec![(2, 1), (3, 3)]);
    assert!(v.visible_tiles[2 + 1 * 6]);
    assert!(v.discovered_tiles[3 + 3 * 6]);
    v.reset_visible();
    assert!(v.visible_tiles.iter().all(|b| !b));
    assert!(v.discovered_tiles[2 + 1 * 6]);
    v.reset_discovered();
    assert!(v.discovered_tiles.iter().all(|b| !b));
}

#[test]
fn default_settings() {
    let d = Development::default();
    assert!(!d.debug);
    let g = Graphical::default();
    assert!(g.fullscreen);
    assert!(!g.vsync);
    let p = PostProcessing::default();
    assert!(!p.scan_lines && !p.screen_burn);
}
