use brain_hoarders::combat::{combat_step, handle_damage_events, revive, BulletState, BULLET_FLIGHT_FRAMES, PLAYER_HEALTH, RESPAWN_FRAMES};
use brain_hoarders::components::{DamageEvent, Facing};
use brain_hoarders::forces::Agent;
use brain_hoarders::geometry::Vec2i;
use brain_hoarders::input::PlayerControls;
use brain_hoarders::menu::connect::MenuConnectBtn;
use brain_hoarders::menu::main_menu::{MainMenuAction, MenuMainBtn};
use brain_hoarders::menu::online::{
    btn_listeners, btn_visuals, update_lobby_btn, update_lobby_id, update_lobby_id_display,
    ButtonEnabled, LobbyID, MenuOnlineBtn,
};
use brain_hoarders::menu::win::MenuWinBtn;
use brain_hoarders::menu::{AppState, ButtonColor, Interaction};
use brain_hoarders::motion::{advance, follow_collection, move_creature, CREATURE_ATTACK_COOLDOWN_FRAMES, move_player, turn, wrap_borders_system, MapSettings, PlayerState};
use brain_hoarders::geometry::UNIT;

const U: i64 = UNIT;

fn v(x: i64, y: i64) -> Vec2i {
    Vec2i { x, y }
}

#[test]
fn advance_moves_and_clamps() {
    let m = MapSettings::new(100, 60);
    assert_eq!(advance(v(0, 0), v(U, 0), 210, m), v(3, 0));
    assert_eq!(advance(v(49, 29), v(U, 0), 210, m), v(50, 29));
    assert_eq!(advance(v(0, -30), v(0, -U), 210, m), v(0, -30));
    assert_eq!(advance(v(0, 0), v(-U, 0), 600, m), v(-10, 0));
}

#[test]
fn creature_follows_until_close() {
    let m = MapSettings::new(1000, 1000);
    let mut a = Agent { id: 1, position: v(80, 0), heading: v(-U, 0), kind: Some(9), size: 10, follow: Some(50), target: None, attack_cooldown: 0 };
    let players = vec![(9u64, v(0, 0))];
    assert_eq!(move_creature(&a, &players, m).0.position, v(77, 0));
    a.position = v(30, 0);
    assert_eq!(move_creature(&a, &players, m).0.position, v(30, 0));
}

#[test]
fn chasing_creature_stops_within_reach_and_strikes() {
    let m = MapSettings::new(1000, 1000);
    let mut a = Agent { id: 1, position: v(80, 0), heading: v(-U, 0), kind: Some(9), size: 10, follow: Some(50), target: Some(9), attack_cooldown: 0 };
    let players = vec![(9u64, v(0, 0))];
    let (moved, hit) = move_creature(&a, &players, m);
    assert_eq!(moved.position, v(77, 0));
    assert_eq!(hit, None);
    a.position = v(30, 0);
    let (b, hit) = move_creature(&a, &players, m);
    assert_eq!(b.position, v(30, 0));
    assert_eq!(hit, Some(DamageEvent::new(9, 1)));
    assert_eq!(b.attack_cooldown, CREATURE_ATTACK_COOLDOWN_FRAMES);
    let (c, hit) = move_creature(&b, &players, m);
    assert_eq!(hit, None);
    assert_eq!(c.attack_cooldown, CREATURE_ATTACK_COOLDOWN_FRAMES - 1);
    let mut k = c;
    let mut strikes = 0;
    for _ in 0..CREATURE_ATTACK_COOLDOWN_FRAMES {
        let (n, hit) = move_creature(&k, &players, m);
        if hit.is_some() {
            strikes += 1;
        }
        k = n;
    }
    assert_eq!(strikes, 1);
}

#[test]
fn stale_target_is_dropped() {
    let m = MapSettings::new(1000, 1000);
    let a = Agent { id: 1, position: v(80, 0), heading: v(-U, 0), kind: Some(9), size: 10, follow: Some(50), target: Some(42), attack_cooldown: 0 };
    let (b, hit) = move_creature(&a, &vec![(9u64, v(0, 0))], m);
    assert_eq!(b.target, None);
    assert_eq!(b.position, v(80, 0));
    assert_eq!(hit, None);
}

#[test]
fn player_turns_and_moves() {
    let m = MapSettings::new(1000, 1000);
    assert_eq!(turn(v(0, U), 0), v(0, U));
    let left = turn(v(0, U), 1);
    assert!(left.x < 0 && left.y > 1000);
    let right = turn(v(0, U), -1);
    assert_eq!(right.x, -left.x);
    let p = PlayerState { id: 5, handle: 0, position: v(0, 0), heading: v(0, U), controls: PlayerControls { accel: 1, steer: 0, firing: false, shift: true }, health: 10, bullet_ready: true, respawn_frames: 0 };
    assert_eq!(move_player(&p, m).position, v(0, 4));
    let back = PlayerState { controls: PlayerControls { accel: -1, steer: 0, firing: false, shift: false }, ..p };
    assert_eq!(move_player(&back, m).position, v(0, -3));
}

#[test]
fn borders_wrap_to_the_far_side() {
    let mut ps = vec![v(50, 0), v(-50, 10), v(10, 30), v(0, -31), v(3, 4)];
    wrap_borders_system(&mut ps, 100, 60);
    assert_eq!(ps, vec![v(-49, 0), v(49, 10), v(10, -29), v(0, 29), v(3, 4)]);
}

#[test]
fn map_area() {
    assert_eq!(MapSettings::new(128, 64).size(), 8192);
}

#[test]
fn facing_index_rows() {
    assert_eq!(Facing::Left.index(), 0);
    assert_eq!(Facing::Right.index(), 1);
    assert_eq!(Facing::Up.index(), 2);
    assert_eq!(Facing::Down.index(), 3);
}

#[test]
fn lobby_code_takes_four_digits() {
    let mut id = LobbyID(vec![]);
    update_lobby_id(&mut id, &vec!['1', 'a', '2', '3', '4', '5'], false);
    assert_eq!(id.0, vec!['1', '2', '3', '4']);
    update_lobby_id(&mut id, &vec![], true);
    assert_eq!(id.0, vec!['1', '2', '3']);
    update_lobby_id(&mut id, &vec!['9'], true);
    assert_eq!(id.0, vec!['1', '2', '3']);
    let mut empty = LobbyID(vec![]);
    update_lobby_id(&mut empty, &vec![], true);
    assert!(empty.0.is_empty());
    assert_eq!(update_lobby_id_display(&id), vec!['1', '2', '3']);
}

#[test]
fn lobby_button_needs_full_code() {
    assert!(!update_lobby_btn(&vec![vec!['1', '2']]));
    assert!(update_lobby_btn(&vec![vec!['1'], vec!['1', '2', '3', '4']]));
    assert!(!update_lobby_btn(&vec![]));
}

#[test]
fn online_buttons() {
    let id = LobbyID(vec!['4', '2', '4', '2']);
    let (s, c) = btn_listeners(Interaction::Clicked, MenuOnlineBtn::LobbyMatch, None, &id).unwrap();
    assert_eq!(s, AppState::MenuConnect);
    assert_eq!(c.unwrap().lobby_id.iter().collect::<String>(), "bevy4242");
    let (s, c) = btn_listeners(Interaction::Clicked, MenuOnlineBtn::QuickMatch, Some(ButtonEnabled(true)), &id).unwrap();
    assert_eq!(s, AppState::MenuConnect);
    assert_eq!(c.unwrap().lobby_id.iter().collect::<String>(), "bevy?next=2");
    let (s, c) = btn_listeners(Interaction::Clicked, MenuOnlineBtn::Back, None, &id).unwrap();
    assert_eq!(s, AppState::MenuMain);
    assert!(c.is_none());
    assert!(btn_listeners(Interaction::Clicked, MenuOnlineBtn::LobbyMatch, Some(ButtonEnabled(false)), &id).is_none());
    assert!(btn_listeners(Interaction::Hovered, MenuOnlineBtn::Back, None, &id).is_none());
    assert_eq!(btn_visuals(Interaction::Hovered, Some(ButtonEnabled(false))), ButtonColor::Disabled);
    assert_eq!(btn_visuals(Interaction::Clicked, None), ButtonColor::Pressed);
    assert_eq!(brain_hoarders::menu::btn_visuals(Interaction::Idle), ButtonColor::Normal);
}

#[test]
fn other_menu_buttons() {
    assert_eq!(brain_hoarders::menu::connect::btn_listeners(Interaction::Clicked, MenuConnectBtn::Back), Some(AppState::MenuMain));
    assert_eq!(brain_hoarders::menu::win::btn_listeners(Interaction::Hovered, MenuWinBtn::Back), None);
    assert_eq!(brain_hoarders::menu::win::btn_listeners(Interaction::Clicked, MenuWinBtn::Back), Some(AppState::MenuMain));
    assert_eq!(brain_hoarders::menu::controls::btn_listeners(true), Some(AppState::WorldGen));
    assert_eq!(brain_hoarders::menu::controls::btn_listeners(false), None);
    assert_eq!(brain_hoarders::menu::main_menu::btn_listeners(Interaction::Clicked, MenuMainBtn::Quit), Some(MainMenuAction::Exit));
    assert_eq!(
        brain_hoarders::menu::main_menu::btn_listeners(Interaction::Clicked, MenuMainBtn::PlayGame),
        Some(MainMenuAction::Goto(AppState::Controls))
    );
    let d = DamageEvent::new(3, 4);
    assert_eq!((d.victim, d.attacker), (3, 4));
}

#[test]
fn free_creature_near_player_is_collected() {
    let free = Agent { id: 7, position: v(60, 0), heading: v(0, U), kind: None, size: 10, follow: None, target: None, attack_cooldown: 0 };
    let players = vec![(3u64, v(500, 0)), (4u64, v(0, 0))];
    let c = follow_collection(&free, &players);
    assert_eq!(c.kind, Some(4));
    assert_eq!(c.follow, Some(25 + 7));
    let far = Agent { position: v(100, 0), ..free };
    assert_eq!(follow_collection(&far, &players), far);
    let following = Agent { kind: Some(3), follow: Some(40), ..free };
    assert_eq!(follow_collection(&following, &players), following);
    let released = Agent { kind: Some(3), ..free };
    assert_eq!(follow_collection(&released, &players).kind, Some(4));
}

fn gunner(id: u64, x: i64, y: i64, firing: bool, ready: bool) -> PlayerState {
    PlayerState {
        id,
        handle: id as usize,
        position: v(x, y),
        heading: v(0, U),
        controls: PlayerControls { accel: 0, steer: 0, firing, shift: false },
        health: 10,
        bullet_ready: ready,
        respawn_frames: 0,
    }
}

#[test]
fn firing_spawns_a_bullet_ahead_and_spends_the_gun() {
    let m = MapSettings::new(1000, 1000);
    let (ps, bs, _) = combat_step(&vec![gunner(0, 0, 0, true, true)], vec![], m);
    assert_eq!(bs, vec![BulletState { owner: 0, position: v(0, 35), heading: v(0, U), frames_left: BULLET_FLIGHT_FRAMES - 1 }]);
    assert!(!ps[0].bullet_ready);
    let (ps, bs, _) = combat_step(&vec![gunner(0, 0, 0, true, false)], bs, m);
    assert_eq!(bs.len(), 1);
    assert_eq!(bs[0].position, v(0, 45));
    assert!(!ps[0].bullet_ready);
    let (ps, _, _) = combat_step(&vec![gunner(0, 0, 0, false, false)], vec![], m);
    assert!(ps[0].bullet_ready);
}

#[test]
fn bullet_hits_player_and_is_used_up() {
    let m = MapSettings::new(1000, 1000);
    let target = gunner(1, 0, 50, false, true);
    let bullet = BulletState { owner: 0, position: v(0, 35), heading: v(0, U), frames_left: 100 };
    let (ps, bs, _) = combat_step(&vec![gunner(0, 0, 0, false, true), target], vec![bullet], m);
    assert!(bs.is_empty());
    assert_eq!(ps[1].health, 9);
    assert_eq!(ps[0].health, 10);
}

#[test]
fn bullet_expires_and_leaves_the_map() {
    let m = MapSettings::new(100, 100);
    let last = BulletState { owner: 0, position: v(0, 0), heading: v(0, U), frames_left: 1 };
    let edge = BulletState { owner: 0, position: v(0, 45), heading: v(0, U), frames_left: 50 };
    let (_, bs, _) = combat_step(&vec![], vec![last, edge], m);
    assert!(bs.is_empty());
}

#[test]
fn hit_players_creatures_turn_on_the_shooter() {
    let c = |id: u64, owner: u64| Agent { id, position: v(0, 0), heading: v(0, U), kind: Some(owner), size: 10, follow: Some(30), target: None, attack_cooldown: 0 };
    let mut creatures = vec![c(1, 5), c(2, 6), c(3, 5)];
    handle_damage_events(&mut creatures, &vec![(DamageEvent::new(5, 6), false)]);
    assert_eq!(creatures[0].target, Some(6));
    assert_eq!(creatures[1].target, None);
    assert_eq!(creatures[2].target, Some(6));
    handle_damage_events(&mut creatures, &vec![(DamageEvent::new(5, 6), true)]);
    assert_eq!((creatures[0].follow, creatures[0].target), (None, None));
    assert_eq!(creatures[1].follow, Some(30));
}

#[test]
fn lethal_hit_is_reported() {
    let m = MapSettings::new(1000, 1000);
    let mut target = gunner(1, 0, 50, false, true);
    target.health = 1;
    let bullet = BulletState { owner: 0, position: v(0, 35), heading: v(0, U), frames_left: 100 };
    let (ps, _, hits) = combat_step(&vec![gunner(0, 0, 0, false, true), target], vec![bullet], m);
    assert_eq!(ps[1].health, 0);
    assert_eq!(ps[1].respawn_frames, RESPAWN_FRAMES);
    assert_eq!(hits, vec![(DamageEvent::new(1, 0), true)]);
}

#[test]
fn dead_player_neither_moves_shoots_nor_is_hit_and_comes_back() {
    let m = MapSettings::new(1000, 1000);
    let mut dead = gunner(1, 0, 50, true, true);
    dead.health = 0;
    dead.respawn_frames = 2;
    dead.controls.accel = 1;
    assert_eq!(move_player(&dead, m).position, v(0, 50));
    let bullet = BulletState { owner: 0, position: v(0, 40), heading: v(0, U), frames_left: 100 };
    let (ps, bs, hits) = combat_step(&vec![dead], vec![bullet], m);
    assert!(hits.is_empty());
    assert_eq!(bs.len(), 1);
    assert_eq!(ps[0].health, 0);
    let once = revive(&dead);
    assert_eq!((once.health, once.respawn_frames), (0, 1));
    let back = revive(&once);
    assert_eq!((back.health, back.respawn_frames), (PLAYER_HEALTH, 0));
}
