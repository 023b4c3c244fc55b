use brain_hoarders::forces::Agent;
use brain_hoarders::geometry::Vec2i;
use brain_hoarders::input::{
    controls_from_input, effective_input, input, GameInput, GameKey, InputStatus, KeyCode,
    KeyboardInput, PlayerControls, INPUT_DOWN, INPUT_FIRE, INPUT_LEFT, INPUT_RIGHT, INPUT_SHIFT,
    INPUT_UP,
};
use brain_hoarders::motion::{MapSettings, PlayerState};
use brain_hoarders::rollback::{
    check_win, checksum, increase_frame_count, run_checksums, step, copy_world, FrameCount, RollbackLog, World,
};
use brain_hoarders::session::{
    default_config, next_state, validate_config, SessionAction, SessionConfig, SessionError,
    SessionEvent, SessionState,
};
use brain_hoarders::geometry::UNIT;

const U: i64 = UNIT;

fn v(x: i64, y: i64) -> Vec2i {
    Vec2i { x, y }
}

fn idle_controls() -> PlayerControls {
    PlayerControls { accel: 0, steer: 0, firing: false, shift: false }
}

fn world() -> World {
    let players = vec![
        PlayerState { id: 1000, handle: 0, position: v(-100, 0), heading: v(0, U), controls: idle_controls(), health: 10, bullet_ready: true, respawn_frames: 0 },
        PlayerState { id: 1001, handle: 1, position: v(100, 0), heading: v(0, U), controls: idle_controls(), health: 10, bullet_ready: true, respawn_frames: 0 },
    ];
    let mut creatures = Vec::new();
    for i in 0..12u64 {
        creatures.push(Agent {
            id: i + 1,
            position: v((i as i64) * 9 - 50, (i as i64 % 4) * 11),
            heading: if i % 2 == 0 { v(U, 0) } else { v(0, -U) },
            kind: Some(if i < 6 { 1000 } else { 1001 }),
            size: 10,
            follow: Some(25),
            target: None,
            attack_cooldown: 0,
        });
    }
    World { frame_count: FrameCount { frame: 0 }, players, creatures, bullets: Vec::new(), map: MapSettings::new(800, 600) }
}

fn frames(n: usize, p1_status: InputStatus) -> Vec<Vec<(u8, InputStatus)>> {
    let mut out = Vec::new();
    for f in 0..n {
        let a = if f % 3 == 0 { INPUT_UP | INPUT_FIRE } else { INPUT_UP | INPUT_LEFT };
        out.push(vec![(a, InputStatus::Confirmed), (INPUT_DOWN | INPUT_RIGHT, p1_status)]);
    }
    out
}

#[test]
fn frame_count_increases_by_one() {
    let mut fc = FrameCount { frame: 41 };
    increase_frame_count(&mut fc);
    assert_eq!(fc.frame, 42);
}

#[test]
fn replay_gives_identical_checksums() {
    let w = world();
    let inputs = frames(20, InputStatus::Predicted);
    let a = run_checksums(&w, &inputs);
    let b = run_checksums(&copy_world(&w), &inputs);
    assert_eq!(a.len(), 20);
    assert_eq!(a, b);
    let mut other = inputs.clone();
    other[5][0].0 = INPUT_DOWN;
    let c = run_checksums(&w, &other);
    assert_eq!(a[..5], c[..5]);
    assert_ne!(a[5], c[5]);
}

#[test]
fn step_counts_frame_and_moves_players() {
    let w = world();
    let next = step(&w, &vec![(INPUT_UP, InputStatus::Confirmed), (0, InputStatus::Confirmed)]);
    assert_eq!(next.frame_count.frame, 1);
    assert_eq!(next.players[0].position, v(-100, 3));
    assert_eq!(next.players[1].position, v(100, 0));
    assert_ne!(checksum(&next), checksum(&w));
}

#[test]
fn disconnected_player_input_is_zero() {
    let w = world();
    let connected = frames(3, InputStatus::Confirmed);
    let dropped = frames(3, InputStatus::Disconnected);
    let mut a = copy_world(&w);
    let mut b = copy_world(&w);
    for f in 0..3 {
        a = step(&a, &connected[f]);
        b = step(&b, &dropped[f]);
        assert_eq!(b.players[1].position, v(100, 0));
        assert_eq!(b.players[1].heading, v(0, U));
        assert_eq!(b.players[1].controls, idle_controls());
        assert_eq!(a.players[0], b.players[0]);
    }
    assert_ne!(a.players[1].position, v(100, 0));
}

#[test]
fn rollback_with_same_inputs_reproduces_state() {
    let mut log = RollbackLog::new(world());
    let inputs = frames(10, InputStatus::Predicted);
    for f in 0..10 {
        log.advance(inputs[f].clone());
    }
    assert!(!log.current().bullets.is_empty());
    let before = checksum(log.current());
    let before_frame = log.current().frame_count.frame;
    log.rollback_to(4, inputs[4].clone());
    assert_eq!(checksum(log.current()), before);
    assert_eq!(log.current().frame_count.frame, before_frame);
    assert_eq!(log.states.len(), 11);
}

#[test]
fn rollback_with_corrected_input_changes_state() {
    let mut log = RollbackLog::new(world());
    let inputs = frames(6, InputStatus::Predicted);
    for f in 0..6 {
        log.advance(inputs[f].clone());
    }
    let before = checksum(log.current());
    let saved = checksum(&log.states[2]);
    log.rollback_to(2, vec![(INPUT_DOWN, InputStatus::Confirmed), (0, InputStatus::Confirmed)]);
    assert_eq!(checksum(&log.states[2]), saved);
    assert_ne!(checksum(log.current()), before);
}

#[test]
fn input_masks_from_keys() {
    let kb = KeyboardInput {
        pressed: vec![KeyCode::W, KeyCode::D, KeyCode::Space, KeyCode::Left, KeyCode::B],
        just_pressed: vec![KeyCode::Space],
        just_released: vec![KeyCode::S],
    };
    let masks = input(&kb);
    assert_eq!(masks[0], INPUT_UP | INPUT_RIGHT | INPUT_FIRE);
    assert_eq!(masks[1], INPUT_LEFT | INPUT_SHIFT);
    assert!(GameKey::LocalAttack.just_pressed(&kb));
    assert!(!GameKey::LocalUp.just_pressed(&kb));
    assert!(GameKey::LocalDown.just_released(&kb));
    assert!(GameKey::Shift.pressed(&kb));
    assert!(!GameKey::Attack.pressed(&kb));
}

#[test]
fn controls_from_masks() {
    assert_eq!(controls_from_input(INPUT_UP | INPUT_LEFT), PlayerControls { accel: 1, steer: 1, firing: false, shift: false });
    assert_eq!(controls_from_input(INPUT_DOWN | INPUT_RIGHT | INPUT_FIRE), PlayerControls { accel: -1, steer: -1, firing: true, shift: false });
    assert_eq!(controls_from_input(INPUT_UP | INPUT_DOWN | INPUT_LEFT | INPUT_RIGHT | INPUT_SHIFT), PlayerControls { accel: 0, steer: 0, firing: false, shift: true });
    assert_eq!(effective_input(INPUT_FIRE, InputStatus::Disconnected), 0);
    assert_eq!(effective_input(INPUT_FIRE, InputStatus::Predicted), INPUT_FIRE);
    assert_eq!(GameInput(1, 2), GameInput(1, 2));
}

#[test]
fn config_validation() {
    assert_eq!(validate_config(&default_config()), Ok(()));
    let mut c = default_config();
    c.num_players = 0;
    assert_eq!(validate_config(&c), Err(SessionError::NoPlayers));
    let c2 = SessionConfig { num_players: 2, max_prediction: 12, fps: 0, input_delay: 2 };
    assert_eq!(validate_config(&c2), Err(SessionError::InvalidFrequency));
}

#[test]
fn session_state_transitions() {
    let c = default_config();
    let (s, a) = next_state(SessionState::Idle, SessionEvent::ChannelReady, &c);
    assert_eq!((s, a), (SessionState::Synchronizing, SessionAction::StartSession));
    let (s, _) = next_state(s, SessionEvent::Synchronized, &c);
    assert_eq!(s, SessionState::Running);
    assert_eq!(next_state(s, SessionEvent::Tick, &c), (SessionState::Running, SessionAction::AdvanceFrame));
    let (s, a) = next_state(s, SessionEvent::Mispredicted(7), &c);
    assert_eq!((s, a), (SessionState::Resimulating(7), SessionAction::LoadFrame(7)));
    assert_eq!(next_state(s, SessionEvent::Tick, &c).1, SessionAction::AdvanceFrame);
    let (s, _) = next_state(s, SessionEvent::CaughtUp, &c);
    assert_eq!(s, SessionState::Running);
    let (s, a) = next_state(s, SessionEvent::Closed, &c);
    assert_eq!((s, a), (SessionState::Terminated, SessionAction::Release));
    assert_eq!(next_state(s, SessionEvent::Tick, &c), (SessionState::Terminated, SessionAction::Nothing));
    let bad = SessionConfig { num_players: 0, max_prediction: 12, fps: 60, input_delay: 2 };
    assert_eq!(
        next_state(SessionState::Idle, SessionEvent::ChannelReady, &bad),
        (SessionState::Idle, SessionAction::RejectConfig(SessionError::NoPlayers))
    );
}

#[test]
fn checksum_ignores_entity_order() {
    let w = world();
    let mut reordered = copy_world(&w);
    reordered.creatures.reverse();
    reordered.players.reverse();
    assert_eq!(checksum(&w), checksum(&reordered));
    let mut moved = copy_world(&w);
    moved.creatures[3].position.x += 1;
    assert_ne!(checksum(&w), checksum(&moved));
}

#[test]
fn discarding_oldest_keeps_window_consistent() {
    let mut log = RollbackLog::new(world());
    let inputs = frames(5, InputStatus::Confirmed);
    for f in 0..5 {
        log.advance(inputs[f].clone());
    }
    let current = checksum(log.current());
    log.discard_oldest();
    log.discard_oldest();
    assert_eq!(log.states.len(), 4);
    assert_eq!(log.inputs.len(), 3);
    assert_eq!(log.states[0].frame_count.frame, 2);
    log.rollback_to(0, inputs[2].clone());
    assert_eq!(checksum(log.current()), current);
}

#[test]
fn win_needs_a_long_enough_train() {
    let mut w = world();
    assert_eq!(check_win(&w), None);
    w.creatures.clear();
    for i in 0..25u64 {
        w.creatures.push(Agent {
            id: 500 + i,
            position: v(0, 0),
            heading: v(0, U),
            kind: Some(1001),
            size: 10,
            follow: if i == 0 { None } else { Some(30) },
            target: if i == 0 { Some(1000) } else { None },
            attack_cooldown: 0,
        });
    }
    assert_eq!(check_win(&w), Some(1001));
    w.creatures[12].follow = None;
    assert_eq!(check_win(&w), None);
    w.creatures[12].kind = Some(1000);
    w.creatures[12].target = Some(1001);
    assert_eq!(check_win(&w), None);
}

#[test]
fn checksum_of_an_empty_world_is_the_fnv_hash_of_its_frame() {
    let w = World {
        frame_count: FrameCount { frame: 7 },
        players: vec![],
        creatures: vec![],
        bullets: vec![],
        map: MapSettings::new(100, 100),
    };
    assert_eq!(checksum(&w), 5465015992139406178);
}
