use vstd::prelude::*;

verus! {

pub const INPUT_UP: u8 = 1;
pub const INPUT_DOWN: u8 = 2;
pub const INPUT_LEFT: u8 = 4;
pub const INPUT_RIGHT: u8 = 8;
pub const INPUT_FIRE: u8 = 16;
pub const INPUT_SHIFT: u8 = 32;

/// The physical keys the game reads.
#[derive(Debug, Clone, Copy, PartialEq, Eq, Structural)]
pub enum KeyCode {
    W,
    S,
    A,
    D,
    LShift,
    Space,
    Up,
    Down,
    Left,
    Right,
    B,
    M,
    Back,
    Return,
}

/// The keyboard as sampled once per frame.
pub struct KeyboardInput {
    pub pressed: Vec<KeyCode>,
    pub just_pressed: Vec<KeyCode>,
    pub just_released: Vec<KeyCode>,
}

/// The game's actions, for the left (local) and right player.
#[derive(Debug, Clone, Copy, PartialEq, Eq, Structural)]
pub enum GameKey {
    LocalUp,
    LocalDown,
    LocalLeft,
    LocalRight,
    LocalAttack,
    LocalShift,
    Up,
    Down,
    Left,
    Right,
    Attack,
    Shift,
}

/// Both players' input masks of one frame.
#[derive(Debug, Clone, Copy, PartialEq, Eq, Structural)]
pub struct GameInput(pub u8, pub u8);

/// How the rollback protocol knows a player's input of a frame.
#[derive(Debug, Clone, Copy, PartialEq, Eq, Structural)]
pub enum InputStatus {
    Confirmed,
    Predicted,
    Disconnected,
}

/// What one player's input asks for this frame.
#[derive(Debug, Clone, Copy, PartialEq, Eq, Structural)]
pub struct PlayerControls {
    /// -1 backward, 0 none, 1 forward.
    pub accel: i64,
    /// -1 clockwise, 0 none, 1 counter-clockwise.
    pub steer: i64,
    pub firing: bool,
    pub shift: bool,
}

fn has_key(keys: &Vec<KeyCode>, k: KeyCode) -> (r: bool)
    ensures
        r == keys@.contains(k),
{
    let mut i: usize = 0;
    while i < keys.len()
        invariant
            i <= keys@.len(),
            forall|m: int| 0 <= m < i ==> keys@[m] != k,
        decreases keys@.len() - i,
    {
        if keys[i] == k {
            return true;
        }
        i = i + 1;
    }
    false
}

impl GameKey {
    /// The key bound to this action.
    pub open spec fn spec_key_code(self) -> KeyCode {
        match self {
            GameKey::LocalUp => KeyCode::W,
            GameKey::LocalDown => KeyCode::S,
            GameKey::LocalLeft => KeyCode::A,
            GameKey::LocalRight => KeyCode::D,
            GameKey::LocalShift => KeyCode::LShift,
            GameKey::LocalAttack => KeyCode::Space,
            GameKey::Up => KeyCode::Up,
            GameKey::Down => KeyCode::Down,
            GameKey::Left => KeyCode::Left,
            GameKey::Right => KeyCode::Right,
            GameKey::Shift => KeyCode::B,
            GameKey::Attack => KeyCode::M,
        }
    }

    pub fn key_code(&self) -> (r: KeyCode)
        ensures
            r == self.spec_key_code(),
    {
        match self {
            GameKey::LocalUp => KeyCode::W,
            GameKey::LocalDown => KeyCode::S,
            GameKey::LocalLeft => KeyCode::A,
            GameKey::LocalRight => KeyCode::D,
            GameKey::LocalShift => KeyCode::LShift,
            GameKey::LocalAttack => KeyCode::Space,
            GameKey::Up => KeyCode::Up,
            GameKey::Down => KeyCode::Down,
            GameKey::Left => KeyCode::Left,
            GameKey::Right => KeyCode::Right,
            GameKey::Shift => KeyCode::B,
            GameKey::Attack => KeyCode::M,
        }
    }

    /// Whether the action's key went up this frame.
    pub fn just_released(&self, keyboard_input: &KeyboardInput) -> (r: bool)
        ensures
            r == keyboard_input.just_released@.contains(self.spec_key_code()),
    {
        has_key(&keyboard_input.just_released, self.key_code())
    }

    /// Whether the action's key is held.
    pub fn pressed(&self, keyboard_input: &KeyboardInput) -> (r: bool)
        ensures
            r == keyboard_input.pressed@.contains(self.spec_key_code()),
    {
        has_key(&keyboard_input.pressed, self.key_code())
    }

    /// Whether the action's key went down this frame.
    pub fn just_pressed(&self, keyboard_input: &KeyboardInput) -> (r: bool)
        ensures
            r == keyboard_input.just_pressed@.contains(self.spec_key_code()),
    {
        has_key(&keyboard_input.just_pressed, self.key_code())
    }
}

/// The input mask with a bit for each flag that is set.
pub open spec fn mask_of(up: bool, down: bool, left: bool, right: bool, fire: bool, shift: bool) -> u8 {
    (if up { INPUT_UP } else { 0u8 }) | (if down { INPUT_DOWN } else { 0u8 }) | (if left {
        INPUT_LEFT
    } else {
        0u8
    }) | (if right { INPUT_RIGHT } else { 0u8 }) | (if fire { INPUT_FIRE } else { 0u8 }) | (if shift {
        INPUT_SHIFT
    } else {
        0u8
    })
}

/// The mask of the keys held among six actions.
pub open spec fn held_mask(
    held: Seq<KeyCode>,
    up: GameKey,
    down: GameKey,
    left: GameKey,
    right: GameKey,
    fire: GameKey,
    shift: GameKey,
) -> u8 {
    mask_of(
        held.contains(up.spec_key_code()),
        held.contains(down.spec_key_code()),
        held.contains(left.spec_key_code()),
        held.contains(right.spec_key_code()),
        held.contains(fire.spec_key_code()),
        held.contains(shift.spec_key_code()),
    )
}

fn mask(up: bool, down: bool, left: bool, right: bool, fire: bool, shift: bool) -> (r: u8)
    ensures
        r == mask_of(up, down, left, right, fire, shift),
{
    (if up { INPUT_UP } else { 0u8 }) | (if down { INPUT_DOWN } else { 0u8 }) | (if left {
        INPUT_LEFT
    } else {
        0u8
    }) | (if right { INPUT_RIGHT } else { 0u8 }) | (if fire { INPUT_FIRE } else { 0u8 }) | (if shift {
        INPUT_SHIFT
    } else {
        0u8
    })
}

/// Both players' masks from the held keys: the left player on W A S D, Space
/// and left Shift, the right player on the arrows, M and B.
pub fn input(keyboard_input: &KeyboardInput) -> (r: [u8; 2])
    ensures
        r[0] == held_mask(
            keyboard_input.pressed@,
            GameKey::LocalUp,
            GameKey::LocalDown,
            GameKey::LocalLeft,
            GameKey::LocalRight,
            GameKey::LocalAttack,
            GameKey::LocalShift,
        ),
        r[1] == held_mask(
            keyboard_input.pressed@,
            GameKey::Up,
            GameKey::Down,
            GameKey::Left,
            GameKey::Right,
            GameKey::Attack,
            GameKey::Shift,
        ),
{
    let left_inp = mask(
        GameKey::LocalUp.pressed(keyboard_input),
        GameKey::LocalDown.pressed(keyboard_input),
        GameKey::LocalLeft.pressed(keyboard_input),
        GameKey::LocalRight.pressed(keyboard_input),
        GameKey::LocalAttack.pressed(keyboard_input),
        GameKey::LocalShift.pressed(keyboard_input),
    );
    let right_inp = mask(
        GameKey::Up.pressed(keyboard_input),
        GameKey::Down.pressed(keyboard_input),
        GameKey::Left.pressed(keyboard_input),
        GameKey::Right.pressed(keyboard_input),
        GameKey::Attack.pressed(keyboard_input),
        GameKey::Shift.pressed(keyboard_input),
    );
    [left_inp, right_inp]
}

/// The input a player's mask counts for: a disconnected player's is always zero.
pub open spec fn spec_effective_input(input: u8, status: InputStatus) -> u8 {
    match status {
        InputStatus::Disconnected => 0,
        _ => input,
    }
}

pub fn effective_input(input: u8, status: InputStatus) -> (r: u8)
    ensures
        r == spec_effective_input(input, status),
{
    match status {
        InputStatus::Confirmed => input,
        InputStatus::Predicted => input,
        InputStatus::Disconnected => 0,
    }
}

/// The controls that an input mask asks for; opposite keys cancel out.
pub open spec fn spec_controls(input: u8) -> PlayerControls {
    let left = input & INPUT_LEFT != 0;
    let right = input & INPUT_RIGHT != 0;
    let down = input & INPUT_DOWN != 0;
    let up = input & INPUT_UP != 0;
    PlayerControls {
        steer: if left && !right {
            1i64
        } else if !left && right {
            -1i64
        } else {
            0i64
        },
        accel: if down && !up {
            -1i64
        } else if !down && up {
            1i64
        } else {
            0i64
        },
        firing: input & INPUT_FIRE != 0,
        shift: input & INPUT_SHIFT != 0,
    }
}

/// Reads the controls out of an input mask.
pub fn controls_from_input(input: u8) -> (r: PlayerControls)
    ensures
        r == spec_controls(input),
{
    let left = input & INPUT_LEFT != 0;
    let right = input & INPUT_RIGHT != 0;
    let down = input & INPUT_DOWN != 0;
    let up = input & INPUT_UP != 0;
    let steer: i64 = if left && !right {
        1
    } else if !left && right {
        -1
    } else {
        0
    };
    let accel: i64 = if down && !up {
        -1
    } else if !down && up {
        1
    } else {
        0
    };
    PlayerControls { steer, accel, firing: input & INPUT_FIRE != 0, shift: input & INPUT_SHIFT != 0 }
}

} // verus!
