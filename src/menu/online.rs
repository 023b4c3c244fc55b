use vstd::prelude::*;
use crate::menu::{AppState, Interaction, ButtonColor, color_for};
use crate::menu::connect::ConnectData;

verus! {

/// Number of digits of a lobby code.
pub const LOBBY_ID_LEN: usize = 4;

/// The buttons of the online screen.
#[derive(Debug, Clone, Copy, PartialEq, Eq, Structural)]
pub enum MenuOnlineBtn {
    LobbyMatch,
    QuickMatch,
    Back,
}

/// Whether a button reacts to the pointer.
#[derive(Debug, Clone, Copy, PartialEq, Eq, Structural)]
pub struct ButtonEnabled(pub bool);

/// The lobby code typed so far.
pub struct LobbyID(pub Vec<char>);

pub open spec fn is_digit(c: char) -> bool {
    '0' <= c <= '9'
}

/// The code after the typed characters: digits are appended while the code is
/// shorter than `LOBBY_ID_LEN`, everything else is ignored.
pub open spec fn typed_lobby_id(lid: Seq<char>, typed: Seq<char>) -> Seq<char>
    decreases typed.len(),
{
    if typed.len() == 0 {
        lid
    } else {
        let prev = typed_lobby_id(lid, typed.drop_last());
        if prev.len() < LOBBY_ID_LEN && is_digit(typed.last()) {
            prev.push(typed.last())
        } else {
            prev
        }
    }
}

/// The code after a frame of typing, then a backspace if one was pressed.
pub open spec fn edited_lobby_id(lid: Seq<char>, typed: Seq<char>, backspace: bool) -> Seq<char> {
    let t = typed_lobby_id(lid, typed);
    if backspace && t.len() > 0 {
        t.drop_last()
    } else {
        t
    }
}

/// Applies a frame's typed characters and backspace to the lobby code.
pub fn update_lobby_id(lobby_id: &mut LobbyID, typed: &Vec<char>, backspace: bool)
    ensures
        final(lobby_id).0@ == edited_lobby_id(old(lobby_id).0@, typed@, backspace),
{
    let ghost start = lobby_id.0@;
    let mut i: usize = 0;
    assert(typed@.take(0) =~= Seq::<char>::empty());
    while i < typed.len()
        invariant
            i <= typed@.len(),
            lobby_id.0@ == typed_lobby_id(start, typed@.take(i as int)),
        decreases typed@.len() - i,
    {
        let c = typed[i];
        proof {
            assert(typed@.take(i + 1).drop_last() =~= typed@.take(i as int));
        }
        if lobby_id.0.len() < LOBBY_ID_LEN && '0' <= c && c <= '9' {
            lobby_id.0.push(c);
        }
        i = i + 1;
    }
    assert(typed@.take(typed@.len() as int) =~= typed@);
    if backspace && lobby_id.0.len() > 0 {
        lobby_id.0.pop();
    }
}

/// The text the lobby code label shows.
pub fn update_lobby_id_display(lobby_id: &LobbyID) -> (r: Vec<char>)
    ensures
        r@ == lobby_id.0@,
{
    let mut r: Vec<char> = Vec::new();
    let mut i: usize = 0;
    while i < lobby_id.0.len()
        invariant
            i <= lobby_id.0@.len(),
            r@ == lobby_id.0@.take(i as int),
        decreases lobby_id.0@.len() - i,
    {
        r.push(lobby_id.0[i]);
        i = i + 1;
        assert(r@ =~= lobby_id.0@.take(i as int));
    }
    assert(lobby_id.0@.take(lobby_id.0@.len() as int) =~= lobby_id.0@);
    r
}

/// Whether the lobby button is enabled: some code label shows a full code.
pub fn update_lobby_btn(texts: &Vec<Vec<char>>) -> (r: bool)
    ensures
        r == exists|i: int| 0 <= i < texts@.len() && (#[trigger] texts@[i])@.len() == LOBBY_ID_LEN,
{
    let mut i: usize = 0;
    while i < texts.len()
        invariant
            i <= texts@.len(),
            forall|k: int| 0 <= k < i ==> (#[trigger] texts@[k])@.len() != LOBBY_ID_LEN,
        decreases texts@.len() - i,
    {
        if texts[i].len() == LOBBY_ID_LEN {
            assert(texts@[i as int]@.len() == LOBBY_ID_LEN);
            return true;
        }
        i = i + 1;
    }
    false
}

pub open spec fn is_enabled(enabled: Option<ButtonEnabled>) -> bool {
    match enabled {
        Some(e) => e.0,
        None => true,
    }
}

/// The colour of a button of the online screen, greyed out when disabled.
pub fn btn_visuals(interaction: Interaction, enabled: Option<ButtonEnabled>) -> (r: ButtonColor)
    ensures
        r == (if is_enabled(enabled) {
            color_for(interaction)
        } else {
            ButtonColor::Disabled
        }),
{
    let changeable = match enabled {
        Some(e) => e.0,
        None => true,
    };
    if changeable {
        crate::menu::btn_visuals(interaction)
    } else {
        ButtonColor::Disabled
    }
}

pub open spec fn lobby_room(lid: Seq<char>) -> Seq<char> {
    seq!['b', 'e', 'v', 'y'] + lid
}

pub open spec fn quick_room() -> Seq<char> {
    seq!['b', 'e', 'v', 'y', '?', 'n', 'e', 'x', 't', '=', '2']
}

/// The room a connect request names, if any.
pub open spec fn room_of(c: Option<ConnectData>) -> Option<Seq<char>> {
    match c {
        Some(d) => Some(d.lobby_id@),
        None => None,
    }
}

fn chars_of(prefix: &[char]) -> (r: Vec<char>)
    ensures
        r@ == prefix@,
{
    let mut r: Vec<char> = Vec::new();
    let mut i: usize = 0;
    while i < prefix.len()
        invariant
            i <= prefix@.len(),
            r@ == prefix@.take(i as int),
        decreases prefix@.len() - i,
    {
        r.push(prefix[i]);
        i = i + 1;
        assert(r@ =~= prefix@.take(i as int));
    }
    assert(prefix@.take(prefix@.len() as int) =~= prefix@);
    r
}

/// What a click on the online screen leads to: the connecting screen with the
/// room of the typed code or the quick-match room, or back to the main menu.
/// Disabled buttons and anything but a click do nothing.
pub fn btn_listeners(
    interaction: Interaction,
    btn: MenuOnlineBtn,
    enabled: Option<ButtonEnabled>,
    lobby_id: &LobbyID,
) -> (r: Option<(AppState, Option<ConnectData>)>)
    ensures
        !is_enabled(enabled) || interaction != Interaction::Clicked ==> r is None,
        is_enabled(enabled) && interaction == Interaction::Clicked ==> match r {
            Some((s, c)) => match btn {
                MenuOnlineBtn::LobbyMatch => s == AppState::MenuConnect && room_of(c) == Some(
                    lobby_room(lobby_id.0@),
                ),
                MenuOnlineBtn::QuickMatch => s == AppState::MenuConnect && room_of(c) == Some(quick_room()),
                MenuOnlineBtn::Back => s == AppState::MenuMain && c is None,
            },
            None => false,
        },
{
    let clickable = match enabled {
        Some(e) => e.0,
        None => true,
    };
    if !clickable {
        return None;
    }
    match interaction {
        Interaction::Clicked => match btn {
            MenuOnlineBtn::LobbyMatch => {
                let mut room = chars_of(&['b', 'e', 'v', 'y']);
                let ghost head = room@;
                let mut i: usize = 0;
                while i < lobby_id.0.len()
                    invariant
                        i <= lobby_id.0@.len(),
                        room@ == head + lobby_id.0@.take(i as int),
                    decreases lobby_id.0@.len() - i,
                {
                    room.push(lobby_id.0[i]);
                    i = i + 1;
                    assert(room@ =~= head + lobby_id.0@.take(i as int));
                }
                assert(lobby_id.0@.take(lobby_id.0@.len() as int) =~= lobby_id.0@);
                assert(head =~= seq!['b', 'e', 'v', 'y']);
                Some((AppState::MenuConnect, Some(ConnectData { lobby_id: room })))
            },
            MenuOnlineBtn::QuickMatch => {
                let room = chars_of(&['b', 'e', 'v', 'y', '?', 'n', 'e', 'x', 't', '=', '2']);
                assert(room@ =~= quick_room());
                Some((AppState::MenuConnect, Some(ConnectData { lobby_id: room })))
            },
            MenuOnlineBtn::Back => Some((AppState::MenuMain, None)),
        },
        _ => None,
    }
}

} // verus!
