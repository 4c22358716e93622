use vstd::prelude::*;
use crate::geometry::Point;
use crate::player::{Key, key_delta};

verus! {

/// Where the game loop is in the turn.
#[derive(Clone, Copy, Debug, PartialEq, Eq, Structural)]
pub enum TurnState {
    AwaitingInput,
    PlayerTurn,
    MonsterTurn,
    GameOver,
}

/// Current and maximum hit points.
#[derive(Clone, Copy, Debug, PartialEq, Eq, Structural)]
pub struct Health {
    pub current: i32,
    pub max: i32,
}

/// The state after a turn: the player's turn hands over to the monsters,
/// theirs back to input, and a player at no hit points ends the game. While
/// input is awaited nothing changes.
pub fn end_turn(turn_state: TurnState, player_hp: &Vec<i32>) -> (r: TurnState)
    ensures
        turn_state == TurnState::AwaitingInput ==> r == TurnState::AwaitingInput,
        turn_state != TurnState::AwaitingInput && (exists|k: int|
            0 <= k < player_hp@.len() && #[trigger] player_hp@[k] < 1) ==> r == TurnState::GameOver,
        turn_state != TurnState::AwaitingInput && !(exists|k: int|
            0 <= k < player_hp@.len() && #[trigger] player_hp@[k] < 1) ==> r == match turn_state {
            TurnState::PlayerTurn => TurnState::MonsterTurn,
            TurnState::MonsterTurn => TurnState::AwaitingInput,
            other => other,
        },
{
    let mut new_state = match turn_state {
        TurnState::AwaitingInput => {
            return TurnState::AwaitingInput;
        },
        TurnState::PlayerTurn => TurnState::MonsterTurn,
        TurnState::MonsterTurn => TurnState::AwaitingInput,
        TurnState::GameOver => TurnState::GameOver,
    };
    let ghost next = new_state;
    let mut k: usize = 0;
    while k < player_hp.len()
        invariant
            k <= player_hp@.len(),
            (exists|t: int| 0 <= t < k && #[trigger] player_hp@[t] < 1) ==> new_state == TurnState::GameOver,
            !(exists|t: int| 0 <= t < k && #[trigger] player_hp@[t] < 1) ==> new_state == next,
        decreases player_hp@.len() - k,
    {
        if player_hp[k] < 1 {
            new_state = TurnState::GameOver;
        }
        k += 1;
    }
    new_state
}

/// One point of damage; the second result says whether the victim dies.
pub fn take_hit(health: Health) -> (r: (Health, bool))
    requires
        health.current > i32::MIN,
    ensures
        r.0.current == health.current - 1,
        r.0.max == health.max,
        r.1 == (health.current - 1 < 1),
{
    let h = Health { current: health.current - 1, max: health.max };
    (h, h.current < 1)
}

/// What the player's key press amounts to.
#[derive(Debug, PartialEq, Eq)]
pub enum PlayerAction {
    /// Attack the enemies with these indices, which stand on the target tile.
    Attack(Vec<usize>),
    /// Ask to move to the target tile.
    Move(Point),
    /// Let the turn pass.
    Pass,
}

/// The action for `key` from `player_pos`, given where the enemies stand:
/// a step onto enemies attacks all of them, any other step asks to move,
/// and a key that asks for no step lets the turn pass.
pub fn player_input(key: Key, player_pos: Point, enemies: &Vec<Point>) -> (r: PlayerAction)
    requires
        i32::MIN < player_pos.x < i32::MAX,
        i32::MIN < player_pos.y < i32::MAX,
    ensures
        ({
            let target = Point {
                x: (player_pos.x + key_delta(key).0) as i32,
                y: (player_pos.y + key_delta(key).1) as i32,
            };
            if key == Key::Other {
                r == PlayerAction::Pass
            } else if exists|k: int| 0 <= k < enemies@.len() && #[trigger] enemies@[k] == target {
                &&& r is Attack
                &&& forall|t: int| 0 <= t < r->Attack_0@.len() ==> #[trigger] r->Attack_0@[t] < enemies@.len()
                    && enemies@[r->Attack_0@[t] as int] == target
                &&& forall|k: int| 0 <= k < enemies@.len() && enemies@[k] == target ==> r->Attack_0@.contains(k as usize)
                &&& forall|a: int, b: int| 0 <= a < b < r->Attack_0@.len() ==> #[trigger] r->Attack_0@[a] < #[trigger] r->Attack_0@[b]
            } else {
                r == PlayerAction::Move(target)
            }
        }),
{
    broadcast use vstd::seq_lib::lemma_seq_contains_after_push;

    let (dx, dy) = match key {
        Key::Left => (-1i32, 0i32),
        Key::Right => (1, 0),
        Key::Up => (0, -1),
        Key::Down => (0, 1),
        Key::Other => {
            return PlayerAction::Pass;
        },
    };
    let target = Point::new(player_pos.x + dx, player_pos.y + dy);
    let mut victims: Vec<usize> = Vec::new();
    let mut k: usize = 0;
    while k < enemies.len()
        invariant
            k <= enemies@.len(),
            forall|t: int| 0 <= t < victims@.len() ==> #[trigger] victims@[t] < k && enemies@[victims@[t] as int] == target,
            forall|a: int, b: int| 0 <= a < b < victims@.len() ==> #[trigger] victims@[a] < #[trigger] victims@[b],
            forall|j: int| 0 <= j < k && enemies@[j] == target ==> victims@.contains(j as usize),
            victims@.len() == 0 <==> !exists|j: int| 0 <= j < k && #[trigger] enemies@[j] == target,
        decreases enemies@.len() - k,
    {
        if enemies[k] == target {
            let ghost before = victims@;
            victims.push(k);
            proof {
                assert forall|j: int| 0 <= j < k + 1 && enemies@[j] == target implies victims@.contains(j as usize) by {
                    if j < k {
                        assert(before.contains(j as usize));
                        let w = choose|w: int| 0 <= w < before.len() && before[w] == j as usize;
                        assert(victims@[w] == j as usize);
                    } else {
                        assert(victims@[victims@.len() - 1] == k);
                    }
                }
                assert(enemies@[k as int] == target);
            }
        }
        k += 1;
    }
    if victims.len() > 0 {
        PlayerAction::Attack(victims)
    } else {
        PlayerAction::Move(target)
    }
}

} // verus!
