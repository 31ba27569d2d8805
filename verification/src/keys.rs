//! From a key press to what the game does with it.

use vstd::prelude::*;
use crate::board::{App, Direction};

verus! {

/// What a key asks for.
#[derive(Clone, Copy, Debug, PartialEq, Eq, Structural)]
pub enum Command {
    /// Leave the game.
    Quit,
    /// Move the tiles towards an edge.
    Move(Direction),
    /// Nothing: the key has no meaning.
    Ignore,
}

/// When a new tile follows a move.
#[derive(Clone, Copy, Debug, PartialEq, Eq, Structural)]
pub enum SpawnRule {
    /// After every move, also one that left the board as it was.
    Always,
    /// Only after a move that changed a cell.
    WhenChanged,
}

/// The meaning of each key: `q` leaves, `h`, `j`, `k` and `l` move the
/// tiles left, down, up and right, and no other key means anything.
pub open spec fn command_of(ch: char) -> Command {
    if ch == 'q' {
        Command::Quit
    } else if ch == 'h' {
        Command::Move(Direction::Left)
    } else if ch == 'j' {
        Command::Move(Direction::Down)
    } else if ch == 'k' {
        Command::Move(Direction::Up)
    } else if ch == 'l' {
        Command::Move(Direction::Right)
    } else {
        Command::Ignore
    }
}

/// The command that the key `ch` stands for.
pub fn command_for(ch: char) -> (cmd: Command)
    ensures
        cmd == command_of(ch),
{
    if ch == 'q' {
        Command::Quit
    } else if ch == 'h' {
        Command::Move(Direction::Left)
    } else if ch == 'j' {
        Command::Move(Direction::Down)
    } else if ch == 'k' {
        Command::Move(Direction::Up)
    } else if ch == 'l' {
        Command::Move(Direction::Right)
    } else {
        Command::Ignore
    }
}

impl App {
    /// `self` is what carrying out `cmd` under `rule` makes of `before`.
    /// To leave sets the exit flag and keeps the board. A move is followed
    /// by a new tile as `rule` says. A key without meaning changes nothing.
    pub open spec fn is_step_of(&self, before: App, cmd: Command, rule: SpawnRule) -> bool {
        match cmd {
            Command::Quit => self.exit && self.grid == before.grid,
            Command::Ignore => *self == before,
            Command::Move(dir) => exists|mid: App|
                #![trigger mid.is_move_of(before, dir)]
                mid.is_move_of(before, dir) && if rule == SpawnRule::Always || !mid.same_cells(
                    before,
                ) {
                    self.is_spawn_of(mid)
                } else {
                    *self == mid
                },
        }
    }

    /// Carries out what the key `ch` asks for, and says what that was.
    /// After a move a new tile is placed at random, as `rule` says.
    pub fn handle_key(&mut self, ch: char, rule: SpawnRule) -> (cmd: Command)
        requires
            command_of(ch) matches Command::Move(dir) ==> old(self).can_move(dir),
        ensures
            cmd == command_of(ch),
            final(self).is_step_of(*old(self), cmd, rule),
            old(self).tiles_valid() ==> final(self).tiles_valid(),
    {
        let cmd = command_for(ch);
        let ghost start = *self;
        match cmd {
            Command::Quit => {
                self.exit = true;
                assert(self.same_cells(start));
            },
            Command::Move(dir) => {
                let ghost before = *self;
                let changed = self.make_move(dir);
                let ghost mid = *self;
                match rule {
                    SpawnRule::Always => {
                        self.spawn();
                    },
                    SpawnRule::WhenChanged => {
                        if changed {
                            self.spawn();
                        }
                    },
                }
                assert(mid.is_move_of(before, dir));
            },
            Command::Ignore => {},
        }
        cmd
    }
}

} // verus!
