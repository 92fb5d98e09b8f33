//! Plain data components attached to world entities.

use vstd::prelude::*;

verus! {

/// A grid position.
#[derive(Debug, PartialEq, Eq, Structural)]
pub struct Position {
    pub x: i32,
    pub y: i32,
}

impl Position {
    pub fn new(x: i32, y: i32) -> (r: Self)
        ensures
            r.x == x && r.y == y,
    {
        Position { x, y }
    }
}

/// An amount of money carried.
#[derive(Debug)]
pub struct Currency {
    pub amt: u32,
}

/// The stat block of an acting creature.
#[derive(Debug)]
pub struct Actor {
    pub strength: u8,
    pub dexterity: u8,
    pub constitution: u8,
    pub wisdom: u8,
    pub intelligence: u8,
    pub max_health: i32,
    pub current_health: i32,
}

impl Actor {
    /// A fresh actor with baseline stats and full health.
    pub fn new() -> (r: Self)
        ensures
            r.strength == 10 && r.dexterity == 10 && r.constitution == 10,
            r.wisdom == 10 && r.intelligence == 10,
            r.max_health == 100 && r.current_health == 100,
    {
        Actor {
            strength: 10,
            dexterity: 10,
            constitution: 10,
            wisdom: 10,
            intelligence: 10,
            max_health: 100,
            current_health: 100,
        }
    }
}

/// The advancing phase of a flickering light source.
#[derive(Debug)]
pub struct LightFlicker {
    accumulator: i32,
}

impl LightFlicker {
    pub closed spec fn spec_accumulator(&self) -> int {
        self.accumulator as int
    }

    pub fn new() -> (r: Self)
        ensures
            r.spec_accumulator() == 0,
    {
        LightFlicker { accumulator: 0 }
    }

    /// Advances the flicker phase, wrapping after a thousand steps.
    pub fn advance(&mut self)
        requires
            0 <= old(self).spec_accumulator() <= 1000,
        ensures
            0 <= final(self).spec_accumulator() <= 1000,
            final(self).spec_accumulator() == if old(self).spec_accumulator() == 1000 {
                0
            } else {
                old(self).spec_accumulator() + 1
            },
    {
        self.accumulator = self.accumulator + 1;
        if self.accumulator > 1000 {
            self.accumulator = 0;
        }
    }
}

} // verus!
