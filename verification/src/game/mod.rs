//! What a reading from the game means: sides, believable pawns, addresses.
//!
//! Every rule here turns a raw value into a decision that cannot be fooled by
//! a stale offset: an unrecognised side is never promoted into a real one,
//! and a health outside the game's own bounds is never taken for a pawn.

pub mod entities;

use vstd::prelude::*;

verus! {

/// Which side an entity plays for.
#[derive(Clone, Copy, Debug, PartialEq, Eq, Structural)]
pub enum Team {
    Unassigned,
    Spectator,
    Terrorist,
    CounterTerrorist,
    /// Anything the game reports that is none of the above — a stale offset
    /// reads as this rather than being silently folded into a real side.
    Unknown(u8),
}

/// The side a raw team byte names.
pub open spec fn team_from_raw(raw: u8) -> Team {
    if raw == 0 {
        Team::Unassigned
    } else if raw == 1 {
        Team::Spectator
    } else if raw == 2 {
        Team::Terrorist
    } else if raw == 3 {
        Team::CounterTerrorist
    } else {
        Team::Unknown(raw)
    }
}

/// Whether a side actually plays.
pub open spec fn team_plays(team: Team) -> bool {
    team is Terrorist || team is CounterTerrorist
}

/// Whether two sides are the two opposite playing sides.
pub open spec fn teams_oppose(a: Team, b: Team) -> bool {
    ||| (a is Terrorist && b is CounterTerrorist)
    ||| (a is CounterTerrorist && b is Terrorist)
}

impl Team {
    pub fn from_raw(raw: u8) -> (team: Team)
        ensures
            team == team_from_raw(raw),
    {
        match raw {
            0 => Team::Unassigned,
            1 => Team::Spectator,
            2 => Team::Terrorist,
            3 => Team::CounterTerrorist,
            other => Team::Unknown(other),
        }
    }

    /// Whether this side actually plays. Spectators and the unassigned are
    /// never targets, and neither is a team that was not recognised.
    pub fn plays(self) -> (res: bool)
        ensures
            res == team_plays(self),
    {
        match self {
            Team::Terrorist | Team::CounterTerrorist => true,
            _ => false,
        }
    }

    /// Whether `self` and `other` are on opposite playing sides.
    ///
    /// Spelled out rather than derived from "different team", so that an
    /// unrecognised side can never be promoted into an enemy.
    pub fn opposes(self, other: Team) -> (res: bool)
        ensures
            res == teams_oppose(self, other),
    {
        match (self, other) {
            (Team::Terrorist, Team::CounterTerrorist) => true,
            (Team::CounterTerrorist, Team::Terrorist) => true,
            _ => false,
        }
    }
}

/// The local player's pawn, as far as it is read today.
#[derive(Clone, Copy, Debug, PartialEq, Eq, Structural)]
pub struct LocalPlayer {
    /// Address of the pawn inside the game, kept for reads that follow.
    pub pawn: usize,
    pub health: i32,
    /// Which side we are on — the reference every enemy check is made against.
    pub team: Team,
}

/// A health the game itself could report: dead reads zero, full reads one
/// hundred, and anything else means the pointer did not lead to a pawn.
pub open spec fn health_plausible(health: int) -> bool {
    0 <= health <= 100
}

impl LocalPlayer {
    /// Whether this could be a real player at all.
    pub fn plausible(self) -> (res: bool)
        ensures
            res == health_plausible(self.health as int),
    {
        0 <= self.health && self.health <= 100
    }

    pub fn alive(self) -> (res: bool)
        ensures
            res == (self.health > 0),
    {
        self.health > 0
    }
}

/// Opposition is symmetric: if one side opposes another, the other opposes it.
pub proof fn lemma_opposition_is_symmetric(a: Team, b: Team)
    ensures
        teams_oppose(a, b) == teams_oppose(b, a),
{
}

/// Only playing sides oppose anything, and no side opposes itself: a
/// teammate, a spectator, an unassigned player and an unrecognised side can
/// never be on either end of an opposition.
pub proof fn lemma_only_playing_sides_oppose(a: Team, b: Team)
    ensures
        teams_oppose(a, b) ==> team_plays(a) && team_plays(b) && a != b,
        !teams_oppose(a, a),
{
}

/// A raw value outside the four known sides keeps its value and never plays,
/// while the known values map to their sides and back.
pub proof fn lemma_unrecognised_sides_keep_their_raw_value(raw: u8)
    ensures
        raw > 3 ==> team_from_raw(raw) == Team::Unknown(raw),
        team_plays(team_from_raw(raw)) <==> (raw == 2 || raw == 3),
        raw == 2 ==> team_from_raw(raw) == Team::Terrorist,
        raw == 3 ==> team_from_raw(raw) == Team::CounterTerrorist,
{
}

/// Dead is a real state, not a bad reading: a health of zero is plausible
/// and not alive, and a plausible living player has between one and one
/// hundred health.
pub proof fn lemma_dead_is_plausible_and_not_alive(p: LocalPlayer)
    ensures
        p.health == 0 ==> health_plausible(p.health as int) && !(p.health > 0),
        health_plausible(p.health as int) && p.health > 0 ==> 1 <= p.health <= 100,
{
}

} // verus!
