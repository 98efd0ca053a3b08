//! Decision-and-navigation core for a tick-based colony simulation.
//!
//! The crate covers four pieces: a packed occupancy grid over the tile map, a
//! breadth-first path finder producing compact direction sequences, a
//! single-claim task broker for haul requests, and a per-agent goal-stack
//! planner that decides one tick of behavior at a time. Rendering, input,
//! audio, terrain generation, and the component-storage engine are outside
//! collaborators; the planner works against a plain-value model of the
//! component store defined in this crate.

use vstd::prelude::*;

pub mod brain;
pub mod game_object;
pub mod grid;
pub mod menu;
pub mod notifications;
pub mod pathfinding;
pub mod scene;
pub mod tilemap;

verus! {

/// Simulation time is counted in whole ticks.
pub type GameTicks = u64;

/// Real-time duration of one simulation tick, in milliseconds.
pub const MILLIS_PER_TICK: u64 = 100;

/// Handles naming the drawable sprites; rendering itself happens outside
/// this crate, which only decides which sprite stands for what.
#[derive(Clone, Copy, PartialEq, Eq, Structural, Debug)]
pub enum Sprite {
    Placeholder,
    Helmet,
    Suit,
    Energy,
    Magma,
    Pass,
    PassSelectionOverlay,
    GoalRelax,
    GoalRelaxAlt,
    GoalHaul,
    GoalWork,
    GoalOxygen,
    OccupationIdle,
    OccupationHauler,
    OccupationWorkEnergy,
    OccupationWorkOxygen,
    MenuBgTop,
    MenuBgMid,
    MenuBgBot,
    MenuUnderscore,
    MenuItemContinue,
    MenuItemQuit,
    MenuItemOptions,
    MenuItemManageChars,
    MenuItemBuild,
    MenuItemVolume,
    MenuItemFlipACfalse,
    MenuItemFlipACtrue,
    EnergyGenerator,
    OxygenGenerator,
    Oxygen,
    SliderHandle,
    Controls,
    ControlsFlipConfirm,
}

} // verus!
