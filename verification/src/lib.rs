//! A tick-driven simulation core: entities with positions, pending
//! displacements and circular colliders, advanced by a staged pipeline of
//! systems. Coordinates are fixed-point integers, `UNIT` steps to one world
//! unit, so that every rule of the engine is exact and can be proved.
//!
//! A tick runs the plan of the scheduler stage by stage: perturbation gives
//! every entity a random pending displacement, a collision system (sweep or
//! grid) adds the corrections that part overlapping circles, integration
//! makes the movements, and the commit removes the entities whose deletion
//! was asked for.
//!
//! What the engine settles where more than one way is open:
//! - a coordinate that would leave the coordinate range stops at its edge;
//! - circles whose centres coincide are not corrected;
//! - only circles collide: a rectangle is turned away when an entity is
//!   made, and corrected by no system;
//! - an entity that lacks a component that a system asks for is passed over
//!   by that system;
//! - the systems of one stage run one after another, in the order of their
//!   registration.

pub mod body;
pub mod components;
pub mod contact;
pub mod entities;
pub mod game;
pub mod geometry;
pub mod grid;
pub mod laws;
pub mod narrow;
pub mod pipeline;
pub mod plan;
pub mod random;
pub mod scheduler;
pub mod storage;
pub mod sweep;
pub mod systems;
pub mod tally;
pub mod world;

pub use body::{Body, Rule};
pub use components::{Axis, Collider, Pos, Transform};
pub use entities::{Entities, Entity};
pub use game::GameState;
pub use geometry::{Pt, UNIT};
pub use grid::GridCollisionSystem;
pub use pipeline::AnySystem;
pub use plan::{Access, Mode};
pub use scheduler::{Dispatcher, ScheduleError, Scheduler};
pub use storage::Storage;
pub use sweep::CollisionSystem;
pub use systems::{AiSystem, BumpSystem, PhysicsSystem};
pub use world::{World, WorldError};
