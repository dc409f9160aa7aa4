//! The verified core of a server-rendered 2D game engine: the binary command
//! stream, the per-frame buffer discipline, the spatial grid, the collision
//! bookkeeping, the navigation graph with its path search, and the decisions
//! of the frame loop.
//!
//! Numbers that are single-precision floating point on the wire and in the
//! script are carried as their 32-bit patterns throughout. The library
//! orders and compares them; it never computes with them.
pub mod astar;
pub mod buffer;
pub mod game_state;
pub mod graph_nav;
mod id_list;
pub mod physics;
pub mod session;
pub mod single;
pub mod spatial_db;
pub mod transport;
pub mod wire;

pub use astar::Costs;
pub use buffer::CommandBuffer;
pub use game_state::{ApiCall, GameMode, GameState, ScriptError, ScriptRun};
pub use graph_nav::Graph;
pub use physics::{PhysicsWorld, RigidBody};
pub use session::Dispatcher;
pub use spatial_db::{EntityKind, SpatialDb};
pub use wire::{parse_commands, Command};
