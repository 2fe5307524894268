//! The interaction surfaces the transport dispatches on, as types.
//!
//! An inbound signal is classified once at the transport boundary into one
//! of these surfaces and handed to the engine as a typed call; the core
//! never inspects identifier strings.

use vstd::prelude::*;

use crate::queues::Role;

verus! {

/// The ping command: a liveness check, answered by the transport without
/// touching the engine.
pub struct Ping;

/// The setup command: deploys one queue message and registers its session
/// with the engine.
pub struct Setup;

/// The end command and its confirm button: conclusion signals for the
/// match backing the channel they are issued in.
pub struct End;

/// The queue buttons: join requests, one button per role, in the fixed
/// order A, B, C.
pub struct Queue;

impl Queue {
    /// The role behind a queue button, by its position in the action row:
    /// the three buttons stand for roles A, B and C in order, and a row
    /// never has a fourth.
    pub fn role_of_button(position: usize) -> (r: Option<Role>)
        ensures
            r == (match position {
                0usize => Some(Role::A),
                1usize => Some(Role::B),
                2usize => Some(Role::C),
                _ => None::<Role>,
            }),
    {
        match position {
            0 => Some(Role::A),
            1 => Some(Role::B),
            2 => Some(Role::C),
            _ => None,
        }
    }
}

} // verus!
