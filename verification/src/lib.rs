//! The run-time model of a static, interrupt-driven, priority-preemptive
//! task scheduler, and the names of the entities that a generator lays out
//! for it.
//!
//! Tasks are started through ready queues of fixed capacity between one
//! producer and one consumer ([`queue`]), with their payloads in pools of
//! recycled slots ([`slots`]); tasks that wait for an instant stand in a
//! timer queue ([`timer`]); a dispatcher per priority level runs what is
//! ready ([`dispatch`], [`task`], [`scheduler`]). Data shared across
//! priorities is locked by raising the priority to a ceiling ([`lock`],
//! [`resource`]); cores that start together meet at barriers
//! ([`barrier`]). What can be wrong with an application is found before it
//! runs ([`config`]). The names of the generated entities are made in
//! [`names`], from [`ident`], [`text`] and [`capacity`].

pub mod barrier;
pub mod capacity;
pub mod config;
pub mod dispatch;
pub mod ident;
pub mod lock;
pub mod names;
pub mod queue;
pub mod resource;
pub mod scheduler;
pub mod slots;
pub mod task;
pub mod text;
pub mod timer;
