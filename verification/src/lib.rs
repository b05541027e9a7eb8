//! A first-in first-out task queue and two timing wheels built on it.

pub mod atomic_queue;
pub mod time_wheel;
pub mod tw_impl;
