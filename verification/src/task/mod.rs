//! Tasks: their states, what they wait for and who wakes them.
pub mod context;
pub mod trace;
pub mod state;


pub mod ext;
pub mod wait_queue;
pub mod multi_wait;
pub mod future;
pub mod time;
pub mod timer_runtime;
pub mod timers;
pub mod poll;
pub mod rwlock;
pub mod smp;
