//! The decision core of a small M:N runtime for stackful coroutines ("runroutines").
//!
//! Tasks run on stacks of their own and give up their thread when they yield, sleep or wait for
//! a file descriptor. Worker threads keep runnable tasks in queues of their own, share a queue
//! for new ones, and steal from each other when they run out. This crate holds what such a
//! runtime decides, as verified functions from plain values to plain values; what it does to the
//! machine (switching stacks, parking threads, polling, reading the clock) is left to its caller.
//!
//! - [`schedule`]: the loop of a worker thread, as a state machine;
//! - [`search`]: where a worker looks for its next task;
//! - [`queue`]: the queues of the workers;
//! - [`shared`]: what all threads share, the queue of new tasks and the mask of idle workers;
//! - [`timers`]: the sleeping tasks;
//! - [`yields`]: how a running task gives up its thread;
//! - [`io`]: waiting for file descriptors;
//! - [`task`]: a task's stack and its first frame;
//! - [`registry`]: which workers are idle;
//! - [`runtime`]: the queues of all workers;
//! - [`compliant`]: which calls of a task's code are redirected to the runtime.
pub mod compliant;
pub mod io;
pub mod queue;
pub mod registry;
pub mod runtime;
pub mod schedule;
pub mod search;
pub mod shared;
pub mod task;
pub mod timers;
pub mod yields;
