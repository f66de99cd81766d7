//! Solutions to a run of puzzles, each in a module of its own. The largest is
//! the scheduler: a graph of tasks that wait for each other, the order in
//! which one worker completes them, and the time that a pool of workers
//! needs. Every function states what it returns, and is proved to do so.

pub mod coordinates;
pub mod fabric;
pub mod frequency;
pub mod guards;
pub mod inventory;
pub mod license;
pub mod marbles;
pub mod plants;
pub mod polymer;
pub mod power;
pub mod scan;
pub mod scheduler;
pub mod stars;
