//! A personal task tracker: tasks with ranked subtasks, and a history of
//! finished tasks, kept in three tables whose row ids stay small and dense.

pub mod clock;
pub mod display;
pub mod laws;
pub mod models;
pub mod order;
pub mod pattern;
pub mod state;
pub mod table;
pub mod taskdb;
