use vstd::prelude::*;

pub mod text;
pub mod order;
pub mod time;
pub mod note;
pub mod context;
pub mod display;
pub mod search;
pub mod tags;
pub mod tui;
pub mod commands;
