//! This module gather some helpers that helps interpret the roll result for certain RPG rules

pub mod ova;
