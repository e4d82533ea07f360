//! The screens: their state, what keys do to it, and the lines they show.

pub mod backup;
pub mod browser;
pub mod browser_view;
pub mod dashboard;
pub mod groups;
pub mod keys;
pub mod listing;
pub mod mappings;
pub mod mappings_view;
pub mod view;
pub mod widgets;
