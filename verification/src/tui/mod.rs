//! `lyrics show`: a terminal view that scrolls synced lyrics along with a clock.
pub mod app;
pub mod bigtext;
pub mod clock;
pub mod help;
pub mod input;
pub mod view;
