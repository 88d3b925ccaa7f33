//! A two-dimensional particle simulation on fixed-point numbers.
//!
//! Circular bodies fall under gravity inside a rectangular playfield, bounce
//! off its four walls, collide with one another and can be dragged with a
//! pointer. Every quantity is a [`fixed::Fixed`] number, so a run is
//! reproducible bit for bit, and every function carries a contract that
//! says exactly what it computes.
//!
//! The host owns the window. Each frame it hands a [`state::Frame`] to
//! [`state::State::update`] and paints the commands that
//! [`state::State::draw`] returns.
//!
//! The modules whose names end in `_laws` hold no code that runs: they
//! state, and prove, what holds of every run.
pub mod fixed;
pub mod vec2;
pub mod particle;
pub mod grid;
pub mod stepper;
pub mod control;
pub mod input;
pub mod render;
pub mod state;
pub mod grid_laws;
pub mod stepper_laws;
pub mod contact_laws;
pub mod energy_laws;
pub mod state_laws;
