//! A 2x2x2 cube model and solver, together with the byte protocol and the
//! motion planning used by the robot that turns the cube.

pub mod assembler;
pub mod camera;
pub mod cube;
pub mod gui_logic;
pub mod index;
pub mod movement;
pub mod protocol;
pub mod rank;
pub mod robot;
pub mod solver;
pub mod solved_states;
pub mod solver_config;
pub mod stepper;
