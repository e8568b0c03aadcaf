# solver_2x2

A 2x2x2 cube model and solver, verified with Verus, together with the byte
protocol and the motion planning of the robot that turns the cube.

- `src/cube.rs`: corners, moves and their packed bytes, the cube state, its
  turns, the solved states and the dense index of a state.
- `src/solved_states.rs`: the 24 solved states, each named, with the proof
  that no other state is solved.
- `src/rank.rs`, `src/index.rs`: the Lehmer rank of the corner ids and the
  dense index built from it, with the proof that it is a bijection onto
  `0..STATE_SPACE` on valid states.
- `src/solver.rs`: the move table built by a breadth-first search from the
  solved states, solving by following the table, and a breadth-first solver;
  both give solutions of least length.
- `src/assembler.rs`: reading a state from the sticker colors of four
  columns, with the proof that reading back the columns of a state gives it.
- `src/gui_logic.rs`: the queue decisions of the desktop window.
- `src/protocol.rs`, `src/robot.rs`, `src/solver_config.rs`,
  `src/movement.rs`, `src/stepper.rs`, `src/camera.rs`: the one-byte
  packets, the decisions of the serial link, the robot's moves, the twister's
  speed profile, the stepper driver and the camera choice.
- `app/`: the program that builds the move table and writes it to a file,
  the serial link worker and the command line.
