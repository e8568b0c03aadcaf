use solver_2x2::assembler::{assemble_cube, Color, ColoredCorner, Column};
use solver_2x2::camera::{Args, CameraConfig, DEFAULT_STREAM};
use solver_2x2::gui_logic::{capture_clicked, logic_step, relax_clicked, Action, CAPTURE_FACES};
use solver_2x2::protocol::desktop_to_arduino::{Move as RobotMove, Operation, Packet};
use std::collections::VecDeque;
use solver_2x2::cube::{Axis, Corner, Cube, Direction, Layer, Move, Rotation, Twist};
use solver_2x2::movement::{
    handle_command, lerp_u32, twister_90_intervals, TWISTER_90_DEG_STEPS, TWISTER_DIR_D,
    TWISTER_DIR_D_, TWISTER_DIR_Y, TWISTER_DIR_Y_,
};
use solver_2x2::protocol::{
    decode_desktop_to_esp_packet, decode_esp_to_desktop_packet, encode_desktop_to_esp_packet,
    encode_esp_to_desktop_packet, DesktopToEspPacket, EspToDesktopPacket,
};
use solver_2x2::robot::{robot_step, RobotAction, RobotEvent};
use solver_2x2::solver::{build_move_table, solve, BfsSolver, Table};
use solver_2x2::solver_config::{map_to_packet, CUBE_MOVES, FILENAME};
use solver_2x2::stepper::A4988;

const ALL_COMMANDS: [DesktopToEspPacket; 7] = [
    DesktopToEspPacket::Z,
    DesktopToEspPacket::Y,
    DesktopToEspPacket::Y_,
    DesktopToEspPacket::D,
    DesktopToEspPacket::D_,
    DesktopToEspPacket::Relax,
    DesktopToEspPacket::Shutdown,
];

// ---------- protocol ----------

#[test]
fn command_bytes_are_their_places() {
    for (i, &p) in ALL_COMMANDS.iter().enumerate() {
        assert_eq!(encode_desktop_to_esp_packet(p), i as u8);
    }
}

#[test]
fn command_roundtrip() {
    for &p in ALL_COMMANDS.iter() {
        assert_eq!(decode_desktop_to_esp_packet(encode_desktop_to_esp_packet(p)), Some(p));
    }
}

#[test]
fn command_bytes_above_six_are_refused() {
    assert_eq!(decode_desktop_to_esp_packet(6), Some(DesktopToEspPacket::Shutdown));
    for b in 7..=255u8 {
        assert_eq!(decode_desktop_to_esp_packet(b), None);
    }
}

#[test]
fn answer_roundtrip_and_refusal() {
    assert_eq!(encode_esp_to_desktop_packet(EspToDesktopPacket::Success), 0);
    assert_eq!(encode_esp_to_desktop_packet(EspToDesktopPacket::Failed), 1);
    assert_eq!(decode_esp_to_desktop_packet(0), Some(EspToDesktopPacket::Success));
    assert_eq!(decode_esp_to_desktop_packet(1), Some(EspToDesktopPacket::Failed));
    assert_eq!(decode_esp_to_desktop_packet(2), None);
    assert_eq!(decode_esp_to_desktop_packet(255), None);
}

// ---------- the robot's moves ----------

#[test]
fn robot_moves_and_their_commands() {
    assert_eq!(
        CUBE_MOVES(),
        [Move::Z(), Move::Y(), Move::Y_(), Move::D(), Move::D_()]
    );
    let expected = [
        DesktopToEspPacket::Z,
        DesktopToEspPacket::Y,
        DesktopToEspPacket::Y_,
        DesktopToEspPacket::D,
        DesktopToEspPacket::D_,
    ];
    for (m, p) in CUBE_MOVES().iter().zip(expected.iter()) {
        assert_eq!(map_to_packet(*m), Some(*p));
    }
    assert_eq!(map_to_packet(Move::U()), None);
    assert_eq!(map_to_packet(Move::Z_()), None);
    assert_eq!(map_to_packet(Move::X()), None);
    assert_eq!(FILENAME, "solver_table.bin");
}

#[test]
fn named_moves_are_the_expected_turns() {
    assert_eq!(Move::Z(), Move::Rotation(Rotation(Axis::Z, Direction::CW)));
    assert_eq!(Move::Y_(), Move::Rotation(Rotation(Axis::Y, Direction::CCW)));
    assert_eq!(Move::D(), Move::Twist(Twist(Layer::Bottom, Direction::CW)));
    assert_eq!(Move::R__(), Move::Twist(Twist(Layer::Right, Direction::CCW)));
}

#[test]
fn robot_link_steps() {
    assert_eq!(
        robot_step(false, RobotEvent::Command(DesktopToEspPacket::D)),
        (true, RobotAction::Write(3))
    );
    assert_eq!(
        robot_step(false, RobotEvent::Command(DesktopToEspPacket::Shutdown)),
        (false, RobotAction::WriteAndStop(6))
    );
    assert_eq!(robot_step(true, RobotEvent::Answer), (false, RobotAction::Wait));
}

#[test]
fn controller_reads_digits_and_bytes() {
    assert_eq!(
        handle_command(b'3'),
        (Some(DesktopToEspPacket::D), EspToDesktopPacket::Success)
    );
    assert_eq!(
        handle_command(3),
        (Some(DesktopToEspPacket::D), EspToDesktopPacket::Success)
    );
    assert_eq!(
        handle_command(0),
        (Some(DesktopToEspPacket::Z), EspToDesktopPacket::Success)
    );
    assert_eq!(handle_command(b'9'), (None, EspToDesktopPacket::Failed));
    assert_eq!(handle_command(40), (None, EspToDesktopPacket::Failed));
}

// ---------- motion ----------

#[test]
fn lerp_values() {
    assert_eq!(lerp_u32(2000, 1000, 0, 200), 2000);
    assert_eq!(lerp_u32(2000, 1000, 100, 200), 1500);
    assert_eq!(lerp_u32(2000, 1000, 200, 200), 1000);
    assert_eq!(lerp_u32(1000, 2000, 1, 200), 1005);
    assert_eq!(lerp_u32(1000, 2000, 7, 3), 3333);
    assert_eq!(lerp_u32(5, 9, 3, 0), 9);
    assert_eq!(lerp_u32(5, 9, 0, 0), 5);
    assert_eq!(lerp_u32(9, 5, 0, 0), 9);
}

#[test]
fn twister_profile_speeds_up_then_slows_down() {
    let v = twister_90_intervals();
    assert_eq!(v.len(), TWISTER_90_DEG_STEPS as usize);
    assert_eq!(v.len(), 400);
    assert_eq!(v[0], 2000);
    assert_eq!(v[1], 1995);
    assert_eq!(v[199], 1005);
    assert_eq!(v[200], 1000);
    assert_eq!(v[399], 1995);
    for w in v.windows(2).take(199) {
        assert!(w[1] <= w[0]);
    }
    for &i in v.iter() {
        assert!((1000..=2000).contains(&i));
    }
    assert_eq!(TWISTER_DIR_D, !TWISTER_DIR_Y);
    assert_eq!(TWISTER_DIR_D_, !TWISTER_DIR_Y_);
}

#[test]
fn stepper_driver_is_built_from_its_pins() {
    let driver = A4988::new(1u8, 2u16, 3u32);
    let _ = driver;
}

// ---------- camera arguments ----------

#[test]
fn camera_choice() {
    let url = Args { webcam: Some(2), url: Some(DEFAULT_STREAM.to_string()) };
    match url.camera_config() {
        CameraConfig::Url(u) => assert_eq!(u, "https://10.0.0.7:8080/video"),
        other => panic!("unexpected {:?}", other),
    }
    let cam = Args { webcam: Some(2), url: None };
    assert!(matches!(cam.camera_config(), CameraConfig::Webcam(2)));
    let none = Args { webcam: None, url: None };
    assert!(matches!(none.camera_config(), CameraConfig::Webcam(0)));
}

// ---------- cube laws on concrete values ----------

#[test]
fn every_move_then_its_inverse_is_identity() {
    let start = Cube::default().applied(Move::R()).applied(Move::F_());
    for m in Move::ALL() {
        assert_eq!(start.applied(m).applied(m.inverse()), start);
        assert_eq!(m.inverse().inverse(), m);
        assert_eq!(m.inverse().dir(), m.dir().inverse());
    }
}

#[test]
fn pack_values() {
    assert_eq!(Move::U().pack(), 128 + 64);
    assert_eq!(Move::U_().pack(), 128);
    assert_eq!(Move::X().pack(), 64);
    assert_eq!(Move::Z_().pack(), 2);
    assert_eq!(Move::unpack(255), None);
    assert_eq!(Move::unpack(128 + 6), None);
    assert_eq!(Move::unpack(3), None);
    assert_eq!(Move::unpack(1), Some(Move::Y_()));
}

#[test]
fn dense_index_extremes() {
    let first = Cube::from_dense_index(0);
    assert_eq!(first, Cube::SOLVED());
    let last = Cube::from_dense_index(Cube::STATE_SPACE - 1);
    assert!(last.is_twist_valid());
    assert_eq!(last.dense_index(), Cube::STATE_SPACE - 1);
    assert_eq!(Cube::STATE_SPACE, 40320 * 2187);
    assert_eq!(Cube::FACTORIALS[0], 5040);
    assert_eq!(Cube::ORI_SPACE, 2187);
}

#[test]
fn corner_fields() {
    let c = Corner::new_with_id(7);
    assert_eq!((c.get_id(), c.get_ori()), (7, 0));
    let ids = Cube::default().applied(Move::F()).ids();
    let mut sorted = ids;
    sorted.sort();
    assert_eq!(sorted, [0, 1, 2, 3, 4, 5, 6, 7]);
    assert_eq!(Cube::default().orientations(), [0; 8]);
    assert_eq!(Cube::default().applied(Move::F()).twist_sum(), 0);
}

// ---------- assembling ----------

#[test]
fn colored_corners_and_pairs() {
    assert_eq!(ColoredCorner::ALL()[5], ColoredCorner([Color::Yellow, Color::Orange, Color::Green]));
    assert_eq!(ColoredCorner::find_from_2_colors(Color::Red, Color::Green), Some(0));
    assert_eq!(ColoredCorner::find_from_2_colors(Color::Green, Color::White), Some(0));
    assert_eq!(ColoredCorner::find_from_2_colors(Color::Green, Color::Red), Some(4));
    assert_eq!(ColoredCorner::find_from_2_colors(Color::White, Color::Yellow), None);
    assert!(Color::White.is_ud() && Color::Yellow.is_ud());
    assert!(!Color::Red.is_ud() && !Color::Blue.is_ud());
}

#[test]
fn unreadable_bottom_returns_none() {
    let col = Column {
        topright: Color::Red,
        topleft: Color::Green,
        botright: Color::Red,
        botleft: Color::Red,
    };
    assert!(assemble_cube([col, col, col, col]).is_none());
}

// ---------- tables ----------

#[test]
fn table_bytes_roundtrip() {
    let t = Table::load(vec![0, 1, 255, 7]);
    assert_eq!(t.save(), &[0, 1, 255, 7]);
    assert_eq!(t.save().len(), 4);
}

#[test]
fn table_without_entry_cannot_solve() {
    // A table with no entries at all: nothing but solved cubes come out.
    let empty = Table::load(vec![255; Cube::STATE_SPACE as usize]);
    assert_eq!(solve(Cube::SOLVED(), &empty), Some(vec![]));
    // A solved cube reads no entry, so even a table without entries serves.
    assert_eq!(solve(Cube::SOLVED().applied(Move::Y()), &Table::load(vec![])), Some(vec![]));
    assert_eq!(solve(Cube::SOLVED().applied(Move::R()), &empty), None);
}

#[test]
fn bottom_only_moves_reach_few_states() {
    // The bottom layer turns alone reach only its four positions for each
    // solved cube; a front twist is out of reach.
    let moves = [Move::D(), Move::D_()];
    let (table, complete) = build_move_table(&moves);
    assert!(!complete);
    let start = Cube::SOLVED().applied(Move::D()).applied(Move::D());
    let sol = solve(start, &table).expect("two bottom twists are undone");
    assert_eq!(sol.len(), 2);
    let mut c = start;
    for m in sol {
        c = c.applied(m);
    }
    assert!(c.is_solved());
    assert_eq!(solve(Cube::SOLVED().applied(Move::F()), &table), None);

    let mut solver = BfsSolver::new();
    assert_eq!(solver.solve(Cube::SOLVED().applied(Move::F()), &moves), None);
    let bfs = solver.solve(start, &moves).expect("reachable");
    assert_eq!(bfs.len(), 2);
}

// ---------- window logic ----------

#[test]
fn window_queue_steps() {
    let mut queue: VecDeque<Action> = VecDeque::new();
    assert!(capture_clicked(&mut queue));
    assert_eq!(queue.iter().copied().collect::<Vec<_>>(), CAPTURE_FACES().to_vec());
    assert!(!capture_clicked(&mut queue));
    assert_eq!(queue.len(), 8);

    assert_eq!(logic_step(false, &mut queue), (false, Some(Action::CaptureColors)));
    assert_eq!(logic_step(false, &mut queue), (true, Some(Action::Move(RobotMove::Y))));
    assert_eq!(logic_step(true, &mut queue), (true, None));
    assert_eq!(queue.len(), 6);

    assert_eq!(relax_clicked(&mut queue), (false, Packet::Operation(Operation::Relax)));
    assert!(queue.is_empty());
    assert_eq!(logic_step(false, &mut queue), (false, None));
}

// ---------- answers that do not depend on earlier calls ----------

#[test]
fn solver_answers_do_not_depend_on_earlier_calls() {
    let moves = [Move::R(), Move::R__(), Move::U(), Move::U_()];
    let start = Cube::SOLVED().applied(Move::R()).applied(Move::U()).applied(Move::R());
    let mut used = BfsSolver::new();
    let _ = used.solve(Cube::SOLVED().applied(Move::U()), &moves);
    let _ = used.solve(Cube::SOLVED().applied(Move::F()), &moves);
    let again = used.solve(start, &moves).expect("reachable");
    let fresh = BfsSolver::new().solve(start, &moves).expect("reachable");
    assert_eq!(again, fresh);
    assert_eq!(again.len(), 3);
}

#[test]
fn solved_states_have_entry_zero() {
    let (table, _) = build_move_table(&[Move::D(), Move::D_()]);
    for c in Cube::solved_class() {
        assert_eq!(table.save()[c.dense_index() as usize], 0);
    }
    let d = Cube::SOLVED().applied(Move::D());
    assert_eq!(Move::unpack(table.save()[d.dense_index() as usize]), Some(Move::D_()));
}

#[test]
fn solved_class_in_search_order() {
    let class = Cube::solved_class();
    let s = Cube::SOLVED();
    assert_eq!(class[0], s);
    assert_eq!(class[1], s.applied(Move::X()));
    assert_eq!(class[2], s.applied(Move::X_()));
    assert_eq!(class[3], s.applied(Move::Y()));
    assert_eq!(class[4], s.applied(Move::Y_()));
    assert_eq!(class[5], s.applied(Move::Z()));
    assert_eq!(class[6], s.applied(Move::Z_()));
}

#[test]
fn table_and_search_give_the_same_moves() {
    let moves = [Move::R(), Move::R__(), Move::U(), Move::U_()];
    let (table, _) = build_move_table(&moves);
    let mut solver = BfsSolver::new();
    let scrambles: [&[Move]; 3] = [
        &[Move::R(), Move::U(), Move::R__(), Move::U_()],
        &[Move::U(), Move::U(), Move::R()],
        &[Move::R(), Move::U(), Move::U(), Move::R(), Move::U_(), Move::R__(), Move::U()],
    ];
    for scramble in scrambles {
        let mut start = Cube::SOLVED();
        for &m in scramble {
            start = start.applied(m);
        }
        let from_table = solve(start, &table).expect("reachable");
        let from_search = solver.solve(start, &moves).expect("reachable");
        assert_eq!(from_table, from_search);
    }
}
