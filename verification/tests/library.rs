use slc_oxide::action::{Player, PlayerAction, PlayerInput as GenericPlayerInput};
use slc_oxide::meta::Meta;
use slc_oxide::replay::GenericReplay;
use slc_oxide::v2::blob::{Blob, BlobError};
use slc_oxide::v2::input::{Input, InputData, InputError, PlayerInput};
use slc_oxide::v2::replay::{Replay as V2Replay, ReplayError as V2ReplayError};
use slc_oxide::v3::atom::{AtomError, AtomRegistry, AtomVariant, OpaqueAtom};
use slc_oxide::v3::builtin::ActionAtom;
use slc_oxide::v3::replay::ReplayError as V3ReplayError;
use slc_oxide::v3::section::{
    Button, PlayerInput as StateInput, Section, SectionError, SectionIdentifier, SpecialType,
};
use slc_oxide::v3::{ActionType, Metadata, Replay as V3Replay};
use slc_oxide::{Action, ActionData, Replay, ReplayError};

fn player(frame: u64, action: PlayerAction, down: bool, p2: bool) -> Action {
    Action {
        frame,
        data: ActionData::Player(GenericPlayerInput {
            action,
            down,
            player: if p2 { Player::Player2 } else { Player::Player1 },
        }),
    }
}

fn input(delta: u64, frame: u64, data: InputData) -> Input {
    Input { delta, frame, data }
}

#[test]
fn v2_button_numbers() {
    assert_eq!(PlayerAction::Jump.to_v2_button(), 1);
    assert_eq!(PlayerAction::Left.to_v2_button(), 2);
    assert_eq!(PlayerAction::Right.to_v2_button(), 3);
    assert_eq!(PlayerAction::Left.name(), "left");
    assert_eq!(Player::Player2.name(), "p2");
}

#[test]
fn unit_meta_is_empty() {
    assert_eq!(<() as Meta>::size(), 0);
    assert!(().to_bytes().is_empty());
}

#[test]
fn v2_state_formula() {
    let jump = input(
        10,
        10,
        InputData::Player(PlayerInput { hold: true, player_2: false, button: 1 }),
    );
    assert_eq!(jump.to_state(), (10 << 5) | (1 << 2) | 1);
    assert_eq!(jump.required_bytes(), 2);
    let death = input(1, 11, InputData::Death);
    assert_eq!(death.to_state(), (1 << 5) | (6 << 2));
    assert_eq!(death.required_bytes(), 1);
    let tps = input(0, 11, InputData::TPS(480.0f64.to_bits()));
    assert_eq!(tps.required_bytes(), 8);
}

#[test]
fn v2_exact_bytes_of_one_input() {
    let inputs = vec![input(
        10,
        10,
        InputData::Player(PlayerInput { hold: true, player_2: false, button: 1 }),
    )];
    let mut out = Vec::new();
    V2Replay::write_inner(&mut out, 240.0f64.to_bits(), &[], &inputs);
    let mut expected = Vec::new();
    expected.extend_from_slice(b"SILL");
    expected.extend_from_slice(&240.0f64.to_le_bytes());
    expected.extend_from_slice(&0u64.to_le_bytes());
    expected.extend_from_slice(&1u64.to_le_bytes());
    expected.extend_from_slice(&1u64.to_le_bytes());
    expected.extend_from_slice(&2u64.to_le_bytes());
    expected.extend_from_slice(&0u64.to_le_bytes());
    expected.extend_from_slice(&1u64.to_le_bytes());
    expected.extend_from_slice(&325u16.to_le_bytes());
    expected.extend_from_slice(b"EOM");
    assert_eq!(out, expected);
}

#[test]
fn v2_small_blobs_are_merged() {
    // required sizes 1, 2, 1: both small blobs end up in one blob of size 2
    let inputs = vec![
        input(0, 0, InputData::Death),
        input(100, 100, InputData::Death),
        input(0, 100, InputData::Restart),
    ];
    let mut out = Vec::new();
    V2Replay::write_inner(&mut out, 60.0f64.to_bits(), &[], &inputs);
    let blob_count = u64::from_le_bytes(out[28..36].try_into().unwrap());
    assert_eq!(blob_count, 1);
    assert_eq!(u64::from_le_bytes(out[36..44].try_into().unwrap()), 2);
    assert_eq!(u64::from_le_bytes(out[44..52].try_into().unwrap()), 0);
    assert_eq!(u64::from_le_bytes(out[52..60].try_into().unwrap()), 3);
    let back = V2Replay::read(&out).unwrap();
    assert_eq!(back.inputs, inputs);
}

#[test]
fn v2_round_trip() {
    let inputs = vec![
        input(5, 5, InputData::Player(PlayerInput { hold: true, player_2: true, button: 3 })),
        input(0, 5, InputData::Skip),
        input(70000, 70005, InputData::TPS(120.0f64.to_bits())),
        input(1, 70006, InputData::RestartFull),
        input(1 << 40, 70006 + (1 << 40), InputData::Player(PlayerInput {
            hold: false,
            player_2: false,
            button: 2,
        })),
    ];
    let replay = V2Replay { tps_bits: 240.0f64.to_bits(), meta: vec![1, 2, 3], inputs: inputs.clone() };
    let mut out = Vec::new();
    replay.write(&mut out);
    let back = V2Replay::read(&out).unwrap();
    assert_eq!(back.tps_bits, 240.0f64.to_bits());
    assert_eq!(back.meta, vec![1, 2, 3]);
    assert_eq!(back.inputs, inputs);
}

#[test]
fn v2_read_errors() {
    assert!(matches!(V2Replay::read(b"SIL"), Err(V2ReplayError::UnexpectedEof)));
    assert!(matches!(V2Replay::read(b"SLLLxxxxxxxxxxxxxxxx"), Err(V2ReplayError::HeaderMismatchError)));
    let mut out = Vec::new();
    V2Replay::write_inner(&mut out, 0, &[], &[]);
    let n = out.len();
    out[n - 1] = b'X';
    assert!(matches!(V2Replay::read(&out), Err(V2ReplayError::FooterMismatchError)));
}

#[test]
fn v2_blob_errors() {
    let data = [0u8; 4];
    let mut inputs = Vec::new();
    let mut frame = 0u64;
    let late = Blob { byte_size: 1, start: 3, length: 1 };
    assert!(matches!(late.read_inputs(&data, 0, &mut inputs, &mut frame), Err(BlobError::StartMismatch)));
    let wide = Blob { byte_size: 1, start: u64::MAX, length: 2 };
    assert!(matches!(wide.read_inputs(&data, 0, &mut inputs, &mut frame), Err(BlobError::RangeOverflow)));
    let short = Blob { byte_size: 8, start: 0, length: 1 };
    assert!(matches!(
        short.read_inputs(&data, 0, &mut inputs, &mut frame),
        Err(BlobError::Input(InputError::UnexpectedEof))
    ));
    let empty = Blob { byte_size: 8, start: 9, length: 0 };
    assert_eq!(empty.read_inputs(&data, 2, &mut inputs, &mut frame), Ok(2));
    let header = Blob { byte_size: 2, start: 5, length: 7 };
    let mut bytes = Vec::new();
    header.write(&mut bytes);
    assert_eq!(bytes.len(), 24);
    assert_eq!(Blob::read(&bytes, 0), Some(header));
    assert_eq!(Blob::read(&bytes, 1), None);
}

#[test]
fn v2_input_frame_overflow() {
    let state: u64 = 1 << 5;
    let data = state.to_le_bytes();
    assert!(matches!(Input::read(&data, 0, u64::MAX, 8), Err(InputError::FrameOverflow)));
    let (read, end) = Input::read(&data, 0, 7, 8).unwrap();
    assert_eq!(read, input(1, 8, InputData::Skip));
    assert_eq!(end, 8);
}

#[test]
fn generic_v2_round_trip_drops_seeds() {
    let mut replay = GenericReplay { tps_bits: 240.0f64.to_bits(), actions: Vec::new() };
    replay.add_action(player(200, PlayerAction::Jump, true, false));
    replay.add_action(Action { frame: 400, data: ActionData::Death { seed: 77 } });
    replay.add_action(Action { frame: 600, data: ActionData::TPS(480.0f64.to_bits()) });
    let mut out = Vec::new();
    replay.write_v2(&mut out, &[]).unwrap();
    let back = Replay::read(&out).unwrap().to_generic_replay();
    assert_eq!(back.tps_bits, 240.0f64.to_bits());
    assert_eq!(back.actions[0], replay.actions[0]);
    assert_eq!(back.actions[1], Action { frame: 400, data: ActionData::Death { seed: 0 } });
    assert_eq!(back.actions[2], replay.actions[2]);
}

#[test]
fn generic_v2_refuses_bugpoints_and_frames_going_back() {
    let mut replay = GenericReplay { tps_bits: 0, actions: Vec::new() };
    replay.add_action(Action { frame: 3, data: ActionData::Bugpoint });
    let mut out = Vec::new();
    assert!(matches!(
        replay.write_v2(&mut out, &[]),
        Err(ReplayError::UnrepresentableAction(Action { frame: 3, data: ActionData::Bugpoint }))
    ));
    assert!(out.is_empty());
    let mut back = GenericReplay { tps_bits: 0, actions: Vec::new() };
    back.add_action(player(9, PlayerAction::Left, true, false));
    back.add_action(player(4, PlayerAction::Left, false, false));
    assert!(matches!(back.write_v2(&mut out, &[]), Err(ReplayError::UnrepresentableAction(a)) if a.frame == 4));
}

#[test]
fn generic_v3_round_trip() {
    let mut replay = GenericReplay { tps_bits: 0, actions: Vec::new() };
    replay.add_action(player(10, PlayerAction::Jump, true, false));
    replay.add_action(player(10, PlayerAction::Jump, false, false));
    replay.add_action(player(12, PlayerAction::Right, true, true));
    replay.add_action(Action { frame: 20, data: ActionData::Restart { seed: 5 } });
    replay.add_action(Action { frame: 25, data: ActionData::TPS(360.0f64.to_bits()) });
    replay.add_action(Action { frame: 30, data: ActionData::Bugpoint });
    let mut out = Vec::new();
    replay
        .write_v3(&mut out, Metadata::new(240.0f64.to_bits(), 9, 1))
        .unwrap();
    let back = Replay::read(&out).unwrap().to_generic_replay();
    assert_eq!(back.tps_bits, 240.0f64.to_bits());
    assert_eq!(back.actions, replay.actions);
}

#[test]
fn generic_read_errors() {
    assert!(matches!(Replay::read(b"SLC3"), Err(ReplayError::UnexpectedEof)));
    assert!(matches!(Replay::read(b"NOTAREPLAY"), Err(ReplayError::UnknownFormat)));
    assert!(matches!(
        Replay::read(b"SLC3RPLYxx"),
        Err(ReplayError::V3Error(V3ReplayError::InvalidMetadataSize))
    ));
}

#[test]
fn order_inputs_is_stable() {
    let mut replay = GenericReplay { tps_bits: 0, actions: Vec::new() };
    replay.add_action(player(5, PlayerAction::Jump, true, false));
    replay.add_action(player(2, PlayerAction::Left, true, false));
    replay.add_action(player(5, PlayerAction::Right, true, false));
    replay.add_action(player(2, PlayerAction::Jump, false, false));
    replay.order_inputs();
    let frames: Vec<u64> = replay.actions.iter().map(|a| a.frame).collect();
    assert_eq!(frames, vec![2, 2, 5, 5]);
    assert_eq!(replay.actions[0], player(2, PlayerAction::Left, true, false));
    assert_eq!(replay.actions[1], player(2, PlayerAction::Jump, false, false));
    assert_eq!(replay.actions[2], player(5, PlayerAction::Jump, true, false));
    assert_eq!(replay.actions[3], player(5, PlayerAction::Right, true, false));
}

#[test]
fn v3_read_errors() {
    let mut replay = V3Replay::new(Metadata::new(240.0f64.to_bits(), 0, 1));
    replay.add_atom(AtomVariant::Opaque(OpaqueAtom::new(7, 0, vec![1])));
    let mut bytes = Vec::new();
    replay.write(&mut bytes).unwrap();
    let mut bad_header = bytes.clone();
    bad_header[0] = b'X';
    assert!(matches!(V3Replay::read(&bad_header), Err(V3ReplayError::InvalidHeader)));
    let mut bad_footer = bytes.clone();
    let n = bad_footer.len();
    bad_footer[n - 1] = 0;
    assert!(matches!(V3Replay::read(&bad_footer), Err(V3ReplayError::InvalidFooter)));
    assert!(matches!(V3Replay::read(&bytes[..74]), Err(V3ReplayError::UnexpectedEof)));
}

#[test]
fn metadata_bytes() {
    let m = Metadata::new(240.0f64.to_bits(), 123, 42);
    assert_eq!(m.version, 2);
    assert_eq!(m.randomness_algorithm, 0);
    let mut out = Vec::new();
    m.write(&mut out);
    assert_eq!(out.len(), 64);
    assert_eq!(&out[16..20], &2u32.to_le_bytes());
    assert_eq!(Metadata::read(&out, 0), Some(m));
    assert_eq!(Metadata::read(&out, 1), None);
}

#[test]
fn atom_registry_round_trip() {
    let mut actions = ActionAtom::new();
    actions.add_death_action(3, ActionType::Death, 99).unwrap();
    actions.add_player_action(3, ActionType::Left, true, true).unwrap();
    let registry = AtomRegistry {
        atoms: vec![
            AtomVariant::Opaque(OpaqueAtom::new(2, 1, vec![5, 6])),
            AtomVariant::Action(actions),
        ],
    };
    let mut out = Vec::new();
    registry.write(&mut out).unwrap();
    let back = AtomRegistry::read(&out).unwrap();
    assert_eq!(back.atoms.len(), 2);
    let AtomVariant::Action(read) = &back.atoms[1] else {
        panic!("expected action atom");
    };
    assert_eq!(read.actions.len(), 2);
    assert_eq!(read.actions[0].seed, 99);
    assert_eq!(read.actions[1].action_type, ActionType::Left);
    assert!(read.actions[1].player2);
}

#[test]
fn action_atom_clip_and_clear() {
    let mut actions = ActionAtom::new();
    actions.add_bugpoint_action(1).unwrap();
    actions.add_bugpoint_action(5).unwrap();
    actions.add_bugpoint_action(9).unwrap();
    actions.clip_actions(6);
    assert_eq!(actions.actions.len(), 2);
    assert_eq!(actions.actions[1].frame, 5);
    actions.clear();
    assert!(actions.actions.is_empty());
}

#[test]
fn section_state_formulas() {
    let p = StateInput::from_state(10, (3 << 4) | (2 << 2) | 0b11).unwrap();
    assert_eq!(p.frame, 13);
    assert_eq!(p.delta, 3);
    assert_eq!(p.button, Button::Left);
    assert!(p.holding && p.player2);
    assert_eq!(p.prepare_state(8), (3 << 4) | (2 << 2) | 0b11);
    assert_eq!(p.prepare_state(0), 0);
    let q = StateInput::from_state(0, (3 << 4) | (2 << 2) | 0b11).unwrap();
    assert!(p.weak_eq(&q));
    assert!(matches!(StateInput::from_state(u64::MAX, 1 << 4), Err(SectionError::FrameOverflow)));
}

#[test]
fn v3_rewrite_of_opaque_replay_reproduces_bytes() {
    let mut data: Vec<u8> = b"SLC3RPLY".to_vec();
    data.extend_from_slice(&64u16.to_le_bytes());
    data.extend_from_slice(&60.0f64.to_bits().to_le_bytes());
    data.extend_from_slice(&7u64.to_le_bytes());
    data.extend_from_slice(&2u32.to_le_bytes());
    data.extend_from_slice(&9u32.to_le_bytes());
    data.extend_from_slice(&0u32.to_le_bytes());
    data.extend_from_slice(&[0u8; 36]);
    data.extend_from_slice(&5u32.to_le_bytes());
    data.extend_from_slice(&((3u64 << 56) | 2).to_le_bytes());
    data.extend_from_slice(&[0xAB, 0xCD]);
    data.extend_from_slice(&9u32.to_le_bytes());
    data.extend_from_slice(&0u64.to_le_bytes());
    data.push(0xCC);
    let replay = V3Replay::read(&data).unwrap();
    assert_eq!(replay.metadata.seed, 7);
    assert_eq!(replay.atoms.atoms.len(), 2);
    let mut out = Vec::new();
    replay.write(&mut out).unwrap();
    assert_eq!(out, data);
}

#[test]
fn ordered_actions_are_written_in_both_versions() {
    let mut replay = GenericReplay { tps_bits: 240.0f64.to_bits(), actions: Vec::new() };
    replay.add_action(player(9, PlayerAction::Jump, true, false));
    replay.add_action(player(4, PlayerAction::Jump, false, false));
    replay.add_action(Action { frame: 6, data: ActionData::Death { seed: 1 } });
    let mut out = Vec::new();
    assert!(matches!(
        replay.write_v3(&mut out, Metadata::new(240.0f64.to_bits(), 0, 1)),
        Err(ReplayError::V3Error(V3ReplayError::AtomError(AtomError::NonMonotonicFrame {
            previous: 9,
            frame: 4
        })))
    ));
    out.clear();
    assert!(replay.write_v2(&mut out, &[]).is_err());
    out.clear();
    replay.order_inputs();
    assert_eq!(replay.actions[0].frame, 4);
    assert_eq!(replay.actions[2].frame, 9);
    replay.write_v3(&mut out, Metadata::new(240.0f64.to_bits(), 0, 1)).unwrap();
    let back = Replay::read(&out).unwrap().to_generic_replay();
    assert_eq!(back.actions, replay.actions);
    out.clear();
    replay.write_v2(&mut out, &[]).unwrap();
    let back = Replay::read(&out).unwrap().to_generic_replay();
    assert_eq!(back.actions.len(), 3);
    assert_eq!(back.actions[2], replay.actions[2]);
}

#[test]
fn marked_section_writes_nothing() {
    let section = Section {
        id: SectionIdentifier::Special,
        delta_size: 9,
        player_inputs: Vec::new(),
        marked_for_removal: true,
        count_exp: 0,
        repeats_exp: 0,
        special_type: SpecialType::TPS,
        seed: 0,
        tps_bits: 0,
        special: None,
    };
    let mut out = vec![7u8];
    section.write(&mut out);
    assert_eq!(out, vec![7u8]);
}

#[test]
fn section_read_errors_leave_actions() {
    let mut actions = Vec::new();
    assert_eq!(
        Section::read(&[0xFF, 0xFF], 0, &mut actions, 10),
        Err(SectionError::InvalidIdentifier)
    );
    assert!(actions.is_empty());
    assert_eq!(
        Section::read(&[0x00, 0x00, 0x00], 0, &mut actions, 1),
        Err(SectionError::ActionCountExceeded)
    );
    assert!(actions.len() <= 1);
    assert_eq!(
        Section::read(&[0xF8, 0x40, 0x04], 0, &mut actions, 1),
        Err(SectionError::ActionCountExceeded)
    );
    assert!(actions.is_empty());
    let mut tps = vec![0x00, 0x8C, 0x00];
    tps.extend_from_slice(&(-1.0f64).to_bits().to_le_bytes());
    assert_eq!(
        Section::read(&tps, 0, &mut actions, 1),
        Err(SectionError::InvalidTPS((-1.0f64).to_bits()))
    );
    assert!(actions.is_empty());
}

#[test]
fn v2_rewrite_of_written_bytes_reproduces_them() {
    let inputs = vec![
        input(3, 3, InputData::Player(PlayerInput { hold: true, player_2: false, button: 1 })),
        input(300, 303, InputData::Death),
        input(0, 303, InputData::Player(PlayerInput { hold: false, player_2: false, button: 1 })),
    ];
    let replay = V2Replay { tps_bits: 60.0f64.to_bits(), meta: vec![9], inputs };
    let mut first = Vec::new();
    replay.write(&mut first);
    let mut second = Vec::new();
    V2Replay::read(&first).unwrap().write(&mut second);
    assert_eq!(first, second);
}

#[test]
fn generic_writes_keep_each_action() {
    let mut replay = GenericReplay { tps_bits: 0, actions: Vec::new() };
    replay.add_action(player(4, PlayerAction::Left, true, true));
    replay.add_action(Action { frame: 9, data: ActionData::Death { seed: 3 } });
    let mut out = Vec::new();
    replay.write_v2(&mut out, &[]).unwrap();
    let Replay::V2(back) = Replay::read(&out).unwrap() else {
        panic!("expected an SLC2 replay");
    };
    assert_eq!(back.inputs[0].frame, 4);
    assert_eq!(back.inputs[0].delta, 4);
    assert_eq!(back.inputs[1].delta, 5);
    assert_eq!(back.inputs[1].data, InputData::Death);
    out.clear();
    replay.write_v3(&mut out, Metadata::new(60.0f64.to_bits(), 0, 1)).unwrap();
    let Replay::V3(back) = Replay::read(&out).unwrap() else {
        panic!("expected an SLC3 replay");
    };
    let AtomVariant::Action(atom) = &back.atoms.atoms[0] else {
        panic!("expected an action atom");
    };
    assert_eq!(atom.actions[1].delta, 5);
    assert_eq!(atom.actions[1].seed, 3);
    assert!(atom.actions[0].player2);
}
