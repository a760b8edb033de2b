use elevator_dispatch::codec::{read_commands, read_state, write_commands, DecodeError};
use elevator_dispatch::dispatch::Controller;
use elevator_dispatch::driver::serve_frame;

fn put_u32(out: &mut Vec<u8>, x: u32) {
    out.extend_from_slice(&x.to_le_bytes());
}

fn put_i32(out: &mut Vec<u8>, x: i32) {
    out.extend_from_slice(&x.to_le_bytes());
}

#[test]
fn write_commands_lays_out_count_then_fields() {
    let bytes = write_commands(&[(0, 5), (1, -2)]);
    let mut expected = Vec::new();
    put_u32(&mut expected, 2);
    put_u32(&mut expected, 0);
    put_i32(&mut expected, 5);
    put_u32(&mut expected, 1);
    put_i32(&mut expected, -2);
    assert_eq!(bytes, expected);
}

#[test]
fn write_commands_empty_list() {
    assert_eq!(write_commands(&[]), vec![0, 0, 0, 0]);
}

#[test]
fn command_frame_round_trips() {
    let mut frame = Vec::new();
    put_u32(&mut frame, 3);
    put_u32(&mut frame, 7);
    put_i32(&mut frame, -1);
    put_u32(&mut frame, 0);
    put_i32(&mut frame, i32::MIN);
    put_u32(&mut frame, u32::MAX);
    put_i32(&mut frame, i32::MAX);
    let cmds = read_commands(&frame).unwrap();
    assert_eq!(cmds, vec![(7, -1), (0, i32::MIN), (u32::MAX, i32::MAX)]);
    assert_eq!(write_commands(&cmds), frame);
}

#[test]
fn command_list_round_trips() {
    let cmds = vec![(2u32, 9i32), (4, -30)];
    assert_eq!(read_commands(&write_commands(&cmds)), Some(cmds));
}

#[test]
fn read_commands_rejects_wrong_length() {
    let mut frame = Vec::new();
    put_u32(&mut frame, 1);
    put_u32(&mut frame, 0);
    assert_eq!(read_commands(&frame), None);
    assert_eq!(read_commands(&[1, 0]), None);
}

#[test]
fn read_state_of_empty_input_is_end_of_stream() {
    assert!(matches!(read_state(&[]), Err(DecodeError::EndOfStream)));
}

#[test]
fn read_state_of_empty_frame() {
    let (es, fs, n) = read_state(&[0, 0, 0, 0, 0, 0, 0, 0]).unwrap();
    assert!(es.is_empty());
    assert!(fs.is_empty());
    assert_eq!(n, 8);
}

#[test]
fn read_state_truncated_elevator_fields() {
    let mut frame = Vec::new();
    put_u32(&mut frame, 1);
    put_u32(&mut frame, 0);
    put_i32(&mut frame, 3);
    assert!(matches!(read_state(&frame), Err(DecodeError::Truncated)));
}

#[test]
fn read_state_truncated_header() {
    assert!(matches!(read_state(&[1, 0, 0]), Err(DecodeError::Truncated)));
}

#[test]
fn read_state_truncated_floor() {
    let mut frame = Vec::new();
    put_u32(&mut frame, 0);
    put_u32(&mut frame, 1);
    put_i32(&mut frame, 4);
    frame.push(1);
    assert!(matches!(read_state(&frame), Err(DecodeError::Truncated)));
}

#[test]
fn read_state_decodes_every_field() {
    let mut frame = Vec::new();
    put_u32(&mut frame, 2);
    put_u32(&mut frame, 2);
    put_i32(&mut frame, -1);
    put_i32(&mut frame, -1);
    put_u32(&mut frame, 0.25f32.to_bits());
    put_u32(&mut frame, 2);
    put_i32(&mut frame, 5);
    put_i32(&mut frame, -3);
    put_i32(&mut frame, 4);
    put_i32(&mut frame, 6);
    put_u32(&mut frame, 0.9f32.to_bits());
    put_u32(&mut frame, 0);
    put_i32(&mut frame, 0);
    frame.push(1);
    frame.push(0);
    put_i32(&mut frame, -2);
    frame.push(0);
    frame.push(2);
    frame.extend_from_slice(&[9, 9, 9]);
    let (es, fs, n) = read_state(&frame).unwrap();
    assert_eq!(n, frame.len() - 3);
    assert_eq!(es.len(), 2);
    assert_eq!(es[0].id, 0);
    assert_eq!(es[0].current_floor(), -1);
    assert_eq!(es[0].destination_floor(), None);
    assert_eq!(f32::from_bits(es[0].load_bits()), 0.25);
    assert_eq!(es[0].pressed_floor_buttons(), &[5, -3]);
    assert_eq!(es[1].id, 1);
    assert_eq!(es[1].current_floor(), 4);
    assert_eq!(es[1].destination_floor(), Some(6));
    assert_eq!(f32::from_bits(es[1].load_bits()), 0.9);
    assert!(es[1].pressed_floor_buttons().is_empty());
    assert_eq!(fs.len(), 2);
    assert_eq!((fs[0].level(), fs[0].button_up(), fs[0].button_down()), (0, true, false));
    assert_eq!((fs[1].level(), fs[1].button_up(), fs[1].button_down()), (-2, false, true));
}

#[test]
fn serve_frame_with_no_elevators_and_no_floors() {
    let mut ctrl = Controller::new();
    let (out, n) = serve_frame(&mut ctrl, &[0, 0, 0, 0, 0, 0, 0, 0]).unwrap();
    assert_eq!(out, vec![0, 0, 0, 0]);
    assert_eq!(n, 8);
    assert_eq!(ctrl.tick_counter, 1);
}

#[test]
fn serve_frame_truncated_writes_nothing() {
    let mut ctrl = Controller::new();
    let mut frame = Vec::new();
    put_u32(&mut frame, 1);
    put_u32(&mut frame, 0);
    assert!(matches!(serve_frame(&mut ctrl, &frame), Err(DecodeError::Truncated)));
    assert_eq!(ctrl.tick_counter, 0);
}

#[test]
fn serve_frame_sends_nearest_pressed_floor() {
    let mut ctrl = Controller::new();
    let mut frame = Vec::new();
    put_u32(&mut frame, 1);
    put_u32(&mut frame, 0);
    put_i32(&mut frame, 0);
    put_i32(&mut frame, -1);
    put_u32(&mut frame, 0);
    put_u32(&mut frame, 2);
    put_i32(&mut frame, 5);
    put_i32(&mut frame, 2);
    let (out, n) = serve_frame(&mut ctrl, &frame).unwrap();
    assert_eq!(n, frame.len());
    assert_eq!(read_commands(&out), Some(vec![(0, 2)]));
}
