use arduplayer::command::encode_frame;
use arduplayer::{Command, PinId};

#[test]
fn frame_bit_layout() {
    assert_eq!(encode_frame(3, 0x1234), [0x03, 0x34, 0x12]);
}

#[test]
fn frame_is_id_then_little_endian_delay() {
    for id in [0u8, 1, 5, 127, 255] {
        for delay in [0u16, 1, 0xff, 0x100, 0x1234, 0xabcd, 0xffff, 1908] {
            assert_eq!(encode_frame(id, delay), [id, (delay & 0xff) as u8, (delay >> 8) as u8]);
        }
    }
}

#[test]
fn frame_of_silence() {
    assert_eq!(encode_frame(2, 0), [2, 0, 0]);
    assert_eq!(Command::new(2, 0).to_bytes(), [2, 0, 0]);
}

#[test]
fn command_keeps_pin_and_frequency() {
    let command = Command::new(4, 262);
    assert_eq!(command.pin_id, PinId(4));
    assert_eq!(command.frequency, 262);
    assert_eq!(command, Command { pin_id: PinId(4), frequency: 262 });
}

#[test]
fn command_frame_carries_the_delay() {
    // 500000 / 262 = 1908 = 0x0774
    assert_eq!(Command::new(0, 262).to_bytes(), [0x00, 0x74, 0x07]);
    // 500000 / 440 = 1136 = 0x0470
    assert_eq!(Command::new(5, 440).to_bytes(), [0x05, 0x70, 0x04]);
    // capped at 0xffff
    assert_eq!(Command::new(1, 1).to_bytes(), [0x01, 0xff, 0xff]);
}
