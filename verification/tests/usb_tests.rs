use coin612::usb::{extended_nuc, packet, Command, EP_IN, EP_OUT, PID, VID};

#[test]
fn packets_have_fields_and_checksum() {
    let p = packet(0xA0, 0x02, 0x08, 0x1234_5678);
    assert_eq!(&p[..10], &[0x55, 0xAA, 0x07, 0xA0, 0x02, 0x08, 0x12, 0x34, 0x56, 0x78]);
    assert_eq!(p[10], p[2..10].iter().fold(0, |a, &b| a ^ b));
    assert_eq!(p[11], 0xF0);
}

#[test]
fn commands_encode() {
    assert_eq!(
        Command::QuickNuc.encode(),
        [0x55, 0xAA, 0x07, 0x02, 0x01, 0x08, 0, 0, 0, 1, 0x0D, 0xF0]
    );
    assert_eq!(
        Command::Shutter { open: true }.encode(),
        [0x55, 0xAA, 0x07, 0xA0, 0x02, 0x08, 0, 0, 0, 1, 0xAC, 0xF0]
    );
    assert_eq!(
        Command::Shutter { open: false }.encode(),
        [0x55, 0xAA, 0x07, 0xA0, 0x02, 0x08, 0, 0, 0, 0, 0xAD, 0xF0]
    );
    assert_eq!(
        Command::LowNoise { on: true }.encode(),
        [0x55, 0xAA, 0x07, 0x01, 0x00, 0x09, 0, 0, 0, 1, 0x0E, 0xF0]
    );
    assert_eq!(
        Command::LowNoise { on: false }.encode(),
        [0x55, 0xAA, 0x07, 0x01, 0x00, 0x09, 0, 0, 0, 0, 0x0F, 0xF0]
    );
}

#[test]
fn one_changed_byte_breaks_the_checksum() {
    let good = packet(1, 2, 3, 4);
    for i in 2..10 {
        let mut bad = good;
        bad[i] ^= 0x40;
        assert_ne!(bad[2..10].iter().fold(0, |a, &b| a ^ b), bad[10]);
    }
}

#[test]
fn extended_correction_closes_and_opens_the_shutter() {
    let steps = extended_nuc();
    let sent: Vec<([u8; 12], u64)> = steps.iter().map(|s| (s.command.encode(), s.wait_ms)).collect();
    assert_eq!(
        sent,
        vec![
            (Command::Shutter { open: false }.encode(), 500),
            (Command::QuickNuc.encode(), 150),
            (Command::Shutter { open: true }.encode(), 0),
        ]
    );
}

#[test]
fn usb_identity() {
    assert_eq!((VID, PID, EP_IN, EP_OUT), (0x04B4, 0xF7F7, 0x81, 0x02));
}
