use bootmem::pxe::{
    check_pxe, check_pxenv, filename_fits, read_step, seg_off, server_ip, ReadStep,
};
use bootmem::serial::Serial;

#[test]
fn serial_write_goes_to_each_present_device() {
    let serial = Serial { devices: [Some(0x3f8), None, Some(0x2f8), None] };
    let writes = serial.write(b"ab");
    assert_eq!(writes, vec![(0x3f8, b'a'), (0x2f8, b'a'), (0x3f8, b'b'), (0x2f8, b'b')]);
}

#[test]
fn serial_write_sends_carriage_return_before_newline() {
    let serial = Serial { devices: [None, Some(0x2e8), None, None] };
    let writes = serial.write(b"x\ny");
    assert_eq!(writes, vec![(0x2e8, b'x'), (0x2e8, b'\r'), (0x2e8, b'\n'), (0x2e8, b'y')]);
}

#[test]
fn serial_write_without_devices_sends_nothing() {
    let serial = Serial { devices: [None; 4] };
    assert!(serial.write(b"hello\n").is_empty());
}

#[test]
fn seg_off_is_linear_address() {
    assert_eq!(seg_off(0x07c0, 0x0000), 0x7c00);
    assert_eq!(seg_off(0x1234, 0x0010), 0x12350);
    assert_eq!(seg_off(0xffff, 0xffff), 0x10ffef);
}

fn fix_checksum(s: &mut [u8], at: usize) {
    s[at] = 0;
    let sum = s.iter().fold(0u8, |acc, &b| acc.wrapping_add(b));
    s[at] = 0u8.wrapping_sub(sum);
}

fn pxenv() -> Vec<u8> {
    let mut s = vec![0u8; 0x2c];
    s[0..6].copy_from_slice(b"PXENV+");
    s[6] = 0x01;
    s[7] = 0x02;
    s[8] = 0x2c;
    s[0x28] = 0x34;
    s[0x29] = 0x12;
    s[0x2a] = 0x00;
    s[0x2b] = 0x9f;
    fix_checksum(&mut s, 9);
    s
}

fn pxe() -> Vec<u8> {
    let mut s = vec![0u8; 0x58];
    s[0..4].copy_from_slice(b"!PXE");
    s[4] = 0x58;
    s[0x10] = 0x20;
    s[0x11] = 0x01;
    s[0x12] = 0x00;
    s[0x13] = 0x9e;
    fix_checksum(&mut s, 5);
    s
}

#[test]
fn pxenv_structure_is_checked() {
    assert_eq!(check_pxenv(&pxenv()), Some((0x9f00, 0x1234)));
    let mut old_version = pxenv();
    old_version[6] = 0x00;
    fix_checksum(&mut old_version, 9);
    assert_eq!(check_pxenv(&old_version), None);
    let mut bad_sum = pxenv();
    bad_sum[0x20] ^= 1;
    assert_eq!(check_pxenv(&bad_sum), None);
    let mut bad_sig = pxenv();
    bad_sig[0] = b'Q';
    fix_checksum(&mut bad_sig, 9);
    assert_eq!(check_pxenv(&bad_sig), None);
    assert_eq!(check_pxenv(&pxenv()[..0x2b]), None);
}

#[test]
fn pxe_structure_is_checked() {
    assert_eq!(check_pxe(&pxe()), Some((0x9e00, 0x0120)));
    let mut no_segment = pxe();
    no_segment[0x13] = 0;
    fix_checksum(&mut no_segment, 5);
    assert_eq!(check_pxe(&no_segment), None);
    let mut bad_len = pxe();
    bad_len[4] = 0x57;
    fix_checksum(&mut bad_len, 5);
    assert_eq!(check_pxe(&bad_len), None);
}

#[test]
fn server_ip_comes_from_dhcp_packet() {
    let mut packet = vec![0u8; 0x40];
    packet[0x14..0x18].copy_from_slice(&[10, 0, 2, 2]);
    assert_eq!(server_ip(&packet), Some([10, 0, 2, 2]));
    assert_eq!(server_ip(&packet[..0x17]), None);
}

#[test]
fn filename_needs_room_for_nul() {
    assert!(filename_fits(b"kernel"));
    assert!(filename_fits(&[b'a'; 127]));
    assert!(!filename_fits(&[b'a'; 128]));
}

#[test]
fn read_step_decisions() {
    assert_eq!(read_step(0, 2048, 0, 512), ReadStep::More);
    assert_eq!(read_step(512, 2048, 0, 100), ReadStep::Done);
    assert_eq!(read_step(0, 2048, 1, 512), ReadStep::Fail);
    assert_eq!(read_step(0, 2048, 0, 513), ReadStep::Fail);
    assert_eq!(read_step(2000, 2048, 0, 100), ReadStep::Fail);
    assert_eq!(read_step(2048, 2048, 0, 0), ReadStep::Done);
}
