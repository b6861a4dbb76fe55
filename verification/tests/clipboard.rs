use mp4_rotator::clipboard::{clipboard_file_list, file_list_in_order};

fn units(s: &str) -> Vec<u16> {
    s.encode_utf16().collect()
}

fn drop_data(names: &[&str], tail: &[u8]) -> Vec<u8> {
    let mut d = vec![20u8, 0, 0, 0, 0, 0, 0, 0, 0, 0, 0, 0, 0, 0, 0, 0, 1, 0, 0, 0];
    for n in names {
        for u in n.encode_utf16() {
            d.extend_from_slice(&u.to_ne_bytes());
        }
        d.extend_from_slice(&0u16.to_ne_bytes());
    }
    d.extend_from_slice(&0u16.to_ne_bytes());
    d.extend_from_slice(tail);
    d
}

#[test]
fn short_data_lists_nothing() {
    assert_eq!(clipboard_file_list(&[0u8; 19]), None);
    assert_eq!(clipboard_file_list(&[]), None);
    assert_eq!(clipboard_file_list(&[0u8; 20]), None);
}

#[test]
fn lists_every_path() {
    let d = drop_data(&["C:\\v\\a.mp4", "C:\\v\\b.mp4"], &[]);
    assert_eq!(clipboard_file_list(&d), Some(vec![units("C:\\v\\a.mp4"), units("C:\\v\\b.mp4")]));
}

#[test]
fn path_without_its_zero_is_left_out() {
    let mut d = drop_data(&["x.mp4"], &[]);
    for u in "y.mp4".encode_utf16() {
        d.extend_from_slice(&u.to_ne_bytes());
    }
    d.push(0x41);
    assert_eq!(clipboard_file_list(&d), Some(vec![units("x.mp4")]));
}

#[test]
fn no_path_lists_nothing() {
    let d = drop_data(&[], &[]);
    assert_eq!(clipboard_file_list(&d), None);
    let mut e = vec![0u8; 20];
    for u in "dangling".encode_utf16() {
        e.extend_from_slice(&u.to_ne_bytes());
    }
    assert_eq!(clipboard_file_list(&e), None);
}

#[test]
fn units_are_read_in_machine_order() {
    let mut d = vec![0u8; 20];
    d.extend_from_slice(&[0x12, 0x34, 0, 0]);
    assert_eq!(clipboard_file_list(&d), Some(vec![vec![u16::from_ne_bytes([0x12, 0x34])]]));
}

#[test]
fn units_in_either_byte_order() {
    let mut d = vec![0u8; 20];
    d.extend_from_slice(&[0x41, 0x00, 0x00, 0x42, 0, 0]);
    assert_eq!(file_list_in_order(&d, true), Some(vec![vec![0x0041, 0x4200]]));
    assert_eq!(file_list_in_order(&d, false), Some(vec![vec![0x4100, 0x0042]]));
}

#[test]
fn header_and_odd_last_byte_are_ignored() {
    let a = drop_data(&["a.mp4", "b.mp4"], &[]);
    let mut b = a.clone();
    for x in b[..20].iter_mut() {
        *x = 0xee;
    }
    let mut c = a.clone();
    c.push(0x7f);
    let expected = Some(vec![units("a.mp4"), units("b.mp4")]);
    assert_eq!(clipboard_file_list(&a), expected);
    assert_eq!(clipboard_file_list(&b), expected);
    assert_eq!(clipboard_file_list(&c), expected);
}
