use uxn_core::Stack;
use uxn_core::Fault;

#[test]
fn test_stack() {
    let mut s = Stack::new();

    // Test byte pushing and popping
    s.push_byte(0x10).unwrap();
    s.push_byte(0x20).unwrap();
    assert_eq!(s.pop_byte().unwrap(), 0x20);
    assert_eq!(s.pop_byte().unwrap(), 0x10);

    // Test short pushing and popping
    s.push_short(0x1234).unwrap();
    s.push_short(0x5678).unwrap();
    assert_eq!(s.pop_short().unwrap(), 0x5678);
    assert_eq!(s.pop_short().unwrap(), 0x1234);

    // Test conversion of shorts into bytes
    s.push_short(0x1234).unwrap();
    assert_eq!(s.pop_byte().unwrap(), 0x34);
    assert_eq!(s.pop_byte().unwrap(), 0x12);

    // Test conversion of bytes into shorts
    s.push_byte(0x56).unwrap();
    s.push_byte(0x78).unwrap();
    assert_eq!(s.pop_short().unwrap(), 0x5678);

    // Test keep mode
    s.push_byte(0x12).unwrap();
    s.push_byte(0x34).unwrap();
    s.set_keep_mode(true);
    s.push_byte(0x56).unwrap();
    assert_eq!(s.pop_byte().unwrap(), 0x34);
    assert_eq!(s.pop_byte().unwrap(), 0x12);
    s.set_keep_mode(false);
    assert_eq!(s.pop_byte().unwrap(), 0x56);
    assert_eq!(s.pop_short().unwrap(), 0x1234);
}

#[test]
fn test_short_round_trip() {
    let mut s = Stack::new();
    s.push_byte(0x99).unwrap();
    s.push_short(0xabcd).unwrap();
    assert_eq!(s.pop_short().unwrap(), 0xabcd);
    assert_eq!(s.pop_byte().unwrap(), 0x99);
    assert!(s.data.is_empty());
}

#[test]
fn test_keep_mode_preserves_data() {
    let mut s = Stack::new();
    s.push_byte(0x01).unwrap();
    s.push_byte(0x02).unwrap();
    s.push_byte(0x03).unwrap();
    s.set_keep_mode(true);
    assert_eq!(s.pop_byte().unwrap(), 0x03);
    assert_eq!(s.pop_byte().unwrap(), 0x02);
    assert_eq!(s.pop_byte().unwrap(), 0x01);
    assert_eq!(s.pop_byte(), Err(Fault::StackUnderflow));
    s.set_keep_mode(false);
    assert_eq!(s.data, vec![0x01, 0x02, 0x03]);
}

#[test]
fn test_stack_underflow() {
    let mut s = Stack::new();
    assert_eq!(s.pop_byte(), Err(Fault::StackUnderflow));
    assert_eq!(s.pop_short(), Err(Fault::StackUnderflow));
}

#[test]
fn test_stack_overflow() {
    let mut s = Stack::new();
    for i in 0..255 {
        s.push_byte(i as u8).unwrap();
    }
    assert_eq!(s.push_byte(0xff), Err(Fault::StackOverflow));
    assert_eq!(s.push_short(0xffff), Err(Fault::StackOverflow));
    assert_eq!(s.data.len(), 255);
}
