use bft::CellKind;
use bft::InputStream;
use bft::OutputStream;

#[test]
fn test_u8_cellkind_decrement() {
    let mut cell = 1u8;
    cell.wrapping_decrement();
    assert_eq!(cell, 0);

    let mut cell = 0u8;
    cell.wrapping_decrement();
    assert_eq!(cell, u8::MAX);
}

#[test]
fn test_u8_cellkind_increment() {
    let mut cell = 0u8;
    cell.wrapping_increment();
    assert_eq!(cell, 1u8);

    let mut cell = u8::MAX;
    cell.wrapping_increment();
    assert_eq!(cell, 0u8);
}

#[test]
fn test_u8_cellkind_from_reader_success() {
    let input = "This string will be read";
    let mut b = InputStream::new(input.as_bytes().to_vec());
    let mut cell = 0u8;
    assert!(cell.from_reader(&mut b).is_ok());
    assert_eq!(cell, b'T');
}

#[test]
fn test_u8_cellkind_from_reader_failure() {
    let input = "";
    let mut b = InputStream::new(input.as_bytes().to_vec());
    let mut cell = 0u8;
    assert!(cell.from_reader(&mut b).is_err());
}

#[test]
fn test_u8_cellkind_to_writer() {
    let mut buff = OutputStream::new(vec![0u8; 5]);
    assert!(105u8.to_writer(&mut buff).is_ok());
    assert!(114u8.to_writer(&mut buff).is_ok());
    assert!(111u8.to_writer(&mut buff).is_ok());
    assert!(110u8.to_writer(&mut buff).is_ok());
    assert_eq!(&buff.get_ref()[..], b"iron\0");
}

#[test]
fn test_u8_increment_cycle_returns_to_start() {
    let mut cell = 200u8;
    let mut count = 0;
    while count < 256 {
        cell.wrapping_increment();
        count += 1;
    }
    assert_eq!(cell, 200u8);
}

#[test]
fn test_u8_decrement_cycle_returns_to_start() {
    let mut cell = 7u8;
    let mut count = 0;
    while count < 256 {
        cell.wrapping_decrement();
        count += 1;
    }
    assert_eq!(cell, 7u8);
}

#[test]
fn test_input_stream_reads_in_order_then_fails() {
    let mut s = InputStream::new(vec![10, 20]);
    assert_eq!(s.remaining(), 2);
    assert_eq!(s.read_byte(), Ok(10));
    assert_eq!(s.read_byte(), Ok(20));
    assert_eq!(s.read_byte(), Err(bft::StreamError::EndOfStream));
    assert_eq!(s.remaining(), 0);
}

#[test]
fn test_output_stream_appends_past_buffer() {
    let mut s = OutputStream::empty();
    s.write_byte(1);
    s.write_byte(2);
    assert_eq!(s.get_ref().as_slice(), &[1u8, 2u8]);
    assert_eq!(s.into_inner(), vec![1u8, 2u8]);
}

#[test]
fn test_output_stream_overwrites_then_appends() {
    let mut s = OutputStream::new(vec![9, 9]);
    s.write_byte(1);
    s.write_byte(2);
    s.write_byte(3);
    assert_eq!(s.get_ref().as_slice(), &[1u8, 2u8, 3u8]);
}
