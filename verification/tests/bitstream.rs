use rustydb::gorilla::{BitReader, BitWriter};

#[test]
fn read_write_bit() {
    let mut writer = BitWriter::new();
    assert!(writer.write_bit(true).is_ok());
    let mut reader = BitReader::new(writer.close());
    assert!(reader.read_bit().unwrap());
}

#[test]
fn read_write() {
    let mut writer = BitWriter::new();
    println!("{:#b}", 0b101011i64 as u64);
    println!("{:#b}", (1 << 6) - 1);
    println!("{:#b}", 0b101011i64 as u64 & (1u64 << 6) - 1);
    assert!(writer.write(6, 0b101011).is_ok());
    let mut reader = BitReader::new(writer.close());
    assert!(reader.read(6).unwrap() == 0b101011);
}

#[test]
fn read_write_mix() {
    let mut writer = BitWriter::new();
    assert!(writer.write(6, 0b101011).is_ok());
    assert!(writer.write_bit(true).is_ok());
    let mut reader = BitReader::new(writer.close());
    assert!(reader.read(6).unwrap() == 0b101011);
    assert!(reader.read_bit().unwrap());
}

#[test]
fn read_write_read_bits_true() {
    let mut writer = BitWriter::new();
    assert!(writer.write(6, 0b101011).is_ok());
    assert!(writer.write_bit(true).is_ok());
    let mut reader = BitReader::new(writer.close());
    assert!(reader.read_bit().unwrap());
    assert!(reader.read_bit().unwrap());
    assert!(!reader.read_bit().unwrap());
    assert!(reader.read_bit().unwrap());
    assert!(!reader.read_bit().unwrap());
    assert!(reader.read_bit().unwrap());
    assert!(reader.read_bit().unwrap());

    let mut writer = BitWriter::new();
    assert!(writer.write(6, 0b101011).is_ok());
    assert!(writer.write_bit(false).is_ok());
    let mut reader = BitReader::new(writer.close());
    assert!(reader.read_bit().unwrap());
    assert!(reader.read_bit().unwrap());
    assert!(!reader.read_bit().unwrap());
    assert!(reader.read_bit().unwrap());
    assert!(!reader.read_bit().unwrap());
    assert!(reader.read_bit().unwrap());
    assert!(!reader.read_bit().unwrap());
}

#[test]
fn read_write_i64() {
    let mut writer = BitWriter::new();
    let x: i64 = -60;
    assert!(writer.write(7, x as u64).is_ok());
    assert!(writer.write_bit(true).is_ok());
    let mut reader = BitReader::new(writer.close());
    assert!(!reader.read_bit().unwrap());
    assert!(!reader.read_bit().unwrap());
    assert!(reader.read_bit().unwrap());
    assert!(!reader.read_bit().unwrap());
    assert!(!reader.read_bit().unwrap());
    assert!(!reader.read_bit().unwrap());
    assert!(reader.read_bit().unwrap());
    assert!(reader.read_bit().unwrap());
}
