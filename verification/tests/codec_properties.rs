use rustydb::gorilla::api::{compress_values, retrieve_values};
use rustydb::gorilla::{BitReader, BitStream, BitWriter, Entry, Error, GorillaBlock, GorillaReader};
use rustydb::gorilla::{GorillaReaderMV, GorillaWriter, GorillaWriterMV, MVEntry};

fn mask(n: u32) -> u64 {
    if n == 64 {
        u64::MAX
    } else {
        (1u64 << n) - 1
    }
}

fn entry(time: i64, values: &[f64]) -> MVEntry {
    MVEntry::new(time, values.iter().map(|v| v.to_bits()).collect())
}

fn same(a: &[MVEntry], b: &[MVEntry]) -> bool {
    a.len() == b.len() && a.iter().zip(b.iter()).all(|(x, y)| x.time == y.time && x.values == y.values)
}

#[test]
fn reading_gives_the_written_number_cut_to_its_width() {
    for &v in &[0u64, 1, 0b101011, 0xdead_beef_0123_4567, u64::MAX] {
        for n in 0..=64u32 {
            let mut writer = BitWriter::new();
            writer.write_bit(true).unwrap();
            writer.write(n, v).unwrap();
            writer.write(3, 0b101).unwrap();
            assert_eq!(writer.length(), 4 + n as usize);
            let mut reader = BitReader::new(writer.close());
            assert!(reader.read_bit().unwrap());
            assert_eq!(reader.read(n as usize).unwrap(), v & mask(n));
            assert_eq!(reader.read(3).unwrap(), 0b101);
            assert_eq!(reader.cursor(), 4 + n as usize);
        }
    }
}

#[test]
fn a_closed_stream_is_padded_to_whole_bytes() {
    for n in 0..=20usize {
        let mut writer = BitWriter::new();
        for _ in 0..n {
            writer.write_bit(true).unwrap();
        }
        let stream = writer.close();
        assert_eq!(stream.length(), n);
        let wire = stream.to_string();
        assert_eq!(wire.len(), 4 + (n + 7) / 8);
        assert_eq!(&wire[0..4], &(n as u32).to_le_bytes());
        if n % 8 != 0 {
            assert_eq!(wire[wire.len() - 1], (1u8 << (n % 8)) - 1);
        }
    }
}

#[test]
fn a_stream_comes_back_from_its_wire_form() {
    let mut writer = BitWriter::new();
    writer.write(13, 0x1abc).unwrap();
    let wire = writer.close().to_string();
    assert_eq!(wire, vec![13, 0, 0, 0, 0xbc, 0x1a]);
    let mut reader = BitReader::new(BitStream::new(&wire));
    assert_eq!(reader.length(), 13);
    assert_eq!(reader.read(13).unwrap(), 0x1abc);
}

#[test]
fn a_block_of_a_header_alone_is_its_timestamp() {
    let block = GorillaWriter::with_vec(1).close();
    assert_eq!(block.to_string(), vec![64, 0, 0, 0, 1, 0, 0, 0, 0, 0, 0, 0]);
    let block = GorillaWriterMV::with_vec(-2, 3).close();
    assert_eq!(block.to_string(), vec![64, 0, 0, 0, 0xfe, 0xff, 0xff, 0xff, 0xff, 0xff, 0xff, 0xff]);
}

#[test]
fn a_read_past_the_recorded_length_is_refused() {
    let mut writer = BitWriter::new();
    writer.write(5, 0b10101).unwrap();
    let mut reader = BitReader::new(writer.close());
    assert!(matches!(reader.read(6), Err(Error::BitReaderError(_))));
    assert_eq!(reader.cursor(), 0);
    assert_eq!(reader.read(5).unwrap(), 0b10101);
    assert!(matches!(reader.read_bit(), Err(Error::BitReaderError(_))));
    assert!(matches!(reader.read(1), Err(Error::BitReaderError(_))));
    assert_eq!(reader.read(0).unwrap(), 0);
    assert_eq!(reader.cursor(), 5);
}

#[test]
fn a_stream_with_too_few_bytes_fails_where_they_end() {
    // 24 bits are recorded, 8 are there
    let mut reader = BitReader::new(BitStream::new(&[24, 0, 0, 0, 0xa5]));
    assert_eq!(reader.read(8).unwrap(), 0xa5);
    assert!(matches!(reader.read(8), Err(Error::BitStreamIOError(_))));
}

#[test]
fn every_range_of_the_delta_of_deltas_comes_back() {
    // (delta of deltas, bits of its field)
    let cases: [(i64, usize); 17] = [
        (0, 1),
        (1, 9),
        (-1, 9),
        (63, 9),
        (-63, 9),
        (64, 9),
        (-64, 12),
        (255, 12),
        (-255, 12),
        (256, 12),
        (-256, 16),
        (2047, 16),
        (-2047, 16),
        (2048, 16),
        (-2048, 36),
        (2049, 36),
        (-3000, 36),
    ];
    for &(dod, width) in cases.iter() {
        let mut writer = GorillaWriter::with_vec(100);
        writer.append_first(Entry::new(3100, 7)).unwrap();
        let before = writer.body.length();
        writer.append_time(3100 + 3000 + dod).unwrap();
        assert_eq!(writer.body.length() - before, width, "width of {}", dod);
        // a second timestamp after it, to see that the gap was decoded too
        writer.append_time(3100 + 3000 + dod + 10).unwrap();
        let mut reader = GorillaReader::from_writer(writer).unwrap();
        assert_eq!(reader.next().time, 3100);
        assert_eq!(reader.get_next_time().unwrap(), 3100 + 3000 + dod);
        assert_eq!(reader.get_next_time().unwrap(), 3100 + 3000 + dod + 10);
    }
}

#[test]
fn samples_at_even_distances_come_back() {
    let mut samples = Vec::new();
    for i in 0..20 {
        samples.push(entry(1_600_000_000 + 60 * i, &[i as f64, 0.5, -3.25 * i as f64]));
    }
    let block = compress_values(samples.clone(), 1_600_000_000, 3).unwrap();
    let out = retrieve_values(block, 3, samples.len()).unwrap();
    assert!(same(&out, &samples));
}

#[test]
fn a_block_comes_back_through_its_wire_form() {
    let samples = vec![
        entry(-50, &[1.0, 2.0]),
        entry(-50, &[1.0, -2.0]),
        entry(16334, &[f64::INFINITY, 1024.0]),
        entry(16335, &[f64::NEG_INFINITY, 0.0]),
        entry(20000, &[-123456.789, -0.0]),
    ];
    // -0.0 against 0.0 differs in the highest bit alone
    let block = compress_values(samples.clone(), -100, 2).unwrap();
    let wire = block.to_string();
    let out = retrieve_values(GorillaBlock::new(&wire), 2, samples.len()).unwrap();
    assert!(same(&out, &samples));
}

#[test]
fn an_empty_series_is_a_header() {
    let block = compress_values(Vec::new(), 77, 4).unwrap();
    assert_eq!(block.data.length(), 64);
    assert!(retrieve_values(block, 4, 0).unwrap().is_empty());
}

#[test]
fn asking_for_more_samples_than_a_block_holds_fails() {
    let samples = vec![entry(10, &[1.0]), entry(20, &[2.0])];
    let block = compress_values(samples, 0, 1).unwrap();
    assert!(matches!(retrieve_values(block, 1, 40), Err(Error::BitReaderError(_))));
}

#[test]
fn a_sample_out_of_order_is_refused() {
    let samples = vec![entry(10, &[1.0]), entry(9, &[2.0])];
    assert!(matches!(compress_values(samples, 0, 1), Err(Error::AppendOrderError)));
    let samples = vec![entry(-1, &[1.0])];
    assert!(matches!(compress_values(samples, 0, 1), Err(Error::AppendOrderError)));
}

#[test]
fn a_sample_too_far_away_is_refused() {
    let samples = vec![entry(16384, &[1.0]), entry(16384 + 16385, &[2.0])];
    assert!(matches!(compress_values(samples, 0, 1), Err(Error::AppendDurationError)));
    let samples = vec![entry(16384, &[1.0]), entry(16384 + 16384, &[2.0])];
    assert!(compress_values(samples, 0, 1).is_ok());
}

#[test]
fn a_sample_of_another_dimension_is_refused() {
    let samples = vec![entry(10, &[1.0, 2.0]), entry(20, &[2.0])];
    assert!(matches!(compress_values(samples, 0, 2), Err(Error::BadDimensionError)));
    let mut writer = GorillaWriterMV::with_vec(0, 2);
    assert!(matches!(writer.append_values(vec![1, 2, 3]), Err(Error::BadDimensionError)));
    assert!(matches!(writer.append_first(entry(5, &[1.0])), Err(Error::BadDimensionError)));
    // nothing was written
    assert_eq!(writer.body.length(), 64);
    assert_eq!(writer.dim(), 2);
}

#[test]
fn a_refused_timestamp_writes_nothing() {
    let mut writer = GorillaWriter::with_vec(1000);
    assert!(matches!(writer.append_time(999), Err(Error::AppendOrderError)));
    assert!(matches!(writer.append_time(1000 + 16385), Err(Error::AppendDurationError)));
    assert_eq!(writer.body.length(), 64);
    assert!(writer.append_time(1000 + 16384).is_ok());
}

#[test]
fn a_value_inside_the_window_keeps_the_window() {
    let mut writer = GorillaWriter::with_vec(0);
    writer.append_first(Entry::new(0, 12.0f64.to_bits())).unwrap();
    let start = writer.body.length();
    // 12 ^ 24 has 11 zero bits above and 52 below its single bit: a new window
    writer.append_value(24.0f64.to_bits()).unwrap();
    assert_eq!(writer.body.length() - start, 2 + 5 + 6 + 1);
    // 24 ^ 15 has 4 bits from the same place down: a new, wider window
    writer.append_value(15.0f64.to_bits()).unwrap();
    assert_eq!(writer.body.length() - start, 14 + 2 + 5 + 6 + 4);
    // 15 ^ 12 lies inside it: prefix and 4 bits
    writer.append_value(12.0f64.to_bits()).unwrap();
    assert_eq!(writer.body.length() - start, 14 + 17 + 2 + 4);
    // 12 ^ 14 lies inside it too: the window was kept
    writer.append_value(14.0f64.to_bits()).unwrap();
    assert_eq!(writer.body.length() - start, 14 + 17 + 6 + 2 + 4);
    // the same value again: one bit
    writer.append_value(14.0f64.to_bits()).unwrap();
    assert_eq!(writer.body.length() - start, 14 + 17 + 6 + 6 + 1);

    let mut reader = GorillaReader::from_writer(writer).unwrap();
    assert_eq!(reader.next().value, 12.0f64.to_bits());
    for expected in [24.0f64, 15.0, 12.0, 14.0, 14.0] {
        assert_eq!(f64::from_bits(reader.get_next_value().unwrap()), expected);
    }
}

#[test]
fn each_dimension_has_a_window_of_its_own() {
    let samples = vec![
        entry(1, &[12.0, 1000.5]),
        entry(2, &[24.0, 1000.5]),
        entry(3, &[15.0, 999.25]),
        entry(4, &[12.0, 1000.5]),
    ];
    let block = compress_values(samples.clone(), 0, 2).unwrap();
    let mut reader = GorillaReaderMV::from_block(block, 2).unwrap();
    for expected in samples.iter() {
        let got = reader.get_next_entry().unwrap();
        assert_eq!(got.time, expected.time);
        assert_eq!(got.values, expected.values);
        assert_eq!(got.time(), expected.time);
        assert_eq!(got.values(), expected.values);
    }
    assert_eq!(reader.get_reader().cursor(), reader.get_reader().length());
}

#[test]
fn a_window_with_more_than_31_zero_bits_above_it_is_not_recorded() {
    // the two values differ in their lowest bit alone: the window has 63
    // zero bits above it, and 63 does not fit the five bits of its field
    let first = 1.0f64.to_bits();
    let second = first + 1;
    let samples = vec![MVEntry::new(10, vec![first]), MVEntry::new(20, vec![second])];
    let block = compress_values(samples, 0, 1).unwrap();
    let out = retrieve_values(block, 1, 2).unwrap();
    assert_eq!(out[0].values, vec![first]);
    assert_eq!(out[1].values, vec![first ^ (1u64 << 32)]);
}

#[test]
fn a_window_of_all_64_bits_is_refused_by_the_reader() {
    // the XOR has its highest and its lowest bit set: a window of 64 bits,
    // and 64 does not fit the six bits of its field
    let samples = vec![MVEntry::new(10, vec![0x8000_0000_0000_0001])];
    let block = compress_values(samples, 0, 1).unwrap();
    assert!(matches!(retrieve_values(block, 1, 1), Err(Error::BitReaderError(_))));
}

#[test]
fn a_first_sample_at_the_longest_distance_loses_it() {
    // 16384 does not fit the 14 bits of the first distance
    let mut writer = GorillaWriter::with_vec(0);
    writer.append_first(Entry::new(16384, 1)).unwrap();
    let mut reader = GorillaReader::from_writer(writer).unwrap();
    assert_eq!(reader.next().time, 0);

    let mut writer = GorillaWriter::with_vec(0);
    writer.append_first(Entry::new(16383, 1)).unwrap();
    let mut reader = GorillaReader::from_writer(writer).unwrap();
    assert_eq!(reader.next().time, 16383);
}

#[test]
fn an_error_says_what_failed() {
    assert_eq!(Error::AppendOrderError.description(), "Append order error");
    assert_eq!(Error::AppendDurationError.description(), "Append excess duration");
    assert_eq!(Error::BadDimensionError.description(), "Bad Dimension error");
    assert_eq!(Error::BitReaderError("x").description(), "BitStreamReader error");
    assert_eq!(Error::AppendOrderError.to_string(), "Appending out of order item");
    assert_eq!(Error::AppendDurationError.to_string(), "Appending item with excessive duration");
    assert_eq!(Error::BadDimensionError.to_string(), "Entry dimension must match that of writer");
    assert_eq!(Error::BitReaderError("x").to_string(), "BitStreamReader error");
    let io = std::io::Error::new(std::io::ErrorKind::UnexpectedEof, "short");
    let e = Error::from(io);
    assert!(matches!(e, Error::BitStreamIOError(_)));
    assert_eq!(e.description(), "BitStream-IO error");
    assert_eq!(e.to_string(), "BitStream-IO Error");
}
