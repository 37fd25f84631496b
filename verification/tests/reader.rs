use chrono::Duration;
use rustydb::gorilla::{Entry, GorillaDateTime, GorillaReader, GorillaWriter, EPOCH};

fn minutes(n: i64) -> i64 {
    Duration::minutes(n).num_seconds()
}

fn setup_writer() -> GorillaWriter {
    let mut block = GorillaWriter::with_vec(EPOCH);

    // make first delta 50 minutes (delta of 3000 seconds)
    let ts = EPOCH + minutes(50);
    let value: f64 = 12.0;
    let entry = Entry::new(ts, value.to_bits());

    // append first entry
    assert!(block.append_first(entry).is_ok());
    block
}

fn setup(dur: i64) -> GorillaReader {
    let mut writer = setup_writer();
    let exp = Entry { time: EPOCH + minutes(50) + Duration::seconds(dur).num_seconds(), value: 12.0f64.to_bits() };
    assert!(writer.append_entry(exp).is_ok());
    let mut reader = GorillaReader::from_writer(writer).unwrap();
    assert!(reader.next().time == EPOCH + minutes(50));
    reader
}

fn exp_dt(x: i64) -> GorillaDateTime {
    EPOCH + minutes(50) + Duration::seconds(x).num_seconds()
}

#[test]
fn reader_get_first() {
    let mut reader = GorillaReader::from_writer(setup_writer()).unwrap();
    let exp = Entry { time: EPOCH + minutes(50), value: 12.0f64.to_bits() };

    let res = reader.next();

    assert!(exp.time == res.time);
    assert!(f64::from_bits(exp.value) == f64::from_bits(res.value));
}

// Tests when delta of delta is zero
#[test]
fn reader_get_time_zero() {
    let mut writer = setup_writer();
    let exp = Entry { time: EPOCH + minutes(100), value: 12.0f64.to_bits() };
    assert!(writer.append_entry(exp).is_ok());
    let mut reader = GorillaReader::from_writer(writer).unwrap();
    assert!(reader.next().time == EPOCH + minutes(50));
    assert!(reader.get_next_time().unwrap() == EPOCH + minutes(100));
}

#[test]
fn reader_get_time() {
    // delta of delta = 0
    let mut reader = setup(3000);
    assert!(reader.get_next_time().unwrap() == exp_dt(3000));

    // 7 bits
    let mut reader = setup(2937);
    assert!(reader.get_next_time().unwrap() == exp_dt(2937));

    let mut reader = setup(3064);
    assert!(reader.get_next_time().unwrap() == exp_dt(3064));

    // 9 bits
    let mut reader = setup(2745);
    assert!(reader.get_next_time().unwrap() == exp_dt(2745));

    let mut reader = setup(3256);
    assert!(reader.get_next_time().unwrap() == exp_dt(3256));

    // 12 bits
    let mut reader = setup(953);
    assert!(reader.get_next_time().unwrap() == exp_dt(953));

    let mut reader = setup(5048);
    assert!(reader.get_next_time().unwrap() == exp_dt(5048));

    // 32 bits
    let mut reader = setup(952);
    assert!(reader.get_next_time().unwrap() == exp_dt(952));

    let mut reader = setup(5049);
    assert!(reader.get_next_time().unwrap() == exp_dt(5049));
}

#[test]
fn reader_get_value() {
    // when the value is the same
    {
        let mut writer = setup_writer();
        let exp = Entry { time: EPOCH + minutes(50) + Duration::seconds(2937).num_seconds(), value: 12.0f64.to_bits() };
        assert!(writer.append_entry(exp).is_ok());
        let mut reader = GorillaReader::from_writer(writer).unwrap();
        let first_entry = reader.next();
        assert!(first_entry.time == EPOCH + minutes(50));
        assert!(f64::from_bits(first_entry.value) == 12.0);

        // next time and next value are the thing we appended
        assert!(reader.get_next_time().unwrap() == exp.time);
        assert!(f64::from_bits(reader.get_next_value().unwrap()) == 12.0);
    }

    // try when the values are all over the place
    {
        let mut writer = setup_writer();
        assert!(writer.append_value(24.0f64.to_bits()).is_ok());
        assert!(writer.append_value(15.0f64.to_bits()).is_ok());
        assert!(writer.append_value(12.0f64.to_bits()).is_ok());
        let mut reader = GorillaReader::from_writer(writer).unwrap();
        let first_entry = reader.next();
        assert!(first_entry.time == EPOCH + minutes(50));
        assert!(f64::from_bits(first_entry.value) == 12.0);
        assert!(f64::from_bits(reader.get_next_value().unwrap()) == 24.0);
        assert!(f64::from_bits(reader.get_next_value().unwrap()) == 15.0);
        assert!(f64::from_bits(reader.get_next_value().unwrap()) == 12.0);
    }
}
