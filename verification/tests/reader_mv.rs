use chrono::Duration;
use rustydb::gorilla::{GorillaDateTime, GorillaReaderMV, GorillaWriterMV, MVEntry, EPOCH};

fn minutes(n: i64) -> i64 {
    Duration::minutes(n).num_seconds()
}

fn bits(v: &[f64]) -> Vec<u64> {
    v.iter().map(|x| x.to_bits()).collect()
}

fn floats(v: &[u64]) -> Vec<f64> {
    v.iter().map(|x| f64::from_bits(*x)).collect()
}

fn is_all_same(v1: &Vec<f64>, v2: &Vec<f64>) -> bool {
    if v1.len() != v2.len() {
        return false;
    }
    for i in 0..v1.len() {
        if v1[i] != v2[i] {
            return false;
        }
    }
    true
}

fn one_to_ten() -> Vec<f64> {
    vec![1.0, 2.0, 3.0, 4.0, 5.0, 6.0, 7.0, 8.0, 9.0, 10.0]
}

fn setup_writer() -> GorillaWriterMV {
    let mut block = GorillaWriterMV::with_vec(EPOCH, 10);

    // make first delta 50 minutes (delta of 3000 seconds)
    let ts = EPOCH + minutes(50);
    let values: Vec<f64> = vec![1.0, 2.0, 3.0, 4.0, 5.0, 6.0, 7.0, 8.0, 9.0, 10.0];
    let entry = MVEntry::new(ts, bits(&values));

    // append first entry
    assert!(block.append_first(entry).is_ok());
    block
}

fn setup(dur: i64) -> GorillaReaderMV {
    let mut writer = setup_writer();
    let exp = MVEntry {
        time: EPOCH + minutes(50) + Duration::seconds(dur).num_seconds(),
        values: bits(&one_to_ten()),
    };
    assert!(writer.append_entry(exp).is_ok());
    let mut reader = GorillaReaderMV::from_writer(writer).unwrap();
    assert!(reader.next().time == EPOCH + minutes(50));
    reader
}

fn exp_dt(x: i64) -> GorillaDateTime {
    EPOCH + minutes(50) + Duration::seconds(x).num_seconds()
}

#[test]
fn reader_mv_get_first() {
    let mut reader = GorillaReaderMV::from_writer(setup_writer()).unwrap();
    let exp = MVEntry { time: EPOCH + minutes(50), values: bits(&one_to_ten()) };

    let res = reader.next();

    assert!(exp.time == res.time);
    assert!(exp.values.len() == res.values.len());
    assert!(is_all_same(&floats(&exp.values), &floats(&res.values)))
}

#[test]
fn reader_mv_get_time_zero() {
    let mut writer = setup_writer();
    let exp = MVEntry { time: EPOCH + minutes(100), values: bits(&one_to_ten()) };
    assert!(writer.append_entry(exp).is_ok());
    let mut reader = GorillaReaderMV::from_writer(writer).unwrap();
    assert!(reader.next().time == EPOCH + minutes(50));
    assert!(reader.get_next_time().unwrap() == EPOCH + minutes(100));
}

#[test]
fn reader_mv_get_time() {
    // delta of delta = 0
    let mut reader = setup(3000);
    assert!(reader.get_next_time().unwrap() == exp_dt(3000));

    // 7 bits
    let mut reader = setup(2937);
    assert!(reader.get_next_time().unwrap() == exp_dt(2937));

    let mut reader = setup(3064);
    assert!(reader.get_next_time().unwrap() == exp_dt(3064));

    // 9 bits
    let mut reader = setup(2745);
    assert!(reader.get_next_time().unwrap() == exp_dt(2745));

    let mut reader = setup(3256);
    assert!(reader.get_next_time().unwrap() == exp_dt(3256));

    // 12 bits
    let mut reader = setup(953);
    assert!(reader.get_next_time().unwrap() == exp_dt(953));

    let mut reader = setup(5048);
    assert!(reader.get_next_time().unwrap() == exp_dt(5048));

    // 32 bits
    let mut reader = setup(952);
    assert!(reader.get_next_time().unwrap() == exp_dt(952));

    let mut reader = setup(5049);
    assert!(reader.get_next_time().unwrap() == exp_dt(5049));
}

#[test]
fn reader_mv_get_value() {
    // when the value is the same
    {
        let mut writer = setup_writer();
        let exp = MVEntry {
            time: EPOCH + minutes(50) + Duration::seconds(2937).num_seconds(),
            values: bits(&one_to_ten()),
        };
        let time = exp.time;
        assert!(writer.append_entry(exp).is_ok());
        let mut reader = GorillaReaderMV::from_writer(writer).unwrap();
        let first_entry = reader.next();
        assert!(first_entry.time == EPOCH + minutes(50));
        assert!(is_all_same(&floats(&first_entry.values), &one_to_ten()));
        // next time and next value are the thing we appended
        assert!(reader.get_next_time().unwrap() == time);
        assert!(is_all_same(&floats(&reader.get_next_values().unwrap()), &one_to_ten()));
    }

    // try when the values are all over the place
    {
        let mut writer = setup_writer();
        assert!(writer
            .append_values(bits(&[24.0, 25.0, 26.0, 27.0, 28.0, 29.0, 30.0, 31.0, 32.0, 33.0]))
            .is_ok());
        assert!(writer
            .append_values(bits(&[15.0, 16.0, 17.0, 18.0, 19.0, 20.0, 21.0, 22.0, 23.0, 24.0]))
            .is_ok());
        assert!(writer.append_values(bits(&one_to_ten())).is_ok());

        let mut reader = GorillaReaderMV::from_writer(writer).unwrap();
        let first_entry = reader.next();
        assert!(first_entry.time == EPOCH + minutes(50));
        assert!(is_all_same(&floats(&first_entry.values), &one_to_ten()));
        assert!(is_all_same(
            &floats(&reader.get_next_values().unwrap()),
            &vec![24.0, 25.0, 26.0, 27.0, 28.0, 29.0, 30.0, 31.0, 32.0, 33.0]
        ));
        assert!(is_all_same(
            &floats(&reader.get_next_values().unwrap()),
            &vec![15.0, 16.0, 17.0, 18.0, 19.0, 20.0, 21.0, 22.0, 23.0, 24.0]
        ));
        assert!(is_all_same(&floats(&first_entry.values), &one_to_ten()));
    }
}

#[test]
fn get_entry() {
    let mut writer = setup_writer();
    let exp1 = MVEntry {
        time: EPOCH + minutes(50) + Duration::seconds(2937).num_seconds(),
        values: bits(&[4.0, 5.0, 6.0, 7.0, 8.0, 9.0, 10.0, 11.0, 12.0, 13.0]),
    };
    let time1 = exp1.time;
    let values1 = exp1.values.clone();
    let exp2 = MVEntry {
        time: EPOCH + minutes(50) + Duration::seconds(2937).num_seconds(),
        values: bits(&[14.0, 15.0, 16.0, 17.0, 18.0, 19.0, 20.0, 21.0, 22.0, 23.0]),
    };
    let time2 = exp2.time;
    let values2 = exp2.values.clone();
    writer.append_entry(exp1).unwrap();
    writer.append_entry(exp2).unwrap();
    let mut reader = GorillaReaderMV::from_writer(writer).unwrap();
    let first_entry = reader.next();
    assert!(first_entry.time == EPOCH + minutes(50));
    assert!(is_all_same(&floats(&first_entry.values), &one_to_ten()));
    let entry1 = reader.get_next_entry().unwrap();
    assert!(entry1.time == time1);
    assert!(is_all_same(&floats(&entry1.values), &floats(&values1)));
    let entry2 = reader.get_next_entry().unwrap();
    assert!(entry2.time == time2);
    assert!(is_all_same(&floats(&entry2.values), &floats(&values2)));
}
