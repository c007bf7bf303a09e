use repeto::bucket::SliceCounter;
use repeto::record::{decode_record, encode_record, replay_log};
use repeto::score::Score;

const BASE: u32 = 340_822_086;

fn records() -> Vec<(u32, u8)> {
    vec![(BASE, 3), (BASE + 1, 1), (BASE + 9, 7), (BASE + 200, 2), (BASE + 201, 255)]
}

fn log_of(rs: &[(u32, u8)]) -> Vec<u8> {
    let mut bytes = Vec::new();
    for &(t, k) in rs {
        bytes.extend(encode_record(t, k));
    }
    bytes
}

fn summary(s: &Score) -> (u32, u64, u64, u64, u64, u64, u64, Vec<u64>, (u128, u128)) {
    (
        s.total_keypresses(),
        s.total_work(),
        s.micro_pause(),
        s.last_recovery_since(),
        s.needed_recovery(),
        s.lack_of_recovery(),
        s.day_start(),
        s.work_ranges(),
        s.past_hour_slices(),
    )
}

#[test]
fn record_bytes_are_big_endian() {
    assert_eq!(encode_record(0x01020304, 9), vec![1, 2, 3, 4, 9]);
    assert_eq!(encode_record(u32::MAX, 255), vec![255, 255, 255, 255, 255]);
    assert_eq!(decode_record(&[7, 1, 2, 3, 4, 5], 1), (0x01020304, 5));
}

#[test]
fn record_round_trip() {
    for &(t, k) in &[(0u32, 1u8), (1, 2), (255, 3), (256, 4), (65_536, 5), (BASE, 200)] {
        let bytes = encode_record(t, k);
        assert_eq!(decode_record(&bytes, 0), (t, k));
    }
}

#[test]
fn replay_equals_direct_appends() {
    let rs = records();
    let mut direct = Score::new();
    for &(t, k) in &rs {
        direct.append(t, k);
    }
    let mut replayed = Score::new();
    let valid = replay_log(&mut replayed, &log_of(&rs));
    assert_eq!(valid, 5 * rs.len());
    assert_eq!(summary(&replayed), summary(&direct));
}

#[test]
fn replay_of_empty_log() {
    let mut replayed = Score::new();
    assert_eq!(replay_log(&mut replayed, &[]), 0);
    assert_eq!(summary(&replayed), summary(&Score::new()));
}

#[test]
fn torn_write_is_ignored_and_overwritten() {
    let rs = records();
    let clean = log_of(&rs);
    let mut expected = Score::new();
    replay_log(&mut expected, &clean);
    for garbage in 1..=4usize {
        let mut file = clean.clone();
        file.extend(vec![0xAB; garbage]);
        let mut score = Score::new();
        let valid = replay_log(&mut score, &file);
        assert_eq!(valid, 5 * rs.len());
        assert_eq!(summary(&score), summary(&expected));
        file.truncate(valid);
        file.extend(encode_record(BASE + 300, 1));
        assert_eq!(file.len(), 5 * rs.len() + 5);
        let mut again = Score::new();
        assert_eq!(replay_log(&mut again, &file), file.len());
    }
}

#[test]
fn slice_counter_closes_slices() {
    let mut c = SliceCounter::new();
    assert_eq!(c.key_press(10), None);
    assert_eq!(c.key_press(10), None);
    assert_eq!(c.key_press(10), None);
    assert_eq!(c.key_press(12), Some((10, 3)));
    assert_eq!(c.key_press(13), Some((12, 1)));
}

#[test]
fn slice_counter_saturates() {
    let mut c = SliceCounter::new();
    for _ in 0..300 {
        assert_eq!(c.key_press(4), None);
    }
    assert_eq!(c.key_press(5), Some((4, 255)));
}
