use repeto::score::{duration_multiplier_halves, Score};

fn sequence(score: &mut Score, slices: &[u32]) {
    for &t in slices {
        score.append_on_day(t, 1, 0);
    }
}

#[test]
fn three_slices_then_rest() {
    let mut score = Score::new();
    sequence(&mut score, &[1, 2, 3]);
    assert_eq!(score.total_keypresses(), 3);
    assert_eq!(score.total_work(), 15);
    assert_eq!(score.micro_pause(), 0);
    assert_eq!(score.needed_recovery(), 0);
    assert_eq!(score.lack_of_recovery(), 0);
    assert_eq!(score.work_ranges(), vec![15]);
    assert_eq!(score.last_recovery_since(), 10);

    score.append_on_day(70, 1, 0);
    assert_eq!(score.total_keypresses(), 4);
    assert_eq!(score.total_work(), 20);
    assert_eq!(score.needed_recovery(), 0);
    assert_eq!(score.last_recovery_since(), 0);
    assert_eq!(score.work_ranges(), vec![15, 330, 5]);
    assert_eq!(score.past_hour_slices(), (0, 4));
}

#[test]
fn recovery_debt_counts_each_slice() {
    let mut score = Score::new();
    let slices: Vec<u32> = (1..=8).collect();
    sequence(&mut score, &slices);
    // a debt of eight slices takes 8 / 4 slices of rest: ten seconds
    assert_eq!(score.needed_recovery(), 10);
}

#[test]
fn recovery_debt_saturates_at_zero() {
    let mut score = Score::new();
    let slices: Vec<u32> = (1..=100).collect();
    sequence(&mut score, &slices);
    assert_eq!(score.needed_recovery(), 125);
    // a gap of 61 slices pays back 244 slices of debt, more than the 100 owed
    score.append_on_day(162, 1, 0);
    assert_eq!(score.needed_recovery(), 0);
    assert_eq!(score.last_recovery_since(), 0);
    assert_eq!(score.work_ranges(), vec![500, 305, 5]);
}

#[test]
fn partial_rest_reduces_debt() {
    let mut score = Score::new();
    let slices: Vec<u32> = (1..=400).collect();
    sequence(&mut score, &slices);
    // gap of 60 slices: 400 - 240 = 160, plus the new slice
    score.append_on_day(461, 1, 0);
    assert_eq!(score.needed_recovery(), 161 / 4 * 5);
}

#[test]
fn micro_pause_is_counted_apart() {
    let mut score = Score::new();
    sequence(&mut score, &[1, 10]);
    assert_eq!(score.micro_pause(), 40);
    assert_eq!(score.total_work(), 50);
    assert_eq!(score.past_hour_slices(), (8, 2));
    assert_eq!(score.work_ranges(), vec![10]);
}

#[test]
fn short_gap_counts_as_work() {
    let mut score = Score::new();
    sequence(&mut score, &[1, 4]);
    assert_eq!(score.micro_pause(), 0);
    assert_eq!(score.total_work(), 20);
}

#[test]
fn day_change_resets_everything() {
    let mut score = Score::new();
    score.append_on_day(100, 5, 1);
    score.append_on_day(101, 6, 1);
    score.append_on_day(200, 7, 2);
    assert_eq!(score.total_keypresses(), 7);
    assert_eq!(score.total_work(), 5);
    assert_eq!(score.day_start(), 1000);
    assert_eq!(score.work_ranges(), vec![5]);
    assert_eq!(score.past_hour_slices(), (0, 1));
}

#[test]
fn zero_keypresses_change_nothing() {
    let mut score = Score::new();
    sequence(&mut score, &[1, 2]);
    score.append_on_day(50, 0, 0);
    score.append(60, 0);
    assert_eq!(score.total_keypresses(), 2);
    assert_eq!(score.total_work(), 10);
    assert_eq!(score.work_ranges(), vec![10]);
    assert_eq!(score.last_recovery_since(), 5);
}

#[test]
fn trailing_hour_keeps_one_hour() {
    let mut score = Score::new();
    let slices: Vec<u32> = (1..=800).collect();
    sequence(&mut score, &slices);
    assert_eq!(score.past_hour_slices(), (0, 721));
    assert_eq!(score.total_work(), 4000);
}

#[test]
fn lack_of_recovery_after_one_hour() {
    let mut score = Score::new();
    let slices: Vec<u32> = (1..=722).collect();
    sequence(&mut score, &slices);
    assert_eq!(score.lack_of_recovery(), 15);
}

#[test]
fn duration_multiplier_steps() {
    assert_eq!(duration_multiplier_halves(0), 4);
    assert_eq!(duration_multiplier_halves(2160), 4);
    assert_eq!(duration_multiplier_halves(2161), 3);
    assert_eq!(duration_multiplier_halves(2880), 3);
    assert_eq!(duration_multiplier_halves(2881), 2);
    assert_eq!(duration_multiplier_halves(5760), 2);
    assert_eq!(duration_multiplier_halves(5761), 1);
}

// 2024-01-01 12:00:30 UTC, in slices; local time keeps its seconds, so the next slice
// stays on the same local date whatever the time zone
const NOON: u32 = 340_822_086;
// two days later
const NOON_PLUS_TWO_DAYS: u32 = NOON + 2 * 17_280;

#[test]
fn local_dates_decide_the_day() {
    let mut score = Score::new();
    score.append(NOON, 9);
    score.append(NOON + 1, 4);
    assert_eq!(score.total_keypresses(), 13);
    assert_eq!(score.day_start(), NOON as u64 * 5);
    score.append(NOON_PLUS_TWO_DAYS, 3);
    assert_eq!(score.total_keypresses(), 3);
    assert_eq!(score.day_start(), NOON_PLUS_TWO_DAYS as u64 * 5);
}
