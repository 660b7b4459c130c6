use kx_gateway::clock::{fire_key, millis_i64, millis_u64, next_watermark, now_ms, now_unix_ms, CRON_BACKOFF_MS, cron_fire, cron_submit};

#[test]
fn the_fire_key_binds_the_trigger_and_its_tick() {
    assert_eq!(fire_key("nightly", 1700000000000), "cron:nightly:1700000000000");
}

#[test]
fn an_invalid_schedule_backs_off_an_hour_saturating() {
    assert_eq!(next_watermark(Some(42), 7), 42);
    assert_eq!(next_watermark(None, 1000), 1000 + CRON_BACKOFF_MS);
    assert_eq!(next_watermark(None, u64::MAX - 5), u64::MAX);
}

#[test]
fn millis_saturate_and_a_pre_epoch_clock_reads_zero() {
    assert_eq!(millis_u64(None), 0);
    assert_eq!(millis_u64(Some(u128::MAX)), u64::MAX);
    assert_eq!(millis_i64(Some(5)), 5);
    assert_eq!(millis_i64(Some(u128::from(u64::MAX))), i64::MAX);
}

#[test]
fn the_wall_clock_is_after_2020() {
    assert!(now_unix_ms() > 1_577_836_800_000);
    assert!(now_ms() > 1_577_836_800_000);
}

#[test]
fn a_fire_is_submitted_only_after_its_watermark_is_stored() {
    let fire = cron_fire("nightly", 1_000, Some(2_000), 1_500);
    assert_eq!(fire.watermark, 2_000);
    assert_eq!(fire.key, "cron:nightly:1000");
    assert_eq!(cron_submit(fire, true), Some("cron:nightly:1000".to_string()));
    let broken = cron_fire("nightly", 1_000, None, 1_500);
    assert_eq!(broken.watermark, 1_500 + 3_600_000, "an unparseable schedule backs off an hour");
    assert_eq!(cron_submit(broken, false), None, "no guard stored, no fire");
}
