use poise::serenity_prelude::Timestamp;
use std::str::FromStr;
use streak_codec::streak::{Key, Streak, StreakError};

fn record(time: i64, user: u64, channel: u64, guild: u64) -> Streak {
    Streak { time, user, channel, guild }
}

fn not_a_digit(key: Key, text: &str) -> StreakError {
    StreakError::ValueNotADigit { key, text: text.to_string() }
}

#[test]
fn decodes_the_canonical_line() {
    let line = "time_1685653778.user_160518747713437696.channel_158390767923101706.guild_116969616370040841";
    assert_eq!(
        Streak::decode(line),
        Ok(record(1685653778, 160518747713437696, 158390767923101706, 116969616370040841))
    );
}

#[test]
fn field_order_does_not_matter() {
    let a = Streak::decode("user_1.time_5.guild_2.channel_3");
    let b = Streak::decode("time_5.user_1.channel_3.guild_2");
    assert_eq!(a, b);
    assert_eq!(a, Ok(record(5, 1, 3, 2)));
}

#[test]
fn last_key_wins_on_duplicates() {
    let r = Streak::decode("time_1.time_2.user_9.channel_9.guild_9").unwrap();
    assert_eq!(r.time, 2);
    assert_eq!(r, record(2, 9, 9, 9));
}

#[test]
fn last_key_wins_even_when_the_earlier_value_is_bad() {
    assert_eq!(Streak::decode("user_x.time_1.user_7.channel_8.guild_9"), Ok(record(1, 7, 8, 9)));
}

#[test]
fn a_bad_last_value_is_not_saved_by_an_earlier_good_one() {
    assert_eq!(
        Streak::decode("user_7.time_1.user_x.channel_8.guild_9"),
        Err(not_a_digit(Key::User, "x"))
    );
}

#[test]
fn unknown_keys_are_ignored() {
    assert_eq!(Streak::decode("foo_bar.time_1.user_9.channel_9.guild_9"), Ok(record(1, 9, 9, 9)));
    assert_eq!(Streak::decode("time_1.user_9.foo_bar.channel_9.guild_9"), Ok(record(1, 9, 9, 9)));
    assert_eq!(Streak::decode("time_1.user_9.channel_9.guild_9.foo_bar"), Ok(record(1, 9, 9, 9)));
}

#[test]
fn keys_are_matched_whole_and_case_sensitive() {
    assert_eq!(Streak::decode("Time_1.user_9.channel_9.guild_9"), Err(StreakError::MissingTime));
    assert_eq!(Streak::decode("times_1.user_9.channel_9.guild_9"), Err(StreakError::MissingTime));
    assert_eq!(Streak::decode("tim_1.user_9.channel_9.guild_9"), Err(StreakError::MissingTime));
    assert_eq!(Streak::decode("_1.time_2.user_9.channel_9.guild_9"), Ok(record(2, 9, 9, 9)));
}

#[test]
fn a_missing_time_is_reported_as_such() {
    assert_eq!(Streak::decode("user_9.channel_9.guild_9"), Err(StreakError::MissingTime));
}

#[test]
fn each_missing_key_has_its_own_error() {
    assert_eq!(Streak::decode("time_1.channel_9.guild_9"), Err(StreakError::MissingUser));
    assert_eq!(Streak::decode("time_1.user_9.guild_9"), Err(StreakError::MissingChannel));
    assert_eq!(Streak::decode("time_1.user_9.channel_9"), Err(StreakError::MissingGuild));
}

#[test]
fn missing_keys_are_reported_in_the_order_of_the_keys() {
    assert_eq!(Streak::decode("foo_bar"), Err(StreakError::MissingTime));
    assert_eq!(Streak::decode("guild_1.time_1"), Err(StreakError::MissingUser));
    assert_eq!(Streak::decode("guild_1.time_1.user_1"), Err(StreakError::MissingChannel));
}

#[test]
fn a_time_that_is_no_number_is_rejected() {
    assert_eq!(
        Streak::decode("time_abc.user_1.channel_1.guild_1"),
        Err(not_a_digit(Key::Time, "abc"))
    );
}

#[test]
fn an_identifier_that_is_no_number_is_rejected() {
    assert_eq!(Streak::decode("time_1.user_u.channel_1.guild_1"), Err(not_a_digit(Key::User, "u")));
    assert_eq!(
        Streak::decode("time_1.user_1.channel_1c.guild_1"),
        Err(not_a_digit(Key::Channel, "1c"))
    );
    assert_eq!(Streak::decode("time_1.user_1.channel_1.guild_"), Err(not_a_digit(Key::Guild, "")));
}

#[test]
fn an_identifier_takes_digits_only() {
    assert_eq!(Streak::decode("time_1.user_-1.channel_1.guild_1"), Err(not_a_digit(Key::User, "-1")));
    assert_eq!(Streak::decode("time_1.user_+1.channel_1.guild_1"), Err(not_a_digit(Key::User, "+1")));
    assert_eq!(Streak::decode("time_1.user_ 1.channel_1.guild_1"), Err(not_a_digit(Key::User, " 1")));
    assert_eq!(Streak::decode("time_1.user_1 .channel_1.guild_1"), Err(not_a_digit(Key::User, "1 ")));
    assert_eq!(
        Streak::decode("time_1.user_\u{661}.channel_1.guild_1"),
        Err(not_a_digit(Key::User, "\u{661}"))
    );
}

#[test]
fn an_identifier_fills_sixty_four_bits() {
    assert_eq!(
        Streak::decode("time_1.user_18446744073709551615.channel_0.guild_007"),
        Ok(record(1, u64::MAX, 0, 7))
    );
    assert_eq!(
        Streak::decode("time_1.user_18446744073709551616.channel_0.guild_0"),
        Err(not_a_digit(Key::User, "18446744073709551616"))
    );
}

#[test]
fn a_time_may_carry_a_sign() {
    assert_eq!(Streak::decode("time_-5.user_1.channel_2.guild_3"), Ok(record(-5, 1, 2, 3)));
    assert_eq!(Streak::decode("time_+5.user_1.channel_2.guild_3"), Ok(record(5, 1, 2, 3)));
    assert_eq!(Streak::decode("time_-.user_1.channel_2.guild_3"), Err(not_a_digit(Key::Time, "-")));
    assert_eq!(
        Streak::decode("time_9223372036854775808.user_1.channel_2.guild_3"),
        Err(not_a_digit(Key::Time, "9223372036854775808"))
    );
}

#[test]
fn a_value_may_hold_underscores() {
    assert_eq!(
        Streak::decode("time_1_2.user_1.channel_1.guild_1"),
        Err(not_a_digit(Key::Time, "1_2"))
    );
    assert_eq!(Streak::decode("foo_a_b_.time_1.user_2.channel_3.guild_4"), Ok(record(1, 2, 3, 4)));
}

#[test]
fn a_field_without_separator_fails_the_line() {
    assert_eq!(Streak::decode("time_1.user.channel_1.guild_1"), Err(StreakError::Decode));
    assert_eq!(Streak::decode("time_1.user_1.channel_1.guild_1.junk"), Err(StreakError::Decode));
    assert_eq!(Streak::decode("time_1.user_1.channel_1.guild_1."), Err(StreakError::Decode));
    assert_eq!(Streak::decode(".time_1.user_1.channel_1.guild_1"), Err(StreakError::Decode));
    assert_eq!(Streak::decode("time_1..user_1.channel_1.guild_1"), Err(StreakError::Decode));
    assert_eq!(Streak::decode(""), Err(StreakError::Decode));
}

#[test]
fn a_field_without_separator_comes_before_every_other_failure() {
    assert_eq!(Streak::decode("time_abc.junk"), Err(StreakError::Decode));
    assert_eq!(Streak::decode("junk.user_1"), Err(StreakError::Decode));
}

#[test]
fn a_key_is_checked_fully_before_the_next_one() {
    assert_eq!(Streak::decode("time_abc"), Err(not_a_digit(Key::Time, "abc")));
    assert_eq!(
        Streak::decode("time_9223372036854775807"),
        Err(StreakError::InvalidTimestamp(i64::MAX))
    );
    assert_eq!(Streak::decode("time_1.user_x"), Err(not_a_digit(Key::User, "x")));
    assert_eq!(Streak::decode("time_1.user_1.guild_x"), Err(StreakError::MissingChannel));
}

#[test]
fn a_time_out_of_range_is_an_invalid_timestamp() {
    assert_eq!(
        Streak::decode("time_9223372036854775807.user_1.channel_1.guild_1"),
        Err(StreakError::InvalidTimestamp(i64::MAX))
    );
    assert_eq!(
        Streak::decode("time_-9223372036854775808.user_1.channel_1.guild_1"),
        Err(StreakError::InvalidTimestamp(i64::MIN))
    );
}

#[test]
fn the_bound_on_time_is_that_of_the_discord_model() {
    let probes: [i64; 12] = [
        i64::MIN,
        -8_400_000_000_000,
        -8_200_000_000_000,
        -62_135_596_800,
        -1,
        0,
        1685653778,
        253_402_300_799,
        253_402_300_800,
        8_200_000_000_000,
        8_400_000_000_000,
        i64::MAX,
    ];
    for secs in probes {
        let line = format!("time_{}.user_1.channel_2.guild_3", secs);
        match Timestamp::from_unix_timestamp(secs) {
            Ok(stamp) => {
                assert_eq!(Streak::decode(&line), Ok(record(secs, 1, 2, 3)));
                assert_eq!(stamp.unix_timestamp(), secs);
            }
            Err(_) => assert_eq!(Streak::decode(&line), Err(StreakError::InvalidTimestamp(secs))),
        }
    }
}

#[test]
fn a_time_far_from_the_epoch_is_still_a_timestamp() {
    assert_eq!(Streak::new(253_402_300_800, 1, 2, 3), Ok(record(253_402_300_800, 1, 2, 3)));
    assert_eq!(Streak::new(-62_167_219_201, 1, 2, 3), Ok(record(-62_167_219_201, 1, 2, 3)));
    assert_eq!(
        Streak::decode("time_8000000000000.user_1.channel_2.guild_3"),
        Ok(record(8_000_000_000_000, 1, 2, 3))
    );
    assert_eq!(
        Streak::decode("time_9000000000000.user_1.channel_2.guild_3"),
        Err(StreakError::InvalidTimestamp(9_000_000_000_000))
    );
}

#[test]
fn decode_given_takes_the_callers_word_on_the_time() {
    let line = "time_5.user_1.channel_3.guild_2";
    assert_eq!(Streak::decode_given(line, true), Ok(record(5, 1, 3, 2)));
    assert_eq!(Streak::decode_given(line, false), Err(StreakError::InvalidTimestamp(5)));
    let far = "time_9223372036854775807.user_1.channel_3.guild_2";
    assert_eq!(Streak::decode_given(far, true), Ok(record(i64::MAX, 1, 3, 2)));
    assert_eq!(Streak::decode_given(far, false), Err(StreakError::InvalidTimestamp(i64::MAX)));
}

#[test]
fn decode_given_fails_as_decode_does_before_the_time_is_judged() {
    assert_eq!(Streak::decode_given("junk", true), Err(StreakError::Decode));
    assert_eq!(Streak::decode_given("user_1", true), Err(StreakError::MissingTime));
    assert_eq!(Streak::decode_given("time_x", false), Err(not_a_digit(Key::Time, "x")));
    assert_eq!(Streak::decode_given("time_1", true), Err(StreakError::MissingUser));
    assert_eq!(Streak::decode_given("time_1", false), Err(StreakError::InvalidTimestamp(1)));
}

#[test]
fn text_outside_ascii_is_carried_through() {
    assert_eq!(
        Streak::decode("caf\u{e9}_\u{1f600}.time_1.user_2.channel_3.guild_4"),
        Ok(record(1, 2, 3, 4))
    );
    assert_eq!(
        Streak::decode("time_1.user_2.channel_\u{e9}3.guild_4"),
        Err(not_a_digit(Key::Channel, "\u{e9}3"))
    );
}

#[test]
fn encodes_fields_in_canonical_order() {
    let r = record(1685653778, 160518747713437696, 158390767923101706, 116969616370040841);
    assert_eq!(
        r.encode(),
        "time_1685653778.user_160518747713437696.channel_158390767923101706.guild_116969616370040841"
    );
    assert_eq!(record(-5, 0, 10, 18446744073709551615).encode(), "time_-5.user_0.channel_10.guild_18446744073709551615");
    assert_eq!(
        record(i64::MIN, 1, 2, 3).encode(),
        "time_-9223372036854775808.user_1.channel_2.guild_3"
    );
}

#[test]
fn decode_gives_back_what_encode_wrote() {
    let records = [
        record(0, 0, 0, 0),
        record(1685653778, 160518747713437696, 158390767923101706, 116969616370040841),
        record(-1, u64::MAX, 1, 10),
        record(253_402_300_799, 9, 99, 999),
    ];
    for r in records {
        assert_eq!(Streak::decode(&r.encode()), Ok(r));
    }
    let far = record(i64::MAX, 1, 2, 3);
    assert_eq!(Streak::decode(&far.encode()), Err(StreakError::InvalidTimestamp(i64::MAX)));
    assert_eq!(Streak::decode_given(&far.encode(), true), Ok(far));
}

#[test]
fn new_checks_the_time() {
    assert_eq!(Streak::new(1685653778, 1, 2, 3), Ok(record(1685653778, 1, 2, 3)));
    assert_eq!(Streak::new(i64::MAX, 1, 2, 3), Err(StreakError::InvalidTimestamp(i64::MAX)));
    assert_eq!(Streak::new(i64::MIN, 1, 2, 3), Err(StreakError::InvalidTimestamp(i64::MIN)));
}

#[test]
fn a_record_parses_from_a_str() {
    let r: Result<Streak, StreakError> = "time_5.user_1.channel_3.guild_2".parse();
    assert_eq!(r, Ok(record(5, 1, 3, 2)));
    assert_eq!(Streak::from_str("time_5"), Err(StreakError::MissingUser));
}
