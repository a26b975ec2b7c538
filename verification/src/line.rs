//! Decoding one line out of a buffer of characters.
//!
//! The line is walked once.  Of each field only the place of its value is
//! kept, in one of four slots, so that a later field with the same key
//! takes the place of an earlier one.

use crate::decimal::{read_signed, read_unsigned};
use crate::streak::{
    decoded, decoded_given, fields, id_of, key_of, lemma_key_texts_differ, lemma_table_push,
    missing, outcome, table, time_of, value_of, well_formed, Key, Streak, StreakError,
    StreakErrorView,
};
use crate::text::{find, lemma_first_index_contains, split, string_of};
use crate::timestamp::checked_unix_timestamp;
use vstd::prelude::*;

verus! {

/// Where in a buffer the value of each key stands, for the keys met so far.
struct Slots {
    time: Option<(usize, usize)>,
    user: Option<(usize, usize)>,
    channel: Option<(usize, usize)>,
    guild: Option<(usize, usize)>,
}

impl Slots {
    /// The slot of `key`.
    spec fn at(self, key: Key) -> Option<(usize, usize)> {
        match key {
            Key::Time => self.time,
            Key::User => self.user,
            Key::Channel => self.channel,
            Key::Guild => self.guild,
        }
    }

    /// The slot of `key` is a range of `buf` that holds what `t` has for
    /// the key, or is empty where `t` has nothing.
    spec fn agrees_at(self, key: Key, buf: Seq<char>, t: Map<Seq<char>, Seq<char>>) -> bool {
        match self.at(key) {
            None => !t.dom().contains(key.text()),
            Some((a, b)) => {
                &&& a <= b <= buf.len()
                &&& t.dom().contains(key.text())
                &&& t[key.text()] == buf.subrange(a as int, b as int)
            },
        }
    }

    /// Every slot agrees with `t`.
    spec fn agrees(self, buf: Seq<char>, t: Map<Seq<char>, Seq<char>>) -> bool {
        forall|key: Key| self.agrees_at(key, buf, t)
    }
}

/// The key that `buf[from..to]` spells, if any.
fn key_at(buf: &Vec<char>, from: usize, to: usize) -> (r: Option<Key>)
    requires
        from <= to <= buf.len(),
    ensures
        r == Key::named(buf@.subrange(from as int, to as int)),
{
    let ghost s = buf@.subrange(from as int, to as int);
    let n = to - from;
    if n == 4 && buf[from] == 't' && buf[from + 1] == 'i' && buf[from + 2] == 'm' && buf[from + 3]
        == 'e' {
        assert(s =~= Key::Time.text());
        Some(Key::Time)
    } else if n == 4 && buf[from] == 'u' && buf[from + 1] == 's' && buf[from + 2] == 'e' && buf[from
        + 3] == 'r' {
        assert(s =~= Key::User.text());
        proof {
            lemma_key_texts_differ();
        }
        Some(Key::User)
    } else if n == 7 && buf[from] == 'c' && buf[from + 1] == 'h' && buf[from + 2] == 'a' && buf[from
        + 3] == 'n' && buf[from + 4] == 'n' && buf[from + 5] == 'e' && buf[from + 6] == 'l' {
        assert(s =~= Key::Channel.text());
        proof {
            lemma_key_texts_differ();
        }
        Some(Key::Channel)
    } else if n == 5 && buf[from] == 'g' && buf[from + 1] == 'u' && buf[from + 2] == 'i' && buf[from
        + 3] == 'l' && buf[from + 4] == 'd' {
        assert(s =~= Key::Guild.text());
        proof {
            lemma_key_texts_differ();
        }
        Some(Key::Guild)
    } else {
        proof {
            let t = Key::Time.text();
            assert(t.len() == 4 && t[0] == 't' && t[1] == 'i' && t[2] == 'm' && t[3] == 'e');
            let u = Key::User.text();
            assert(u.len() == 4 && u[0] == 'u' && u[1] == 's' && u[2] == 'e' && u[3] == 'r');
            let c = Key::Channel.text();
            assert(c.len() == 7 && c[0] == 'c' && c[1] == 'h' && c[2] == 'a' && c[3] == 'n');
            assert(c[4] == 'n' && c[5] == 'e' && c[6] == 'l');
            let g = Key::Guild.text();
            assert(g.len() == 5 && g[0] == 'g' && g[1] == 'u' && g[2] == 'i' && g[3] == 'l');
            assert(g[4] == 'd');
            assert(n > 0 ==> s[0] == buf[from as int]);
            assert(n > 1 ==> s[1] == buf[from + 1]);
            assert(n > 2 ==> s[2] == buf[from + 2]);
            assert(n > 3 ==> s[3] == buf[from + 3]);
            assert(n > 4 ==> s[4] == buf[from + 4]);
            assert(n > 5 ==> s[5] == buf[from + 5]);
            assert(n > 6 ==> s[6] == buf[from + 6]);
        }
        None
    }
}

/// Walks the fields of the line `buf[from..to]` and notes where the value
/// of each key stands; `None` where a field has no `_`.
fn scan(buf: &Vec<char>, from: usize, to: usize) -> (r: Option<Slots>)
    requires
        from <= to <= buf.len(),
    ensures
        match r {
            Some(slots) => {
                &&& well_formed(fields(buf@.subrange(from as int, to as int)))
                &&& slots.agrees(buf@, table(fields(buf@.subrange(from as int, to as int))))
            },
            None => !well_formed(fields(buf@.subrange(from as int, to as int))),
        },
{
    let ghost line = buf@.subrange(from as int, to as int);
    let mut slots = Slots { time: None, user: None, channel: None, guild: None };
    let mut start: usize = from;
    let ghost mut done: Seq<Seq<char>> = Seq::empty();
    assert(fields(line) == done + split(buf@.subrange(start as int, to as int), '.'));
    loop
        invariant_except_break
            fields(line) == done + split(buf@.subrange(start as int, to as int), '.'),
        invariant
            from <= start <= to <= buf.len(),
            line == buf@.subrange(from as int, to as int),
            well_formed(done),
            slots.agrees(buf@, table(done)),
        ensures
            done == fields(line),
        decreases to - start,
    {
        let end = find(buf, start, to, '.');
        let sep = find(buf, start, end, '_');
        let ghost rest = buf@.subrange(start as int, to as int);
        let ghost field = buf@.subrange(start as int, end as int);
        proof {
            assert(rest.take(end - start) == field);
            if end < to {
                assert(rest.skip(end - start + 1) == buf@.subrange(end + 1, to as int));
                assert(split(rest, '.') == seq![field] + split(
                    buf@.subrange(end + 1, to as int),
                    '.',
                ));
            } else {
                assert(rest == field);
                assert(split(rest, '.') == seq![field]);
            }
            assert(fields(line)[done.len() as int] == field);
            lemma_first_index_contains(field, '_');
        }
        if sep == end {
            return None;
        }
        let key = key_at(buf, start, sep);
        let ghost before = slots;
        match key {
            Some(Key::Time) => {
                slots.time = Some((sep + 1, end));
            },
            Some(Key::User) => {
                slots.user = Some((sep + 1, end));
            },
            Some(Key::Channel) => {
                slots.channel = Some((sep + 1, end));
            },
            Some(Key::Guild) => {
                slots.guild = Some((sep + 1, end));
            },
            None => {},
        }
        proof {
            assert(key_of(field) == buf@.subrange(start as int, sep as int));
            assert(value_of(field) == buf@.subrange(sep + 1, end as int));
            lemma_table_push(done, field);
            lemma_key_texts_differ();
            let t = table(done);
            let t2 = table(done.push(field));
            assert forall|k: Key| slots.agrees_at(k, buf@, t2) by {
                assert(before.agrees_at(k, buf@, t));
                if key == Some(k) {
                    assert(k.text() == key_of(field));
                } else {
                    assert(k.text() != key_of(field));
                    assert(slots.at(k) == before.at(k));
                }
            }
            if end < to {
                assert(done + (seq![field] + split(buf@.subrange(end + 1, to as int), '.'))
                    == done.push(field) + split(buf@.subrange(end + 1, to as int), '.'));
            } else {
                assert(done + seq![field] == done.push(field));
            }
            done = done.push(field);
        }
        if end == to {
            break ;
        }
        start = end + 1;
    }
    Some(slots)
}

/// The error for a line that lacks `key`.
fn missing_error(key: Key) -> (e: StreakError)
    ensures
        e@ == missing(key),
{
    match key {
        Key::Time => StreakError::MissingTime,
        Key::User => StreakError::MissingUser,
        Key::Channel => StreakError::MissingChannel,
        Key::Guild => StreakError::MissingGuild,
    }
}

/// Reads the identifier of `key` from its slot.
fn id_in(buf: &Vec<char>, slots: &Slots, key: Key, Ghost(line): Ghost<Seq<char>>) -> (r: Result<
    u64,
    StreakError,
>)
    requires
        slots.agrees(buf@, table(fields(line))),
    ensures
        outcome(r) == id_of(line, key),
{
    assert(slots.agrees_at(key, buf@, table(fields(line))));
    let slot = match key {
        Key::Time => slots.time,
        Key::User => slots.user,
        Key::Channel => slots.channel,
        Key::Guild => slots.guild,
    };
    match slot {
        None => Err(missing_error(key)),
        Some((a, b)) => match read_unsigned(buf, a, b) {
            None => Err(StreakError::ValueNotADigit { key, text: string_of(buf, a, b) }),
            Some(id) => Ok(id),
        },
    }
}

/// Reads the seconds of a line whose fields all have a `_` from the slot
/// of the time.
fn time_in(buf: &Vec<char>, slots: &Slots, Ghost(line): Ghost<Seq<char>>) -> (r: Result<
    i64,
    StreakError,
>)
    requires
        well_formed(fields(line)),
        slots.agrees(buf@, table(fields(line))),
    ensures
        outcome(r) == time_of(line),
{
    assert(slots.agrees_at(Key::Time, buf@, table(fields(line))));
    match slots.time {
        None => Err(StreakError::MissingTime),
        Some((a, b)) => match read_signed(buf, a, b) {
            None => Err(StreakError::ValueNotADigit { key: Key::Time, text: string_of(buf, a, b) }),
            Some(secs) => Ok(secs),
        },
    }
}

/// Completes a record whose time was read as `time`: judges the time by
/// `time_ok`, then reads the three identifiers.
fn finish(
    buf: &Vec<char>,
    slots: &Slots,
    time: i64,
    time_ok: bool,
    Ghost(line): Ghost<Seq<char>>,
) -> (r: Result<Streak, StreakError>)
    requires
        slots.agrees(buf@, table(fields(line))),
        time_of(line) == Ok::<i64, StreakErrorView>(time),
    ensures
        outcome(r) == decoded_given(line, time_ok),
{
    if !time_ok {
        return Err(StreakError::InvalidTimestamp(time));
    }
    let user = match id_in(buf, slots, Key::User, Ghost(line)) {
        Ok(id) => id,
        Err(e) => {
            return Err(e);
        },
    };
    let channel = match id_in(buf, slots, Key::Channel, Ghost(line)) {
        Ok(id) => id,
        Err(e) => {
            return Err(e);
        },
    };
    let guild = match id_in(buf, slots, Key::Guild, Ghost(line)) {
        Ok(id) => id,
        Err(e) => {
            return Err(e);
        },
    };
    Ok(Streak { time, user, channel, guild })
}

/// Walks the line `buf[from..to]` and reads its time: the slots and the
/// seconds, or the first thing wrong with the line up to there.
fn open_line(buf: &Vec<char>, from: usize, to: usize) -> (r: Result<(Slots, i64), StreakError>)
    requires
        from <= to <= buf.len(),
    ensures
        match r {
            Ok((slots, time)) => {
                &&& slots.agrees(buf@, table(fields(buf@.subrange(from as int, to as int))))
                &&& time_of(buf@.subrange(from as int, to as int)) == Ok::<i64, StreakErrorView>(
                    time,
                )
            },
            Err(e) => time_of(buf@.subrange(from as int, to as int)) == Err::<i64, StreakErrorView>(
                e@,
            ),
        },
{
    let ghost line = buf@.subrange(from as int, to as int);
    match scan(buf, from, to) {
        None => Err(StreakError::Decode),
        Some(slots) => match time_in(buf, &slots, Ghost(line)) {
            Ok(time) => Ok((slots, time)),
            Err(e) => Err(e),
        },
    }
}

/// Decodes the line `buf[from..to]`.
pub(crate) fn decode_range(buf: &Vec<char>, from: usize, to: usize) -> (r: Result<
    Streak,
    StreakError,
>)
    requires
        from <= to <= buf.len(),
    ensures
        outcome(r) == decoded(buf@.subrange(from as int, to as int)),
        r matches Ok(record) ==> record.valid(),
{
    let ghost line = buf@.subrange(from as int, to as int);
    match open_line(buf, from, to) {
        Err(e) => Err(e),
        Ok((slots, secs)) => match checked_unix_timestamp(secs) {
            Ok(time) => finish(buf, &slots, time, true, Ghost(line)),
            Err(_) => finish(buf, &slots, secs, false, Ghost(line)),
        },
    }
}

/// Decodes the line `buf[from..to]` with the caller's word on its time.
pub(crate) fn decode_range_given(buf: &Vec<char>, from: usize, to: usize, time_ok: bool) -> (r:
    Result<Streak, StreakError>)
    requires
        from <= to <= buf.len(),
    ensures
        outcome(r) == decoded_given(buf@.subrange(from as int, to as int), time_ok),
{
    let ghost line = buf@.subrange(from as int, to as int);
    match open_line(buf, from, to) {
        Err(e) => Err(e),
        Ok((slots, time)) => finish(buf, &slots, time, time_ok, Ghost(line)),
    }
}

} // verus!
