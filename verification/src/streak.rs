//! Streak records and their text form.
//!
//! A record is one line: fields joined by `.`, each field a key and a value
//! joined by the first `_` in it.  The keys `time`, `user`, `channel` and
//! `guild` are required and may come in any order; other keys are passed
//! over, and of a key that comes twice the last value counts.

use crate::decimal::{
    decimal, parse_signed, parse_unsigned, signed_decimal, write_signed, write_unsigned,
};
use crate::line::{decode_range, decode_range_given};
use crate::text::{chars_of, find, first_index, lines, split, strip_cr};
use crate::timestamp::{checked_unix_timestamp, unix_timestamp_valid};
use vstd::prelude::*;

verus! {

/// The keys that a record is made of.
#[derive(Debug, Clone, Copy, PartialEq, Eq, Structural)]
pub enum Key {
    Time,
    User,
    Channel,
    Guild,
}

impl Key {
    /// The key as it is written in a field.
    pub open spec fn text(self) -> Seq<char> {
        match self {
            Key::Time => seq!['t', 'i', 'm', 'e'],
            Key::User => seq!['u', 's', 'e', 'r'],
            Key::Channel => seq!['c', 'h', 'a', 'n', 'n', 'e', 'l'],
            Key::Guild => seq!['g', 'u', 'i', 'l', 'd'],
        }
    }

    /// The key that `s` spells, if any.
    pub open spec fn named(s: Seq<char>) -> Option<Key> {
        if s == Key::Time.text() {
            Some(Key::Time)
        } else if s == Key::User.text() {
            Some(Key::User)
        } else if s == Key::Channel.text() {
            Some(Key::Channel)
        } else if s == Key::Guild.text() {
            Some(Key::Guild)
        } else {
            None
        }
    }
}

/// Why a line or a log could not be decoded.
#[derive(Debug, PartialEq, Eq)]
pub enum StreakError {
    /// A field has no `_` between key and value.
    Decode,
    /// The time value is a number, but no timestamp: it holds the number.
    InvalidTimestamp(i64),
    /// The value of `key` is not a number of the kind that the key asks
    /// for: `text` is the value as it stood in the line.
    ValueNotADigit { key: Key, text: String },
    /// No field has the key `time`.
    MissingTime,
    /// No field has the key `user`.
    MissingUser,
    /// No field has the key `channel`.
    MissingChannel,
    /// No field has the key `guild`.
    MissingGuild,
}

/// A [`StreakError`] as a mathematical value: the offending text is a
/// sequence of characters.
pub enum StreakErrorView {
    Decode,
    InvalidTimestamp(i64),
    ValueNotADigit { key: Key, text: Seq<char> },
    MissingTime,
    MissingUser,
    MissingChannel,
    MissingGuild,
}

impl View for StreakError {
    type V = StreakErrorView;

    open spec fn view(&self) -> StreakErrorView {
        match *self {
            StreakError::Decode => StreakErrorView::Decode,
            StreakError::InvalidTimestamp(secs) => StreakErrorView::InvalidTimestamp(secs),
            StreakError::ValueNotADigit { key, text } => StreakErrorView::ValueNotADigit {
                key,
                text: text@,
            },
            StreakError::MissingTime => StreakErrorView::MissingTime,
            StreakError::MissingUser => StreakErrorView::MissingUser,
            StreakError::MissingChannel => StreakErrorView::MissingChannel,
            StreakError::MissingGuild => StreakErrorView::MissingGuild,
        }
    }
}

/// The error for a line that lacks `key`.
pub open spec fn missing(key: Key) -> StreakErrorView {
    match key {
        Key::Time => StreakErrorView::MissingTime,
        Key::User => StreakErrorView::MissingUser,
        Key::Channel => StreakErrorView::MissingChannel,
        Key::Guild => StreakErrorView::MissingGuild,
    }
}

/// A result with its error, if any, taken as a mathematical value.
pub open spec fn outcome<T>(r: Result<T, StreakError>) -> Result<T, StreakErrorView> {
    match r {
        Ok(v) => Ok(v),
        Err(e) => Err(e@),
    }
}

/// One streak event: a user acted in a channel of a guild at a point in
/// time.
#[derive(Debug, Clone, Copy, PartialEq, Eq, Structural)]
pub struct Streak {
    /// When: seconds since the Unix epoch.
    pub time: i64,
    /// Who: the user's identifier.
    pub user: u64,
    /// Where: the channel's identifier.
    pub channel: u64,
    /// The identifier of the guild that the channel belongs to.
    pub guild: u64,
}

/// The fields of a line: its pieces between dots.
pub open spec fn fields(line: Seq<char>) -> Seq<Seq<char>> {
    split(line, '.')
}

/// Every field has a `_` that parts key from value.
pub open spec fn well_formed(fields: Seq<Seq<char>>) -> bool {
    forall|i: int| 0 <= i < fields.len() ==> (#[trigger] fields[i]).contains('_')
}

/// What stands before the first `_` of a field.
pub open spec fn key_of(field: Seq<char>) -> Seq<char> {
    field.take(first_index(field, '_'))
}

/// What stands after the first `_` of a field.
pub open spec fn value_of(field: Seq<char>) -> Seq<char> {
    field.skip(first_index(field, '_') + 1)
}

/// The lookup from key to value that the fields build when they are
/// entered one after the other: a later field replaces an earlier one with
/// the same key.
pub open spec fn table(fields: Seq<Seq<char>>) -> Map<Seq<char>, Seq<char>>
    decreases fields.len(),
{
    if fields.len() == 0 {
        Map::empty()
    } else {
        table(fields.drop_last()).insert(key_of(fields.last()), value_of(fields.last()))
    }
}

/// The value that a line gives to `key`, if it has a field with that key.
pub open spec fn lookup(line: Seq<char>, key: Key) -> Option<Seq<char>> {
    let t = table(fields(line));
    if t.dom().contains(key.text()) {
        Some(t[key.text()])
    } else {
        None
    }
}

/// The identifier that a line gives under `key`, or what is wrong with it.
pub open spec fn id_of(line: Seq<char>, key: Key) -> Result<u64, StreakErrorView> {
    match lookup(line, key) {
        None => Err(missing(key)),
        Some(text) => match parse_unsigned(text) {
            None => Err(StreakErrorView::ValueNotADigit { key, text }),
            Some(id) => Ok(id),
        },
    }
}

/// The seconds that a line gives as its time, or the first thing wrong
/// with the line: a field without `_`, no time, a time that is no number.
pub open spec fn time_of(line: Seq<char>) -> Result<i64, StreakErrorView> {
    if !well_formed(fields(line)) {
        Err(StreakErrorView::Decode)
    } else {
        match lookup(line, Key::Time) {
            None => Err(StreakErrorView::MissingTime),
            Some(text) => match parse_signed(text) {
                None => Err(StreakErrorView::ValueNotADigit { key: Key::Time, text }),
                Some(secs) => Ok(secs),
            },
        }
    }
}

/// What a line decodes to when `time_ok` says whether its time is a
/// timestamp.  The line is checked in a fixed order: its fields, then time,
/// user, channel and guild, each for presence and then for its value; the
/// first failure is the result.
pub open spec fn decoded_given(line: Seq<char>, time_ok: bool) -> Result<Streak, StreakErrorView> {
    match time_of(line) {
        Err(e) => Err(e),
        Ok(time) => if !time_ok {
            Err(StreakErrorView::InvalidTimestamp(time))
        } else {
            match id_of(line, Key::User) {
                Err(e) => Err(e),
                Ok(user) => match id_of(line, Key::Channel) {
                    Err(e) => Err(e),
                    Ok(channel) => match id_of(line, Key::Guild) {
                        Err(e) => Err(e),
                        Ok(guild) => Ok(Streak { time, user, channel, guild }),
                    },
                },
            }
        },
    }
}

/// Whether the time of a line is a number that is a timestamp.
pub open spec fn time_accepted(line: Seq<char>) -> bool {
    match time_of(line) {
        Ok(secs) => unix_timestamp_valid(secs),
        Err(_) => false,
    }
}

/// What a line decodes to.
pub open spec fn decoded(line: Seq<char>) -> Result<Streak, StreakErrorView> {
    decoded_given(line, time_accepted(line))
}

/// A field as it is written: key, `_`, value.
pub open spec fn field_text(key: Key, value: Seq<char>) -> Seq<char> {
    key.text() + seq!['_'] + value
}

/// The text of a record: its fields in the order time, user, channel,
/// guild, each number as its shortest decimal numeral.
pub open spec fn encoded(record: Streak) -> Seq<char> {
    field_text(Key::Time, signed_decimal(record.time as int)) + seq!['.'] + field_text(
        Key::User,
        decimal(record.user as nat),
    ) + seq!['.'] + field_text(Key::Channel, decimal(record.channel as nat)) + seq!['.']
        + field_text(Key::Guild, decimal(record.guild as nat))
}

/// Appends `key` and the `_` that follows it to `out`.
fn write_key(out: &mut String, key: Key)
    ensures
        final(out)@ == old(out)@ + key.text() + seq!['_'],
{
    match key {
        Key::Time => {
            out.push('t');
            out.push('i');
            out.push('m');
            out.push('e');
        },
        Key::User => {
            out.push('u');
            out.push('s');
            out.push('e');
            out.push('r');
        },
        Key::Channel => {
            out.push('c');
            out.push('h');
            out.push('a');
            out.push('n');
            out.push('n');
            out.push('e');
            out.push('l');
        },
        Key::Guild => {
            out.push('g');
            out.push('u');
            out.push('i');
            out.push('l');
            out.push('d');
        },
    }
    out.push('_');
    assert(final(out)@ == old(out)@ + key.text() + seq!['_']);
}

impl Streak {
    /// The record's time is a timestamp.  Decoding gives only such records.
    pub open spec fn valid(self) -> bool {
        unix_timestamp_valid(self.time)
    }

    /// Makes a record of the four values, if `time` is a timestamp.
    pub fn new(time: i64, user: u64, channel: u64, guild: u64) -> (r: Result<Streak, StreakError>)
        ensures
            outcome(r) == if unix_timestamp_valid(time) {
                Ok::<Streak, StreakErrorView>(Streak { time, user, channel, guild })
            } else {
                Err::<Streak, StreakErrorView>(StreakErrorView::InvalidTimestamp(time))
            },
    {
        match checked_unix_timestamp(time) {
            Ok(time) => Ok(Streak { time, user, channel, guild }),
            Err(_) => Err(StreakError::InvalidTimestamp(time)),
        }
    }

    /// Encodes the record as one line, which [`Streak::decode`] reads back.
    pub fn encode(&self) -> (line: String)
        ensures
            line@ == encoded(*self),
    {
        let mut line = String::new();
        write_key(&mut line, Key::Time);
        write_signed(&mut line, self.time);
        line.push('.');
        write_key(&mut line, Key::User);
        write_unsigned(&mut line, self.user);
        line.push('.');
        write_key(&mut line, Key::Channel);
        write_unsigned(&mut line, self.channel);
        line.push('.');
        write_key(&mut line, Key::Guild);
        write_unsigned(&mut line, self.guild);
        assert(line@ == encoded(*self));
        line
    }

    /// Decodes one line.
    ///
    /// The result is [`decoded`] of the line: the record, or the first
    /// thing wrong with the line.  Whether the time is a timestamp is asked
    /// of the Discord model, see [`unix_timestamp_valid`].
    pub fn decode(line: &str) -> (r: Result<Streak, StreakError>)
        ensures
            outcome(r) == decoded(line@),
            r matches Ok(record) ==> record.valid(),
    {
        let buf = chars_of(line);
        assert(buf@.subrange(0, buf.len() as int) == line@);
        decode_range(&buf, 0, buf.len())
    }

    /// Decodes one line as [`Streak::decode`] does, but takes the caller's
    /// word for whether its time is a timestamp: with `time_ok` every time
    /// that is a number is kept, without it every such time is refused.
    pub fn decode_given(line: &str, time_ok: bool) -> (r: Result<Streak, StreakError>)
        ensures
            outcome(r) == decoded_given(line@, time_ok),
    {
        let buf = chars_of(line);
        assert(buf@.subrange(0, buf.len() as int) == line@);
        decode_range_given(&buf, 0, buf.len(), time_ok)
    }
}

/// An ordered sequence of records, one per line of the text it was decoded
/// from.
#[derive(Debug, PartialEq, Eq)]
pub struct StreakLog {
    pub streaks: Vec<Streak>,
}

impl View for StreakLog {
    type V = Seq<Streak>;

    open spec fn view(&self) -> Seq<Streak> {
        self.streaks@
    }
}


/// A decoded log, or the error, as mathematical values.
pub open spec fn log_outcome(r: Result<StreakLog, StreakError>) -> Result<
    Seq<Streak>,
    StreakErrorView,
> {
    match r {
        Ok(log) => Ok(log@),
        Err(e) => Err(e@),
    }
}

/// What a sequence of lines decodes to: the records in the order of the
/// lines, or the error of the first line that does not decode.
pub open spec fn decoded_all(lines: Seq<Seq<char>>) -> Result<Seq<Streak>, StreakErrorView>
    decreases lines.len(),
{
    if lines.len() == 0 {
        Ok(Seq::empty())
    } else {
        match decoded(lines.first()) {
            Err(e) => Err(e),
            Ok(record) => match decoded_all(lines.drop_first()) {
                Err(e) => Err(e),
                Ok(records) => Ok(seq![record] + records),
            },
        }
    }
}

/// What a text decodes to as a log.
pub open spec fn decoded_log(text: Seq<char>) -> Result<Seq<Streak>, StreakErrorView> {
    decoded_all(lines(text))
}

impl StreakLog {
    /// Every record of the log is valid.  Decoding gives only such logs.
    pub open spec fn valid(self) -> bool {
        forall|i: int| 0 <= i < self@.len() ==> (#[trigger] self@[i]).valid()
    }

    /// Decodes a log, one record per line.
    ///
    /// The lines are decoded in order and the first failure ends the work:
    /// the result is that line's error and no log.
    pub fn decode(text: &str) -> (r: Result<StreakLog, StreakError>)
        ensures
            log_outcome(r) == decoded_log(text@),
            r matches Ok(log) ==> log.valid(),
    {
        let buf = chars_of(text);
        let n = buf.len();
        let mut streaks: Vec<Streak> = Vec::new();
        if n == 0 {
            assert(lines(text@) == Seq::<Seq<char>>::empty());
            return Ok(StreakLog { streaks });
        }
        let mut start: usize = 0;
        let ghost pieces = split(text@, '\n');
        let ghost mut done: Seq<Seq<char>> = Seq::empty();
        assert(buf@.subrange(0, n as int) == text@);
        assert(pieces == done + split(buf@.subrange(start as int, n as int), '\n'));
        loop
            invariant_except_break
                pieces == done + split(buf@.subrange(start as int, n as int), '\n'),
            invariant
                buf@ == text@,
                n == buf.len(),
                n > 0,
                start <= n,
                pieces == split(text@, '\n'),
                decoded_all(lines(text@).take(streaks.len() as int)) == Ok::<
                    Seq<Streak>,
                    StreakErrorView,
                >(streaks@),
                streaks.len() == done.len(),
                forall|i: int| 0 <= i < streaks.len() ==> (#[trigger] streaks@[i]).valid(),
            ensures
                streaks.len() == lines(text@).len(),
            decreases n - start,
        {
            let end = find(&buf, start, n, '\n');
            let last = end == n;
            let stop = if !last && end > start && buf[end - 1] == '\r' {
                (end - 1) as usize
            } else {
                end
            };
            let ghost rest = buf@.subrange(start as int, n as int);
            let ghost piece = buf@.subrange(start as int, end as int);
            let ghost line = buf@.subrange(start as int, stop as int);
            let ghost k = done.len() as int;
            let ghost all = lines(text@);
            proof {
                assert(rest.take(end - start) == piece);
                if last {
                    assert(rest == piece);
                    assert(split(rest, '\n') == seq![piece]);
                    assert(pieces == done.push(piece));
                } else {
                    assert(rest.skip(end - start + 1) == buf@.subrange(end + 1, n as int));
                    assert(split(rest, '\n') == seq![piece] + split(
                        buf@.subrange(end + 1, n as int),
                        '\n',
                    ));
                    assert(pieces == done.push(piece) + split(
                        buf@.subrange(end + 1, n as int),
                        '\n',
                    ));
                    assert(line == strip_cr(piece));
                }
                assert(pieces[k] == piece);
                assert(all[k] == line);
                assert(all.take(k + 1) == all.take(k) + seq![line]);
                lemma_decoded_all_add(all.take(k), seq![line]);
                assert(seq![line].drop_first() == Seq::<Seq<char>>::empty());
            }
            match decode_range(&buf, start, stop) {
                Err(e) => {
                    proof {
                        assert(all == all.take(k + 1) + all.skip(k + 1));
                        lemma_decoded_all_add(all.take(k + 1), all.skip(k + 1));
                    }
                    return Err(e);
                },
                Ok(record) => {
                    proof {
                        let none = Seq::<Seq<char>>::empty();
                        let one = seq![record] + Seq::<Streak>::empty();
                        assert(decoded_all(none) == Ok::<Seq<Streak>, StreakErrorView>(
                            Seq::empty(),
                        ));
                        assert(decoded_all(seq![line]) == Ok::<Seq<Streak>, StreakErrorView>(one));
                        assert(streaks@ + one == streaks@.push(record));
                    }
                    streaks.push(record);
                },
            }
            proof {
                done = done.push(piece);
            }
            if last {
                assert(all.take(k + 1) == all);
                break ;
            }
            start = end + 1;
        }
        assert(lines(text@).take(streaks.len() as int) == lines(text@));
        Ok(StreakLog { streaks })
    }
}

impl std::str::FromStr for Streak {
    type Err = StreakError;

    /// [`Streak::decode`], for `str::parse`.
    fn from_str(s: &str) -> (r: Result<Streak, StreakError>)
        ensures
            outcome(r) == decoded(s@),
            r matches Ok(record) ==> record.valid(),
    {
        Streak::decode(s)
    }
}

impl std::str::FromStr for StreakLog {
    type Err = StreakError;

    /// [`StreakLog::decode`], for `str::parse`.
    fn from_str(s: &str) -> (r: Result<StreakLog, StreakError>)
        ensures
            log_outcome(r) == decoded_log(s@),
            r matches Ok(log) ==> log.valid(),
    {
        StreakLog::decode(s)
    }
}

/// The four keys are spelled differently.
pub proof fn lemma_key_texts_differ()
    ensures
        forall|a: Key, b: Key| a != b ==> #[trigger] a.text() != #[trigger] b.text(),
{
    assert forall|a: Key, b: Key| a != b implies #[trigger] a.text() != #[trigger] b.text() by {
        assert(a.text()[0] != b.text()[0]);
    }
}

/// Entering one more field into the table.
pub proof fn lemma_table_push(done: Seq<Seq<char>>, field: Seq<char>)
    ensures
        table(done.push(field)) == table(done).insert(key_of(field), value_of(field)),
{
    assert(done.push(field).drop_last() == done);
}

/// Decoding `a` and then `b`: the first error of `a`, else the first error
/// of `b`, else the records of both.
pub proof fn lemma_decoded_all_add(a: Seq<Seq<char>>, b: Seq<Seq<char>>)
    ensures
        decoded_all(a + b) == match decoded_all(a) {
            Err(e) => Err(e),
            Ok(ra) => match decoded_all(b) {
                Err(e) => Err(e),
                Ok(rb) => Ok(ra + rb),
            },
        },
    decreases a.len(),
{
    if a.len() == 0 {
        assert(a + b == b);
        if let Ok(rb) = decoded_all(b) {
            assert(Seq::<Streak>::empty() + rb == rb);
        }
    } else {
        assert((a + b).first() == a.first());
        assert((a + b).drop_first() == a.drop_first() + b);
        lemma_decoded_all_add(a.drop_first(), b);
        if let Ok(record) = decoded(a.first()) {
            if let Ok(ra) = decoded_all(a.drop_first()) {
                if let Ok(rb) = decoded_all(b) {
                    assert(seq![record] + (ra + rb) == (seq![record] + ra) + rb);
                }
            }
        }
    }
}

} // verus!
