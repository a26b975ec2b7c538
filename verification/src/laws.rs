//! What holds of the encoding as a whole.

use crate::decimal::{
    decimal, is_digit, lemma_decimal, lemma_parse_signed_decimal, lemma_parse_unsigned_decimal,
    lemma_signed_decimal_chars, parse_signed, signed_decimal,
};
use crate::streak::{
    decoded, decoded_all, decoded_given, decoded_log, encoded, field_text, fields, id_of, key_of,
    lemma_decoded_all_add, lemma_key_texts_differ, lemma_table_push, lookup, table, time_of,
    value_of, well_formed, Key, Streak, StreakErrorView,
};
use crate::text::{
    lemma_first_index_unique, lemma_split_join, lemma_split_none, lines, split, strip_cr,
};
use crate::timestamp::unix_timestamp_valid;
use vstd::prelude::*;

verus! {

/// A key is spelled in lower-case letters.
proof fn lemma_key_letters(key: Key)
    ensures
        forall|j: int| 0 <= j < key.text().len() ==> 'a' <= #[trigger] key.text()[j] <= 'z',
{
    let s = key.text();
    match key {
        Key::Time => {
            assert(s[0] == 't' && s[1] == 'i' && s[2] == 'm' && s[3] == 'e');
        },
        Key::User => {
            assert(s[0] == 'u' && s[1] == 's' && s[2] == 'e' && s[3] == 'r');
        },
        Key::Channel => {
            assert(s[0] == 'c' && s[1] == 'h' && s[2] == 'a' && s[3] == 'n');
            assert(s[4] == 'n' && s[5] == 'e' && s[6] == 'l');
        },
        Key::Guild => {
            assert(s[0] == 'g' && s[1] == 'u' && s[2] == 'i' && s[3] == 'l' && s[4] == 'd');
        },
    }
}

/// A field written from a key and a numeral holds no dot, and is parted by
/// its first `_` into that key and that numeral.
proof fn lemma_written_field(key: Key, value: Seq<char>)
    requires
        forall|j: int| 0 <= j < value.len() ==> is_digit(#[trigger] value[j]) || value[j] == '-',
    ensures
        !field_text(key, value).contains('.'),
        field_text(key, value).contains('_'),
        key_of(field_text(key, value)) == key.text(),
        value_of(field_text(key, value)) == value,
{
    let f = field_text(key, value);
    let n = key.text().len() as int;
    lemma_key_letters(key);
    assert forall|j: int| 0 <= j < f.len() implies f[j] != '.' by {
        if j < n {
            assert(f[j] == key.text()[j]);
        } else if j > n {
            assert(f[j] == value[j - n - 1]);
        }
    }
    assert(f[n] == '_');
    assert forall|j: int| 0 <= j < n implies f[j] != '_' by {
        assert(f[j] == key.text()[j]);
    }
    lemma_first_index_unique(f, '_', n);
    assert(f.take(n) == key.text());
    assert(f.skip(n + 1) == value);
}

/// Round trip: a record that is encoded and decoded again comes back as it
/// was, provided that its time is a timestamp; if it is not, decoding
/// refuses the time with `InvalidTimestamp`.
pub proof fn lemma_round_trip(record: Streak)
    ensures
        decoded(encoded(record)) == if unix_timestamp_valid(record.time) {
            Ok::<Streak, StreakErrorView>(record)
        } else {
            Err::<Streak, StreakErrorView>(StreakErrorView::InvalidTimestamp(record.time))
        },
        decoded_given(encoded(record), true) == Ok::<Streak, StreakErrorView>(record),
{
    let t = signed_decimal(record.time as int);
    let u = decimal(record.user as nat);
    let c = decimal(record.channel as nat);
    let g = decimal(record.guild as nat);
    let ft = field_text(Key::Time, t);
    let fu = field_text(Key::User, u);
    let fc = field_text(Key::Channel, c);
    let fg = field_text(Key::Guild, g);
    let line = encoded(record);
    lemma_signed_decimal_chars(record.time as int);
    lemma_decimal(record.user as nat);
    lemma_decimal(record.channel as nat);
    lemma_decimal(record.guild as nat);
    lemma_written_field(Key::Time, t);
    lemma_written_field(Key::User, u);
    lemma_written_field(Key::Channel, c);
    lemma_written_field(Key::Guild, g);

    let tail2 = fc + seq!['.'] + fg;
    let tail1 = fu + seq!['.'] + tail2;
    assert(line == ft + seq!['.'] + tail1);
    lemma_split_join(ft, '.', tail1);
    lemma_split_join(fu, '.', tail2);
    lemma_split_join(fc, '.', fg);
    lemma_split_none(fg, '.');
    let fs = seq![ft, fu, fc, fg];
    assert(fields(line) == fs);
    assert(well_formed(fs));

    let none = Seq::<Seq<char>>::empty();
    assert(none.push(ft).push(fu).push(fc).push(fg) == fs);
    lemma_table_push(none, ft);
    lemma_table_push(none.push(ft), fu);
    lemma_table_push(none.push(ft).push(fu), fc);
    lemma_table_push(none.push(ft).push(fu).push(fc), fg);
    lemma_key_texts_differ();
    assert(lookup(line, Key::Time) == Some(t));
    assert(lookup(line, Key::User) == Some(u));
    assert(lookup(line, Key::Channel) == Some(c));
    assert(lookup(line, Key::Guild) == Some(g));
    lemma_parse_signed_decimal(record.time);
    lemma_parse_unsigned_decimal(record.user);
    lemma_parse_unsigned_decimal(record.channel);
    lemma_parse_unsigned_decimal(record.guild);
    assert(time_of(line) == Ok::<i64, StreakErrorView>(record.time));
    assert(id_of(line, Key::User) == Ok::<u64, StreakErrorView>(record.user));
    assert(id_of(line, Key::Channel) == Ok::<u64, StreakErrorView>(record.channel));
    assert(id_of(line, Key::Guild) == Ok::<u64, StreakErrorView>(record.guild));
}

/// Lines that all decode give their records, one per line and in the
/// order of the lines.
pub proof fn lemma_all_decoded(lines: Seq<Seq<char>>)
    requires
        forall|i: int| 0 <= i < lines.len() ==> decoded(#[trigger] lines[i]) is Ok,
    ensures
        decoded_all(lines) is Ok,
        decoded_all(lines)->Ok_0.len() == lines.len(),
        forall|i: int|
            0 <= i < lines.len() ==> decoded(#[trigger] lines[i]) == Ok::<Streak, StreakErrorView>(
                decoded_all(lines)->Ok_0[i],
            ),
    decreases lines.len(),
{
    if lines.len() > 0 {
        let rest = lines.drop_first();
        assert forall|i: int| 0 <= i < rest.len() implies decoded(#[trigger] rest[i]) is Ok by {
            assert(rest[i] == lines[i + 1]);
        }
        lemma_all_decoded(rest);
        assert(decoded(lines[0]) is Ok);
        let records = decoded_all(lines)->Ok_0;
        assert forall|i: int| 0 <= i < lines.len() implies decoded(#[trigger] lines[i]) == Ok::<
            Streak,
            StreakErrorView,
        >(records[i]) by {
            if i > 0 {
                assert(lines[i] == rest[i - 1]);
                assert(decoded(rest[i - 1]) is Ok);
            }
        }
    }
}

/// Order is kept: a text whose lines all decode gives a log with one record
/// per line, the record of line `i` at place `i`.
pub proof fn lemma_log_keeps_order(text: Seq<char>)
    requires
        forall|i: int| 0 <= i < lines(text).len() ==> decoded(#[trigger] lines(text)[i]) is Ok,
    ensures
        decoded_log(text) is Ok,
        decoded_log(text)->Ok_0.len() == lines(text).len(),
        forall|i: int|
            0 <= i < lines(text).len() ==> decoded(#[trigger] lines(text)[i]) == Ok::<
                Streak,
                StreakErrorView,
            >(decoded_log(text)->Ok_0[i]),
{
    lemma_all_decoded(lines(text));
}

/// Fail-fast: where the lines before line `k` decode and line `k` does
/// not, the whole text gives the error of line `k`, whatever follows it,
/// and no log.
pub proof fn lemma_first_failure_wins(text: Seq<char>, k: int)
    requires
        0 <= k < lines(text).len(),
        forall|i: int| 0 <= i < k ==> decoded(#[trigger] lines(text)[i]) is Ok,
        decoded(lines(text)[k]) is Err,
    ensures
        decoded_log(text) == Err::<Seq<Streak>, StreakErrorView>(decoded(lines(text)[k])->Err_0),
{
    let all = lines(text);
    let head = all.take(k);
    let tail = all.skip(k);
    assert(all == head + tail);
    assert forall|i: int| 0 <= i < head.len() implies decoded(#[trigger] head[i]) is Ok by {
        assert(head[i] == all[i]);
    }
    lemma_all_decoded(head);
    lemma_decoded_all_add(head, tail);
    assert(tail.first() == all[k]);
}

/// Fail-fast, for a log of two lines: where the first line decodes and the
/// second does not, the log gives the error of the second line.
pub proof fn lemma_fail_fast_two_lines(text: Seq<char>)
    requires
        lines(text).len() == 2,
        decoded(lines(text)[0]) is Ok,
        decoded(lines(text)[1]) is Err,
    ensures
        decoded_log(text) == Err::<Seq<Streak>, StreakErrorView>(decoded(lines(text)[1])->Err_0),
{
    lemma_first_failure_wins(text, 1);
}

/// Two texts without line feed, joined by one, are a text of two lines: the
/// first less a carriage return at its end, and the second as it is.
pub proof fn lemma_two_lines(first: Seq<char>, second: Seq<char>)
    requires
        !first.contains('\n'),
        !second.contains('\n'),
    ensures
        lines(first + seq!['\n'] + second) == seq![strip_cr(first), second],
{
    let text = first + seq!['\n'] + second;
    lemma_split_join(first, '\n', second);
    lemma_split_none(second, '\n');
    assert(split(text, '\n') == seq![first, second]);
    assert(text.len() > 0);
    assert(lines(text) =~= seq![strip_cr(first), second]);
}

/// None of the four keys is given two different values.
pub open spec fn single_valued(fields: Seq<Seq<char>>) -> bool {
    forall|i: int, j: int|
        0 <= i < fields.len() && 0 <= j < fields.len() && key_of(#[trigger] fields[i]) == key_of(
            #[trigger] fields[j],
        ) && Key::named(key_of(fields[i])) is Some ==> value_of(fields[i]) == value_of(fields[j])
}

/// The table has a key exactly when some field has it.
pub proof fn lemma_table_keys(fields: Seq<Seq<char>>, key: Seq<char>)
    ensures
        table(fields).dom().contains(key) <==> exists|i: int|
            0 <= i < fields.len() && key_of(#[trigger] fields[i]) == key,
    decreases fields.len(),
{
    if fields.len() > 0 {
        let front = fields.drop_last();
        lemma_table_keys(front, key);
        if table(fields).dom().contains(key) {
            if key_of(fields.last()) == key {
                assert(key_of(fields[fields.len() - 1]) == key);
            } else {
                let i = choose|i: int| 0 <= i < front.len() && key_of(#[trigger] front[i]) == key;
                assert(fields[i] == front[i]);
            }
        }
        if exists|i: int| 0 <= i < fields.len() && key_of(#[trigger] fields[i]) == key {
            let i = choose|i: int| 0 <= i < fields.len() && key_of(#[trigger] fields[i]) == key;
            if i < front.len() {
                assert(front[i] == fields[i]);
            }
        }
    }
}

/// What the table holds under a key is the value of some field with that
/// key.
pub proof fn lemma_table_value(fields: Seq<Seq<char>>, key: Seq<char>)
    requires
        table(fields).dom().contains(key),
    ensures
        exists|i: int|
            0 <= i < fields.len() && key_of(#[trigger] fields[i]) == key && value_of(fields[i])
                == table(fields)[key],
    decreases fields.len(),
{
    if fields.len() > 0 {
        let front = fields.drop_last();
        if key_of(fields.last()) == key {
            assert(key_of(fields[fields.len() - 1]) == key);
        } else {
            lemma_table_value(front, key);
            let i = choose|i: int|
                0 <= i < front.len() && key_of(#[trigger] front[i]) == key && value_of(front[i])
                    == table(front)[key];
            assert(fields[i] == front[i]);
        }
    }
}

/// The table holds, under the key of a field that no later field shares
/// its key with, the value of that field.
pub proof fn lemma_table_last(fields: Seq<Seq<char>>, i: int)
    requires
        0 <= i < fields.len(),
        forall|j: int| i < j < fields.len() ==> key_of(#[trigger] fields[j]) != key_of(fields[i]),
    ensures
        table(fields).dom().contains(key_of(fields[i])),
        table(fields)[key_of(fields[i])] == value_of(fields[i]),
    decreases fields.len(),
{
    if i < fields.len() - 1 {
        let front = fields.drop_last();
        assert(front[i] == fields[i]);
        assert forall|j: int| i < j < front.len() implies key_of(#[trigger] front[j]) != key_of(
            front[i],
        ) by {
            assert(front[j] == fields[j]);
        }
        lemma_table_last(front, i);
        assert(key_of(fields[fields.len() - 1]) != key_of(fields[i]));
    }
}

/// Taking a field out changes nothing under the other keys.
pub proof fn lemma_table_remove(fields: Seq<Seq<char>>, i: int, key: Seq<char>)
    requires
        0 <= i < fields.len(),
        key_of(fields[i]) != key,
    ensures
        table(fields.remove(i)).dom().contains(key) == table(fields).dom().contains(key),
        table(fields).dom().contains(key) ==> table(fields.remove(i))[key] == table(fields)[key],
    decreases fields.len(),
{
    let front = fields.drop_last();
    if i == fields.len() - 1 {
        assert(fields.remove(i) == front);
    } else {
        assert(fields.remove(i).drop_last() == front.remove(i));
        assert(fields.remove(i).last() == fields.last());
        assert(front[i] == fields[i]);
        lemma_table_remove(front, i, key);
    }
}

/// Last key wins: of the fields with the key `key`, the last one gives the
/// value.
pub proof fn lemma_last_key_wins(line: Seq<char>, key: Key, i: int)
    requires
        0 <= i < fields(line).len(),
        key_of(fields(line)[i]) == key.text(),
        forall|j: int|
            i < j < fields(line).len() ==> key_of(#[trigger] fields(line)[j]) != key.text(),
    ensures
        lookup(line, key) == Some(value_of(fields(line)[i])),
{
    lemma_table_last(fields(line), i);
}

/// Missing keys are found: a line with no field for `key` has no value for
/// it.
pub proof fn lemma_missing_key(line: Seq<char>, key: Key)
    requires
        forall|i: int|
            0 <= i < fields(line).len() ==> key_of(#[trigger] fields(line)[i]) != key.text(),
    ensures
        lookup(line, key) is None,
{
    lemma_table_keys(fields(line), key.text());
}

/// A line whose fields all have a `_` and of which none has the key `time`
/// fails for the missing time, whatever else it holds.
pub proof fn lemma_missing_time(line: Seq<char>)
    requires
        well_formed(fields(line)),
        forall|i: int|
            0 <= i < fields(line).len() ==> key_of(#[trigger] fields(line)[i])
                != Key::Time.text(),
    ensures
        decoded(line) == Err::<Streak, StreakErrorView>(StreakErrorView::MissingTime),
{
    lemma_missing_key(line, Key::Time);
}

/// A time that is no number is refused as such: a line whose fields all
/// have a `_`, and whose last field with the key `time` has a value that
/// does not read as a signed number, fails with that value, whatever else
/// it holds.
pub proof fn lemma_non_numeric_time(line: Seq<char>, i: int)
    requires
        well_formed(fields(line)),
        0 <= i < fields(line).len(),
        key_of(fields(line)[i]) == Key::Time.text(),
        forall|j: int|
            i < j < fields(line).len() ==> key_of(#[trigger] fields(line)[j])
                != Key::Time.text(),
        parse_signed(value_of(fields(line)[i])) is None,
    ensures
        decoded(line) == Err::<Streak, StreakErrorView>(
            StreakErrorView::ValueNotADigit { key: Key::Time, text: value_of(fields(line)[i]) },
        ),
{
    lemma_last_key_wins(line, Key::Time, i);
}

/// Unknown keys are passed over: a line decodes as the line without its
/// field `i` does, where that field has a `_` and a key that is none of
/// the four.
pub proof fn lemma_unknown_key_ignored(line: Seq<char>, rest: Seq<char>, i: int)
    requires
        0 <= i < fields(line).len(),
        fields(rest) == fields(line).remove(i),
        fields(line)[i].contains('_'),
        Key::named(key_of(fields(line)[i])) is None,
    ensures
        decoded(line) == decoded(rest),
{
    let with = fields(line);
    let without = fields(rest);
    assert(well_formed(with) == well_formed(without)) by {
        if well_formed(with) {
            assert forall|j: int| 0 <= j < without.len() implies (#[trigger] without[j]).contains(
                '_',
            ) by {
                if j < i {
                    assert(without[j] == with[j]);
                } else {
                    assert(without[j] == with[j + 1]);
                }
            }
        }
        if well_formed(without) {
            assert forall|j: int| 0 <= j < with.len() implies (#[trigger] with[j]).contains(
                '_',
            ) by {
                if j < i {
                    assert(with[j] == without[j]);
                } else if j > i {
                    assert(with[j] == without[j - 1]);
                }
            }
        }
    }
    assert forall|key: Key| lookup(line, key) == lookup(rest, key) by {
        lemma_table_remove(with, i, key.text());
    }
    assert(lookup(line, Key::Time) == lookup(rest, Key::Time));
    assert(lookup(line, Key::User) == lookup(rest, Key::User));
    assert(lookup(line, Key::Channel) == lookup(rest, Key::Channel));
    assert(lookup(line, Key::Guild) == lookup(rest, Key::Guild));
}

/// Field order does not matter: two lines that hold the same fields decode
/// alike, in whatever order and how often each holds them, where none of
/// the four keys is given two different values.
pub proof fn lemma_field_order(a: Seq<char>, b: Seq<char>)
    requires
        single_valued(fields(a)),
        fields(a).to_set() == fields(b).to_set(),
    ensures
        decoded(a) == decoded(b),
{
    let fa = fields(a);
    let fb = fields(b);
    assert forall|x: Seq<char>| fa.contains(x) == fb.contains(x) by {
        assert(fa.to_set().contains(x) == fa.contains(x));
        assert(fb.to_set().contains(x) == fb.contains(x));
    }
    assert(well_formed(fa) == well_formed(fb)) by {
        if well_formed(fa) {
            assert forall|j: int| 0 <= j < fb.len() implies (#[trigger] fb[j]).contains('_') by {
                assert(fb.contains(fb[j]));
                assert(fa.contains(fb[j]));
            }
        }
        if well_formed(fb) {
            assert forall|j: int| 0 <= j < fa.len() implies (#[trigger] fa[j]).contains('_') by {
                assert(fa.contains(fa[j]));
                assert(fb.contains(fa[j]));
            }
        }
    }
    assert forall|key: Key| lookup(a, key) == lookup(b, key) by {
        let k = key.text();
        lemma_key_texts_differ();
        assert(Key::named(k) == Some(key));
        lemma_table_keys(fa, k);
        lemma_table_keys(fb, k);
        if table(fb).dom().contains(k) {
            lemma_table_value(fb, k);
            let j = choose|j: int|
                0 <= j < fb.len() && key_of(#[trigger] fb[j]) == k && value_of(fb[j]) == table(
                    fb,
                )[k];
            assert(fb.contains(fb[j]));
            assert(fa.contains(fb[j]));
            let i = choose|i: int| 0 <= i < fa.len() && fa[i] == fb[j];
            assert(key_of(fa[i]) == k);
            lemma_table_value(fa, k);
        } else if table(fa).dom().contains(k) {
            let i = choose|i: int| 0 <= i < fa.len() && key_of(#[trigger] fa[i]) == k;
            assert(fa.contains(fa[i]));
            assert(fb.contains(fa[i]));
            let j = choose|j: int| 0 <= j < fb.len() && fb[j] == fa[i];
            assert(key_of(fb[j]) == k);
        }
    }
    assert(lookup(a, Key::Time) == lookup(b, Key::Time));
    assert(lookup(a, Key::User) == lookup(b, Key::User));
    assert(lookup(a, Key::Channel) == lookup(b, Key::Channel));
    assert(lookup(a, Key::Guild) == lookup(b, Key::Guild));
}

} // verus!
