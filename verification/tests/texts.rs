use streak_codec::text::{chars_of, find, string_of};

#[test]
fn chars_of_gives_the_characters_in_order() {
    assert_eq!(chars_of(""), Vec::<char>::new());
    assert_eq!(chars_of("a_b"), vec!['a', '_', 'b']);
    assert_eq!(chars_of("\u{e9}\u{1f600}x"), vec!['\u{e9}', '\u{1f600}', 'x']);
}

#[test]
fn find_gives_the_first_occurrence_in_the_range() {
    let buf = chars_of("ab.cd.ef");
    assert_eq!(find(&buf, 0, buf.len(), '.'), 2);
    assert_eq!(find(&buf, 2, buf.len(), '.'), 2);
    assert_eq!(find(&buf, 3, buf.len(), '.'), 5);
    assert_eq!(find(&buf, 0, buf.len(), 'a'), 0);
    assert_eq!(find(&buf, 0, buf.len(), 'f'), 7);
}

#[test]
fn find_gives_the_end_of_the_range_where_there_is_none() {
    let buf = chars_of("ab.cd.ef");
    assert_eq!(find(&buf, 0, buf.len(), '_'), 8);
    assert_eq!(find(&buf, 0, 2, '.'), 2);
    assert_eq!(find(&buf, 3, 5, '.'), 5);
    assert_eq!(find(&buf, 6, 8, '.'), 8);
    assert_eq!(find(&buf, 4, 4, 'd'), 4);
    assert_eq!(find(&Vec::new(), 0, 0, '.'), 0);
}

#[test]
fn string_of_copies_the_range() {
    let buf = chars_of("time_12\u{e9}");
    assert_eq!(string_of(&buf, 0, 4), "time");
    assert_eq!(string_of(&buf, 5, 8), "12\u{e9}");
    assert_eq!(string_of(&buf, 3, 3), "");
    assert_eq!(string_of(&buf, 0, buf.len()), "time_12\u{e9}");
}
