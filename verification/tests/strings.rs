use jslite::strings::{
    advance_char_index, byte_index_to_char_index, fits_in_usize, char_index_to_byte_index, clamp_index,
    find_string_pattern, normalize_relative_bound, normalize_search_index, replace_all_string_matches,
    replace_first_string_match, split_string_by_pattern, utf8_width_of,
};

#[test]
fn clamp_index_clamps_both_ends() {
    assert_eq!(clamp_index(-5, 4), 0);
    assert_eq!(clamp_index(2, 4), 2);
    assert_eq!(clamp_index(9, 4), 4);
}

#[test]
fn relative_bound_counts_back_from_the_end() {
    assert_eq!(normalize_relative_bound(-1, 5), 4);
    assert_eq!(normalize_relative_bound(-9, 5), 0);
    assert_eq!(normalize_relative_bound(3, 5), 3);
    assert_eq!(normalize_relative_bound(8, 5), 5);
}

#[test]
fn search_index_is_relative_when_negative() {
    assert_eq!(normalize_search_index(-2, 6), 4);
    assert_eq!(normalize_search_index(10, 6), 6);
}

#[test]
fn byte_and_char_indices_round_trip_on_multibyte_text() {
    let text = "aé€😀b";
    assert_eq!(utf8_width_of('a'), 1);
    assert_eq!(utf8_width_of('é'), 2);
    assert_eq!(utf8_width_of('€'), 3);
    assert_eq!(utf8_width_of('😀'), 4);
    assert_eq!(char_index_to_byte_index(text, 0), 0);
    assert_eq!(char_index_to_byte_index(text, 2), 3);
    assert_eq!(char_index_to_byte_index(text, 4), 10);
    assert_eq!(char_index_to_byte_index(text, 99), text.len());
    assert_eq!(byte_index_to_char_index(text, 3), 2);
    assert_eq!(byte_index_to_char_index(text, 10), 4);
    assert_eq!(advance_char_index(text, 1), 2);
    assert_eq!(advance_char_index(text, 5), 5);
}

#[test]
fn find_reports_the_leftmost_occurrence_from_start() {
    assert_eq!(find_string_pattern("abcabc", "bc", 0), Some(1));
    assert_eq!(find_string_pattern("abcabc", "bc", 2), Some(4));
    assert_eq!(find_string_pattern("abcabc", "zz", 0), None);
    assert_eq!(find_string_pattern("héllo", "llo", 0), Some(2));
}

#[test]
fn split_without_separator_keeps_the_whole_string() {
    assert_eq!(split_string_by_pattern("a,b", None, 10), vec!["a,b".to_string()]);
}

#[test]
fn split_on_empty_separator_gives_characters_up_to_the_limit() {
    assert_eq!(split_string_by_pattern("abc", Some(""), 10), vec!["a", "b", "c"]);
    assert_eq!(split_string_by_pattern("abc", Some(""), 2), vec!["a", "b"]);
    assert!(split_string_by_pattern("abc", Some(""), 0).is_empty());
    assert!(split_string_by_pattern("", Some(""), 5).is_empty());
}

#[test]
fn split_on_separator_respects_the_limit() {
    assert_eq!(split_string_by_pattern("a,b,,c", Some(","), 10), vec!["a", "b", "", "c"]);
    assert_eq!(split_string_by_pattern("a,b,c", Some(","), 2), vec!["a", "b"]);
    assert_eq!(split_string_by_pattern("a,b,c", Some(","), 0), vec!["a", "b"]);
}

#[test]
fn replace_all_replaces_every_occurrence() {
    assert_eq!(replace_all_string_matches("a-b-c", "-", "+"), "a+b+c");
    assert_eq!(replace_all_string_matches("aaa", "aa", "b"), "ba");
    assert_eq!(replace_all_string_matches("ab", "", "_"), "_a_b_");
}

#[test]
fn replace_first_replaces_only_the_first() {
    assert_eq!(replace_first_string_match("a-b-c", "-", "+"), "a+b-c");
    assert_eq!(replace_first_string_match("abc", "zz", "+"), "abc");
    assert_eq!(replace_first_string_match("abc", "", "_"), "_abc");
}

#[test]
fn unlimited_split_rejoins_into_the_original() {
    for (value, sep) in [("a--b----c", "--"), ("--x--", "--"), ("plain", ","), ("", ";"), ("ééé", "é")] {
        let parts = split_string_by_pattern(value, Some(sep), usize::MAX);
        assert_eq!(parts.join(sep), value);
        assert_eq!(parts.len(), value.matches(sep).count() + 1);
        assert!(parts.iter().all(|p| !p.contains(sep)));
    }
}

#[test]
fn a_limit_keeps_a_prefix_of_the_unlimited_split() {
    for (value, sep) in [("a,b,c,d", Some(",")), ("abc", Some("")), ("a,b", None), ("", Some(","))] {
        let full = split_string_by_pattern(value, sep, usize::MAX);
        for limit in 1..6usize {
            let parts = split_string_by_pattern(value, sep, limit);
            assert_eq!(parts, full[..limit.min(full.len())].to_vec());
        }
    }
}

#[test]
fn char_and_byte_indices_convert_back_and_forth() {
    let value = "aéz";
    for i in 0..6usize {
        let b = char_index_to_byte_index(value, i);
        assert_eq!(byte_index_to_char_index(value, b), i.min(3));
    }
    for b in [0usize, 1, 3, 4] {
        assert_eq!(char_index_to_byte_index(value, byte_index_to_char_index(value, b)), b);
    }
}

#[test]
fn ordinary_strings_fit_in_the_address_space() {
    assert!(fits_in_usize(""));
    assert!(fits_in_usize("a\u{e9}\u{1F600}"));
}
