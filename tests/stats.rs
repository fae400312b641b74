use level_launcher::stats::{
    drawings_total_for, format_line, format_stats, parse_line, parse_stats, LevelStats,
};
use level_launcher::text::{parse_number, push_decimal, split_ranges};

fn record(level: usize, time: u32, gems: u32, total: u32, unlocked: [bool; 3]) -> LevelStats {
    LevelStats {
        level,
        time_seconds: time,
        gems_collected: gems,
        gems_total: total,
        unlocked_drawings: unlocked,
    }
}

#[test]
fn two_line_file_reads_as_two_records() {
    let rs = parse_stats(b"12,3,5;0,2\n0,0,0;");
    assert_eq!(rs.len(), 2);
    assert_eq!(rs[0], record(0, 12, 3, 5, [true, false, true]));
    assert_eq!(rs[0].drawings_unlocked_count(), 2);
    assert_eq!(rs[0].drawings_total(), 3);
    assert_eq!(rs[1], record(1, 0, 0, 0, [false, false, false]));
    assert_eq!(rs[1].drawings_unlocked_count(), 0);
    assert_eq!(rs[1].drawings_total(), 2);
}

#[test]
fn empty_file_has_no_records() {
    assert!(parse_stats(b"").is_empty());
}

#[test]
fn final_newline_adds_no_record() {
    let rs = parse_stats(b"1,2,3;1\n");
    assert_eq!(rs.len(), 1);
    assert_eq!(rs[0], record(0, 1, 2, 3, [false, true, false]));
}

#[test]
fn blank_line_in_the_middle_is_a_level_without_progress() {
    let rs = parse_stats(b"1,2,3;1\n\n4,5,6;2");
    assert_eq!(rs.len(), 3);
    assert_eq!(rs[1], record(1, 0, 0, 0, [false; 3]));
    assert_eq!(rs[2], record(2, 4, 5, 6, [false, false, true]));
}

#[test]
fn carriage_return_before_newline_is_dropped() {
    let rs = parse_stats(b"7,1,2;0\r\n8,0,0;2\r\n");
    assert_eq!(rs.len(), 2);
    assert_eq!(rs[0], record(0, 7, 1, 2, [true, false, false]));
    assert_eq!(rs[1], record(1, 8, 0, 0, [false, false, true]));
}

#[test]
fn line_without_semicolon_reads_as_no_progress() {
    let r = parse_line(b"12,3,5", 0);
    assert_eq!(r, record(0, 0, 0, 0, [false; 3]));
    assert_eq!(r.drawings_unlocked_count(), 0);
    assert_eq!(r.drawings_total(), 3);
}

#[test]
fn non_numeric_general_field_reads_as_no_progress() {
    assert_eq!(parse_line(b"a,3,5;0,1", 1), record(1, 0, 0, 0, [false; 3]));
    assert_eq!(parse_line(b"12,x,5;2", 1), record(1, 0, 0, 0, [false; 3]));
    assert_eq!(parse_line(b"-4,3,5;2", 1), record(1, 0, 0, 0, [false; 3]));
}

#[test]
fn too_few_general_fields_read_as_no_progress() {
    assert_eq!(parse_line(b"12,3;0", 2), record(2, 0, 0, 0, [false; 3]));
}

#[test]
fn legacy_fields_are_ignored() {
    let r = parse_line(b"12,3,5,9,9;0,2", 0);
    assert_eq!(r, record(0, 12, 3, 5, [true, false, true]));
    assert_eq!(r.drawings_unlocked_count(), 2);
}

#[test]
fn unknown_and_malformed_ids_are_ignored() {
    let r = parse_line(b"1,1,1;5,x,,1,1,-2", 0);
    assert_eq!(r.unlocked_drawings, [false, true, false]);
    assert_eq!(r.drawings_unlocked_count(), 1);
}

#[test]
fn part_after_a_second_semicolon_is_ignored() {
    let r = parse_line(b"1,1,1;2;0", 0);
    assert_eq!(r.unlocked_drawings, [false, false, true]);
}

#[test]
fn numbers_take_a_plus_sign_and_the_largest_value() {
    assert_eq!(parse_line(b"+7,4294967295,0;", 0), record(0, 7, 4294967295, 0, [false; 3]));
    assert_eq!(parse_line(b"4294967296,1,1;0", 0), record(0, 0, 0, 0, [false; 3]));
    assert_eq!(parse_line(b"+,1,1;0", 0), record(0, 0, 0, 0, [false; 3]));
}

#[test]
fn drawings_total_by_level() {
    assert_eq!(drawings_total_for(0), 3);
    assert_eq!(drawings_total_for(1), 2);
    assert_eq!(drawings_total_for(2), 2);
    assert_eq!(drawings_total_for(3), 0);
    assert_eq!(drawings_total_for(100), 0);
    assert_eq!(parse_stats(b"0,0,0;\n0,0,0;\n0,0,0;\n0,0,0;")[3].drawings_total(), 0);
}

#[test]
fn unlocked_count_follows_the_flags() {
    assert_eq!(record(0, 0, 0, 0, [true, true, true]).drawings_unlocked_count(), 3);
    assert_eq!(record(0, 0, 0, 0, [false, true, false]).drawings_unlocked_count(), 1);
    assert_eq!(parse_line(b"x;0,1,2", 0).drawings_unlocked_count(), 0);
}

#[test]
fn line_is_written_in_file_form() {
    assert_eq!(format_line(&record(0, 12, 3, 5, [true, false, true])), b"12,3,5;0,2".to_vec());
    assert_eq!(format_line(&record(1, 0, 0, 0, [false; 3])), b"0,0,0;".to_vec());
    assert_eq!(format_line(&record(2, 4294967295, 10, 0, [false, true, true])), b"4294967295,10,0;1,2".to_vec());
}

#[test]
fn file_is_written_one_line_per_record() {
    let rs = vec![record(0, 12, 3, 5, [true, false, true]), record(1, 0, 0, 0, [false; 3])];
    assert_eq!(format_stats(&rs), b"12,3,5;0,2\n0,0,0;".to_vec());
    assert_eq!(format_stats(&[]), Vec::<u8>::new());
}

#[test]
fn reading_written_records_gives_them_back() {
    let first = parse_stats(b"12,3,5,2,3;2,0\nbroken\n+9,1,1;1,7\r\n");
    let second = parse_stats(&format_stats(&first));
    assert_eq!(second, first);
    assert_eq!(second.len(), 3);
}

#[test]
fn numbers_are_read_from_ranges() {
    let s = b"x+120y";
    assert_eq!(parse_number(s, 1, 5), Some(120));
    assert_eq!(parse_number(s, 2, 4), Some(12));
    assert_eq!(parse_number(s, 1, 2), None);
    assert_eq!(parse_number(s, 0, 3), None);
    assert_eq!(parse_number(s, 3, 3), None);
}

#[test]
fn decimal_text_is_appended() {
    let mut out = b"n=".to_vec();
    push_decimal(&mut out, 4070);
    assert_eq!(out, b"n=4070".to_vec());
}

#[test]
fn ranges_cover_every_piece() {
    assert_eq!(split_ranges(b";a;;bc;", 0, 7, b';'), vec![(0, 0), (1, 2), (3, 3), (4, 6), (7, 7)]);
    assert_eq!(split_ranges(b"abc", 1, 1, b';'), vec![(1, 1)]);
}
