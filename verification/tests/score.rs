use tetris::score::{
    game_info, line_end, line_to_slice, load_highscores_and_lines, parse_number, push_decimal,
    save_highscore_and_lines, slice_to_string, update_vec,
};

fn reference_line(line: &str) -> Vec<u32> {
    line.split(' ').filter_map(|nb| nb.parse::<u32>().ok()).collect()
}

const TEXTS: [&str; 22] = [
    "",
    "0",
    "7",
    "123",
    "+5",
    "+",
    "++5",
    "-1",
    "+-1",
    "007",
    "4294967295",
    "4294967296",
    "42949672950",
    "99999999999999999999",
    "+4294967295",
    "12a",
    "a12",
    " 5",
    "5 ",
    "1_000",
    "0x10",
    "\u{663}",
];

#[test]
fn numbers_are_written_in_decimal() {
    for n in [0u32, 1, 9, 10, 11, 99, 100, 101, 4096, 1_000_000, 4294967295] {
        let mut out = vec![b'#'];
        push_decimal(&mut out, n);
        assert_eq!(out, format!("#{}", n).into_bytes());
    }
}

#[test]
fn a_list_is_written_with_spaces_between() {
    assert_eq!(slice_to_string(&[]), b"".to_vec());
    assert_eq!(slice_to_string(&[0]), b"0".to_vec());
    assert_eq!(slice_to_string(&[1, 20, 300]), b"1 20 300".to_vec());
    assert_eq!(slice_to_string(&[4294967295, 0, 7]), b"4294967295 0 7".to_vec());
}

#[test]
fn both_lists_are_written_on_a_line_each() {
    assert_eq!(save_highscore_and_lines(&[5, 10], &[1, 2]), b"5 10\n1 2\n".to_vec());
    assert_eq!(save_highscore_and_lines(&[], &[]), b"\n\n".to_vec());
    assert_eq!(save_highscore_and_lines(&[42], &[]), b"42\n\n".to_vec());
}

#[test]
fn a_token_is_read_as_the_standard_library_reads_it() {
    for text in TEXTS {
        assert_eq!(parse_number(text.as_bytes()), text.parse::<u32>().ok(), "{:?}", text);
    }
    assert_eq!(parse_number(b"123"), Some(123));
    assert_eq!(parse_number(b"+5"), Some(5));
    assert_eq!(parse_number(b"007"), Some(7));
    assert_eq!(parse_number(b"4294967295"), Some(u32::MAX));
    assert_eq!(parse_number(b"4294967296"), None);
    assert_eq!(parse_number(b""), None);
    assert_eq!(parse_number(b"+"), None);
    assert_eq!(parse_number(b"-1"), None);
    assert_eq!(parse_number(b"3\n"), None);
}

#[test]
fn a_line_gives_the_numbers_between_its_spaces() {
    assert_eq!(line_to_slice(b"1 2 3"), vec![1, 2, 3]);
    assert_eq!(line_to_slice(b""), Vec::<u32>::new());
    assert_eq!(line_to_slice(b"  "), Vec::<u32>::new());
    assert_eq!(line_to_slice(b"1  2   x 3 "), vec![1, 2, 3]);
    assert_eq!(line_to_slice(b"10 +20 -30 4294967296 40"), vec![10, 20, 40]);
    for text in ["1 2 3", "", " ", "a b", "1  2", " 7 ", "5 6\n", "\t1 2", "9 99 999 +1 x"] {
        assert_eq!(line_to_slice(text.as_bytes()), reference_line(text), "{:?}", text);
    }
}

#[test]
fn stored_text_is_read_back_as_two_lists() {
    assert_eq!(load_highscores_and_lines(b"5 10\n1 2"), Some((vec![5, 10], vec![1, 2])));
    assert_eq!(load_highscores_and_lines(b"5 10\n1 2\n"), Some((vec![5, 10], vec![1, 2])));
    assert_eq!(load_highscores_and_lines(b"\n"), Some((vec![], vec![])));
    assert_eq!(load_highscores_and_lines(b"\n\n"), Some((vec![], vec![])));
    assert_eq!(load_highscores_and_lines(b"\n4 5\n"), Some((vec![], vec![4, 5])));
    assert_eq!(load_highscores_and_lines(b"4 5\n\n"), Some((vec![4, 5], vec![])));
    assert_eq!(load_highscores_and_lines(b"x 1\n2 y 3\n"), Some((vec![1], vec![2, 3])));
}

#[test]
fn text_without_a_line_end_holds_no_lists() {
    assert_eq!(load_highscores_and_lines(b"1 2 3"), None);
    assert_eq!(load_highscores_and_lines(b""), None);
    assert_eq!(load_highscores_and_lines(b"1 2 3 "), None);
}

#[test]
fn what_follows_the_second_line_is_left_aside() {
    assert_eq!(load_highscores_and_lines(b"7\n8\n9\n"), Some((vec![7], vec![8])));
    assert_eq!(load_highscores_and_lines(b"7\n8 9 10\n11"), Some((vec![7], vec![8, 9, 10])));
    assert_eq!(load_highscores_and_lines(b"7\n\n11 12"), Some((vec![7], vec![])));
}

#[test]
fn what_is_saved_is_read_back() {
    let content = save_highscore_and_lines(&[3, 30, 300], &[1, 2, 3]);
    assert_eq!(load_highscores_and_lines(&content), Some((vec![3, 30, 300], vec![1, 2, 3])));
    let lists: [(Vec<u32>, Vec<u32>); 6] = [
        (vec![], vec![]),
        (vec![0], vec![]),
        (vec![], vec![0]),
        (vec![10, 20], vec![1, 2]),
        (vec![4294967295, 0, 7, 7], vec![9]),
        (vec![5, 4, 3, 2, 1], vec![1, 2, 3, 4, 5]),
    ];
    for (scores, lines) in lists {
        let content = save_highscore_and_lines(&scores, &lines);
        assert_eq!(load_highscores_and_lines(&content), Some((scores, lines)));
    }
}

#[test]
fn a_list_that_is_not_full_takes_the_value_and_is_sorted() {
    let mut v = vec![3, 1];
    assert!(update_vec(&mut v, 2));
    assert_eq!(v, vec![1, 2, 3]);
    let mut v = vec![];
    assert!(update_vec(&mut v, 9));
    assert_eq!(v, vec![9]);
    let mut v = vec![50, 40, 30, 20];
    assert!(update_vec(&mut v, 35));
    assert_eq!(v, vec![20, 30, 35, 40, 50]);
    let mut v = vec![7, 7];
    assert!(update_vec(&mut v, 7));
    assert_eq!(v, vec![7, 7, 7]);
}

#[test]
fn a_full_list_gives_up_the_first_entry_that_is_beaten() {
    let mut v = vec![1, 2, 3, 4, 5];
    assert!(update_vec(&mut v, 3));
    assert_eq!(v, vec![3, 2, 3, 4, 5]);
    let mut v = vec![9, 8, 2, 1, 7];
    assert!(update_vec(&mut v, 5));
    assert_eq!(v, vec![9, 8, 5, 1, 7]);
    let mut v = vec![5, 5, 5, 5, 5];
    assert!(!update_vec(&mut v, 5));
    assert_eq!(v, vec![5, 5, 5, 5, 5]);
    let mut v = vec![5, 6, 7, 8, 9, 1];
    assert!(!update_vec(&mut v, 1));
    assert_eq!(v, vec![5, 6, 7, 8, 9, 1]);
    assert!(update_vec(&mut v, 2));
    assert_eq!(v, vec![5, 6, 7, 8, 9, 2]);
}

#[test]
fn a_first_game_starts_the_lists() {
    let info = game_info(7, 3, None);
    assert!(info.new_highest_highscore);
    assert!(info.new_highest_lines_sent);
    assert_eq!(info.to_save, Some(b"7\n3\n".to_vec()));
    let info = game_info(7, 3, Some(b"no line end".to_vec()));
    assert!(info.new_highest_highscore);
    assert!(info.new_highest_lines_sent);
    assert_eq!(info.to_save, Some(b"7\n3\n".to_vec()));
}

#[test]
fn a_later_game_enters_the_lists() {
    let info = game_info(7, 3, Some(b"1 2\n1 2\n".to_vec()));
    assert!(info.new_highest_highscore);
    assert!(info.new_highest_lines_sent);
    assert_eq!(info.to_save, Some(b"1 2 7\n1 2 3\n".to_vec()));
}

#[test]
fn a_game_that_beats_nothing_saves_nothing() {
    let info = game_info(1, 1, Some(b"9 9 9 9 9\n9 9 9 9 9\n".to_vec()));
    assert!(!info.new_highest_highscore);
    assert!(!info.new_highest_lines_sent);
    assert_eq!(info.to_save, None);
}

#[test]
fn a_game_that_beats_one_list_saves_both() {
    let info = game_info(10, 1, Some(b"9 9 9 9 9\n9 9 9 9 9\n".to_vec()));
    assert!(info.new_highest_highscore);
    assert!(!info.new_highest_lines_sent);
    assert_eq!(info.to_save, Some(b"10 9 9 9 9\n9 9 9 9 9\n".to_vec()));
}

#[test]
fn the_lists_grow_from_game_to_game() {
    let first = game_info(10, 1, None).to_save;
    assert_eq!(first, Some(b"10\n1\n".to_vec()));
    let second = game_info(20, 2, first).to_save;
    assert_eq!(second, Some(b"10 20\n1 2\n".to_vec()));
    let third = game_info(5, 3, second).to_save;
    assert_eq!(third, Some(b"5 10 20\n1 2 3\n".to_vec()));
    let fourth = game_info(7, 0, third).to_save;
    assert_eq!(fourth, Some(b"5 7 10 20\n0 1 2 3\n".to_vec()));
    let fifth = game_info(1, 9, fourth).to_save;
    assert_eq!(fifth, Some(b"1 5 7 10 20\n0 1 2 3 9\n".to_vec()));
    let sixth = game_info(1, 1, fifth).to_save;
    assert_eq!(sixth, Some(b"1 5 7 10 20\n1 1 2 3 9\n".to_vec()));
    let info = game_info(0, 0, sixth);
    assert!(!info.new_highest_highscore);
    assert!(!info.new_highest_lines_sent);
    assert_eq!(info.to_save, None);
}

#[test]
fn a_line_ends_at_the_next_line_end_or_with_the_text() {
    assert_eq!(line_end(b"12 3\n4 5\n6", 0), 4);
    assert_eq!(line_end(b"12 3\n4 5\n6", 4), 4);
    assert_eq!(line_end(b"12 3\n4 5\n6", 5), 8);
    assert_eq!(line_end(b"12 3\n4 5\n6", 9), 10);
    assert_eq!(line_end(b"12 3\n4 5\n6", 10), 10);
    assert_eq!(line_end(b"", 0), 0);
}
