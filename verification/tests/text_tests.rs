use pvz_overlay::locate::{
    candidate_pids, is_game_image_name, is_game_window_title, GAME_IMAGE_NAME, GAME_TITLE_MARK,
    GAME_WINDOW_CLASS, GAME_WINDOW_NAME, OVERLAY_CLASS_NAME, OVERLAY_WINDOW_NAME,
};
use pvz_overlay::wide::{encode_wide, encode_wide_nul, find_units};

fn padded(text: &str, len: usize) -> Vec<u16> {
    let mut v: Vec<u16> = text.encode_utf16().collect();
    v.resize(len, 0);
    v
}

#[test]
fn ascii_names_encode_to_their_code_points() {
    assert_eq!(
        encode_wide_nul(GAME_WINDOW_CLASS),
        vec![0x4D, 0x61, 0x69, 0x6E, 0x57, 0x69, 0x6E, 0x64, 0x6F, 0x77, 0]
    );
    assert_eq!(encode_wide_nul(OVERLAY_CLASS_NAME), padded("Main_Class", 11));
    assert_eq!(encode_wide_nul(OVERLAY_WINDOW_NAME), padded("Main_Window", 12));
}

#[test]
fn chinese_title_encodes_one_unit_per_character() {
    assert_eq!(
        encode_wide_nul(GAME_WINDOW_NAME),
        vec![0x690D, 0x7269, 0x5927, 0x6218, 0x50F5, 0x5C38, 0x4E2D, 0x6587, 0x7248, 0]
    );
    assert_eq!(GAME_TITLE_MARK.encode_utf16().count(), 6);
}

#[test]
fn supplementary_characters_become_surrogate_pairs() {
    assert_eq!(encode_wide("a\u{1F600}b"), vec![0x61, 0xD83D, 0xDE00, 0x62]);
    assert_eq!(encode_wide("\u{10FFFF}"), vec![0xDBFF, 0xDFFF]);
    assert_eq!(encode_wide(""), Vec::<u16>::new());
    assert_eq!(encode_wide_nul(""), vec![0]);
}

#[test]
fn encoding_matches_std() {
    for text in ["PlantsVsZombies.exe", "植物大战僵尸中文版", "x\u{10400}y\u{FFFF}", "é"] {
        let expected: Vec<u16> = text.encode_utf16().collect();
        assert_eq!(encode_wide(text), expected);
    }
}

#[test]
fn unit_search() {
    assert!(find_units(&[1, 2, 3, 4], &[2, 3]));
    assert!(find_units(&[1, 2, 3, 4], &[3, 4]));
    assert!(find_units(&[1, 2, 3, 4], &[]));
    assert!(find_units(&[], &[]));
    assert!(!find_units(&[1, 2, 3, 4], &[2, 4]));
    assert!(!find_units(&[1, 2], &[1, 2, 3]));
    assert!(!find_units(&[], &[0]));
}

#[test]
fn game_image_is_recognised_in_a_path_buffer() {
    assert_eq!(GAME_IMAGE_NAME, "PlantsVsZombies.exe");
    assert!(is_game_image_name(&padded("C:\\Games\\PvZ\\PlantsVsZombies.exe", 260)));
    assert!(!is_game_image_name(&padded("C:\\Windows\\explorer.exe", 260)));
    assert!(!is_game_image_name(&padded("C:\\Games\\plantsvszombies.exe", 260)));
    assert!(!is_game_image_name(&[0; 260]));
}

#[test]
fn game_window_is_recognised_by_its_title() {
    assert!(is_game_window_title(&padded("植物大战僵尸中文", 9)));
    assert!(is_game_window_title(&padded("植物大战僵尸", 9)));
    assert!(!is_game_window_title(&padded("植物大战", 9)));
    assert!(!is_game_window_title(&padded("Notepad", 9)));
}

#[test]
fn candidates_skip_zero_pids_in_order() {
    assert_eq!(candidate_pids(&[0, 4, 0, 0, 1200, 8, 0]), vec![4, 1200, 8]);
    assert_eq!(candidate_pids(&[0; 1024]), Vec::<u32>::new());
    assert_eq!(candidate_pids(&[]), Vec::<u32>::new());
}

#[test]
fn encoding_of_joined_texts_is_joined() {
    let mut joined = encode_wide("植物");
    joined.extend(encode_wide("a\u{1F600}"));
    assert_eq!(encode_wide("植物a\u{1F600}"), joined);
}

#[test]
fn terminator_is_the_only_zero_unit() {
    let units = encode_wide_nul(GAME_WINDOW_NAME);
    assert_eq!(units.last(), Some(&0));
    assert_eq!(units.iter().filter(|u| **u == 0).count(), 1);
    let units = encode_wide_nul("\u{10000}z");
    assert_eq!(units, vec![0xD800, 0xDC00, 0x7A, 0]);
}
