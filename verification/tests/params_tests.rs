use chromashell::params::{parse_field, parse_params};
use chromashell::sgr::select_graphic_rendition;

#[test]
fn fields_are_split_and_empty_ones_dropped() {
    assert_eq!(parse_params(&b"1;;2".to_vec()), vec![1, 2]);
    assert_eq!(parse_params(&b";5".to_vec()), vec![5]);
    assert_eq!(parse_params(&b"".to_vec()), Vec::<usize>::new());
    assert_eq!(parse_params(&b";".to_vec()), Vec::<usize>::new());
    assert_eq!(parse_params(&b"38;2;10;20;30".to_vec()), vec![38, 2, 10, 20, 30]);
}

#[test]
fn unreadable_fields_count_as_zero() {
    assert_eq!(parse_params(&b"?25".to_vec()), vec![0]);
    assert_eq!(parse_params(&b"-5;7".to_vec()), vec![0, 7]);
    assert_eq!(parse_params(&b"+".to_vec()), vec![0]);
    assert_eq!(parse_params(&b"1:2".to_vec()), vec![0]);
    assert_eq!(parse_params(&b"99999999999999999999999".to_vec()), vec![0]);
}

#[test]
fn plus_sign_and_leading_zeros() {
    assert_eq!(parse_params(&b"+5".to_vec()), vec![5]);
    assert_eq!(parse_params(&b"007".to_vec()), vec![7]);
    assert_eq!(parse_params(&b"++5".to_vec()), vec![0]);
}

#[test]
fn field_reads_like_from_str() {
    let s = b"x123y".to_vec();
    assert_eq!(parse_field(&s, 1, 4), 123);
    assert_eq!(parse_field(&s, 0, 4), 0);
    assert_eq!(parse_field(&s, 2, 2), 0);
    let max = usize::MAX.to_string().into_bytes();
    assert_eq!(parse_field(&max, 0, max.len()), usize::MAX);
}

#[test]
fn sgr_reset_and_codes() {
    let fg = (1, 2, 3);
    assert_eq!(select_graphic_rendition(fg, &vec![]), (200, 200, 200));
    assert_eq!(select_graphic_rendition(fg, &vec![0]), (200, 200, 200));
    assert_eq!(select_graphic_rendition(fg, &vec![1]), (1, 2, 3));
    assert_eq!(select_graphic_rendition(fg, &vec![30]), (0, 0, 0));
    assert_eq!(select_graphic_rendition(fg, &vec![33]), (229, 229, 16));
    assert_eq!(select_graphic_rendition(fg, &vec![35]), (188, 63, 188));
    assert_eq!(select_graphic_rendition(fg, &vec![36]), (17, 168, 205));
    assert_eq!(select_graphic_rendition(fg, &vec![37]), (200, 200, 200));
    assert_eq!(select_graphic_rendition(fg, &vec![39]), (200, 200, 200));
    assert_eq!(select_graphic_rendition(fg, &vec![90]), (100, 100, 100));
    assert_eq!(select_graphic_rendition(fg, &vec![91]), (255, 80, 80));
    assert_eq!(select_graphic_rendition(fg, &vec![92]), (80, 255, 80));
    assert_eq!(select_graphic_rendition(fg, &vec![93]), (255, 255, 80));
    assert_eq!(select_graphic_rendition(fg, &vec![94]), (80, 80, 255));
    assert_eq!(select_graphic_rendition(fg, &vec![95]), (255, 80, 255));
    assert_eq!(select_graphic_rendition(fg, &vec![96]), (80, 255, 255));
    assert_eq!(select_graphic_rendition(fg, &vec![41]), (1, 2, 3));
}

#[test]
fn sgr_extended_colours() {
    let fg = (1, 2, 3);
    assert_eq!(select_graphic_rendition(fg, &vec![38, 2, 256, 257, 511]), (0, 1, 255));
    assert_eq!(select_graphic_rendition(fg, &vec![38, 5, 31]), (1, 2, 3));
    assert_eq!(select_graphic_rendition(fg, &vec![38, 5, 31, 31]), (205, 49, 49));
    assert_eq!(select_graphic_rendition(fg, &vec![38, 5]), (1, 2, 3));
    assert_eq!(select_graphic_rendition(fg, &vec![38, 2, 9, 9, 9, 32]), (13, 188, 121));
}
