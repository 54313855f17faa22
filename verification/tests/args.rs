use block_mosaic::args::{default_output_name, normalize_scale, trim_func};

#[test]
fn trim_func_takes_blanks_and_quotes() {
    for c in [' ', '\t', '\'', '"', '\n'] {
        assert!(trim_func(c), "{:?}", c);
    }
}

#[test]
fn trim_func_leaves_other_characters() {
    for c in ['a', 'Z', '0', '.', '/', '-', '_', '\r', '`', '\u{a0}'] {
        assert!(!trim_func(c), "{:?}", c);
    }
}

#[test]
fn trim_func_trims_a_quoted_name() {
    assert_eq!(" \"my picture.png\"\n".trim_matches(trim_func), "my picture.png");
}

#[test]
fn normalize_scale_turns_nought_into_one() {
    assert_eq!(normalize_scale(0), 1);
}

#[test]
fn normalize_scale_keeps_every_other_scale() {
    assert_eq!(normalize_scale(1), 1);
    assert_eq!(normalize_scale(7), 7);
    assert_eq!(normalize_scale(u32::MAX), u32::MAX);
}

#[test]
fn default_output_name_puts_the_prefix_before_the_file_name() {
    assert_eq!(default_output_name("cat.png"), "./pixelart_cat.png");
}

#[test]
fn default_output_name_of_no_file_name_is_the_prefix() {
    assert_eq!(default_output_name(""), "./pixelart_");
}

#[test]
fn default_output_name_keeps_what_is_not_ascii() {
    assert_eq!(default_output_name("b\u{e4}r 1.jpg"), "./pixelart_b\u{e4}r 1.jpg");
}
