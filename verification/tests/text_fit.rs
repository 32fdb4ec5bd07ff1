use particles2d::config::{
    DEF_GUI_FONT_SZ, DEF_GUI_TXT_MAX_WIDTH, GUI_MINITEXT_FONT_SZ, GUI_MINITEXT_MAX_WIDTH,
};
use particles2d::gui::MiniText;
use particles2d::text::{fit_line, render_line};

#[test]
fn render_line_joins_name_and_value() {
    assert_eq!(render_line("pos", "1,2"), "pos: 1,2");
    assert_eq!(render_line("", ""), ": ");
}

#[test]
fn fit_line_keeps_a_fitting_line() {
    // Width grows 10 pixels a character; the whole line fits under the limit.
    let widths: Vec<u32> = vec![0, 10, 20, 30, 40, 50, 60];
    assert_eq!(fit_line("abcdef", &widths, 100), "abcdef");
}

#[test]
fn fit_line_drops_two_characters_at_a_time() {
    let widths: Vec<u32> = vec![0, 10, 20, 30, 40, 50, 60];
    // 60 and 50 measure over the limit; 40 is the first that fits.
    assert_eq!(fit_line("abcdef", &widths, 45), "abcd");
    // The limit itself counts as too wide.
    assert_eq!(fit_line("abcdef", &widths, 60), "abcd");
}

#[test]
fn fit_line_odd_length_drops_single_last_character() {
    let widths: Vec<u32> = vec![0, 10, 20, 30];
    // From one remaining character only that one can be dropped.
    assert_eq!(fit_line("abc", &widths, 15), "a");
    assert_eq!(fit_line("abc", &widths, 5), "");
}

#[test]
fn fit_line_pathological_width_stops_at_empty() {
    // Even the empty prefix measures over the limit: the line is cut to
    // nothing rather than underflowing or looping.
    let widths: Vec<u32> = vec![7, 7, 7];
    assert_eq!(fit_line("ab", &widths, 5), "");
    assert_eq!(fit_line("", &vec![7], 5), "");
}

#[test]
fn configured_sizes() {
    assert_eq!(DEF_GUI_TXT_MAX_WIDTH, 200);
    assert_eq!(DEF_GUI_FONT_SZ, 20);
    assert_eq!(GUI_MINITEXT_MAX_WIDTH, 100);
    assert_eq!(GUI_MINITEXT_FONT_SZ, 16);
    assert_eq!(MiniText::get_font_sz(), 16);
}
