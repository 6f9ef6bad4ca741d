use tm::palette::parse_palette;
use tm::template::{get_color_num, render_template, replace_all, substitute_line, TemplateError};
use tm::text::split_lines;

fn sixteen_colors() -> Vec<String> {
    let text = "#000000\n#ff0000\n#00ff00\n#ffff00\n#0000ff\n#ff00ff\n#00ffff\n#c0c0c0\n\
                #808080\n#800000\n#008000\n#808000\n#000080\n#800080\n#008080\n#ffffff\n";
    parse_palette(text)
}

fn letters(n: usize) -> Vec<String> {
    let mut v = Vec::new();
    for i in 0..n {
        v.push(format!("c{}", i));
    }
    v
}

#[test]
fn boundary_indices_scenario() {
    let colors = sixteen_colors();
    assert_eq!(colors.len(), 16);
    let out = substitute_line("background: X0; foreground: X15;", &colors).unwrap();
    assert_eq!(out, "background: #000000; foreground: #ffffff;");
}

#[test]
fn index_above_bound_is_kept() {
    let colors = sixteen_colors();
    let out = substitute_line("X16 should not substitute", &colors).unwrap();
    assert_eq!(out, "X16 should not substitute");
    let out = substitute_line("X99 and X42", &colors).unwrap();
    assert_eq!(out, "X99 and X42");
}

#[test]
fn two_digit_and_one_digit_indices() {
    let mut colors = letters(16);
    colors[9] = String::from("A");
    colors[10] = String::from("B");
    let out = substitute_line("color: X9 and X10", &colors).unwrap();
    assert_eq!(out, "color: A and B");
}

#[test]
fn palette_and_template_round_trip() {
    let colors = sixteen_colors();
    let out = render_template("first X0\nlast X15\nplain\n", &colors).unwrap();
    assert_eq!(out, "first #000000\nlast #ffffff\nplain\n");
}

#[test]
fn unmarked_line_unchanged() {
    let colors = letters(16);
    let line = "nothing to see here: 0 1 15 x7";
    assert_eq!(substitute_line(line, &colors).unwrap(), line);
    assert_eq!(substitute_line("", &colors).unwrap(), "");
    // no palette at all is fine where nothing is looked up
    assert_eq!(substitute_line(line, &Vec::new()).unwrap(), line);
}

#[test]
fn substitution_twice_is_substitution_once() {
    let colors = letters(16);
    let once = substitute_line("a X3 b X12 c", &colors).unwrap();
    assert_eq!(once, "a c3 b c12 c");
    let twice = substitute_line(&once, &colors).unwrap();
    assert_eq!(twice, once);
}

#[test]
fn marker_without_digit_is_literal() {
    let colors = letters(16);
    assert_eq!(substitute_line("XYZ X X-1 X", &colors).unwrap(), "XYZ X X-1 X");
    assert_eq!(substitute_line("XX5", &colors).unwrap(), "Xc5");
}

#[test]
fn greedy_two_digit_parse_leaves_third_digit() {
    let colors = letters(16);
    assert_eq!(substitute_line("X123", &colors).unwrap(), "c123");
    assert_eq!(substitute_line("X07", &colors).unwrap(), "c7");
}

#[test]
fn repeated_token_replaced_everywhere() {
    let colors = letters(16);
    assert_eq!(substitute_line("X2-X2-X2", &colors).unwrap(), "c2-c2-c2");
}

#[test]
fn shorter_token_replaced_inside_longer_one() {
    // "X1" is resolved first and its replacement also rewrites the front of "X12"
    let colors = letters(16);
    assert_eq!(substitute_line("X1 X12", &colors).unwrap(), "c1 c12");
    let mut colors = letters(16);
    colors[1] = String::from("A");
    colors[12] = String::from("B");
    assert_eq!(substitute_line("X1 X12", &colors).unwrap(), "A A2");
}

#[test]
fn short_palette_is_an_error() {
    let colors = letters(4);
    assert_eq!(
        substitute_line("ok X3 then X4", &colors),
        Err(TemplateError::MissingColor { index: 4 })
    );
    assert_eq!(
        substitute_line("X20 X9 X5", &colors),
        Err(TemplateError::MissingColor { index: 9 })
    );
    // an index above the bound is never looked up
    assert_eq!(substitute_line("X20 X3", &colors).unwrap(), "X20 c3");
}

#[test]
fn render_ends_every_line_with_newline() {
    let colors = letters(16);
    assert_eq!(render_template("X1", &colors).unwrap(), "c1\n");
    assert_eq!(render_template("", &colors).unwrap(), "");
    assert_eq!(render_template("a\r\n\nX2\n", &colors).unwrap(), "a\n\nc2\n");
    assert_eq!(
        render_template("X1\nX7\n", &letters(3)),
        Err(TemplateError::MissingColor { index: 7 })
    );
}

#[test]
fn palette_keeps_empty_lines_and_order() {
    let colors = parse_palette("red\n\nblue\r\ngreen");
    assert_eq!(colors, vec!["red", "", "blue", "green"]);
    assert_eq!(substitute_line("X1|X2|X3", &colors).unwrap(), "|blue|green");
    assert!(parse_palette("").is_empty());
}

#[test]
fn split_lines_follows_line_endings() {
    assert_eq!(split_lines("a\nb\n"), vec!["a", "b"]);
    assert_eq!(split_lines("a\r\nb\r"), vec!["a", "b\r"]);
    assert_eq!(split_lines("\n\n"), vec!["", ""]);
    assert_eq!(split_lines("only"), vec!["only"]);
    assert!(split_lines("").is_empty());
}

#[test]
fn color_numbers_found_left_to_right() {
    assert_eq!(get_color_num("X0 foo X15 XA X123 X"), vec!["0", "15", "12"]);
    assert_eq!(get_color_num("XX5X"), vec!["5"]);
    assert!(get_color_num("no markers").is_empty());
}

#[test]
fn replace_all_scans_without_overlap() {
    let pat: Vec<char> = "aa".chars().collect();
    assert_eq!(replace_all("aaaXaa", &pat, "b"), "baXb");
    let pat: Vec<char> = "X1".chars().collect();
    assert_eq!(replace_all("X1X12", &pat, "é"), "éé2");
    assert_eq!(replace_all("none", &pat, "z"), "none");
}
