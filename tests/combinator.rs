use orgize::combinator::{blank_lines, line_ends_iter, line_starts_iter, trim_line_end};
use orgize::config::ParseConfig;
use orgize::input::Input;
use orgize::text::chars_of;

fn s(i: &Input) -> String {
    i.s.iter().collect()
}

#[test]
fn test_blank_lines() {
    let config = &ParseConfig::default();

    let c = chars_of("");
    let (input, output) = blank_lines(Input::new(&c, config));
    assert_eq!(s(&input), "");
    assert_eq!(output.len(), 0);

    let c = chars_of("\n");
    let (input, output) = blank_lines(Input::new(&c, config));
    assert_eq!(s(&input), "");
    assert_eq!(output.len(), 1);
    assert_eq!(output[0].to_source(), "\n");

    let c = chars_of("    t");
    let (input, output) = blank_lines(Input::new(&c, config));
    assert_eq!(s(&input), "    t");
    assert_eq!(output.len(), 0);

    let c = chars_of("  \r\n\n\t\t\r\n  \n  ");
    let (input, output) = blank_lines(Input::new(&c, config));
    assert_eq!(s(&input), "");
    assert_eq!(output.len(), 5);
    assert_eq!(output[0].to_source(), "  \r\n");
    assert_eq!(output[1].to_source(), "\n");
    assert_eq!(output[2].to_source(), "\t\t\r\n");
    assert_eq!(output[3].to_source(), "  \n");
    assert_eq!(output[4].to_source(), "  ");

    let c = chars_of("\r\n\n\t\t\r\n  \n\r   \r   t\n  ");
    let (input, output) = blank_lines(Input::new(&c, config));
    assert_eq!(s(&input), "   t\n  ");
    assert_eq!(output.len(), 6);
    assert_eq!(output[0].to_source(), "\r\n");
    assert_eq!(output[1].to_source(), "\n");
    assert_eq!(output[2].to_source(), "\t\t\r\n");
    assert_eq!(output[3].to_source(), "  \n");
    assert_eq!(output[4].to_source(), "\r");
    assert_eq!(output[5].to_source(), "   \r");
}

#[test]
fn test_trim_line_end() {
    let config = &ParseConfig::default();

    let c = chars_of("");
    let (input, output) = trim_line_end(Input::new(&c, config));
    assert_eq!(s(&input), "");
    assert_eq!(s(&output.0), "");
    assert_eq!(s(&output.1), "");
    assert_eq!(s(&output.2), "");

    let c = chars_of("* hello, world :abc:");
    let (input, output) = trim_line_end(Input::new(&c, config));
    assert_eq!(s(&input), "");
    assert_eq!(s(&output.0), "* hello, world :abc:");
    assert_eq!(s(&output.1), "");
    assert_eq!(s(&output.2), "");

    let c = chars_of("* hello, world :abc:  \r\nrest\n");
    let (input, output) = trim_line_end(Input::new(&c, config));
    assert_eq!(s(&input), "rest\n");
    assert_eq!(s(&output.0), "* hello, world :abc:");
    assert_eq!(s(&output.1), "  ");
    assert_eq!(s(&output.2), "\r\n");
}

#[test]
fn line_positions() {
    let c = chars_of("ab\ncd\n\nef");
    assert_eq!(line_starts_iter(&c), vec![0, 3, 6, 7]);
    assert_eq!(line_ends_iter(&c), vec![3, 6, 7, 9]);
    let c = chars_of("");
    assert_eq!(line_starts_iter(&c), vec![0]);
    assert_eq!(line_ends_iter(&c), vec![0]);
}

#[test]
fn chars_and_strings() {
    let c = chars_of("a破\n");
    assert_eq!(c, vec!['a', '破', '\n']);
    assert_eq!(orgize::text::string_of(&c), "a破\n");
}

#[test]
fn trim_line_end_lone_cr() {
    let config = &ParseConfig::default();
    let c = chars_of("a\rb");
    let (input, output) = trim_line_end(Input::new(&c, config));
    assert_eq!(s(&input), "b");
    assert_eq!(s(&output.0), "a");
    assert_eq!(s(&output.1), "");
    assert_eq!(s(&output.2), "\r");
}
