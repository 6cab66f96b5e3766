use jtools::error_display::ErrorDisplay;
use jtools::error_preview::ErrorPreview;
use jtools::previewer::{Previewer, Visitor};
use jtools::scanner::Scanner;
use jtools::text::{decimal, spaces};

#[test]
fn error_display_display_error() {
    let source = "{ \"error\": bad }";
    let ed = ErrorDisplay;

    assert_eq!(
        "\n  |\n  |\n1 |{ \"error\": bad }\n  |           ^___\n  |",
        ed.preview(source, 11, 13, 1)
    );
}

#[test]
fn error_preview_display_error() {
    let source = "{ \"error\": bad }";
    let ep = ErrorPreview;

    assert_eq!(
        "\n  |\n  |\n1 |{ \"error\": bad }\n  |           ^---Column=12\n  |",
        ep.preview(source, 11, 12, 1)
    );
}

#[test]
fn visit_scanner() {
    let source = "[true]";
    let s = Scanner::new(source);

    let p = Previewer;

    assert_eq!("", p.visit_scanner(&s))
}

#[test]
fn previewer_shows_the_lexeme() {
    let source = "[\"🐶\", true]";
    let mut s = Scanner::new(source);
    let _ = s.scan();
    s.start = 1;
    s.current = 7;

    assert_eq!("\"🐶\"", Previewer.visit_scanner(&s));
    assert_eq!("true", Previewer.preview(source, 9, 13));
}

#[test]
fn preview_marks_lines_above_and_below() {
    let source = "[\n  1,\n  @,\n  2\n]";

    assert_eq!(
        "\n +|\n  |\n3 |@,\n  |^---Column=3\n +|",
        ErrorPreview.preview(source, 9, 3, 3)
    );
}

#[test]
fn preview_marks_the_lines_above_an_error_at_the_first_column() {
    assert_eq!(
        "\n +|\n  |\n2 |b\n  |^---Column=1\n  |",
        ErrorPreview.preview("a\nb", 2, 1, 2)
    );
    assert_eq!(
        "\n +|\n  |\n2 |b\n  |^___\n  |",
        ErrorDisplay.preview("a\nb", 2, 1, 2)
    );
    assert_eq!(
        "\n +|\n  |\n2 |@\n  |^---Column=1\n +|",
        ErrorPreview.preview("[\n@\n]", 2, 1, 2)
    );
    assert_eq!(
        "\n +|\n  |\n2 |\n  |^---Column=1\n  |",
        ErrorPreview.preview("\n", 1, 1, 2)
    );
}

#[test]
fn preview_marks_no_line_above_the_first_line() {
    assert_eq!(
        "\n  |\n  |\n1 |a\n  |^---Column=1\n +|",
        ErrorPreview.preview("a\nb", 0, 1, 1)
    );
    assert_eq!(
        "\n  |\n  |\n1 |a\n  | ^---Column=2\n +|",
        ErrorPreview.preview("a\nb", 1, 2, 1)
    );
}

#[test]
fn preview_marks_a_line_below_only_if_it_is_not_the_last_line_end() {
    assert_eq!(
        "\n  |\n  |\n1 |@\n  |^---Column=1\n  |",
        ErrorPreview.preview("@\n", 0, 1, 1)
    );
    assert_eq!(
        "\n  |\n  |\n1 |@\n  |^---Column=1\n +|",
        ErrorPreview.preview("@\n\n", 0, 1, 1)
    );
    assert_eq!(
        "\n +|\n  |\n3 |@\n  |^---Column=1\n  |",
        ErrorPreview.preview("\n\n@", 2, 1, 3)
    );
}

#[test]
fn preview_is_bounded_on_both_sides() {
    let before = "a".repeat(40);
    let after = "b".repeat(40);
    let source = format!("{}{}", before, after);

    assert_eq!(
        format!(
            "\n  |\n  |\n1 |{}{}\n  |{}^---Column=41\n  |",
            "a".repeat(32),
            "b".repeat(32),
            " ".repeat(32)
        ),
        ErrorPreview.preview(&source, 40, 41, 1)
    );
    assert_eq!(
        format!(
            "\n  |\n  |\n1 |{}{}\n  |{}^___\n  |",
            "a".repeat(40),
            "b".repeat(40),
            " ".repeat(40)
        ),
        ErrorDisplay.preview(&source, 40, 41, 1)
    );
}

#[test]
fn preview_drops_white_space_at_both_ends() {
    assert_eq!(
        "\n  |\n  |\n1 |\"a\": @\n  |     ^---Column=9\n  |",
        ErrorPreview.preview("  \t\"a\": @ \t ", 8, 9, 1)
    );
    assert_eq!(
        "\n  |\n  |\n1 |x@y\n  | ^---Column=3\n  |",
        ErrorPreview.preview("\u{a0}x@y\u{2003}", 3, 3, 1)
    );
}

#[test]
fn preview_places_the_caret_by_display_width() {
    assert_eq!(
        "\n  |\n  |\n1 |\"你好\" @\n  |       ^---Column=6\n  |",
        ErrorPreview.preview("\"你好\" @", 9, 6, 1)
    );
}

#[test]
fn preview_indents_by_the_width_of_the_line_number() {
    assert_eq!(
        "\n    |\n    |\n120 |@\n    |^---Column=1\n    |",
        ErrorPreview.preview("@", 0, 1, 120)
    );
}

#[test]
fn preview_at_the_end_of_the_source() {
    assert_eq!(
        "\n  |\n  |\n1 |[1\n  |  ^---Column=3\n  |",
        ErrorPreview.preview("[1", 2, 3, 1)
    );
    assert_eq!(
        "\n  |\n  |\n1 |\n  |^---Column=1\n  |",
        ErrorPreview.preview("", 0, 1, 1)
    );
}

#[test]
fn decimal_writes_numbers_in_base_ten() {
    assert_eq!("0", decimal(0));
    assert_eq!("7", decimal(7));
    assert_eq!("10", decimal(10));
    assert_eq!("4096", decimal(4096));
    assert_eq!(usize::MAX.to_string(), decimal(usize::MAX));
}

#[test]
fn spaces_are_as_many_as_asked_for() {
    assert_eq!("", spaces(0));
    assert_eq!("   ", spaces(3));
}
