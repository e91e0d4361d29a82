use egui::Color32;
use kahva::formatter::rules_are_drawable;
use kahva::formatter::ColorFormatter;
use kahva::formatter::LayoutJob;
use kahva::formatter::TextFormat;
use kahva::formatter::TextSection;
use kahva::recorder::FormatRecorder;
use kahva::rules::Rules;
use kahva::sanitize::write_all;
use kahva::sanitize::write_sanitized;
use kahva::style::color_to_egui;
use kahva::style::default_color;
use kahva::style::Color;
use kahva::style::Style;
use std::sync::Arc;

fn labels(names: &[&str]) -> Vec<String> {
    names.iter().map(|n| n.to_string()).collect()
}

fn plain() -> ColorFormatter {
    ColorFormatter::new(Arc::new(Vec::new()), false)
}

fn ranges(job: &LayoutJob) -> Vec<(usize, usize)> {
    job.sections.iter().map(|s| (s.start, s.end)).collect()
}

fn gray() -> TextFormat {
    TextFormat {
        color: Color32::from_rgb(160, 160, 160),
        background: None,
        italics: false,
        underline: None,
    }
}

#[test]
fn sanitizing_replaces_the_escape_byte_by_a_glyph() {
    let mut out = vec![b'>'];
    write_sanitized(&mut out, b"a\x1bb\x1b");
    assert_eq!(out, b">a\xe2\x90\x9bb\xe2\x90\x9b".to_vec());
    assert_eq!(String::from_utf8(out).unwrap(), ">a\u{241b}b\u{241b}");
}

#[test]
fn sanitizing_leaves_other_bytes_alone() {
    let mut out = Vec::new();
    write_sanitized(&mut out, b"plain \t text\n\x00\xff");
    assert_eq!(out, b"plain \t text\n\x00\xff".to_vec());
    write_sanitized(&mut out, b"");
    assert_eq!(out.len(), 15);
}

#[test]
fn writing_bytes_as_they_are_keeps_the_escape_byte() {
    let mut out = vec![1u8];
    write_all(&mut out, b"\x1b[0m");
    assert_eq!(out, vec![1u8, 0x1b, b'[', b'0', b'm']);
}

#[test]
fn every_line_is_a_run_of_its_own() {
    let mut formatter = plain();
    assert_eq!(formatter.write(b"line1\nline2"), 11);
    let job = formatter.take();
    assert_eq!(job.text, b"line1\nline2".to_vec());
    assert_eq!(ranges(&job), vec![(0, 5), (5, 6), (6, 11)]);
    assert!(job.sections.iter().all(|s| s.format == gray()));
}

#[test]
fn a_line_break_at_the_end_has_no_run() {
    let mut formatter = plain();
    formatter.write(b"line1\n");
    let job = formatter.take();
    assert_eq!(job.text, b"line1\n".to_vec());
    assert_eq!(ranges(&job), vec![(0, 5)]);
}

#[test]
fn a_line_break_by_itself_is_taken_out_too() {
    let mut formatter = plain();
    formatter.write(b"\n");
    let job = formatter.take();
    assert_eq!(job.text, b"\n".to_vec());
    assert!(job.sections.is_empty());
}

#[test]
fn a_last_run_longer_than_the_line_break_stays() {
    let mut formatter = plain();
    formatter.raw();
    formatter.write_raw(b"ab");
    formatter.write_raw(b"\n");
    let job = formatter.take();
    assert_eq!(job.text, b"ab\n".to_vec());
    assert_eq!(ranges(&job), vec![(0, 3)]);
}

#[test]
fn taking_starts_again() {
    let mut formatter = plain();
    formatter.write(b"one");
    let first = formatter.take();
    assert_eq!(first.text, b"one".to_vec());
    formatter.write(b"two");
    let second = formatter.take();
    assert_eq!(second.text, b"two".to_vec());
    assert_eq!(ranges(&second), vec![(0, 3)]);
    let third = formatter.take();
    assert!(third.text.is_empty() && third.sections.is_empty());
}

#[test]
fn nothing_written_gives_no_run() {
    let mut formatter = plain();
    assert_eq!(formatter.write(b""), 0);
    formatter.flush();
    let job = formatter.take();
    assert!(job.text.is_empty());
    assert!(job.sections.is_empty());
}

#[test]
fn the_escape_byte_never_reaches_the_text() {
    let mut formatter = plain();
    formatter.write(b"a\x1b[31mb");
    let job = formatter.take();
    assert_eq!(job.text, "a\u{241b}[31mb".as_bytes().to_vec());
    assert!(!job.text.contains(&0x1b));
}

#[test]
fn raw_bytes_are_not_sanitized() {
    let mut formatter = plain();
    formatter.raw();
    formatter.write_raw(b"\x1b[0m");
    let job = formatter.take();
    assert_eq!(job.text, b"\x1b[0m".to_vec());
}

#[test]
fn bytes_that_are_no_text_are_replaced() {
    let mut formatter = plain();
    formatter.write(b"a\xffb");
    let job = formatter.take();
    assert_eq!(job.text, "a\u{fffd}b".as_bytes().to_vec());
    assert_eq!(ranges(&job), vec![(0, 5)]);
}

#[test]
fn a_label_colors_its_text() {
    let rules: Rules = vec![(
        labels(&["error"]),
        Style { fg: Some(Color::Red), ..Style::default() },
    )];
    let mut formatter = ColorFormatter::new(Arc::new(rules), false);
    formatter.write(b"ok ");
    formatter.push_label("error");
    formatter.write(b"bad");
    formatter.pop_label();
    formatter.write(b" ok");
    let job = formatter.take();
    assert_eq!(job.text, b"ok bad ok".to_vec());
    assert_eq!(
        job.sections,
        vec![
            TextSection { start: 0, end: 3, format: gray() },
            TextSection {
                start: 3,
                end: 6,
                format: TextFormat { color: Color32::from_rgb(187, 0, 0), ..gray() },
            },
            TextSection { start: 6, end: 9, format: TextFormat { color: Color32::WHITE, ..gray() } },
        ]
    );
}

#[test]
fn italics_and_underline_follow_the_style() {
    let rules: Rules = vec![
        (labels(&["i"]), Style { italic: Some(true), ..Style::default() }),
        (labels(&["u"]), Style { underline: Some(true), ..Style::default() }),
        (labels(&["i", "off"]), Style { italic: Some(false), ..Style::default() }),
    ];
    let mut formatter = ColorFormatter::new(Arc::new(rules), false);
    formatter.push_label("i");
    formatter.write(b"a");
    formatter.push_label("u");
    formatter.write(b"b");
    formatter.push_label("off");
    formatter.write(b"c");
    formatter.finish();
    formatter.write(b"d");
    let job = formatter.take();
    let formats: Vec<TextFormat> = job.sections.iter().map(|s| s.format).collect();
    assert_eq!(
        formats,
        vec![
            TextFormat { italics: true, ..gray() },
            TextFormat { italics: true, underline: Some(Color32::WHITE), ..gray() },
            TextFormat { italics: false, underline: Some(Color32::WHITE), ..gray() },
            gray(),
        ]
    );
}

#[test]
fn the_background_leaves_the_color_of_the_text_alone() {
    let rules: Rules = vec![
        (labels(&["a"]), Style { fg: Some(Color::Red), ..Style::default() }),
        (labels(&["b"]), Style { bg: Some(Color::Blue), ..Style::default() }),
        (labels(&["c"]), Style { bg: Some(Color::Reset), ..Style::default() }),
    ];
    let mut formatter = ColorFormatter::new(Arc::new(rules), false);
    formatter.push_label("a");
    formatter.write(b"w");
    formatter.push_label("b");
    formatter.write(b"x");
    formatter.push_label("c");
    formatter.write(b"y");
    formatter.pop_label();
    formatter.pop_label();
    formatter.write(b"z");
    let job = formatter.take();
    let red = Color32::from_rgb(187, 0, 0);
    let formats: Vec<TextFormat> = job.sections.iter().map(|s| s.format).collect();
    assert_eq!(
        formats,
        vec![
            TextFormat { color: red, ..gray() },
            TextFormat { color: red, background: Some(Color32::from_rgb(0, 0, 187)), ..gray() },
            TextFormat { color: red, background: None, ..gray() },
            TextFormat { color: red, background: None, ..gray() },
        ]
    );
}

#[test]
fn the_foreground_leaves_the_background_alone() {
    let rules: Rules = vec![
        (labels(&["b"]), Style { bg: Some(Color::Green), ..Style::default() }),
        (labels(&["b", "f"]), Style { fg: Some(Color::Cyan), ..Style::default() }),
    ];
    let mut formatter = ColorFormatter::new(Arc::new(rules), false);
    formatter.push_label("b");
    formatter.write(b"x");
    formatter.push_label("f");
    formatter.write(b"y");
    formatter.pop_label();
    formatter.write(b"z");
    let job = formatter.take();
    let green = Some(Color32::from_rgb(0, 187, 0));
    let formats: Vec<TextFormat> = job.sections.iter().map(|s| s.format).collect();
    assert_eq!(
        formats,
        vec![
            TextFormat { background: green, ..gray() },
            TextFormat { color: Color32::from_rgb(0, 187, 187), background: green, ..gray() },
            TextFormat { color: Color32::WHITE, background: green, ..gray() },
        ]
    );
}

#[test]
fn a_table_with_a_palette_color_is_taken_as_it_is() {
    let rules: Rules = vec![
        (labels(&["never"]), Style { fg: Some(Color::AnsiValue(81)), ..Style::default() }),
        (labels(&["ok"]), Style { fg: Some(Color::Red), ..Style::default() }),
    ];
    let mut formatter = ColorFormatter::new(Arc::new(rules), true);
    assert!(formatter.can_restyle());
    assert!(formatter.can_clear());
    assert!(formatter.can_write(b"a\nb"));
    formatter.push_label("ok");
    assert!(formatter.can_write(b"x"));
    formatter.write(b"x");
    assert!(!formatter.can_pop_label() || formatter.can_clear());
    formatter.pop_label();
    let job = formatter.take();
    assert_eq!(String::from_utf8(job.text).unwrap(), "<<ok::x>>");
}

#[test]
fn a_style_with_a_palette_color_cannot_be_applied() {
    let rules: Rules = vec![
        (labels(&["p"]), Style { bg: Some(Color::AnsiValue(3)), ..Style::default() }),
        (labels(&[]), Style { italic: Some(true), ..Style::default() }),
    ];
    let mut formatter = ColorFormatter::new(Arc::new(rules), false);
    formatter.push_label("p");
    assert_eq!(
        formatter.requested_style(),
        Style { bg: Some(Color::AnsiValue(3)), italic: Some(true), ..Style::default() }
    );
    assert!(!formatter.can_restyle());
    assert!(formatter.can_clear());
    assert!(!formatter.can_write(b"x"));
    assert!(formatter.can_write(b""));
    assert!(formatter.can_pop_label());
    formatter.push_label("q");
    assert!(formatter.can_pop_label());
    formatter.pop_label();
    formatter.pop_label();
    assert!(formatter.can_write(b"x\n"));
    formatter.write(b"x\n");
    assert_eq!(formatter.take().text, b"x\n".to_vec());

    let undrawable_everywhere: Rules =
        vec![(labels(&[]), Style { fg: Some(Color::AnsiValue(1)), ..Style::default() })];
    let mut stuck = ColorFormatter::new(Arc::new(undrawable_everywhere), false);
    assert!(!stuck.can_clear());
    assert!(!stuck.can_pop_label());
    stuck.push_label("a");
    stuck.push_label("b");
    assert!(stuck.can_pop_label());
    stuck.pop_label();
    assert!(!stuck.can_pop_label());
    assert!(stuck.take().text.is_empty());
}

#[test]
fn a_recording_is_replayed_up_to_the_step_that_cannot_be_done() {
    let rules: Rules =
        vec![(labels(&["p"]), Style { fg: Some(Color::AnsiValue(9)), ..Style::default() })];
    let mut msg = FormatRecorder::new();
    msg.write_all(b"a");
    msg.push_label("p");
    msg.write_all(b"b");
    msg.pop_label();
    msg.write_all(b"c");
    let mut formatter = ColorFormatter::new(Arc::new(rules), false);
    assert!(!msg.replay(&mut formatter));
    assert_eq!(formatter.take().text, b"a".to_vec());

    let mut plain_formatter = plain();
    assert!(msg.replay(&mut plain_formatter));
    assert_eq!(plain_formatter.take().text, b"abc".to_vec());
}

#[test]
fn switching_bold_off_starts_the_format_again() {
    let rules: Rules = vec![
        (
            labels(&["a"]),
            Style { bold: Some(true), italic: Some(true), fg: Some(Color::Green), ..Style::default() },
        ),
        (labels(&["b"]), Style { italic: Some(true), ..Style::default() }),
    ];
    let mut formatter = ColorFormatter::new(Arc::new(rules), false);
    formatter.push_label("a");
    formatter.write(b"x");
    formatter.pop_label();
    formatter.push_label("b");
    formatter.write(b"y");
    let job = formatter.take();
    let formats: Vec<TextFormat> = job.sections.iter().map(|s| s.format).collect();
    assert_eq!(
        formats,
        vec![
            TextFormat { color: Color32::from_rgb(0, 187, 0), italics: true, ..gray() },
            TextFormat { italics: true, ..gray() },
        ]
    );
}

#[test]
fn labels_are_announced_when_asked_for() {
    let mut formatter = ColorFormatter::new(Arc::new(Vec::new()), true);
    formatter.push_label("a");
    formatter.write(b"x");
    formatter.push_label("b");
    formatter.write(b"y");
    formatter.pop_label();
    formatter.pop_label();
    let job = formatter.take();
    assert_eq!(String::from_utf8(job.text).unwrap(), "<<a::x>><<a b::y>>");
}

#[test]
fn labels_are_not_announced_by_default() {
    let mut formatter = plain();
    formatter.push_label("a");
    formatter.write(b"x");
    formatter.pop_label();
    let job = formatter.take();
    assert_eq!(job.text, b"x".to_vec());
}

#[test]
fn closing_a_label_that_is_not_open_is_harmless() {
    let mut formatter = plain();
    formatter.pop_label();
    formatter.pop_label();
    formatter.write(b"x");
    formatter.pop_label();
    formatter.push_label("a");
    formatter.write(b"y");
    let job = formatter.take();
    assert_eq!(job.text, b"xy".to_vec());
    assert_eq!(ranges(&job), vec![(0, 1), (1, 2)]);
}

#[test]
fn finishing_closes_every_label() {
    let rules: Rules = vec![(
        labels(&["a"]),
        Style { fg: Some(Color::Red), ..Style::default() },
    )];
    let mut formatter = ColorFormatter::new(Arc::new(rules), false);
    formatter.push_label("a");
    formatter.push_label("b");
    formatter.write(b"x");
    formatter.finish();
    assert_eq!(formatter.requested_style(), Style::default());
    formatter.write(b"y");
    let job = formatter.take();
    let colors: Vec<Color32> = job.sections.iter().map(|s| s.format.color).collect();
    assert_eq!(colors, vec![Color32::from_rgb(187, 0, 0), Color32::WHITE]);
}

#[test]
fn asking_twice_for_a_style_gives_the_same_style() {
    let rules: Rules = vec![
        (labels(&["a"]), Style { fg: Some(Color::Red), ..Style::default() }),
        (labels(&["a", "b"]), Style { bold: Some(true), ..Style::default() }),
    ];
    let mut formatter = ColorFormatter::new(Arc::new(rules), false);
    formatter.push_label("a");
    formatter.push_label("b");
    let first = formatter.requested_style();
    let second = formatter.requested_style();
    assert_eq!(first, second);
    assert_eq!(first, Style { fg: Some(Color::Red), bold: Some(true), ..Style::default() });
    formatter.pop_label();
    assert_eq!(
        formatter.requested_style(),
        Style { fg: Some(Color::Red), ..Style::default() }
    );
    formatter.push_label("b");
    assert_eq!(formatter.requested_style(), first);
}

#[test]
fn a_recording_is_replayed_in_order() {
    let rules: Rules = vec![(
        labels(&["elided"]),
        Style { fg: Some(Color::DarkGrey), ..Style::default() },
    )];
    let mut msg = FormatRecorder::new();
    msg.write_all(b"o ");
    msg.push_label("elided");
    msg.write_all(b"(elided revisions)");
    msg.pop_label();
    msg.raw(b"\x1b");
    let mut formatter = ColorFormatter::new(Arc::new(rules), false);
    assert!(msg.replay(&mut formatter));
    let job = formatter.take();
    assert_eq!(job.text, b"o (elided revisions)\x1b".to_vec());
    assert_eq!(ranges(&job), vec![(0, 2), (2, 20), (20, 21)]);
    assert_eq!(job.sections[1].format.color, Color32::from_rgb(85, 85, 85));

    let copy = msg.clone();
    assert_eq!(copy.len(), 5);
    let mut again = ColorFormatter::new(Arc::new(Vec::new()), false);
    assert!(copy.replay(&mut again));
    assert_eq!(again.take().text, b"o (elided revisions)\x1b".to_vec());
}

#[test]
fn colors_are_drawn_as_listed() {
    assert_eq!(color_to_egui(Color::Black), Color32::from_rgb(0, 0, 0));
    assert_eq!(color_to_egui(Color::Red), Color32::from_rgb(187, 0, 0));
    assert_eq!(color_to_egui(Color::Green), Color32::from_rgb(0, 187, 0));
    assert_eq!(color_to_egui(Color::Yellow), Color32::from_rgb(187, 187, 0));
    assert_eq!(color_to_egui(Color::Blue), Color32::from_rgb(0, 0, 187));
    assert_eq!(color_to_egui(Color::Magenta), Color32::from_rgb(187, 0, 187));
    assert_eq!(color_to_egui(Color::Cyan), Color32::from_rgb(0, 187, 187));
    assert_eq!(color_to_egui(Color::Grey), Color32::from_rgb(85, 85, 85));
    assert_eq!(color_to_egui(Color::DarkGrey), Color32::from_rgb(85, 85, 85));
    assert_eq!(color_to_egui(Color::DarkRed), Color32::from_rgb(255, 85, 85));
    assert_eq!(color_to_egui(Color::DarkGreen), Color32::from_rgb(85, 255, 85));
    assert_eq!(color_to_egui(Color::DarkBlue), Color32::from_rgb(85, 85, 255));
    assert_eq!(color_to_egui(Color::DarkMagenta), Color32::from_rgb(255, 85, 255));
    assert_eq!(color_to_egui(Color::DarkCyan), Color32::from_rgb(85, 255, 255));
    assert_eq!(color_to_egui(Color::DarkYellow), Color32::from_rgb(187, 187, 0));
    assert_eq!(color_to_egui(Color::White), Color32::from_rgb(255, 255, 255));
    assert_eq!(color_to_egui(Color::Reset), Color32::WHITE);
    assert_eq!(color_to_egui(Color::Rgb { r: 1, g: 2, b: 3 }), Color32::from_rgb(1, 2, 3));
    assert_eq!(default_color(), Color32::from_rgb(255, 255, 255));
}

#[test]
fn the_default_format_is_that_of_the_toolkit() {
    let format = TextFormat::default();
    assert_eq!(format.color, egui::TextFormat::default().color);
    assert_eq!(format.background, None);
    assert_eq!(format, gray());
}

#[test]
fn a_palette_color_cannot_be_drawn() {
    let good: Rules = vec![(labels(&["a"]), Style { fg: Some(Color::Red), ..Style::default() })];
    let bad_fg: Rules =
        vec![(labels(&["a"]), Style { fg: Some(Color::AnsiValue(3)), ..Style::default() })];
    let bad_bg: Rules = vec![
        (labels(&["a"]), Style::default()),
        (labels(&["b"]), Style { bg: Some(Color::AnsiValue(200)), ..Style::default() }),
    ];
    assert!(rules_are_drawable(&good));
    assert!(rules_are_drawable(&Vec::new()));
    assert!(!rules_are_drawable(&bad_fg));
    assert!(!rules_are_drawable(&bad_bg));
}

#[test]
fn a_writer_and_a_job_can_be_copied() {
    let mut formatter = plain();
    formatter.push_label("a");
    formatter.write(b"one");
    let mut copy = formatter.clone();
    copy.write(b"two");
    let job = copy.take();
    assert_eq!(job.text, b"onetwo".to_vec());
    let again = job.clone();
    assert_eq!(again.text, job.text);
    assert_eq!(again.sections, job.sections);
    assert_eq!(formatter.take().text, b"one".to_vec());
}

#[test]
fn a_job_appends_runs() {
    let mut job = LayoutJob::new();
    job.append(b"ab", gray());
    job.append(b"", gray());
    job.append(b"cde", TextFormat { italics: true, ..gray() });
    assert_eq!(job.text, b"abcde".to_vec());
    assert_eq!(ranges(&job), vec![(0, 2), (2, 2), (2, 5)]);
    assert!(job.sections[2].format.italics);
}
