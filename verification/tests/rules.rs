use kahva::rules::key_less;
use kahva::rules::match_rule;
use kahva::rules::resolve;
use kahva::rules::Rules;
use kahva::style::Color;
use kahva::style::Style;

fn labels(names: &[&str]) -> Vec<String> {
    names.iter().map(|n| n.to_string()).collect()
}

fn fg(color: Color) -> Style {
    Style { fg: Some(color), ..Style::default() }
}

#[test]
fn merge_overrides_what_is_set_and_keeps_what_is_open() {
    let mut style = Style { fg: None, bold: Some(true), ..Style::default() };
    style.merge(&Style { fg: Some(Color::Red), ..Style::default() });
    assert_eq!(style, Style { fg: Some(Color::Red), bold: Some(true), ..Style::default() });
}

#[test]
fn merge_is_associative() {
    let a = Style { fg: Some(Color::Red), bold: Some(true), ..Style::default() };
    let b = Style { fg: Some(Color::Blue), italic: Some(false), ..Style::default() };
    let c = Style { bg: Some(Color::Green), italic: Some(true), bold: None, ..Style::default() };

    let mut left = a;
    left.merge(&b);
    left.merge(&c);

    let mut bc = b;
    bc.merge(&c);
    let mut right = a;
    right.merge(&bc);

    assert_eq!(left, right);
    assert_eq!(
        left,
        Style {
            fg: Some(Color::Blue),
            bg: Some(Color::Green),
            bold: Some(true),
            italic: Some(true),
            underline: None,
        }
    );
}

#[test]
fn merging_the_open_style_changes_nothing() {
    let a = Style { underline: Some(false), bg: Some(Color::Rgb { r: 1, g: 2, b: 3 }), ..Style::default() };
    let mut left = a;
    left.merge(&Style::default());
    assert_eq!(left, a);
    let mut right = Style::default();
    right.merge(&a);
    assert_eq!(right, a);
    assert!(a.same(&right));
    assert!(!a.same(&Style::default()));
}

#[test]
fn a_rule_matches_a_subsequence_of_the_stack() {
    let stack = labels(&["a", "b", "c", "d"]);
    assert_eq!(match_rule(&labels(&["a", "d"]), &stack), Some(vec![3, 0]));
    assert_eq!(match_rule(&labels(&["d"]), &stack), Some(vec![3]));
    assert_eq!(match_rule(&labels(&["a", "b", "c"]), &stack), Some(vec![2, 1, 0]));
    assert_eq!(match_rule(&labels(&[]), &stack), Some(vec![]));
    assert_eq!(match_rule(&labels(&["d", "a"]), &stack), None);
    assert_eq!(match_rule(&labels(&["a", "a"]), &stack), None);
    assert_eq!(match_rule(&labels(&["e"]), &stack), None);
    assert_eq!(match_rule(&labels(&["a"]), &labels(&[])), None);
}

#[test]
fn a_label_is_found_at_its_earliest_place() {
    let stack = labels(&["a", "b", "a", "b"]);
    assert_eq!(match_rule(&labels(&["a", "b"]), &stack), Some(vec![1, 0]));
    assert_eq!(match_rule(&labels(&["b", "a"]), &stack), Some(vec![2, 1]));
    assert_eq!(match_rule(&labels(&["b", "b"]), &stack), Some(vec![3, 1]));
    assert_eq!(match_rule(&labels(&["a", "b", "a", "b"]), &stack), Some(vec![3, 2, 1, 0]));
    assert_eq!(match_rule(&labels(&["b", "a", "a"]), &stack), None);
}

#[test]
fn keys_are_ordered_lexicographically() {
    assert!(key_less(&vec![3], &vec![3, 0]));
    assert!(key_less(&vec![2, 1, 0], &vec![3]));
    assert!(key_less(&vec![2, 1, 0], &vec![3, 0]));
    assert!(key_less(&vec![], &vec![0]));
    assert!(!key_less(&vec![3, 0], &vec![3]));
    assert!(!key_less(&vec![3, 0], &vec![3, 0]));
    assert!(!key_less(&vec![], &vec![]));
    assert!(!key_less(&vec![4], &vec![3, 9, 9]));
}

#[test]
fn rules_are_applied_by_key_and_then_in_the_order_of_the_table() {
    let flag = |bold: bool, italic: Option<bool>, underline: Option<bool>| Style {
        bold: Some(bold),
        italic,
        underline,
        ..Style::default()
    };
    let rules: Rules = vec![
        (labels(&["c"]), flag(true, Some(true), None)),
        (labels(&["a", "b"]), flag(false, Some(false), Some(true))),
        (labels(&["c"]), flag(false, None, None)),
        (labels(&[]), Style { fg: Some(Color::Red), underline: Some(false), ..Style::default() }),
        (labels(&["a", "b"]), Style { fg: Some(Color::Blue), ..Style::default() }),
    ];
    assert_eq!(
        resolve(&labels(&["a", "b", "c"]), &rules),
        Style {
            fg: Some(Color::Blue),
            bg: None,
            bold: Some(false),
            italic: Some(true),
            underline: Some(true),
        }
    );
}

#[test]
fn the_rule_with_the_deepest_labels_wins() {
    let s1 = fg(Color::Red);
    let s2 = Style { fg: Some(Color::Green), italic: Some(true), ..Style::default() };
    let s3 = Style { fg: Some(Color::Blue), bold: Some(true), italic: Some(false), ..Style::default() };
    let stack = labels(&["a", "b", "c", "d"]);
    let expected = Style {
        fg: Some(Color::Red),
        bg: None,
        bold: Some(true),
        italic: Some(true),
        underline: None,
    };
    let tables: Vec<Rules> = vec![
        vec![(labels(&["a", "d"]), s1), (labels(&["d"]), s2), (labels(&["a", "b", "c"]), s3)],
        vec![(labels(&["d"]), s2), (labels(&["a", "b", "c"]), s3), (labels(&["a", "d"]), s1)],
        vec![(labels(&["a", "b", "c"]), s3), (labels(&["a", "d"]), s1), (labels(&["d"]), s2)],
    ];
    for rules in tables.iter() {
        assert_eq!(resolve(&stack, rules), expected);
    }
}

#[test]
fn of_two_rules_with_the_same_key_the_later_wins() {
    let rules: Rules = vec![
        (labels(&["a"]), Style { fg: Some(Color::Red), bold: Some(true), ..Style::default() }),
        (labels(&["a"]), fg(Color::Blue)),
    ];
    assert_eq!(
        resolve(&labels(&["a"]), &rules),
        Style { fg: Some(Color::Blue), bold: Some(true), ..Style::default() }
    );
}

#[test]
fn no_matching_rule_gives_the_open_style() {
    let rules: Rules = vec![(labels(&["a", "b"]), fg(Color::Red))];
    assert_eq!(resolve(&labels(&["b", "a"]), &rules), Style::default());
    assert_eq!(resolve(&labels(&[]), &rules), Style::default());
    assert_eq!(resolve(&labels(&["a"]), &Vec::new()), Style::default());
}

#[test]
fn a_rule_without_labels_applies_to_every_stack() {
    let rules: Rules = vec![(labels(&["a"]), fg(Color::Red)), (labels(&[]), Style {
        fg: Some(Color::Blue),
        underline: Some(true),
        ..Style::default()
    })];
    assert_eq!(
        resolve(&labels(&[]), &rules),
        Style { fg: Some(Color::Blue), underline: Some(true), ..Style::default() }
    );
    assert_eq!(
        resolve(&labels(&["a"]), &rules),
        Style { fg: Some(Color::Red), underline: Some(true), ..Style::default() }
    );
}

#[test]
fn resolving_is_repeatable() {
    let rules: Rules = vec![
        (labels(&["x", "y"]), fg(Color::Cyan)),
        (labels(&["y"]), Style { bg: Some(Color::Black), ..Style::default() }),
    ];
    let stack = labels(&["x", "y", "x", "y"]);
    let first = resolve(&stack, &rules);
    assert_eq!(first, resolve(&stack, &rules));
    assert_eq!(first, Style { fg: Some(Color::Cyan), bg: Some(Color::Black), ..Style::default() });
}
