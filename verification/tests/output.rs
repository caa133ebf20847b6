use diceroll::average::calculate_average;
use diceroll::notation::{parse_notation, DieSides};
use diceroll::render::{
    format_average, format_die, perform_roll, render_average_report, render_report,
    render_roll_header, render_value_list,
};
use diceroll::rolling::{evaluate, KeepRule, RollOptions};
use diceroll::sorting::{sort_asc, sort_desc};

#[test]
fn formats_standard_die_values() {
    assert_eq!(format_die(5, &DieSides::Standard(6)), "5");
    assert_eq!(format_die(20, &DieSides::Standard(20)), "20");
    assert_eq!(format_die(-3, &DieSides::Standard(6)), "-3");
    assert_eq!(format_die(0, &DieSides::Standard(6)), "0");
    assert_eq!(format_die(1234567890123, &DieSides::Standard(6)), "1234567890123");
}

#[test]
fn formats_fudge_faces() {
    assert_eq!(format_die(1, &DieSides::Fudge), "+");
    assert_eq!(format_die(-1, &DieSides::Fudge), "-");
    assert_eq!(format_die(0, &DieSides::Fudge), "0");
}

#[test]
fn joins_values_with_commas() {
    assert_eq!(render_value_list(&vec![3, 1, 2], &DieSides::Standard(6)), "3, 1, 2");
    assert_eq!(render_value_list(&vec![], &DieSides::Standard(6)), "");
    assert_eq!(render_value_list(&vec![1, -1, 0], &DieSides::Fudge), "+, -, 0");
}

#[test]
fn full_report_shows_pool_kept_modifier_and_total() {
    let r = evaluate(vec![3, 1, 2], KeepRule::Highest(2), 4);
    let text = render_report(&r, &DieSides::Standard(6), 4, false);
    assert_eq!(
        text,
        "\n  Pool:      3, 2, 1\n  Kept:      3, 2\n  Modifier:  +4\n  Total:     \x1b[1m9\x1b[0m\n"
    );
}

#[test]
fn report_without_filtering_has_no_kept_line() {
    let r = evaluate(vec![3, 1, 2], KeepRule::All, 0);
    let text = render_report(&r, &DieSides::Standard(6), 0, false);
    assert_eq!(text, "\n  Pool:      3, 1, 2\n  Total:     \x1b[1m6\x1b[0m\n");
}

#[test]
fn negative_modifier_line_keeps_its_sign() {
    let r = evaluate(vec![4, 4], KeepRule::All, -3);
    let text = render_report(&r, &DieSides::Standard(6), -3, false);
    assert_eq!(
        text,
        "\n  Pool:      4, 4\n  Modifier:  -3\n  Total:     \x1b[1m5\x1b[0m\n"
    );
}

#[test]
fn quiet_report_is_just_the_total() {
    let r = evaluate(vec![3, 1, 2], KeepRule::All, 1);
    let text = render_report(&r, &DieSides::Standard(6), 1, true);
    assert_eq!(text, "7\n");
}

#[test]
fn quiet_perform_roll_prints_its_own_total() {
    let spec = parse_notation("4d8").unwrap();
    let opts = RollOptions { exploding: false, keep: KeepRule::All };
    let (res, text) = perform_roll(&spec, &opts, true);
    assert_eq!(text, format!("{}\n", res.total));
}

#[test]
fn roll_headers_count_from_their_index() {
    assert_eq!(render_roll_header(1), "\n--- Roll 1 ---\n");
    assert_eq!(render_roll_header(12), "\n--- Roll 12 ---\n");
}

#[test]
fn average_of_two_d6_is_seven() {
    let spec = parse_notation("2d6").unwrap();
    assert_eq!(calculate_average(&spec), 14);
    assert_eq!(render_average_report(&spec, false), "\n  Average: 7.00\n");
    assert_eq!(render_average_report(&spec, true), "7\n");
}

#[test]
fn average_with_modifier_keeps_the_half() {
    let spec = parse_notation("1d20+5").unwrap();
    assert_eq!(calculate_average(&spec), 31);
    assert_eq!(render_average_report(&spec, false), "\n  Average: 15.50\n");
    assert_eq!(render_average_report(&spec, true), "15.5\n");
}

#[test]
fn average_of_fudge_dice_is_zero() {
    let spec = parse_notation("3dF").unwrap();
    assert_eq!(calculate_average(&spec), 0);
    assert_eq!(render_average_report(&spec, false), "\n  Average: 0.00\n");
    assert_eq!(render_average_report(&spec, true), "0\n");
}

#[test]
fn fudge_report_renders_faces() {
    let r = evaluate(vec![1, -1, 0], KeepRule::All, 0);
    let text = render_report(&r, &DieSides::Fudge, 0, false);
    assert_eq!(text, "\n  Pool:      +, -, 0\n  Total:     \x1b[1m0\x1b[0m\n");
}

#[test]
fn negative_average_renders_with_sign() {
    let spec = parse_notation("1d2-4").unwrap();
    // expectation 1.5 - 4 = -2.5
    assert_eq!(calculate_average(&spec), -5);
    assert_eq!(format_average(-5, false), "-2.50");
    assert_eq!(format_average(-5, true), "-2.5");
    assert_eq!(format_average(-1, false), "-0.50");
}

#[test]
fn sorts_order_their_input() {
    assert_eq!(sort_desc(&vec![2, 5, 1, 5, 3]), vec![5, 5, 3, 2, 1]);
    assert_eq!(sort_asc(&vec![2, 5, 1, 5, 3]), vec![1, 2, 3, 5, 5]);
    assert_eq!(sort_desc(&vec![]), Vec::<i64>::new());
}
