use bellframe::Stage as BellStage;
use monument::layout::calls::{default_calling_positions as calling_positions, Call};
use monument::primitives::{PlaceNot, Stage};

fn char_vec(string: &str) -> Vec<String> {
    string.chars().map(|c| c.to_string()).collect()
}

#[test]
fn default_calling_positions() {
    let cases = [
        ("145", BellStage::DOUBLES, char_vec("LIBFH")),
        ("125", BellStage::DOUBLES, char_vec("LBTFH")),
        ("1", BellStage::DOUBLES, char_vec("LIBFH")),

        ("14", BellStage::MINOR, char_vec("LIBFWH")),
        ("1234", BellStage::MINOR, char_vec("LBTFWH")),
        ("1456", BellStage::MINOR, char_vec("LIBFWH")),

        ("147", BellStage::TRIPLES, char_vec("LIBFWMH")),
        ("12347", BellStage::TRIPLES, char_vec("LBTFWMH")),

        ("14", BellStage::MAJOR, char_vec("LIBFVMWH")),
        ("1234", BellStage::MAJOR, char_vec("LBTFVMWH")),
        ("16", BellStage::MAJOR, char_vec("LIBFVMWH")),
        ("1678", BellStage::MAJOR, char_vec("LIBFVMWH")),
        ("1256", BellStage::MAJOR, char_vec("LBTFVMWH")),
        ("123456", BellStage::MAJOR, char_vec("LBTFVMWH")),

        ("14", BellStage::ROYAL, char_vec("LIBFVXSMWH")),
        ("16", BellStage::ROYAL, char_vec("LIBFVXSMWH")),
        ("18", BellStage::ROYAL, char_vec("LIBFVXSMWH")),
        ("1890", BellStage::ROYAL, char_vec("LIBFVXSMWH")),

        ("14", BellStage::MAXIMUS, char_vec("LIBFVXSENMWH")),
        ("1234", BellStage::MAXIMUS, char_vec("LBTFVXSENMWH")),
    ];

    for (pn_str, stage, exp_positions) in cases {
        let place_not = PlaceNot::parse(pn_str, Stage::new(stage.num_bells())).unwrap();
        let positions = calling_positions(&place_not);
        assert_eq!(positions, exp_positions);
    }
}

#[test]
fn calling_positions_run_out_of_letters() {
    let place_not = PlaceNot::parse("14", Stage::new(14)).unwrap();
    let mut expected = char_vec("LIBFVXSEN");
    expected.push("10".to_owned());
    expected.push("11".to_owned());
    expected.extend(char_vec("MWH"));
    assert_eq!(calling_positions(&place_not), expected);
}

#[test]
fn calling_positions_on_few_bells() {
    let place_not = PlaceNot::parse("12", Stage::new(2)).unwrap();
    assert_eq!(calling_positions(&place_not), char_vec("LB"));
}

fn places(call: &Call) -> Vec<usize> {
    let num_bells = call.place_not.stage().num_bells();
    (0..num_bells).filter(|p| call.place_not.contains(*p)).collect()
}

#[test]
fn near_calls_are_a_bob_and_a_single() {
    let calls = Call::near_calls(Stage::new(8)).unwrap();
    assert_eq!(calls.len(), 2);
    assert_eq!(places(&calls[0]), vec![0, 3]);
    assert_eq!(calls[0].display_symbol, "");
    assert_eq!(calls[0].debug_symbol, "-");
    assert_eq!(calls[0].lead_location, "LE");
    assert_eq!(calls[0].calling_positions, char_vec("LIBFVMWH"));
    assert_eq!(places(&calls[1]), vec![0, 1, 2, 3]);
    assert_eq!(calls[1].display_symbol, "s");
    assert_eq!(calls[1].debug_symbol, "s");
    assert_eq!(calls[1].lead_location, "LE");
    assert_eq!(calls[1].calling_positions, char_vec("LBTFVMWH"));
}

#[test]
fn near_calls_on_an_odd_stage_make_the_last_place() {
    let calls = Call::near_calls(Stage::new(7)).unwrap();
    assert_eq!(places(&calls[0]), vec![0, 3, 6]);
    assert_eq!(places(&calls[1]), vec![0, 1, 2, 3, 6]);
}

#[test]
fn far_calls_are_a_bob_and_a_single() {
    let calls = Call::far_calls(Stage::new(8)).unwrap();
    assert_eq!(calls.len(), 2);
    assert_eq!(places(&calls[0]), vec![0, 5]);
    assert_eq!(calls[0].debug_symbol, "-");
    assert_eq!(calls[0].lead_location, "LE");
    assert_eq!(places(&calls[1]), vec![0, 5, 6, 7]);
    assert_eq!(calls[1].debug_symbol, "s");
    assert_eq!(calls[1].lead_location, "LE");
}

#[test]
fn there_are_no_default_calls_on_few_bells() {
    for num_bells in 1..4 {
        assert!(Call::near_calls(Stage::new(num_bells)).is_none());
        assert!(Call::far_calls(Stage::new(num_bells)).is_none());
    }
    assert!(Call::near_calls(Stage::new(4)).is_some());
    assert!(Call::far_calls(Stage::new(4)).is_some());
}

#[test]
fn calling_positions_can_be_given() {
    let place_not = PlaceNot::parse("14", Stage::new(6)).unwrap();
    let call = Call::new(
        "x".to_owned(),
        "y".to_owned(),
        "HL".to_owned(),
        place_not,
        Some(char_vec("ABCDEF")),
    );
    assert_eq!(call.display_symbol, "x");
    assert_eq!(call.debug_symbol, "y");
    assert_eq!(call.lead_location, "HL");
    assert_eq!(places(&call), vec![0, 3]);
    assert_eq!(call.calling_positions, char_vec("ABCDEF"));
}
