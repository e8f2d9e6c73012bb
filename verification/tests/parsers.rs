use printwatch::state::{Pair, PrinterState, Triple};

#[test]
fn test_parse_valid_pair() {
    let pair_str = "1/2";
    let expected_pair = Pair {
        current: 1,
        target: 2,
    };
    let actual_pair: Pair = Pair::from_str(pair_str).unwrap();
    assert_eq!(actual_pair, expected_pair);
}

#[test]
fn test_parse_single_number_no_delimiter() {
    let pair_str = "1";
    let actual_pair: Pair = Pair::from_str(pair_str).unwrap();
    assert_eq!(actual_pair, Pair::default());
}

#[test]
fn test_parse_invalid_number() {
    let pair_str = "one/two";
    let actual_result: Pair = Pair::from_str(pair_str).unwrap();
    assert_eq!(actual_result, Pair::default());
}

#[test]
fn test_parse_valid_state() {
    let status_string = "B:1/2 E1:3/4 X:1.5 Y:2.0 Z:3.14 D:50/100/0 T:10";
    let mut expected_state = PrinterState::default();
    expected_state.b = Pair {
        current: 1,
        target: 2,
    };
    expected_state.e1 = Pair {
        current: 3,
        target: 4,
    };
    expected_state.x = "1.5".to_string();
    expected_state.y = "2.0".to_string();
    expected_state.z = "3.14".to_string();
    expected_state.d = Triple {
        current_file_position: 50,
        max_file_position: 100,
        paused: false,
    };
    expected_state.t = 10;
    let actual_state: PrinterState = PrinterState::from_str(status_string).unwrap();
    assert_eq!(actual_state, expected_state);
}

#[test]
fn test_parse_empty_string() {
    let status_string = "";
    let expected_state = PrinterState::default();
    let actual_state: PrinterState = PrinterState::from_str(status_string).unwrap();
    assert_eq!(actual_state, expected_state);
}

#[test]
fn test_parse_missing_colon() {
    let status_string = "B 1/2 E1 3/4";
    let actual_result: PrinterState = PrinterState::from_str(status_string).unwrap();
    assert_eq!(actual_result, PrinterState::default());
}

#[test]
fn test_parse_invalid_key() {
    let status_string = "X: 1.5 Y: 2.0 Z: 3.14 U: invalid";
    let actual_result: PrinterState = PrinterState::from_str(status_string).unwrap();
    assert_eq!(actual_result, PrinterState::default());
}

#[test]
fn test_parse_invalid_value() {
    let status_string = "B: 1/two E1: 3/4";
    let actual_result: PrinterState = PrinterState::from_str(status_string).unwrap();
    assert_eq!(actual_result, PrinterState::default());
}

#[test]
fn triple_decodes_position_size_and_paused() {
    let t = Triple::from_str("50/100/0").unwrap();
    assert_eq!(
        t,
        Triple {
            current_file_position: 50,
            max_file_position: 100,
            paused: false,
        }
    );
    let t = Triple::from_str("0/0/1").unwrap();
    assert_eq!(
        t,
        Triple {
            current_file_position: 0,
            max_file_position: 0,
            paused: true,
        }
    );
}

#[test]
fn triple_third_part_other_than_one_is_not_paused() {
    for third in ["2", "true", "01", ""] {
        let tok = format!("7/9/{}", third);
        let t = Triple::from_str(&tok).unwrap();
        assert!(!t.paused);
        assert_eq!(t.current_file_position, 7);
        assert_eq!(t.max_file_position, 9);
    }
}

#[test]
fn triple_wrong_arity_defaults() {
    assert_eq!(Triple::from_str("1/2").unwrap(), Triple::default());
    assert_eq!(Triple::from_str("1/2/3/4").unwrap(), Triple::default());
}

#[test]
fn pair_out_of_range_part_defaults_to_zero() {
    let p = Pair::from_str("70000/2").unwrap();
    assert_eq!(
        p,
        Pair {
            current: 0,
            target: 2
        }
    );
    let p = Pair::from_str("+5/2").unwrap();
    assert_eq!(
        p,
        Pair {
            current: 5,
            target: 2
        }
    );
}

#[test]
fn state_unrecognized_key_does_not_affect_recognized_ones() {
    let st = PrinterState::from_str("U:invalid T:42").unwrap();
    let mut expected = PrinterState::default();
    expected.t = 42;
    assert_eq!(st, expected);
}

#[test]
fn state_malformed_scalar_keeps_default() {
    let st = PrinterState::from_str("X:abc T:notanumber B:1/2").unwrap();
    let mut expected = PrinterState::default();
    expected.b = Pair {
        current: 1,
        target: 2,
    };
    assert_eq!(st, expected);
}

#[test]
fn state_accepts_signed_decimal_axis() {
    let st = PrinterState::from_str("Z:-45.796").unwrap();
    assert_eq!(st.z, "-45.796");
    assert_eq!(st.z.parse::<f32>().unwrap(), -45.796);
}
