use remote_midi::cli::{get_vars, parse_index, select_inputs, select_output, PortError};
use remote_midi::ports::{check_valid_port, filter_port_indices};

#[test]
fn valid_port_names_pass() {
    assert!(check_valid_port("IAC Driver Bus 1".to_string()));
    assert!(check_valid_port("".to_string()));
}

#[test]
fn loopback_port_names_are_excluded() {
    assert!(!check_valid_port("Traktor Virtual Output".to_string()));
    assert!(!check_valid_port("My Traktor Virtual Output 2".to_string()));
}

#[test]
fn filter_keeps_valid_indices_in_order() {
    let names = vec![
        "Keyboard".to_string(),
        "Traktor Virtual Output".to_string(),
        "Synth".to_string(),
    ];
    assert_eq!(filter_port_indices(&names), vec![0, 2]);
}

#[test]
fn get_vars_accepts_three_or_four_args() {
    let args3 = vec!["prog".to_string(), "127.0.0.1".to_string(), "2".to_string()];
    let (server, out, inp) = get_vars(&args3).unwrap();
    assert_eq!((server.as_str(), out.as_str(), inp.as_str()), ("127.0.0.1", "2", ""));

    let args4 = vec![
        "prog".to_string(),
        "10.0.0.5".to_string(),
        "1".to_string(),
        "0".to_string(),
    ];
    let (server, out, inp) = get_vars(&args4).unwrap();
    assert_eq!((server.as_str(), out.as_str(), inp.as_str()), ("10.0.0.5", "1", "0"));
}

#[test]
fn get_vars_rejects_other_arities() {
    assert!(get_vars(&vec!["prog".to_string()]).is_none());
    assert!(get_vars(&vec!["prog".to_string(), "a".to_string()]).is_none());
    assert!(
        get_vars(&vec![
            "prog".to_string(),
            "a".to_string(),
            "b".to_string(),
            "c".to_string(),
            "d".to_string(),
        ])
        .is_none()
    );
}

#[test]
fn parse_index_reads_decimal() {
    assert_eq!(parse_index("0"), Some(0));
    assert_eq!(parse_index("12"), Some(12));
    assert_eq!(parse_index(""), None);
    assert_eq!(parse_index("2a"), None);
    assert_eq!(parse_index("-1"), None);
    assert_eq!(parse_index(" 2"), None);
    assert_eq!(parse_index("99999999999999999999999999999"), None);
}

#[test]
fn output_selection_policy() {
    assert_eq!(select_output(0, 0), Err(PortError::NoOutputs));
    assert_eq!(select_output(3, 3), Err(PortError::OutputOutOfRange));
    assert_eq!(select_output(3, 2), Ok(2));
}

#[test]
fn input_selection_policy() {
    assert_eq!(select_inputs(3, None), Ok(vec![0, 1, 2]));
    assert_eq!(select_inputs(0, None), Ok(vec![]));
    assert_eq!(select_inputs(3, Some(1)), Ok(vec![1]));
    assert_eq!(select_inputs(3, Some(3)), Ok(vec![]));
    assert_eq!(select_inputs(3, Some(4)), Err(PortError::InputOutOfRange));
}
