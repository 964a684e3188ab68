use face_id::error::FaceIdError;
use face_id::session::{asks_for_direct_ml, choose_input};
use ort::ep::{CPU, DirectML};

#[test]
fn models_need_an_input_and_an_output() {
    let choose = |names: &[&str], n: usize| {
        choose_input(names.iter().map(|s| s.to_string()).collect(), n, "no inputs", "no outputs")
    };
    assert_eq!(choose(&["data"], 1).unwrap(), "data");
    assert_eq!(choose(&["first", "second", "third"], 2).unwrap(), "first");
    assert_eq!(choose(&[], 0).unwrap_err(), FaceIdError::InvalidModel("no inputs".to_string()));
    assert_eq!(choose(&[], 1).unwrap_err(), FaceIdError::InvalidModel("no inputs".to_string()));
    assert_eq!(choose(&["data"], 0).unwrap_err(), FaceIdError::InvalidModel("no outputs".to_string()));
}

#[test]
fn direct_ml_is_found_among_the_providers() {
    let cpu = || CPU::default().build();
    let direct_ml = || DirectML::default().build();
    assert!(!asks_for_direct_ml(&[]));
    assert!(!asks_for_direct_ml(&[cpu(), cpu()]));
    assert!(asks_for_direct_ml(&[direct_ml()]));
    assert!(asks_for_direct_ml(&[cpu(), direct_ml(), cpu()]));
}
