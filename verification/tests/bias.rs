use llm_base::bias::{parse_bias_entries, TokenBias};

#[test]
fn new_sorts_and_keeps_first_pair_per_id() {
    let b = TokenBias::new(vec![(2u32, 0.5f32), (1, -1.0), (2, 0.9)]);
    assert_eq!(b.entries(), &vec![(1u32, -1.0f32), (2, 0.5)]);
}

#[test]
fn get_finds_present_ids() {
    let b = TokenBias::new(vec![(5u32, 0.25f32), (3, -2.0), (9, 1.5)]);
    assert_eq!(b.get(3), Some(-2.0));
    assert_eq!(b.get(5), Some(0.25));
    assert_eq!(b.get(9), Some(1.5));
}

#[test]
fn get_on_absent_id_returns_nothing() {
    let b = TokenBias::new(vec![(2u32, 0.5f32), (1, -1.0)]);
    assert_eq!(b.get(4), None);
    assert_eq!(TokenBias::<f32>::empty().get(0), None);
}

#[test]
fn parse_splits_ids_and_bias_text() {
    let entries = parse_bias_entries("1=-1.0,2=-1.0").unwrap();
    assert_eq!(
        entries,
        vec![(1u32, b"-1.0".to_vec()), (2, b"-1.0".to_vec())]
    );
}

#[test]
fn parse_trims_whitespace_and_accepts_plus_sign() {
    let entries = parse_bias_entries(" 1 = -1.0 ,\t+12 =  0.5 ").unwrap();
    assert_eq!(
        entries,
        vec![(1u32, b"-1.0".to_vec()), (12, b"0.5".to_vec())]
    );
}

#[test]
fn parse_rejects_segment_without_separator() {
    let e = parse_bias_entries("1=-1.0,2").unwrap_err();
    assert_eq!(e.message().as_str(), "missing '=' in bias item");
    let e = parse_bias_entries("").unwrap_err();
    assert_eq!(e.message().as_str(), "missing '=' in bias item");
}

#[test]
fn parse_rejects_non_integer_id() {
    let e = parse_bias_entries("x=1.0").unwrap_err();
    assert_eq!(e.message().as_str(), "invalid digit found in string");
    let e = parse_bias_entries("=1.0").unwrap_err();
    assert_eq!(e.message().as_str(), "cannot parse integer from empty string");
}

#[test]
fn parse_rejects_oversized_id() {
    let e = parse_bias_entries("4294967296=1.0").unwrap_err();
    assert_eq!(e.message().as_str(), "number too large to fit in target type");
    let entries = parse_bias_entries("4294967295=1.0").unwrap();
    assert_eq!(entries, vec![(u32::MAX, b"1.0".to_vec())]);
}
