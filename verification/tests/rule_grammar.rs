use entropy_life::rules::{dfa_rules, split_rules, RuleSet};

fn tables(rs: &RuleSet) -> ([bool; 9], [bool; 9]) {
    (rs.birth, rs.survive)
}

fn expect(birth_on: &[usize], survive_on: &[usize]) -> ([bool; 9], [bool; 9]) {
    let mut birth = [false; 9];
    let mut survive = [false; 9];
    for &n in birth_on {
        birth[n] = true;
    }
    for &n in survive_on {
        survive[n] = true;
    }
    (birth, survive)
}

#[test]
fn empty_rule_string_is_standard_life() {
    let rs = dfa_rules("").unwrap();
    assert_eq!(tables(&rs), expect(&[3], &[2, 3]));
}

#[test]
fn tagged_forms_agree_regardless_of_case_and_order() {
    let a = dfa_rules("B3S23").unwrap();
    let b = dfa_rules("b3s23").unwrap();
    let c = dfa_rules("S23B3").unwrap();
    assert_eq!(tables(&a), expect(&[3], &[2, 3]));
    assert_eq!(tables(&a), tables(&b));
    assert_eq!(tables(&a), tables(&c));
}

#[test]
fn tagged_form_collects_several_birth_counts() {
    let rs = dfa_rules("B36S23").unwrap();
    assert_eq!(tables(&rs), expect(&[3, 6], &[2, 3]));
}

#[test]
fn tagged_form_rejects_foreign_characters() {
    let err = dfa_rules("B3X").unwrap_err();
    assert_eq!(err.rule, "B3X");
}

#[test]
fn tagged_form_rejects_digit_nine() {
    let err = dfa_rules("B9").unwrap_err();
    assert_eq!(err.rule, "B9");
}

#[test]
fn tagged_form_rejects_digit_before_any_phase() {
    assert!(dfa_rules("3B2").is_err());
}

#[test]
fn tagged_form_rejects_reentering_a_phase() {
    assert!(dfa_rules("B3B2").is_err());
    assert!(dfa_rules("B3S2S3").is_err());
}

#[test]
fn split_form_reads_birth_and_survive_segments() {
    let rs = split_rules("b3s23").unwrap();
    assert_eq!(tables(&rs), expect(&[3], &[2, 3]));
}

#[test]
fn split_form_defaults_to_survive_segments() {
    let rs = split_rules("23").unwrap();
    assert_eq!(tables(&rs), expect(&[], &[2, 3]));
}

#[test]
fn split_form_empty_string_is_standard_life() {
    let rs = split_rules("").unwrap();
    assert_eq!(tables(&rs), expect(&[3], &[2, 3]));
}

#[test]
fn split_form_upper_case_works() {
    let rs = split_rules("B36S23").unwrap();
    assert_eq!(tables(&rs), expect(&[3, 6], &[2, 3]));
}

#[test]
fn split_form_rejects_a_marker_inside_a_segment() {
    let err = split_rules("S23B3").unwrap_err();
    assert_eq!(err.rule, "S23B3");
}

#[test]
fn split_form_rejects_digit_nine() {
    assert!(split_rules("b9").is_err());
}
