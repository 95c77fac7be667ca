use lib::risk::{parse_risk, risk_mask_from_ids, RiskArgument};

fn codes(arg: &[u8]) -> Vec<Vec<u8>> {
    match parse_risk(arg) {
        RiskArgument::Codes(c) => c,
        _ => panic!("expected a list of codes"),
    }
}

#[test]
fn empty_argument_is_refused() {
    assert!(matches!(parse_risk(b""), RiskArgument::Invalid));
}

#[test]
fn decimal_argument_is_the_mask() {
    assert!(matches!(parse_risk(b"12"), RiskArgument::Mask(12)));
    assert!(matches!(parse_risk(b"0"), RiskArgument::Mask(0)));
    assert!(matches!(parse_risk(b"0007"), RiskArgument::Mask(7)));
}

#[test]
fn decimal_argument_up_to_u64_max() {
    assert!(matches!(
        parse_risk(b"18446744073709551615"),
        RiskArgument::Mask(u64::MAX)
    ));
}

#[test]
fn decimal_argument_that_overflows_is_refused() {
    assert!(matches!(parse_risk(b"18446744073709551616"), RiskArgument::Invalid));
    assert!(matches!(parse_risk(b"99999999999999999999999"), RiskArgument::Invalid));
}

#[test]
fn decimal_argument_with_other_bytes_is_refused() {
    assert!(matches!(parse_risk(b"12a"), RiskArgument::Invalid));
    assert!(matches!(parse_risk(b"1,2"), RiskArgument::Invalid));
    assert!(matches!(parse_risk(b"1 "), RiskArgument::Invalid));
}

#[test]
fn code_list_is_split_at_commas() {
    assert_eq!(
        codes(b"NDPI_URL_POSSIBLE_XSS,NDPI_BINARY_APPLICATION_TRANSFER"),
        vec![
            b"NDPI_URL_POSSIBLE_XSS".to_vec(),
            b"NDPI_BINARY_APPLICATION_TRANSFER".to_vec()
        ]
    );
}

#[test]
fn code_list_skips_empty_fields() {
    assert_eq!(codes(b",,x,,y,"), vec![b"x".to_vec(), b"y".to_vec()]);
    assert_eq!(codes(b","), Vec::<Vec<u8>>::new());
    assert_eq!(codes(b"single"), vec![b"single".to_vec()]);
}

#[test]
fn code_list_with_nul_is_refused() {
    assert!(matches!(parse_risk(b"ab\0c"), RiskArgument::Invalid));
    assert!(matches!(parse_risk(b"a,\0"), RiskArgument::Invalid));
}

#[test]
fn code_list_starting_with_sign_is_a_list() {
    assert_eq!(codes(b"+1"), vec![b"+1".to_vec()]);
}

#[test]
fn risk_ids_become_mask_bits() {
    assert_eq!(risk_mask_from_ids(&[1, 3], 60), Some(0b1010));
    assert_eq!(risk_mask_from_ids(&[0], 60), Some(1));
    assert_eq!(risk_mask_from_ids(&[63], 64), Some(1u64 << 63));
}

#[test]
fn risk_ids_order_and_repeats_do_not_matter() {
    assert_eq!(risk_mask_from_ids(&[3, 1, 3], 60), risk_mask_from_ids(&[1, 3], 60));
}

#[test]
fn no_risk_ids_give_the_empty_mask() {
    assert_eq!(risk_mask_from_ids(&[], 60), Some(0));
}

#[test]
fn unknown_risk_id_is_refused() {
    assert_eq!(risk_mask_from_ids(&[1, 60], 60), None);
    assert_eq!(risk_mask_from_ids(&[61, 2], 60), None);
}

fn resolve(arg: &[u8], lookup: impl Fn(&[u8]) -> u32) -> Option<u64> {
    match parse_risk(arg) {
        RiskArgument::Invalid => None,
        RiskArgument::Mask(m) => Some(m),
        RiskArgument::Codes(codes) => {
            let ids: Vec<u32> = codes.iter().map(|c| lookup(c)).collect();
            risk_mask_from_ids(&ids, 60)
        }
    }
}

fn lookup(code: &[u8]) -> u32 {
    match code {
        b"XSS" => 3,
        b"SQLI" => 5,
        _ => 60,
    }
}

#[test]
fn code_order_repeats_and_empty_fields_do_not_matter() {
    assert_eq!(resolve(b"XSS,SQLI", lookup), Some(0b101000));
    assert_eq!(resolve(b"SQLI,XSS", lookup), resolve(b"XSS,SQLI", lookup));
    assert_eq!(resolve(b"XSS,XSS", lookup), resolve(b"XSS", lookup));
    assert_eq!(resolve(b"XSS,,SQLI", lookup), resolve(b"XSS,SQLI", lookup));
    assert_eq!(resolve(b",XSS,", lookup), resolve(b"XSS", lookup));
    assert_eq!(resolve(b"XSS,NOPE", lookup), None);
}
