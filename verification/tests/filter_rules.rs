use pack2::filtermask::{filter_line, mask_matches, parse_mask, FilterOutcome};
use pack2::options::{resolve_separator, CmdOpts};
use pack2::report::{percent_e4, render_mask, render_mask_line, u64_to_dec};

#[test]
fn parse_mask_maps_class_letters() {
    let (filter, len) = parse_mask("ludsab".to_string());
    assert_eq!(filter, vec![1, 2, 4, 8, 15, 31]);
    assert_eq!(len, 6);
}

#[test]
fn parse_mask_ignores_unknown_characters() {
    let (filter, len) = parse_mask("?l?l?d".to_string());
    assert_eq!(filter, vec![1, 1, 4]);
    assert_eq!(len, 3);
    let (filter, len) = parse_mask("x y".to_string());
    assert_eq!(filter, Vec::<u8>::new());
    assert_eq!(len, 0);
}

#[test]
fn matching_needs_equal_length_and_class_overlap() {
    let (filter, _) = parse_mask("?l?l?d".to_string());
    assert!(mask_matches(&filter, &b"ab3".to_vec()));
    assert!(!mask_matches(&filter, &b"abc".to_vec()));
    assert!(!mask_matches(&filter, &b"ab".to_vec()));
    let (any, _) = parse_mask("?a?a".to_string());
    assert!(mask_matches(&any, &b"a!".to_vec()));
    assert!(!mask_matches(&any, &vec![b'a', 0x01]));
    let (bin, _) = parse_mask("?b".to_string());
    assert!(mask_matches(&bin, &vec![0x01]));
}

#[test]
fn length_mismatch_skips_regardless_of_content() {
    let (filter, len) = parse_mask("lld".to_string());
    assert_eq!(len, 3);
    let outcome = filter_line(&filter, b"abd3".to_vec());
    assert!(matches!(outcome, FilterOutcome::LengthMismatch));
}

#[test]
fn filter_outcomes_for_matching_and_mismatching_lines() {
    let (filter, _) = parse_mask("lld".to_string());
    match filter_line(&filter, b"ab3".to_vec()) {
        FilterOutcome::Matched(out) => assert_eq!(out, b"ab3\n".to_vec()),
        _ => panic!("expected a match"),
    }
    assert!(matches!(filter_line(&filter, b"abc".to_vec()), FilterOutcome::ClassMismatch));
    match filter_line(&filter, b"$HEX[616233]".to_vec()) {
        FilterOutcome::Matched(out) => assert_eq!(out, b"ab3\n".to_vec()),
        _ => panic!("expected the decoded line to match"),
    }
}

#[test]
fn decimal_rendering_is_exact() {
    assert_eq!(u64_to_dec(0), b"0".to_vec());
    assert_eq!(u64_to_dec(7), b"7".to_vec());
    assert_eq!(u64_to_dec(1234567890), b"1234567890".to_vec());
    assert_eq!(u64_to_dec(u64::MAX), b"18446744073709551615".to_vec());
}

#[test]
fn percentages_truncate_to_ten_thousandths() {
    assert_eq!(percent_e4(1, 3), 333333);
    assert_eq!(percent_e4(3, 3), 1000000);
    assert_eq!(percent_e4(0, 7), 0);
    assert_eq!(percent_e4(1, 65536), 15);
}

#[test]
fn mask_report_line_has_hashcat_mask_percent_and_count() {
    assert_eq!(render_mask(&vec![b'l', b'd']), b"?l?d".to_vec());
    assert_eq!(render_mask(&Vec::new()), Vec::<u8>::new());
    let line = render_mask_line(&vec![b'l', b'l'], 1, 3, '\t');
    assert_eq!(line, b"?l?l\t33.3333\t1\n".to_vec());
    let line = render_mask_line(&vec![b'd'], 3, 3, ';');
    assert_eq!(line, b"?d;100.0000;3\n".to_vec());
}

#[test]
fn separator_defaults_to_tab() {
    assert_eq!(resolve_separator(None), '\t');
    assert_eq!(resolve_separator(Some(';')), ';');
}

#[test]
fn command_options_carry_their_settings() {
    let opts = CmdOpts::Statsgen {
        input: None,
        output: Some("out.txt".to_string()),
        separator: Some(';'),
        min_length: 1,
        max_length: 65535,
    };
    match opts {
        CmdOpts::Statsgen { input, output, separator, min_length, max_length } => {
            assert!(input.is_none());
            assert_eq!(output.as_deref(), Some("out.txt"));
            assert_eq!(separator, Some(';'));
            assert_eq!(min_length, 1);
            assert_eq!(max_length, 65535);
        },
        _ => panic!("wrong variant"),
    }
}
