use pack2::cgrams::{ascii_lowercase, cgram_stream_lines, contains_uppercase, split_runs, CgramCounter};
use pack2::report::{cgram_report_line, rank_pairs};

#[test]
fn runs_split_on_class_boundaries() {
    let runs = split_runs(&b"abc123!!".to_vec(), false);
    assert_eq!(runs, vec![b"abc".to_vec(), b"123".to_vec(), b"!!".to_vec()]);
}

#[test]
fn case_sensitivity_of_run_splitting() {
    let runs = split_runs(&b"aBc".to_vec(), false);
    assert_eq!(runs, vec![b"a".to_vec(), b"B".to_vec(), b"c".to_vec()]);
    let runs = split_runs(&b"aBc".to_vec(), true);
    assert_eq!(runs, vec![b"aBc".to_vec()]);
    assert_eq!(split_runs(&Vec::new(), false), Vec::<Vec<u8>>::new());
}

#[test]
fn streaming_cgrams_one_line_per_run() {
    let lines = cgram_stream_lines(&b"abc123!!".to_vec(), false, false);
    assert_eq!(lines, vec![b"abc\n".to_vec(), b"123\n".to_vec(), b"!!\n".to_vec()]);
}

#[test]
fn binary_runs_are_hex_wrapped_in_the_stream() {
    let lines = cgram_stream_lines(&vec![0x01, 0x02, b'a'], false, false);
    assert_eq!(lines, vec![b"$HEX[0102]\n".to_vec(), b"a\n".to_vec()]);
}

#[test]
fn normalization_adds_lowercased_copies() {
    assert!(contains_uppercase(&b"Abc".to_vec()));
    assert!(!contains_uppercase(&b"abc".to_vec()));
    assert_eq!(ascii_lowercase(&b"AbC9!".to_vec()), b"abc9!".to_vec());

    let lines = cgram_stream_lines(&b"Abc".to_vec(), false, true);
    assert_eq!(lines, vec![b"A\n".to_vec(), b"a\n".to_vec(), b"bc\n".to_vec()]);

    let lines = cgram_stream_lines(&b"Abc".to_vec(), true, true);
    assert_eq!(lines, vec![b"Abc\n".to_vec(), b"abc\n".to_vec()]);

    let lines = cgram_stream_lines(&b"Abc".to_vec(), true, false);
    assert_eq!(lines, vec![b"Abc\n".to_vec()]);
}

#[test]
fn counter_aggregates_runs_across_lines() {
    let mut counter = CgramCounter::new();
    counter.add_line_runs(&b"abc123".to_vec(), false, false);
    counter.add_line_runs(&b"abc!".to_vec(), false, false);
    assert_eq!(counter.total, 4);
    let ranked = rank_pairs(counter.counts.to_pairs());
    assert_eq!(ranked.len(), 3);
    assert_eq!(ranked[0].key, b"abc".to_vec());
    assert_eq!(ranked[0].value, 2);
    let mut rest: Vec<Vec<u8>> = ranked[1..].iter().map(|p| p.key.clone()).collect();
    rest.sort();
    assert_eq!(rest, vec![b"!".to_vec(), b"123".to_vec()]);
}

#[test]
fn counter_normalization_counts_lowercased_copies() {
    let mut counter = CgramCounter::new();
    counter.add_line_runs(&b"ABC".to_vec(), true, true);
    counter.add_line_runs(&b"abc".to_vec(), true, true);
    assert_eq!(counter.total, 3);
    let pairs = counter.counts.to_pairs();
    for p in &pairs {
        match p.key.as_slice() {
            b"ABC" => assert_eq!(p.value, 1),
            b"abc" => assert_eq!(p.value, 2),
            other => panic!("unexpected key {:?}", other),
        }
    }
    assert_eq!(pairs.len(), 2);
}

#[test]
fn sorted_report_lines_escape_binary_grams() {
    assert_eq!(cgram_report_line(b"abc".to_vec(), 17), b"abc\t17\n".to_vec());
    assert_eq!(cgram_report_line(vec![0x01, 0x02], 3), b"$HEX[0102]\t3\n".to_vec());
}
