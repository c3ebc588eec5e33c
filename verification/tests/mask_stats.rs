use pack2::aggregate::{decode_count_min_max, encode_count_min_max, DEFAULT_ENCODED};
use pack2::classes::{char2bitmap, char2mask, char2smask, get_bitmap2string};
use pack2::masks::{line_charset, line_mask, line_simple_mask};
use pack2::report::{percent_e4, rank_pairs, render_simple_mask};
use pack2::statsgen::StatsAccumulator;

#[test]
fn classification_tables_cover_key_bytes() {
    assert_eq!(char2mask(b'a'), b'l');
    assert_eq!(char2mask(b'Z'), b'u');
    assert_eq!(char2mask(b'0'), b'd');
    assert_eq!(char2mask(b'!'), b's');
    assert_eq!(char2mask(0x1f), b'b');
    assert_eq!(char2mask(0x7f), b'b');
    assert_eq!(char2mask(0xff), b'b');

    assert_eq!(char2bitmap(b'x'), 1);
    assert_eq!(char2bitmap(b'X'), 2);
    assert_eq!(char2bitmap(b'7'), 4);
    assert_eq!(char2bitmap(b' '), 8);
    assert_eq!(char2bitmap(0x00), 16);

    assert_eq!(char2smask(b'x'), 1);
    assert_eq!(char2smask(b'X'), 1);
    assert_eq!(char2smask(b'7'), 4);
    assert_eq!(char2smask(b'~'), 8);
    assert_eq!(char2smask(0x81), 16);
}

#[test]
fn detailed_mask_has_one_code_per_byte() {
    let mask = line_mask(&b"aB3! ".to_vec());
    assert_eq!(mask, vec![b'l', b'u', b'd', b's', b's']);
    assert_eq!(mask.len(), 5);
    assert_eq!(line_mask(&Vec::new()), Vec::<u8>::new());
}

#[test]
fn charset_union_collects_one_bit_per_class() {
    assert_eq!(line_charset(&b"abc".to_vec()), 1);
    assert_eq!(line_charset(&b"abc123".to_vec()), 5);
    assert_eq!(line_charset(&b"aA1! ".to_vec()), 15);
    assert_eq!(line_charset(&vec![b'a', 0x00]), 17);
    assert_eq!(line_charset(&Vec::new()), 0);
}

#[test]
fn simple_mask_collapses_runs_and_caps_at_five() {
    assert_eq!(line_simple_mask(&b"abc123".to_vec()), vec![1, 4]);
    assert_eq!(line_simple_mask(&b"aBc".to_vec()), vec![1]);
    assert_eq!(line_simple_mask(&b"a1!a1".to_vec()), vec![1, 4, 8, 1, 4]);
    assert_eq!(line_simple_mask(&b"a1!a1!".to_vec()), vec![255]);
    assert_eq!(line_simple_mask(&Vec::new()), Vec::<u8>::new());
}

#[test]
fn simple_mask_renders_fixed_labels() {
    assert_eq!(render_simple_mask(&vec![1, 4]), b"stringdigit".to_vec());
    assert_eq!(render_simple_mask(&vec![8, 16]), b"specialbinary".to_vec());
    assert_eq!(render_simple_mask(&vec![255]), b"othermask".to_vec());
}

#[test]
fn packed_entry_round_trips() {
    let e = encode_count_min_max(7, 3, 12);
    assert_eq!(decode_count_min_max(e), (7, 3, 12));
    assert_eq!(decode_count_min_max(DEFAULT_ENCODED), (0, 0xffff, 0));
    let full = encode_count_min_max(u32::MAX, u16::MAX, u16::MAX);
    assert_eq!(decode_count_min_max(full), (u32::MAX, u16::MAX, u16::MAX));
}

#[test]
fn charset_names_match_their_unions() {
    let names = get_bitmap2string();
    assert_eq!(names.len(), 32);
    assert_eq!(names[0], "invalid");
    assert_eq!(names[1], "loweralpha");
    assert_eq!(names[5], "loweralphanum");
    assert_eq!(names[16], "binary");
    assert_eq!(names[31], "mixedalphaspecialnumbin");
}

#[test]
fn three_line_statistics_scenario() {
    let mut acc = StatsAccumulator::new(1, 65535);
    assert!(acc.process_line(b"abc123".to_vec()));
    assert!(acc.process_line(b"ABC!!!".to_vec()));
    assert!(acc.process_line(b"xy".to_vec()));
    assert_eq!(acc.processed, 3);
    assert_eq!(acc.skipped, 0);

    assert_eq!(acc.lengths[6], 2);
    assert_eq!(acc.lengths[2], 1);
    assert_eq!(acc.lengths[3], 0);
    assert_eq!(acc.min_seen, 2);
    assert_eq!(acc.max_seen, 6);

    let names = get_bitmap2string();
    assert_eq!(names[line_charset(&b"abc123".to_vec()) as usize], "loweralphanum");

    let (count, min, max) = decode_count_min_max(acc.charsets[5]);
    assert_eq!((count, min, max), (1, 6, 6));
    let (count, min, max) = decode_count_min_max(acc.charsets[1]);
    assert_eq!((count, min, max), (1, 2, 2));
    let (count, min, max) = decode_count_min_max(acc.charsets[10]);
    assert_eq!((count, min, max), (1, 6, 6));
    assert_eq!(acc.charsets[0], DEFAULT_ENCODED);

    assert_eq!(line_simple_mask(&b"abc123".to_vec()), vec![1, 4]);
    assert_eq!(render_simple_mask(&vec![1, 4]), b"stringdigit".to_vec());

    let pairs = acc.masks.to_pairs();
    assert_eq!(pairs.len(), 3);
    let total: u64 = pairs.iter().map(|p| p.value).sum();
    assert_eq!(total, 3);

    let smask_pairs = acc.simple_masks.to_pairs();
    let mut found_string_digit = false;
    for p in &smask_pairs {
        if p.key == vec![1, 4] {
            found_string_digit = true;
            assert_eq!(decode_count_min_max(p.value), (1, 6, 6));
        }
    }
    assert!(found_string_digit);
}

#[test]
fn window_rejections_only_count_as_skipped() {
    let mut acc = StatsAccumulator::new(3, 4);
    assert!(!acc.process_line(b"ab".to_vec()));
    assert!(acc.process_line(b"abc".to_vec()));
    assert!(!acc.process_line(b"abcde".to_vec()));
    assert_eq!(acc.processed, 1);
    assert_eq!(acc.skipped, 2);
    assert_eq!(acc.lengths[2], 0);
    assert_eq!(acc.lengths[3], 1);
}

#[test]
fn aggregate_extremes_track_true_lengths() {
    let mut acc = StatsAccumulator::new(1, 65535);
    assert!(acc.process_line(b"ab".to_vec()));
    assert!(acc.process_line(b"wxyz".to_vec()));
    assert!(acc.process_line(b"q".to_vec()));
    let (count, min, max) = decode_count_min_max(acc.charsets[1]);
    assert_eq!((count, min, max), (3, 1, 4));
    let smask_pairs = acc.simple_masks.to_pairs();
    assert_eq!(smask_pairs.len(), 1);
    assert_eq!(smask_pairs[0].key, vec![1]);
    assert_eq!(decode_count_min_max(smask_pairs[0].value), (3, 1, 4));
}

#[test]
fn ranking_orders_by_descending_count() {
    let mut acc = StatsAccumulator::new(1, 65535);
    for _ in 0..3 {
        assert!(acc.process_line(b"aa".to_vec()));
    }
    assert!(acc.process_line(b"11".to_vec()));
    for _ in 0..2 {
        assert!(acc.process_line(b"!!".to_vec()));
    }
    let ranked = rank_pairs(acc.masks.to_pairs());
    assert_eq!(ranked.len(), 3);
    assert_eq!(ranked[0].key, vec![b'l', b'l']);
    assert_eq!(ranked[0].value, 3);
    assert_eq!(ranked[1].key, vec![b's', b's']);
    assert_eq!(ranked[1].value, 2);
    assert_eq!(ranked[2].key, vec![b'd', b'd']);
    assert_eq!(ranked[2].value, 1);
}

#[test]
fn percentages_over_buckets_sum_close_to_total() {
    let mut acc = StatsAccumulator::new(1, 65535);
    assert!(acc.process_line(b"aa".to_vec()));
    assert!(acc.process_line(b"bb".to_vec()));
    assert!(acc.process_line(b"11".to_vec()));
    assert!(acc.process_line(b"!?".to_vec()));
    assert!(acc.process_line(b"c3".to_vec()));
    assert!(acc.process_line(b"d4".to_vec()));
    assert!(acc.process_line(b"ee".to_vec()));
    let pairs = acc.masks.to_pairs();
    let buckets = pairs.len();
    let sum: u64 = pairs.iter().map(|p| percent_e4(p.value, acc.processed)).sum();
    assert!(sum <= 1_000_000);
    assert!(sum as i64 > 1_000_000 - buckets as i64);
}
