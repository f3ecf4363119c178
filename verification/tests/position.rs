use parinfer_nvim::position::{bytepos_to_charpos, charpos_to_bytepos, diff_ranges};

#[test]
fn position_test_bytepos_to_charpos() {
    assert_eq!(bytepos_to_charpos("abc", 0), 0);
    assert_eq!(bytepos_to_charpos("abc", 1), 1);
    assert_eq!(bytepos_to_charpos("abc", 2), 2);
    assert_eq!(bytepos_to_charpos("åbc", 0), 0);
    assert_eq!(bytepos_to_charpos("åbc", 1), 1);
    assert_eq!(bytepos_to_charpos("åbc", 2), 1);
    assert_eq!(bytepos_to_charpos("åbc", 3), 2);
    assert_eq!(bytepos_to_charpos("ｗｏa", 0), 0);
    assert_eq!(bytepos_to_charpos("ｗｏa", 1), 1);
    assert_eq!(bytepos_to_charpos("ｗｏa", 2), 1);
    assert_eq!(bytepos_to_charpos("ｗｏa", 3), 1);
    assert_eq!(bytepos_to_charpos("ｗｏa", 4), 2);
    assert_eq!(bytepos_to_charpos("ｗｏa", 5), 2);
    assert_eq!(bytepos_to_charpos("ｗｏa", 6), 2);
}

#[test]
fn position_test_charpos_to_bytepos() {
    assert_eq!(charpos_to_bytepos("", 0), 0);
    assert_eq!(charpos_to_bytepos("", 1), 0);
    assert_eq!(charpos_to_bytepos("abc", 0), 0);
    assert_eq!(charpos_to_bytepos("abc", 1), 1);
    assert_eq!(charpos_to_bytepos("abc", 2), 2);
    assert_eq!(charpos_to_bytepos("åbc", 0), 0);
    assert_eq!(charpos_to_bytepos("åbc", 1), 2);
    assert_eq!(charpos_to_bytepos("åbc", 2), 3);
    assert_eq!(charpos_to_bytepos("ｗｏa", 0), 0);
    assert_eq!(charpos_to_bytepos("ｗｏa", 1), 3);
    assert_eq!(charpos_to_bytepos("ｗｏa", 1), 3);
    assert_eq!(charpos_to_bytepos("ｗｏa", 1), 3);
    assert_eq!(charpos_to_bytepos("ｗｏa", 2), 6);
}

#[test]
fn test_diff_ranges() {
    let samples = [
        (vec![1, 2, 3], vec![3, 2, 1], Some((0..3, 0..3))),
        (vec![1, 2, 3, 4], vec![1, 2, 4, 3], Some((2..4, 2..4))),
        (vec![1, 2, 3, 4], vec![1, 2, 4, 4], Some((2..3, 2..3))),
        (vec![], vec![1, 2, 4, 4], Some((0..0, 0..4))),
        (vec![1, 2, 4, 4], vec![], Some((0..4, 0..0))),
        (vec![1, 2], vec![1, 2, 3], Some((2..2, 2..3))),
    ];
    for (a, b, expected_diff) in samples {
        let diff = diff_ranges(&a, &b);
        assert_eq!(
            diff, expected_diff,
            "{a:?} {b:?} {diff:?} {expected_diff:?}",
        );
    }
}

#[test]
fn position_end_of_line_maps_to_cluster_count() {
    assert_eq!(bytepos_to_charpos("ｗｏa", 7), 3);
    assert_eq!(bytepos_to_charpos("e\u{301}x", 1), 1);
    assert_eq!(bytepos_to_charpos("", 0), 0);
}

#[test]
fn position_roundtrip_and_idempotence() {
    for line in ["abc", "åbc", "ｗｏa", "e\u{301}x", "", "a\r\nb"] {
        for b in 0..=line.len() + 2 {
            let c = bytepos_to_charpos(line, b);
            assert_eq!(bytepos_to_charpos(line, charpos_to_bytepos(line, c)), c);
            if b == line.len() {
                assert_eq!(charpos_to_bytepos(line, c), b);
            }
        }
    }
    // Cluster starts survive the round trip.
    assert_eq!(charpos_to_bytepos("a\r\nb", bytepos_to_charpos("a\r\nb", 3)), 3);
    assert_eq!(charpos_to_bytepos("åbc", bytepos_to_charpos("åbc", 2)), 2);
}

#[test]
fn position_diff_ranges_split_slices() {
    let a = vec![5u8, 1, 2, 9, 9];
    let b = vec![5u8, 3, 9, 9];
    let (ra, rb) = diff_ranges(&a, &b).unwrap();
    assert_eq!(a[..ra.start], b[..rb.start]);
    assert_eq!(a[ra.end..], b[rb.end..]);
    assert_ne!(a[ra.clone()], b[rb.clone()]);
    assert_eq!(diff_ranges(&a, &a), None);
    let empty: Vec<u8> = vec![];
    assert_eq!(diff_ranges(&empty, &empty), None);
}

#[test]
fn position_diff_ranges_is_symmetric() {
    let samples: Vec<(Vec<u8>, Vec<u8>)> = vec![
        (vec![1, 2, 3], vec![3, 2, 1]),
        (vec![1, 2], vec![1, 2, 3]),
        (vec![], vec![7]),
        (vec![5, 5], vec![5, 5]),
    ];
    for (a, b) in samples {
        let swapped = diff_ranges(&a, &b).map(|(ra, rb)| (rb, ra));
        assert_eq!(diff_ranges(&b, &a), swapped);
    }
}

#[test]
fn position_rounds_up_inside_a_cluster() {
    let line = "a\r\nb";
    assert_eq!(charpos_to_bytepos(line, bytepos_to_charpos(line, 2)), 3);
    assert_eq!(charpos_to_bytepos(line, bytepos_to_charpos(line, 1)), 1);
    assert_eq!(charpos_to_bytepos(line, bytepos_to_charpos(line, 4)), 4);
    for c in 0..6 {
        assert!(line.is_char_boundary(charpos_to_bytepos(line, c)));
    }
}
