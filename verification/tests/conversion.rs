use parinfer_nvim::conversion::{bytepos_to_charpos, charpos_to_bytepos, diff_lines, diff_slice};

#[test]
fn conversion_test_bytepos_to_charpos() {
    assert_eq!(bytepos_to_charpos("abc", 0), 0);
    assert_eq!(bytepos_to_charpos("abc", 1), 1);
    assert_eq!(bytepos_to_charpos("abc", 2), 2);
    assert_eq!(bytepos_to_charpos("åbc", 0), 0);
    assert_eq!(bytepos_to_charpos("åbc", 1), 1);
    assert_eq!(bytepos_to_charpos("åbc", 2), 1);
    assert_eq!(bytepos_to_charpos("åbc", 3), 2);
    assert_eq!(bytepos_to_charpos("ｗｏa", 0), 0);
    assert_eq!(bytepos_to_charpos("ｗｏa", 1), 1);
    assert_eq!(bytepos_to_charpos("ｗｏa", 2), 1);
    assert_eq!(bytepos_to_charpos("ｗｏa", 3), 1);
    assert_eq!(bytepos_to_charpos("ｗｏa", 4), 2);
    assert_eq!(bytepos_to_charpos("ｗｏa", 5), 2);
    assert_eq!(bytepos_to_charpos("ｗｏa", 6), 2);
}

#[test]
fn conversion_test_charpos_to_bytepos() {
    assert_eq!(charpos_to_bytepos("", 0), 0);
    assert_eq!(charpos_to_bytepos("", 1), 0);
    assert_eq!(charpos_to_bytepos("abc", 0), 0);
    assert_eq!(charpos_to_bytepos("abc", 1), 1);
    assert_eq!(charpos_to_bytepos("abc", 2), 2);
    assert_eq!(charpos_to_bytepos("åbc", 0), 0);
    assert_eq!(charpos_to_bytepos("åbc", 1), 2);
    assert_eq!(charpos_to_bytepos("åbc", 2), 3);
    assert_eq!(charpos_to_bytepos("ｗｏa", 0), 0);
    assert_eq!(charpos_to_bytepos("ｗｏa", 1), 3);
    assert_eq!(charpos_to_bytepos("ｗｏa", 1), 3);
    assert_eq!(charpos_to_bytepos("ｗｏa", 1), 3);
    assert_eq!(charpos_to_bytepos("ｗｏa", 2), 6);
}

#[test]
fn test_diff_slice() {
    let samples = [
        (vec![1, 2, 3], vec![3, 2, 1], Some([0, 2, 0, 2])),
        (vec![1, 2, 3, 4], vec![1, 2, 4, 3], Some([2, 3, 2, 3])),
        (vec![1, 2, 3, 4], vec![1, 2, 4, 4], Some([2, 2, 2, 2])),
        (vec![], vec![1, 2, 4, 4], Some([0, 0, 0, 3])),
        (vec![1, 2, 4, 4], vec![], Some([0, 3, 0, 0])),
    ];
    for (a, b, expected_diff) in samples {
        let diff = diff_slice(&a, &b);
        assert_eq!(
            diff, expected_diff,
            "{a:?} {b:?} {diff:?} {expected_diff:?}",
        );
    }
}

#[test]
fn conversion_end_of_line_maps_to_display_width() {
    // Past the last cluster the visual column is the CJK display width: the
    // two wide characters count two columns each.
    assert_eq!(bytepos_to_charpos("ｗｏa", 7), 5);
    assert_eq!(bytepos_to_charpos("abc", 3), 3);
    assert_eq!(bytepos_to_charpos("", 0), 0);
}

#[test]
fn conversion_clusters_span_combining_marks() {
    // "e" followed by a combining acute accent is one cluster of three bytes.
    let line = "e\u{301}x";
    assert_eq!(bytepos_to_charpos(line, 1), 1);
    assert_eq!(bytepos_to_charpos(line, 3), 1);
    assert_eq!(charpos_to_bytepos(line, 1), 3);
    assert_eq!(charpos_to_bytepos(line, 2), 4);
}

#[test]
fn conversion_roundtrip_at_cluster_starts() {
    for line in ["abc", "åbc", "ｗｏa", "e\u{301}x", ""] {
        let mut b = 0;
        while b < line.len() {
            if line.is_char_boundary(b) && bytepos_to_charpos(line, b) < 10 {
                let c = bytepos_to_charpos(line, b);
                // Idempotent for every byte column.
                assert_eq!(bytepos_to_charpos(line, charpos_to_bytepos(line, c)), c);
            }
            b += 1;
        }
    }
    assert_eq!(charpos_to_bytepos("åbc", bytepos_to_charpos("åbc", 2)), 2);
    assert_eq!(charpos_to_bytepos("ｗｏa", bytepos_to_charpos("ｗｏa", 6)), 6);
}

#[test]
fn conversion_diff_slice_edges() {
    let empty: Vec<u8> = vec![];
    assert_eq!(diff_slice(&empty, &empty), None);
    assert_eq!(diff_slice(&[1u8, 2, 3], &[1u8, 2, 3]), None);
    // A proper prefix: the region starts at the shorter length, and the
    // shorter slice's part is empty.
    assert_eq!(diff_slice(&[1u8, 2], &[1u8, 2, 3]), Some([2, 1, 2, 2]));
    assert_eq!(diff_slice(&[1u8, 2, 3, 4], &[1u8, 2]), Some([2, 3, 2, 1]));
    assert_eq!(diff_slice(&[7u8], &[8u8, 9]), Some([0, 0, 0, 0]));
}

#[test]
fn conversion_diff_lines_compares_text() {
    let a: Vec<String> = vec!["(".to_string(), "x".to_string()];
    let b: Vec<String> = vec!["()".to_string(), "x".to_string()];
    assert_eq!(diff_lines(&a, &b), Some([0, 0, 0, 0]));
    assert_eq!(diff_lines(&a, &a), None);
    assert_eq!(diff_lines(&[], &b), Some([0, 0, 0, 1]));
    let longer: Vec<String> = vec!["(".to_string(), "x".to_string(), ")".to_string()];
    assert_eq!(diff_lines(&a, &longer), Some([2, 1, 2, 2]));
}

#[test]
fn conversion_none_only_for_equal_slices() {
    let samples: Vec<(Vec<u8>, Vec<u8>)> = vec![
        (vec![], vec![]),
        (vec![1], vec![1]),
        (vec![1], vec![1, 1]),
        (vec![1, 2], vec![]),
        (vec![4, 5, 6], vec![4, 5, 6]),
        (vec![4, 5, 6], vec![4, 5]),
    ];
    for (a, b) in samples {
        let d = diff_slice(&a, &b);
        assert_eq!(d.is_none(), a == b, "{a:?} {b:?}");
        if let Some([sa, ea, sb, eb]) = d {
            assert_eq!(a[..sa], b[..sb]);
            assert!(sa <= ea + 1 && sb <= eb + 1);
        }
    }
}

#[test]
fn conversion_bytepos_is_a_boundary_and_rounds_up() {
    let line = "a\r\nb";
    // Byte 2 lies inside the CR LF cluster, which starts at byte 1.
    assert_eq!(charpos_to_bytepos(line, bytepos_to_charpos(line, 2)), 3);
    for c in 0..6 {
        assert!(line.is_char_boundary(charpos_to_bytepos(line, c)));
        assert!(charpos_to_bytepos("ｗｏa", c) <= "ｗｏa".len());
    }
}
