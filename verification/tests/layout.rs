use verge_proxy::layout::break_lines;

#[test]
fn tags_are_broken_into_lines() {
    assert_eq!(break_lines(&vec![5, 5, 5], 80, 0), [3]);
    assert_eq!(break_lines(&vec![8, 8, 8], 20, 0), [2, 1]);
    assert_eq!(break_lines(&vec![20, 20], 20, 0), [1, 1]);
}

#[test]
fn columns_in_use_count_on_the_first_line() {
    assert_eq!(break_lines(&vec![8, 8], 20, 13), [0, 2]);
    assert_eq!(break_lines(&vec![8, 8], 20, 11), [1, 1]);
    assert_eq!(break_lines(&vec![8], 20, usize::MAX), [0, 1]);
}

#[test]
fn lines_keep_all_tags_and_fit() {
    for initial in [0usize, 1, 10, 19] {
        let widths = vec![7usize, 9, 20, 3, 11, 4];
        let lengths = break_lines(&widths, 20, initial);
        assert_eq!(lengths.iter().sum::<usize>(), widths.len());
        let mut start = 0;
        for (line, length) in lengths.iter().enumerate() {
            let tags = &widths[start..start + length];
            assert!(line == 0 || *length > 0);
            let used: usize = tags.iter().sum::<usize>() - length.saturating_sub(1);
            assert!(used + if line == 0 { initial } else { 0 } <= 20);
            start += length;
        }
    }
}
