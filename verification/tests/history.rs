use sdrtool::history::SampleHistory;

#[test]
fn history_pairs_each_sample_with_the_two_before() {
    let mut h = SampleHistory::new(0);
    let out = h.advance(&[1, 2, 3]);
    assert_eq!(out, vec![(1, 0, 0), (2, 1, 0), (3, 2, 1)]);
    assert_eq!(h.samples(), (2, 3));
    let out = h.advance(&[4]);
    assert_eq!(out, vec![(4, 3, 2)]);
    assert_eq!(h.samples(), (3, 4));
}

#[test]
fn history_of_nothing_keeps_state() {
    let mut h = SampleHistory::new(7);
    assert!(h.advance(&[]).is_empty());
    assert_eq!(h.samples(), (7, 7));
}

#[test]
fn history_chunked_equals_whole() {
    let input: Vec<i32> = (1..20).collect();
    let mut whole = SampleHistory::new(0);
    let all = whole.advance(&input);
    let mut chunked = SampleHistory::new(0);
    let mut parts = chunked.advance(&input[..1]);
    parts.extend(chunked.advance(&input[1..11]));
    parts.extend(chunked.advance(&input[11..]));
    assert_eq!(parts, all);
    assert_eq!(chunked.samples(), whole.samples());
}
