use sdrtool::window_buffer::WindowBuffer;

fn seq(a: i32, b: i32) -> Vec<i32> {
    (a..b).collect()
}

#[test]
fn fir_windows_and_kept_history() {
    let mut buf: WindowBuffer<i32> = WindowBuffer::new();
    let out = buf.fir(&[1, 2, 3, 4, 5, 6], 3);
    assert_eq!(out, vec![vec![1, 2, 3], vec![2, 3, 4], vec![3, 4, 5]]);
    assert_eq!(buf.as_slice(), &[4, 5, 6]);
    let out = buf.fir(&[7], 3);
    assert_eq!(out, vec![vec![4, 5, 6]]);
    assert_eq!(buf.as_slice(), &[5, 6, 7]);
    assert_eq!(buf.len(), 3);
}

#[test]
fn fir_with_exactly_ntaps_samples_gives_nothing() {
    let mut buf: WindowBuffer<i32> = WindowBuffer::new();
    let out = buf.fir(&[1, 2, 3], 3);
    assert!(out.is_empty());
    assert_eq!(buf.as_slice(), &[1, 2, 3]);
}

#[test]
fn fir_chunked_equals_whole() {
    let input = seq(0, 40);
    let mut whole: WindowBuffer<i32> = WindowBuffer::new();
    let all = whole.fir(&input, 5);
    let mut chunked: WindowBuffer<i32> = WindowBuffer::new();
    let mut parts = chunked.fir(&input[..7], 5);
    parts.extend(chunked.fir(&input[7..20], 5));
    parts.extend(chunked.fir(&input[20..], 5));
    assert_eq!(parts, all);
    assert_eq!(chunked.as_slice(), whole.as_slice());
}

#[test]
fn decimate_takes_every_factor_th_window() {
    let mut buf: WindowBuffer<i32> = WindowBuffer::new();
    let out = buf.decimate(&seq(0, 10), 3, 2);
    // span 10 - 3 = 7: windows at 0, 2, 4, 6; drop 8 samples
    assert_eq!(
        out,
        vec![vec![0, 1, 2], vec![2, 3, 4], vec![4, 5, 6], vec![6, 7, 8]]
    );
    assert_eq!(buf.as_slice(), &[8, 9]);
    let out = buf.decimate(&[10, 11], 3, 2);
    assert_eq!(out, vec![vec![8, 9, 10]]);
    assert_eq!(buf.as_slice(), &[10, 11]);
}

#[test]
fn decimate_with_exactly_ntaps_samples_drops_one_step() {
    let mut buf: WindowBuffer<i32> = WindowBuffer::new();
    let out = buf.decimate(&[1, 2, 3], 3, 2);
    assert!(out.is_empty());
    assert_eq!(buf.as_slice(), &[3]);
}

#[test]
fn decimate_with_factor_above_ntaps_ignores_input() {
    let mut buf: WindowBuffer<i32> = WindowBuffer::new();
    let out = buf.decimate(&seq(0, 10), 3, 4);
    assert!(out.is_empty());
    assert_eq!(buf.len(), 0);
}

#[test]
fn decimate_chunked_equals_whole_when_buffers_exceed_ntaps() {
    let input = seq(0, 50);
    let mut whole: WindowBuffer<i32> = WindowBuffer::new();
    let all = whole.decimate(&input, 5, 3);
    let mut chunked: WindowBuffer<i32> = WindowBuffer::new();
    let mut parts = chunked.decimate(&input[..9], 5, 3);
    parts.extend(chunked.decimate(&input[9..], 5, 3));
    assert_eq!(parts, all);
    assert_eq!(chunked.as_slice(), whole.as_slice());
}

#[test]
fn decimate_when_full_accumulates_first() {
    let mut buf: WindowBuffer<i32> = WindowBuffer::new();
    let out = buf.decimate_when_full(&[1, 2, 3], 3, 2);
    assert!(out.is_empty());
    assert_eq!(buf.as_slice(), &[1, 2, 3]);
    let out = buf.decimate_when_full(&[4, 5, 6], 3, 2);
    // 6 samples, span 3: windows at 0 and 2; drop 4
    assert_eq!(out, vec![vec![1, 2, 3], vec![3, 4, 5]]);
    assert_eq!(buf.as_slice(), &[5, 6]);
}

#[test]
fn decimate_when_full_with_factor_above_ntaps_ignores_input() {
    let mut buf: WindowBuffer<i32> = WindowBuffer::new();
    let out = buf.decimate_when_full(&seq(0, 10), 2, 3);
    assert!(out.is_empty());
    assert_eq!(buf.len(), 0);
}

#[test]
fn decimate_when_full_chunked_equals_whole() {
    let input = seq(0, 61);
    let mut whole: WindowBuffer<i32> = WindowBuffer::new();
    let all = whole.decimate_when_full(&input, 7, 4);
    for cut in 0..61 {
        let mut chunked: WindowBuffer<i32> = WindowBuffer::new();
        let mut parts = chunked.decimate_when_full(&input[..cut], 7, 4);
        parts.extend(chunked.decimate_when_full(&input[cut..], 7, 4));
        assert_eq!(parts, all);
        assert_eq!(chunked.as_slice(), whole.as_slice());
    }
}

#[test]
fn windows_work_with_float_samples() {
    let mut buf: WindowBuffer<f32> = WindowBuffer::new();
    let out = buf.decimate(&[0.5, 1.5, 2.5, 3.5], 2, 2);
    assert_eq!(out, vec![vec![0.5f32, 1.5]]);
    assert_eq!(buf.as_slice(), &[2.5f32, 3.5]);
}

#[test]
fn decimators_keep_at_most_ntaps_samples() {
    let mut full: WindowBuffer<i32> = WindowBuffer::new();
    let mut plain: WindowBuffer<i32> = WindowBuffer::new();
    let _ = plain.decimate(&seq(0, 5), 5, 2);
    for len in [0, 1, 3, 7, 20, 101] {
        let before = full.len();
        let out = full.decimate_when_full(&seq(0, len), 5, 2);
        let total = before + len as usize;
        let expected = if total > 5 { (total - 5 + 2 - 1) / 2 } else { 0 };
        assert_eq!(out.len(), expected);
        assert!(full.len() <= 5);
        let before = plain.len();
        let out = plain.decimate(&seq(0, len + 5), 5, 2);
        assert_eq!(out.len(), (before + len as usize + 5 - 5 + 2 - 1) / 2);
        assert!(plain.len() <= 5);
    }
}
