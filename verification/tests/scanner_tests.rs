use despace::scanner::reduce_spaces;

#[test]
fn idempotent_second_pass_reports_no_change() {
    let mut buf: Vec<u8> = b"a  b   c".to_vec();
    assert!(reduce_spaces(&mut buf).is_some());
    assert_eq!(buf, b"a b c".to_vec());
    assert!(reduce_spaces(&mut buf).is_none());
    assert_eq!(buf, b"a b c".to_vec());
}

#[test]
fn long_run_collapses_to_one_space() {
    let mut buf: Vec<u8> = b"x    y".to_vec();
    assert!(reduce_spaces(&mut buf).is_some());
    assert_eq!(buf, b"x y".to_vec());
}

#[test]
fn leading_run_collapses() {
    let mut buf: Vec<u8> = b"  x".to_vec();
    assert!(reduce_spaces(&mut buf).is_some());
    assert_eq!(buf, b" x".to_vec());
}

#[test]
fn trailing_run_collapses() {
    let mut buf: Vec<u8> = b"x  ".to_vec();
    assert!(reduce_spaces(&mut buf).is_some());
    assert_eq!(buf, b"x ".to_vec());
}

#[test]
fn all_spaces_collapse_to_one() {
    let mut buf: Vec<u8> = b"   ".to_vec();
    assert!(reduce_spaces(&mut buf).is_some());
    assert_eq!(buf, b" ".to_vec());
}

#[test]
fn single_spaces_are_preserved() {
    let mut buf: Vec<u8> = b"a b c".to_vec();
    assert!(reduce_spaces(&mut buf).is_none());
    assert_eq!(buf, b"a b c".to_vec());
}

#[test]
fn empty_and_tiny_buffers_are_untouched() {
    let mut empty: Vec<u8> = Vec::new();
    assert!(reduce_spaces(&mut empty).is_none());
    assert_eq!(empty, Vec::<u8>::new());
    let mut one: Vec<u8> = b" ".to_vec();
    assert!(reduce_spaces(&mut one).is_none());
    assert_eq!(one, b" ".to_vec());
}

#[test]
fn tag_body_is_preserved() {
    let mut buf: Vec<u8> = b"a<div>  b</div>c".to_vec();
    assert!(reduce_spaces(&mut buf).is_none());
    assert_eq!(buf, b"a<div>  b</div>c".to_vec());
}

#[test]
fn self_closing_tag_does_not_nest() {
    let mut buf: Vec<u8> = b"x<br/>  y".to_vec();
    assert!(reduce_spaces(&mut buf).is_some());
    assert_eq!(buf, b"x<br/> y".to_vec());
}

#[test]
fn exception_sigils_are_not_tags() {
    let mut buf: Vec<u8> = b"a<!-- c --> <= b".to_vec();
    assert!(reduce_spaces(&mut buf).is_none());
    assert_eq!(buf, b"a<!-- c --> <= b".to_vec());
}

#[test]
fn runs_after_sigil_text_still_collapse() {
    let mut buf: Vec<u8> = b"a<!-- c -->  <= b".to_vec();
    assert!(reduce_spaces(&mut buf).is_some());
    assert_eq!(buf, b"a<!-- c --> <= b".to_vec());
}

#[test]
fn unterminated_tag_recovers() {
    let mut buf: Vec<u8> = b"a<b\nc  d".to_vec();
    assert!(reduce_spaces(&mut buf).is_some());
    assert_eq!(buf, b"a<b\nc d".to_vec());
}

#[test]
fn unterminated_tag_at_end_stops_the_pass() {
    let mut buf: Vec<u8> = b"a<bc".to_vec();
    assert!(reduce_spaces(&mut buf).is_none());
    assert_eq!(buf, b"a<bc".to_vec());
}

#[test]
fn closing_tag_returns_level_to_zero() {
    // `</d>` closes the tag opened by `<b>`, so the run after it is
    // back at level zero and collapses.
    let mut buf: Vec<u8> = b"a<b>c</d>e  f".to_vec();
    assert!(reduce_spaces(&mut buf).is_some());
    assert_eq!(buf, b"a<b>c</d>e f".to_vec());
}

#[test]
fn nested_tags_close_one_level_at_a_time() {
    let mut buf: Vec<u8> = b"a<p><i>x</i>  y</p>z  w".to_vec();
    assert!(reduce_spaces(&mut buf).is_some());
    assert_eq!(buf, b"a<p><i>x</i>  y</p>z w".to_vec());
}

#[test]
fn tag_at_start_is_recognized() {
    // The pass starts at the very first byte, so a `<` there opens a
    // tag like any other.
    let mut buf: Vec<u8> = b"<a>  b".to_vec();
    assert!(reduce_spaces(&mut buf).is_none());
    assert_eq!(buf, b"<a>  b".to_vec());
}

#[test]
fn stray_closing_tag_at_level_zero_is_not_a_close() {
    // With the level at zero the closing scan never activates: `</x>`
    // goes through the opening scan and raises the level instead.
    let mut buf: Vec<u8> = b"a</x>  b".to_vec();
    assert!(reduce_spaces(&mut buf).is_none());
    assert_eq!(buf, b"a</x>  b".to_vec());
}

#[test]
fn unterminated_closing_tag_keeps_the_level() {
    // The newline aborts the closing scan, so the level stays raised
    // and the run after it is preserved.
    let mut buf: Vec<u8> = b"a<b>c</d\ne  f".to_vec();
    assert!(reduce_spaces(&mut buf).is_none());
    assert_eq!(buf, b"a<b>c</d\ne  f".to_vec());
}

#[test]
fn independent_buffers_transform_independently() {
    let cases: [(&[u8], &[u8], bool); 3] = [
        (b"one  two", b"one two", true),
        (b"a<p>  q", b"a<p>  q", false),
        (b"m   n  o", b"m n o", true),
    ];
    for order in [[0, 1, 2], [2, 0, 1]] {
        for idx in order {
            let (input, expected, changed) = cases[idx];
            let mut buf: Vec<u8> = input.to_vec();
            assert_eq!(reduce_spaces(&mut buf).is_some(), changed);
            assert_eq!(buf, expected.to_vec());
        }
    }
}
