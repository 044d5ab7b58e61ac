use modelador::raster::{span_in_frame, FrameBuffer, Rgb, Span, FAR, HEIGHT, WIDTH};

fn gray() -> Rgb {
    Rgb::new(160, 160, 160)
}

#[test]
fn new_frame_is_blank() {
    let fb = FrameBuffer::new(gray());
    assert_eq!(fb.colors().len(), WIDTH * HEIGHT);
    assert_eq!(fb.color_at(0), gray());
    assert_eq!(fb.color_at(WIDTH * HEIGHT - 1), gray());
    assert_eq!(fb.depth_at(12345), FAR);
}

#[test]
fn fill_span_writes_only_nearer_pixels() {
    let mut fb = FrameBuffer::new(gray());
    let red = Rgb::new(255, 0, 0);
    let green = Rgb::new(0, 255, 0);
    let blue = Rgb::new(0, 0, 255);
    fb.fill_span(2, 10, 13, &vec![100, FAR, 50], &vec![red, green, blue]);
    let base = 2 * WIDTH + 10;
    assert_eq!(fb.depth_at(base), 100);
    assert_eq!(fb.color_at(base), red);
    // FAR is not strictly nearer than FAR: the pixel stays untouched
    assert_eq!(fb.depth_at(base + 1), FAR);
    assert_eq!(fb.color_at(base + 1), gray());
    assert_eq!(fb.depth_at(base + 2), 50);
    assert_eq!(fb.color_at(base + 2), blue);
    // neighbours untouched
    assert_eq!(fb.depth_at(base - 1), FAR);
    assert_eq!(fb.depth_at(base + 3), FAR);
}

#[test]
fn fill_span_keeps_nearer_depth() {
    let mut fb = FrameBuffer::new(gray());
    let red = Rgb::new(255, 0, 0);
    let blue = Rgb::new(0, 0, 255);
    fb.fill_span(0, 0, 2, &vec![10, 10], &vec![red, red]);
    fb.fill_span(0, 0, 2, &vec![20, 5], &vec![blue, blue]);
    assert_eq!(fb.depth_at(0), 10);
    assert_eq!(fb.color_at(0), red);
    assert_eq!(fb.depth_at(1), 5);
    assert_eq!(fb.color_at(1), blue);
}

#[test]
fn equal_depth_does_not_overwrite() {
    let mut fb = FrameBuffer::new(gray());
    let red = Rgb::new(255, 0, 0);
    let blue = Rgb::new(0, 0, 255);
    fb.fill_span(3, 4, 5, &vec![7], &vec![red]);
    fb.fill_span(3, 4, 5, &vec![7], &vec![blue]);
    assert_eq!(fb.color_at(3 * WIDTH + 4), red);
}

#[test]
fn empty_span_changes_nothing() {
    let mut fb = FrameBuffer::new(gray());
    fb.fill_span(0, -5, -5, &vec![], &vec![]);
    fb.fill_span(0, 7, 3, &vec![], &vec![]);
    assert_eq!(fb.color_at(0), gray());
    assert_eq!(fb.depth_at(7), FAR);
}

#[test]
fn span_on_last_pixel() {
    let mut fb = FrameBuffer::new(gray());
    let red = Rgb::new(255, 0, 0);
    fb.fill_span(HEIGHT - 1, (WIDTH - 1) as i16, WIDTH as i16, &vec![1], &vec![red]);
    assert_eq!(fb.color_at(WIDTH * HEIGHT - 1), red);
    assert_eq!(fb.depth_at(WIDTH * HEIGHT - 1), 1);
}

#[test]
fn drawing_order_does_not_matter() {
    let red = Rgb::new(255, 0, 0);
    let blue = Rgb::new(0, 0, 255);
    let z1 = vec![30, 10, 30, 10];
    let z2 = vec![20, 20, 20, 20];
    let c1 = vec![red; 4];
    let c2 = vec![blue; 4];
    let mut a = FrameBuffer::new(gray());
    a.fill_span(5, 100, 104, &z1, &c1);
    a.fill_span(5, 102, 106, &z2, &c2);
    let mut b = FrameBuffer::new(gray());
    b.fill_span(5, 102, 106, &z2, &c2);
    b.fill_span(5, 100, 104, &z1, &c1);
    for i in 0..WIDTH * HEIGHT {
        assert_eq!(a.depth_at(i), b.depth_at(i));
        assert_eq!(a.color_at(i), b.color_at(i));
    }
    let base = 5 * WIDTH + 100;
    assert_eq!(a.depth_at(base + 2), 20);
    assert_eq!(a.color_at(base + 2), blue);
    assert_eq!(a.depth_at(base + 3), 10);
    assert_eq!(a.color_at(base + 3), red);
}

#[test]
fn depth_never_increases() {
    let mut fb = FrameBuffer::new(gray());
    let red = Rgb::new(255, 0, 0);
    fb.fill_span(1, 0, 3, &vec![5, 6, 7], &vec![red; 3]);
    fb.fill_span(1, 0, 3, &vec![9, 1, 7], &vec![red; 3]);
    assert_eq!(fb.depth_at(WIDTH), 5);
    assert_eq!(fb.depth_at(WIDTH + 1), 1);
    assert_eq!(fb.depth_at(WIDTH + 2), 7);
}

#[test]
fn clear_resets_everything() {
    let mut fb = FrameBuffer::new(gray());
    let red = Rgb::new(255, 0, 0);
    fb.fill_span(0, 0, 2, &vec![1, 2], &vec![red, red]);
    let black = Rgb::new(0, 0, 0);
    fb.clear(black);
    assert_eq!(fb.color_at(0), black);
    assert_eq!(fb.depth_at(1), FAR);
}

#[test]
fn span_bounds() {
    assert!(span_in_frame(0, 0, WIDTH as i16));
    assert!(span_in_frame(HEIGHT - 1, 0, WIDTH as i16));
    assert!(!span_in_frame(HEIGHT - 1, 1, WIDTH as i16 + 1));
    assert!(!span_in_frame(HEIGHT, 0, 1));
    assert!(!span_in_frame(0, -1, 3));
    // empty spans are always drawable
    assert!(span_in_frame(usize::MAX, -4, -9));
    // a span may run past the end of its row into the next one
    assert!(span_in_frame(0, 1250, 1260));
}

#[test]
fn span_passes_reports_depth_test() {
    let mut fb = FrameBuffer::new(gray());
    let red = Rgb::new(255, 0, 0);
    fb.fill_span(4, 20, 23, &vec![10, 10, 10], &vec![red; 3]);
    assert_eq!(fb.span_passes(4, 19, 24, &vec![5, 9, 10, 11, 3]), vec![true, true, false, false, true]);
    assert!(fb.span_passes(4, 9, 2, &vec![]).is_empty());
}

#[test]
fn spans_drawn_in_sequence() {
    let red = Rgb::new(255, 0, 0);
    let blue = Rgb::new(0, 0, 255);
    let spans = vec![
        Span { y: 1, x_start: 0, x_end: 3, depths: vec![9, 9, 9], colors: vec![red; 3] },
        Span { y: 1, x_start: 1, x_end: 4, depths: vec![4, 12, 0], colors: vec![blue; 3] },
        Span { y: 2, x_start: 5, x_end: 5, depths: vec![], colors: vec![] },
    ];
    let mut a = FrameBuffer::new(gray());
    a.fill_spans(&spans);
    let mut b = FrameBuffer::new(gray());
    for s in &spans {
        b.fill_span(s.y, s.x_start, s.x_end, &s.depths, &s.colors);
    }
    for i in 0..WIDTH * HEIGHT {
        assert_eq!(a.depth_at(i), b.depth_at(i));
        assert_eq!(a.color_at(i), b.color_at(i));
    }
    let base = WIDTH;
    assert_eq!((a.depth_at(base), a.color_at(base)), (9, red));
    assert_eq!((a.depth_at(base + 1), a.color_at(base + 1)), (4, blue));
    assert_eq!((a.depth_at(base + 2), a.color_at(base + 2)), (9, red));
    assert_eq!((a.depth_at(base + 3), a.color_at(base + 3)), (0, blue));
    assert_eq!(a.depth_at(base + 4), FAR);
}

#[test]
fn nearest_possible_depth_is_never_overwritten() {
    let red = Rgb::new(255, 0, 0);
    let blue = Rgb::new(0, 0, 255);
    let mut fb = FrameBuffer::new(gray());
    fb.fill_spans(&vec![Span { y: 0, x_start: 0, x_end: 2, depths: vec![0, 0], colors: vec![red; 2] }]);
    fb.fill_spans(&vec![Span { y: 0, x_start: 0, x_end: 2, depths: vec![0, 0], colors: vec![blue; 2] }]);
    assert_eq!(fb.color_at(0), red);
    assert_eq!(fb.color_at(1), red);
}
