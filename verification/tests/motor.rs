use modelador::motor::{SoftwareRenderer, BLACK, WHITE};

const XS: [usize; 8] = [550, 670, 675, 550, 430, 550, 550, 425];
const YS: [usize; 8] = [600, 658, 540, 485, 658, 721, 600, 540];

fn whites(r: &SoftwareRenderer) -> Vec<usize> {
    r.color_buffer().iter().enumerate().filter(|(_, &c)| c == WHITE).map(|(i, _)| i).collect()
}

#[test]
fn new_plots_the_corners() {
    let w = 1251;
    let r = SoftwareRenderer::new(w, 851);
    assert_eq!(r.color_buffer().len(), 1251 * 851);
    for i in 0..8 {
        assert_eq!(r.color_buffer()[YS[i] * w + XS[i]], WHITE);
    }
    // two corners share a pixel
    assert_eq!(whites(&r).len(), 7);
    assert_eq!(r.color_buffer()[0], BLACK);
}

#[test]
fn frame_moves_the_corners() {
    let w = 1251;
    let mut r = SoftwareRenderer::new(w, 851);
    r.render_frame(3, 2);
    for i in 0..8 {
        assert_eq!(r.color_buffer()[(YS[i] + 2) * w + XS[i] + 3], WHITE);
    }
    assert_eq!(r.color_buffer()[YS[0] * w + XS[0]], BLACK);
    assert_eq!(whites(&r).len(), 7);
}

#[test]
fn frames_compose() {
    let mut a = SoftwareRenderer::new(1251, 851);
    a.render_frame(1, 0);
    a.render_frame(4, 5);
    let mut b = SoftwareRenderer::new(1251, 851);
    b.render_frame(5, 5);
    assert_eq!(a.color_buffer(), b.color_buffer());
}

#[test]
fn still_frame_redraws_the_same_picture() {
    let mut a = SoftwareRenderer::new(1251, 851);
    a.render_frame(2, 2);
    let before = a.color_buffer().clone();
    a.render_frame(0, 0);
    assert_eq!(a.color_buffer(), &before);
}

#[test]
fn clear_blanks_the_buffer() {
    let mut r = SoftwareRenderer::new(1251, 851);
    r.clear();
    assert!(whites(&r).is_empty());
}

#[test]
fn buffer_must_hold_the_corners() {
    assert!(SoftwareRenderer::fits(1251, 851));
    assert!(SoftwareRenderer::fits(676, 722));
    assert!(!SoftwareRenderer::fits(676, 721));
    assert!(!SoftwareRenderer::fits(usize::MAX, 2));
    // a narrow buffer can still hold every corner index
    assert!(SoftwareRenderer::fits(600, 800));
}

#[test]
fn moves_must_stay_within_the_buffer() {
    let r = SoftwareRenderer::new(1251, 851);
    assert!(r.can_move(0, 0));
    assert!(r.can_move(575, 129));
    assert!(!r.can_move(0, 130));
    assert!(!r.can_move(usize::MAX, 0));
}
