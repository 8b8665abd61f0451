use pixel_scene::grid::is_opaque;
use pixel_scene::rect::Draw;
use pixel_scene::rect::Drawable;
use pixel_scene::rect::Rect;
use pixel_scene::rect::Tile;

const BORDER: u32 = 0xFF000000;
const OPAQUE_RED: u32 = 0xFFFF0000;

fn solid(w: usize, h: usize, c: u32) -> Rect {
    Rect::new(vec![vec![c; w]; h])
}

#[test]
fn opacity_flag() {
    assert!(is_opaque(0xFF000000));
    assert!(is_opaque(0x01000000));
    assert!(!is_opaque(0x00FFFFFF));
    assert!(!is_opaque(0));
}

#[test]
fn rect_dimensions() {
    let r = solid(5, 3, OPAQUE_RED);
    assert_eq!(r.width(), 5);
    assert_eq!(r.height(), 3);
}

#[test]
fn rect_new_w_chunks_rows() {
    let r = Rect::new_w(vec![1, 2, 3, 4, 5, 6], 3);
    assert_eq!(r.0, vec![vec![1, 2, 3], vec![4, 5, 6]]);
}

#[test]
fn rect_new_w_drops_partial_row() {
    let r = Rect::new_w(vec![1, 2, 3, 4, 5, 6, 7], 3);
    assert_eq!(r.0, vec![vec![1, 2, 3], vec![4, 5, 6]]);
}

// The outline of a fully-opaque W-by-H rectangle keeps its dimensions,
// has an opaque border, and a uniform interior.
#[test]
fn rect_outline_shape() {
    let r = solid(5, 4, OPAQUE_RED);
    let o = r.new_outline();
    assert_eq!(o.height(), 4);
    assert_eq!(o.width(), 5);
    for i in 0..4 {
        for j in 0..5 {
            let c = o.0[i][j];
            if i == 0 || i == 3 || j == 0 || j == 4 {
                assert_eq!(c, BORDER);
                assert!(is_opaque(c));
            } else {
                assert_eq!(c, 0xFFFFFF);
            }
        }
    }
}

#[test]
fn rect_outline_of_single_row_is_all_border() {
    let r = solid(3, 1, OPAQUE_RED);
    let o = r.new_outline();
    assert_eq!(o.0, vec![vec![BORDER, BORDER, BORDER]]);
}

#[test]
fn tile_outline_samples_centre_colour() {
    let mut rows = vec![vec![OPAQUE_RED; 5]; 5];
    rows[2][2] = 0xFF123456;
    let t = Tile::new(Rect::new(rows), None);
    let o = t.new_outline();
    assert_eq!(o.height(), 5);
    assert_eq!(o.width(), 5);
    assert_eq!(o.0[0][0], BORDER);
    assert_eq!(o.0[2][2], 0xFF123456);
    assert_eq!(o.0[1][1], 0xFF123456);
    assert_eq!(o.0[4][4], BORDER);
}

#[test]
fn tile_custom_outline_overrides_computed() {
    let custom = solid(2, 2, 0xFFABCDEF);
    let t = Tile::new(solid(2, 2, OPAQUE_RED), Some(custom.clone()));
    let o = t.new_outline();
    assert_eq!(o, custom);
}

#[test]
fn tile_from_pixels_encodes_colours() {
    let t = Tile::from_pixels(vec![(1, 2, 3), (0xAB, 0xCD, 0xEF)], 1);
    assert_eq!(t.rect.0, vec![vec![0xFF010203], vec![0xFFABCDEF]]);
    assert!(t.select.is_none());
}

#[test]
fn contains_respects_bounds_and_transparency() {
    // A diamond: transparent corners are not hit-testable.
    let t = 0x00000000u32;
    let o = OPAQUE_RED;
    let r = Rect::new(vec![vec![t, o, t], vec![o, o, o], vec![t, o, t]]);
    assert!(!r.contains((0, 0)));
    assert!(r.contains((1, 0)));
    assert!(r.contains((0, 1)));
    assert!(!r.contains((2, 2)));
    assert!(!r.contains((3, 1)));
    assert!(!r.contains((1, 3)));
}

#[test]
fn draw_blits_opaque_pixels_only() {
    let t = 0x00ABCDEFu32;
    let o = 0xFF112233u32;
    let r = Rect::new(vec![vec![o, t], vec![t, o]]);
    let mut buf = vec![0u32; 16];
    r.draw(&mut buf, 4, (1, 1));
    let mut expected = vec![0u32; 16];
    expected[1 * 4 + 1] = o;
    expected[2 * 4 + 2] = o;
    assert_eq!(buf, expected);
}

#[test]
fn draw_skips_pixels_outside_buffer() {
    let o = 0xFF112233u32;
    let r = Rect::new(vec![vec![o, o], vec![o, o]]);
    let mut buf = vec![0u32; 4];
    // Placed so that most of the grid falls past the end of the buffer.
    r.draw(&mut buf, 2, (1, 1));
    assert_eq!(buf, vec![0, 0, 0, o]);
    // Entirely outside: nothing changes, and nothing panics.
    let mut buf2 = vec![0u32; 4];
    r.draw(&mut buf2, 2, (5, 7));
    assert_eq!(buf2, vec![0, 0, 0, 0]);
}

#[test]
fn drawable_delegates_to_variants() {
    let r = solid(2, 2, OPAQUE_RED);
    let d = Drawable::Rect(r.clone());
    assert_eq!(d.width(), 2);
    assert_eq!(d.height(), 2);
    assert!(d.contains((1, 1)));
    assert_eq!(d.get_outline(), r.new_outline());
    let t = Tile::new(solid(3, 3, OPAQUE_RED), None);
    let dt = Drawable::Tile(t.clone());
    assert_eq!(dt.get_outline(), t.new_outline());
}

#[test]
fn clone_preserves_grids() {
    let r = solid(3, 2, OPAQUE_RED);
    assert_eq!(r.clone(), r);
    let t = Tile::new(solid(2, 3, OPAQUE_RED), Some(solid(2, 3, BORDER)));
    assert_eq!(t.clone(), t);
    let d = Drawable::Tile(t);
    assert_eq!(d.clone(), d);
}
