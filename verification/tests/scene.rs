use pixel_scene::image::Effect;
use pixel_scene::image::IdAllocator;
use pixel_scene::image::Image;
use pixel_scene::rect::Drawable;
use pixel_scene::rect::Rect;

const BG: u32 = 0xDDDDDD;
const BORDER: u32 = 0xFF000000;

fn solid(w: usize, h: usize, c: u32) -> Drawable {
    Drawable::Rect(Rect::new(vec![vec![c; w]; h]))
}

fn scene(w: usize, h: usize) -> Image {
    Image::new(w, h, None)
}

// Freed identifiers are reused, oldest first, before the high-water mark
// advances; identifiers handed out while others are live are always fresh.
#[test]
fn allocator_reuses_oldest_freed_first() {
    let mut a = IdAllocator::new();
    assert_eq!(a.allocate(), 1);
    assert_eq!(a.allocate(), 2);
    assert_eq!(a.allocate(), 3);
    a.free_id(2);
    a.free_id(1);
    assert_eq!(a.allocate(), 2);
    assert_eq!(a.allocate(), 1);
    assert_eq!(a.allocate(), 4);
    assert_eq!(a.next, 4);
}

// Through the registry: no identifier is carried by two live records.
#[test]
fn registry_ids_stay_unique() {
    let mut img = scene(8, 8);
    let a = img.add_item(solid(1, 1, 0xFF000001), (0, 0));
    let b = img.add_item(solid(1, 1, 0xFF000002), (1, 0));
    let c = img.add_item(solid(1, 1, 0xFF000003), (2, 0));
    assert_eq!((a, b, c), (1, 2, 3));
    assert!(img.remove_item(b).is_some());
    let d = img.add_item(solid(1, 1, 0xFF000004), (3, 0));
    assert_eq!(d, b);
    let e = img.add_item(solid(1, 1, 0xFF000005), (4, 0));
    assert_eq!(e, 4);
    let mut ids = vec![a, c, d, e];
    ids.sort();
    ids.dedup();
    assert_eq!(ids.len(), 4);
}

// Removing a just-inserted item returns a drawable equal to what was
// inserted; removing the same id twice returns nothing the second time.
#[test]
fn remove_returns_inserted_drawable_once() {
    let mut img = scene(8, 8);
    let d = solid(2, 2, 0xFF123456);
    let id = img.add_item(d.clone(), (3, 3));
    let back = img.remove_item(id);
    assert_eq!(back, Some(d));
    assert_eq!(img.remove_item(id), None);
    assert_eq!(img.len(), 0);
}

// Removing the selected id clears the selection.
#[test]
fn removing_selected_clears_selection() {
    let mut img = scene(8, 8);
    let id = img.add_item(solid(2, 2, 0xFFAA0000), (0, 0));
    img.select(id);
    assert_eq!(img.selected, Some(id));
    img.remove_item(id);
    assert_eq!(img.selected, None);
}

// With two overlapping items, the one inserted later wins the hit test.
#[test]
fn hit_test_topmost_wins() {
    let mut img = scene(16, 16);
    let a = img.add_item(solid(4, 4, 0xFFAA0000), (2, 2));
    let b = img.add_item(solid(4, 4, 0xFF00AA00), (4, 4));
    // (5, 5) lies inside both footprints.
    assert_eq!(img.get_clicked(5, 5), Some(b));
    // (2, 2) lies only inside the first.
    assert_eq!(img.get_clicked(2, 2), Some(a));
}

// A query point outside every item yields nothing.
#[test]
fn hit_test_misses_outside_all_items() {
    let mut img = scene(16, 16);
    img.add_item(solid(2, 2, 0xFFAA0000), (2, 2));
    img.add_item(solid(2, 2, 0xFF00AA00), (8, 8));
    assert_eq!(img.get_clicked(0, 0), None);
    assert_eq!(img.get_clicked(6, 6), None);
    assert_eq!(img.get_clicked(15, 15), None);
}

#[test]
fn hit_test_skips_transparent_pixels() {
    let mut img = scene(8, 8);
    let t = 0x00FFFFFFu32;
    let o = 0xFF0000FFu32;
    img.add_item(
        Drawable::Rect(Rect::new(vec![vec![t, o], vec![o, t]])),
        (1, 1),
    );
    assert_eq!(img.get_clicked(1, 1), None);
    assert_eq!(img.get_clicked(2, 1), Some(1));
}

fn assert_frame(buff: &[u32], w: usize, footprints: &[(usize, usize, usize, usize, u32)], bg: u32) {
    for (k, &px) in buff.iter().enumerate() {
        let x = k % w;
        let y = k / w;
        let mut expected = bg;
        for &(fx, fy, fw, fh, c) in footprints {
            if x >= fx && x < fx + fw && y >= fy && y < fy + fh {
                expected = c;
            }
        }
        assert_eq!(px, expected, "pixel at ({}, {})", x, y);
    }
}

// Insert three items at distinct non-overlapping positions, render,
// remove the middle one, render again; the buffer shows exactly the live
// footprints over the background, and the dirty flag cycles.
#[test]
fn three_items_render_and_removal() {
    let mut img = scene(8, 8);
    let red = 0xFFFF0000;
    let green = 0xFF00FF00;
    let blue = 0xFF0000FF;
    let a = img.add_item(solid(2, 2, red), (0, 0));
    let b = img.add_item(solid(2, 2, green), (3, 0));
    let c = img.add_item(solid(2, 2, blue), (0, 3));
    assert_eq!(img.len(), 3);
    assert!(img.change);
    img.render();
    assert!(!img.change);
    assert_frame(
        &img.buff,
        8,
        &[(0, 0, 2, 2, red), (3, 0, 2, 2, green), (0, 3, 2, 2, blue)],
        BG,
    );
    assert!(img.remove_item(b).is_some());
    assert!(img.change);
    img.render();
    assert!(!img.change);
    assert_frame(&img.buff, 8, &[(0, 0, 2, 2, red), (0, 3, 2, 2, blue)], BG);
    let _ = (a, c);
}

// Selecting one id and removing a different one keeps the selection, and
// the selected item's outline still renders on the next frame.
#[test]
fn selection_survives_removal_of_other_item() {
    let mut img = scene(8, 8);
    let red = 0xFFFF0000;
    let a = img.add_item(solid(3, 3, red), (1, 1));
    let b = img.add_item(solid(2, 2, 0xFF00FF00), (5, 5));
    img.select(a);
    img.remove_item(b);
    assert_eq!(img.selected, Some(a));
    img.render();
    // The outline of item `a` sits on top: border pixels of its footprint
    // are opaque black, its interior carries the rectangle highlight colour.
    assert_eq!(img.buff[1 * 8 + 1], BORDER);
    assert_eq!(img.buff[1 * 8 + 3], BORDER);
    assert_eq!(img.buff[3 * 8 + 1], BORDER);
    assert_eq!(img.buff[3 * 8 + 3], BORDER);
    // The highlight interior colour is transparent, so the item's own pixel
    // shows through at the centre.
    assert_eq!(img.buff[2 * 8 + 2], red);
}

#[test]
fn selecting_unknown_id_renders_nothing_extra() {
    let mut img = scene(4, 4);
    img.select(9);
    img.render();
    assert_frame(&img.buff, 4, &[], BG);
    assert_eq!(img.selected, Some(9));
}

#[test]
fn render_skips_when_clean_and_background_changes() {
    let mut img = scene(4, 4);
    img.render();
    assert!(!img.change);
    img.change_background(0xFF336699);
    assert!(img.change);
    img.render();
    assert_frame(&img.buff, 4, &[], 0xFF336699);
    assert_eq!(img.bg_color, 0xFF336699);
}

#[test]
fn explicit_background_is_kept() {
    let img = Image::new(2, 2, Some(0xFF101010));
    assert_eq!(img.bg_color, 0xFF101010);
    assert_eq!(img.buff, vec![0xFF101010; 4]);
    assert_eq!(img.get_size(), (2, 2));
    assert!(img.is_open());
}

#[test]
fn effects_dispatch_commands() {
    let mut img = scene(8, 8);
    let id = img.add_item(solid(2, 2, 0xFFAA5500), (0, 0));
    img.add_effect(10, Effect::ChangeBackground(0xFF00AA00));
    img.add_effect(11, Effect::SelectItem(id));
    img.add_effect(12, Effect::RemoveItem(id));
    img.add_effect(13, Effect::Close);
    img.get_effect(10);
    assert_eq!(img.bg_color, 0xFF00AA00);
    img.get_effect(11);
    assert_eq!(img.selected, Some(id));
    img.get_effect(12);
    assert_eq!(img.len(), 0);
    assert_eq!(img.selected, None);
    // An unbound key changes nothing.
    let opened_before = img.is_open();
    img.get_effect(99);
    assert_eq!(img.is_open(), opened_before);
    img.get_effect(13);
    assert!(!img.is_open());
}

#[test]
fn rebinding_a_key_replaces_its_effect() {
    let mut img = scene(4, 4);
    img.add_effect(7, Effect::ChangeBackground(0xFF111111));
    img.add_effect(7, Effect::ChangeBackground(0xFF222222));
    img.add_effect(8, Effect::Close);
    img.get_effect(7);
    assert_eq!(img.bg_color, 0xFF222222);
    assert!(img.is_open());
}

#[test]
fn close_marks_scene_closed() {
    let mut img = scene(4, 4);
    assert!(img.is_open());
    img.close();
    assert!(!img.is_open());
}
