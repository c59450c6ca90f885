use mandel_maze::colormap::{sector_channels, ColorMap};
use mandel_maze::frame::{frame_max_iter, mirror_lower_half, symmetric_rows};
use mandel_maze::pixel::{pack_opaque, pack_rgb};
use mandel_maze::threads::{resolve_thread_count, thread_count_for};
use mandel_maze::viewer::{colormap_for_digit, ViewerKey, ViewerSettings};

const ALL_MAPS: [ColorMap; 9] = [
    ColorMap::HsvClassic,
    ColorMap::HsvCycle,
    ColorMap::Grayscale,
    ColorMap::Fire,
    ColorMap::Ocean,
    ColorMap::Rainbow,
    ColorMap::Viridis,
    ColorMap::Magma,
    ColorMap::Plasma,
];

#[test]
fn lowercase_names_select_maps() {
    assert_eq!(ColorMap::from_lowercase_name("hsvclassic"), Some(ColorMap::HsvClassic));
    assert_eq!(ColorMap::from_lowercase_name("classic"), Some(ColorMap::HsvClassic));
    assert_eq!(ColorMap::from_lowercase_name("grey"), Some(ColorMap::Grayscale));
    assert_eq!(ColorMap::from_lowercase_name("plasma"), Some(ColorMap::Plasma));
    assert_eq!(ColorMap::from_lowercase_name("Fire"), None);
    assert_eq!(ColorMap::from_lowercase_name("sepia"), None);
    assert_eq!(ColorMap::from_lowercase_name(""), None);
}

#[test]
fn names_ignore_case() {
    assert_eq!(ColorMap::from_name("FIRE"), Some(ColorMap::Fire));
    assert_eq!(ColorMap::from_name("HsvCycle"), Some(ColorMap::HsvCycle));
    assert_eq!(ColorMap::from_name("Grey"), Some(ColorMap::Grayscale));
    assert_eq!(ColorMap::from_name("Sepia"), None);
}

#[test]
fn canonical_names_round_trip() {
    for c in ALL_MAPS {
        assert_eq!(ColorMap::from_lowercase_name(c.name()), Some(c));
        assert_eq!(ColorMap::from_name(&c.name().to_uppercase()), Some(c));
    }
    assert_eq!(ColorMap::Viridis.name(), "viridis");
}

#[test]
fn sector_layouts() {
    assert_eq!(sector_channels(0, 'c', 'x', 'z'), ('c', 'x', 'z'));
    assert_eq!(sector_channels(1, 'c', 'x', 'z'), ('x', 'c', 'z'));
    assert_eq!(sector_channels(2, 'c', 'x', 'z'), ('z', 'c', 'x'));
    assert_eq!(sector_channels(3, 'c', 'x', 'z'), ('z', 'x', 'c'));
    assert_eq!(sector_channels(4, 'c', 'x', 'z'), ('x', 'z', 'c'));
    assert_eq!(sector_channels(5, 'c', 'x', 'z'), ('c', 'z', 'x'));
    assert_eq!(sector_channels(-1, 1.0f64, 0.5, 0.0), (1.0, 0.0, 0.5));
}

fn frame(rows: &[[u8; 6]]) -> Vec<u8> {
    rows.iter().flat_map(|r| r.iter().copied()).collect()
}

#[test]
fn mirror_odd_height() {
    let mut data = frame(&[[1, 2, 3, 4, 5, 6], [7, 8, 9, 10, 11, 12], [0; 6]]);
    mirror_lower_half(&mut data, 2, 3);
    assert_eq!(data, frame(&[[1, 2, 3, 4, 5, 6], [7, 8, 9, 10, 11, 12], [1, 2, 3, 4, 5, 6]]));
}

#[test]
fn mirror_even_height() {
    let mut data = frame(&[[1; 6], [2; 6], [3; 6], [9; 6]]);
    mirror_lower_half(&mut data, 2, 4);
    assert_eq!(data, frame(&[[1; 6], [2; 6], [3; 6], [1; 6]]));
    let mut data = frame(&[[1; 6], [2; 6], [3; 6], [9; 6], [9; 6], [9; 6]]);
    mirror_lower_half(&mut data, 2, 6);
    assert_eq!(data, frame(&[[1; 6], [2; 6], [3; 6], [9; 6], [2; 6], [1; 6]]));
}

#[test]
fn mirror_degenerate_frames() {
    let mut empty: Vec<u8> = Vec::new();
    mirror_lower_half(&mut empty, 5, 0);
    assert!(empty.is_empty());
    let mut one = vec![4, 5, 6];
    mirror_lower_half(&mut one, 1, 1);
    assert_eq!(one, vec![4, 5, 6]);
}

#[test]
fn rows_rendered_when_symmetric() {
    assert_eq!(symmetric_rows(0), 0);
    assert_eq!(symmetric_rows(1), 1);
    assert_eq!(symmetric_rows(2), 2);
    assert_eq!(symmetric_rows(3), 2);
    assert_eq!(symmetric_rows(480), 241);
}

#[test]
fn zoom_frame_iterations_saturate() {
    assert_eq!(frame_max_iter(200, 0), 200);
    assert_eq!(frame_max_iter(200, 1400), 1600);
    assert_eq!(frame_max_iter(200, u32::MAX), u32::MAX);
}

#[test]
fn pixel_words() {
    assert_eq!(pack_rgb(0x12, 0x34, 0x56), 0x0012_3456);
    assert_eq!(pack_rgb(255, 255, 255), 0x00ff_ffff);
    assert_eq!(pack_opaque(0, 0, 0), 0xff00_0000);
    assert_eq!(pack_opaque(0xab, 0xcd, 0xef), 0xffab_cdef);
}

#[test]
fn thread_counts() {
    assert_eq!(thread_count_for(0, 8), 8);
    assert_eq!(thread_count_for(0, 0), 1);
    assert_eq!(thread_count_for(3, 8), 3);
    assert_eq!(resolve_thread_count(5), 5);
    assert!(resolve_thread_count(0) >= 1);
}

#[test]
fn viewer_keys() {
    let mut s = ViewerSettings::new();
    assert_eq!(s.max_iter_base, 180);
    assert_eq!(s.colormap, ColorMap::HsvClassic);
    s.apply(ViewerKey::MoreIterations);
    assert_eq!(s.max_iter_base, 200);
    for _ in 0..200 {
        s.apply(ViewerKey::MoreIterations);
    }
    assert_eq!(s.max_iter_base, 2000);
    s.max_iter_base = 1990;
    s.apply(ViewerKey::MoreIterations);
    assert_eq!(s.max_iter_base, 2000);
    for _ in 0..200 {
        s.apply(ViewerKey::FewerIterations);
    }
    assert_eq!(s.max_iter_base, 50);
    s.max_iter_base = 65;
    s.apply(ViewerKey::FewerIterations);
    assert_eq!(s.max_iter_base, 50);
    s.max_iter_base = 10;
    s.apply(ViewerKey::FewerIterations);
    assert_eq!(s.max_iter_base, 50);
    s.apply(ViewerKey::Colormap(ColorMap::Magma));
    assert_eq!(s.colormap, ColorMap::Magma);
    s.apply(ViewerKey::Reset);
    assert_eq!(s, ViewerSettings::new());
}

#[test]
fn viewer_iteration_cap() {
    let s = ViewerSettings::new();
    assert_eq!(s.max_iter(0), 180);
    assert_eq!(s.max_iter(1000), 1180);
    assert_eq!(s.max_iter(7820), 8000);
    assert_eq!(s.max_iter(9000), 8000);
}

#[test]
fn digit_keys_select_maps() {
    for (i, c) in ALL_MAPS.iter().enumerate() {
        assert_eq!(colormap_for_digit(i as u8 + 1), Some(*c));
    }
    assert_eq!(colormap_for_digit(0), None);
    assert_eq!(colormap_for_digit(10), None);
}
