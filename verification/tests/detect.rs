use qracer::detect::color::{is_wx_green_pixel, logo_color_counts, wx_green_mask, RgbaImage};
use qracer::detect::flood::{component_stats, flood_component, ComponentStats, PixelMask};
use qracer::detect::regions::{binary_black_mask, label_components};
use qracer::detect::runs::{is_finder_color_sequence, row_runs, Run};
use qracer::detect::signature::{foreground_bbox, polar_neighbor_counts, ForegroundBbox};
use qracer::pipeline::preprocess::BinaryImage;

fn mask_from_rows(rows: &[&str]) -> PixelMask {
    let h = rows.len() as u32;
    let w = rows[0].len() as u32;
    let mut cells = Vec::new();
    for row in rows {
        for c in row.chars() {
            cells.push(c == '#');
        }
    }
    PixelMask { w, h, cells }
}

fn binary_from_rows(rows: &[&str]) -> BinaryImage {
    let h = rows.len() as u32;
    let w = rows[0].len() as u32;
    let mut data = Vec::new();
    for row in rows {
        for c in row.chars() {
            data.push(if c == '#' { 0 } else { 255 });
        }
    }
    BinaryImage::new(w, h, data)
}

fn sorted(mut v: Vec<(i32, i32)>) -> Vec<(i32, i32)> {
    v.sort();
    v
}

#[test]
fn flood_fills_one_four_connected_region() {
    let mask = mask_from_rows(&["##..", "#..#", "..##", "#..."]);
    let mut visited = vec![false; 16];
    let pixels = flood_component(&mask, &mut visited, 0, 0);
    assert_eq!(sorted(pixels.clone()), vec![(0, 0), (0, 1), (1, 0)]);
    assert_eq!(pixels[0], (0, 0));
    assert!(visited[0] && visited[1] && visited[4]);
    assert_eq!(visited.iter().filter(|&&v| v).count(), 3);
    // Diagonal neighbours are not connected.
    let other = flood_component(&mask, &mut visited, 3, 1);
    assert_eq!(sorted(other), vec![(2, 2), (3, 1), (3, 2)]);
    // Already visited, rejected or outside starts give nothing.
    assert!(flood_component(&mask, &mut visited, 0, 0).is_empty());
    assert!(flood_component(&mask, &mut visited, 1, 1).is_empty());
    assert!(flood_component(&mask, &mut visited, -1, 0).is_empty());
    assert!(flood_component(&mask, &mut visited, 0, 4).is_empty());
}

#[test]
fn component_stats_sum_and_bound_pixels() {
    let pixels = vec![(2, 1), (3, 1), (3, 2), (1, 4)];
    let stats = component_stats(&pixels).unwrap();
    assert_eq!(
        stats,
        ComponentStats { area: 4, sum_x: 9, sum_y: 8, min_x: 1, max_x: 3, min_y: 1, max_y: 4 }
    );
    assert!(component_stats(&Vec::new()).is_none());
}

#[test]
fn labelling_partitions_black_pixels_in_raster_order() {
    let bin = binary_from_rows(&["#..#", "#.##", "....", ".##."]);
    let mask = binary_black_mask(&bin);
    assert_eq!(mask.cells.iter().filter(|&&c| c).count(), 7);
    let comps = label_components(&mask);
    assert_eq!(comps.len(), 3);
    assert_eq!(comps[0][0], (0, 0));
    assert_eq!(comps[1][0], (3, 0));
    assert_eq!(comps[2][0], (1, 3));
    assert_eq!(sorted(comps[0].clone()), vec![(0, 0), (0, 1)]);
    assert_eq!(sorted(comps[1].clone()), vec![(2, 1), (3, 0), (3, 1)]);
    assert_eq!(sorted(comps[2].clone()), vec![(1, 3), (2, 3)]);
    let total: usize = comps.iter().map(|c| c.len()).sum();
    assert_eq!(total, 7);
}

#[test]
fn labelling_an_empty_mask_finds_nothing() {
    let mask = mask_from_rows(&["...", "..."]);
    assert!(label_components(&mask).is_empty());
}

#[test]
fn row_runs_split_a_row_into_maximal_stretches() {
    let bin = binary_from_rows(&["##.#...##", "........."]);
    let runs = row_runs(&bin, 0);
    assert_eq!(
        runs,
        vec![
            Run { black: true, start: 0, len: 2 },
            Run { black: false, start: 2, len: 1 },
            Run { black: true, start: 3, len: 1 },
            Run { black: false, start: 4, len: 3 },
            Run { black: true, start: 7, len: 2 },
        ]
    );
    assert!(is_finder_color_sequence(&runs));
    assert!(!is_finder_color_sequence(&runs[1..]));
    assert_eq!(row_runs(&bin, 1), vec![Run { black: false, start: 0, len: 9 }]);
}

#[test]
fn foreground_bbox_bounds_black_pixels() {
    let bin = binary_from_rows(&[".....", "..#..", ".#...", "....#", "....."]);
    assert_eq!(
        foreground_bbox(&bin),
        Some(ForegroundBbox { min_x: 1, max_x: 4, min_y: 1, max_y: 3 })
    );
    let blank = binary_from_rows(&["...", "..."]);
    assert_eq!(foreground_bbox(&blank), None);
}

#[test]
fn polar_counts_track_ring_and_radial_neighbours() {
    // Two rings of four cells.
    let polar = vec![true, true, false, true, true, false, false, false];
    // Black: 4. Tangential: 0->1, 1->2 no, 3->0 (wrap), 4->5 no => 2.
    // Radial: 0->4 yes, 1->5 no, 3->7 no => 1.
    assert_eq!(polar_neighbor_counts(&polar, 2, 4), (4, 2, 1));
}

#[test]
fn badge_green_and_logo_colours() {
    assert!(is_wx_green_pixel([40, 190, 90, 255]));
    assert!(!is_wx_green_pixel([40, 190, 90, 100]));
    assert!(!is_wx_green_pixel([150, 190, 90, 255]));
    let image = RgbaImage {
        w: 3,
        h: 1,
        data: vec![40, 190, 90, 255, 230, 40, 80, 255, 30, 200, 220, 255],
    };
    let mask = wx_green_mask(&image);
    assert_eq!(mask.cells, vec![true, false, false]);
    assert_eq!(logo_color_counts(&image), (1, 1));
    let transparent = RgbaImage { w: 1, h: 1, data: vec![230, 40, 80, 100] };
    assert_eq!(logo_color_counts(&transparent), (0, 0));
}
