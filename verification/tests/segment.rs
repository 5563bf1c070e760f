use svgit::contour::{contours_of, signed_area};
use svgit::segment::{segment, Segmentation};

#[test]
fn labels_two_regions() {
    // 2x2: top row color 1, bottom row color 2.
    let idx = vec![1, 1, 2, 2];
    let s = segment(&idx, 2, 2);
    assert_eq!(s.num_components, 2);
    assert_eq!(s.labels[0], s.labels[1]);
    assert_eq!(s.labels[2], s.labels[3]);
    assert_ne!(s.labels[0], s.labels[2]);
    assert_eq!(s.component_area, vec![2, 2]);
}

#[test]
fn diagonal_same_color_is_two_components_under_4conn() {
    // checkerboard of color 1 and 2 -> 4 separate single-pixel components.
    let idx = vec![1, 2, 2, 1];
    let s = segment(&idx, 2, 2);
    assert_eq!(s.num_components, 4);
}

#[test]
fn merge_small_folds_speckle_into_neighbour() {
    // 3x3 of color 1 with a single color-2 speckle in the center.
    let idx = vec![1, 1, 1, 1, 2, 1, 1, 1, 1];
    let mut s = segment(&idx, 3, 3);
    assert_eq!(s.num_components, 2);
    s.merge_small(4);
    // The 1-pixel speckle folds into the surrounding region.
    assert_eq!(s.num_components, 1);
    assert!(s.labels.iter().all(|&l| l == 0));
}

/// Palette indices in `0..colors` that look random but are not.
fn noise(w: usize, h: usize, colors: u32) -> Vec<u32> {
    let mut state = 12345u32;
    (0..w * h)
        .map(|_| {
            state = state.wrapping_mul(1_664_525).wrapping_add(1_013_904_223);
            (state >> 16) % colors
        })
        .collect()
}

#[test]
fn components_are_numbered_measured_and_boxed() {
    let (w, h) = (13, 9);
    let idx = noise(w, h, 3);
    let s = segment(&idx, w, h);
    assert_eq!(s.component_area.iter().sum::<u32>() as usize, w * h);
    let mut next = 0;
    for p in 0..w * h {
        assert!(s.labels[p] <= next);
        if s.labels[p] == next {
            next += 1;
        }
        assert_eq!(s.component_color[s.labels[p] as usize], idx[p]);
        let (x, y) = (p % w, p / w);
        if x > 0 {
            assert_eq!(s.labels[p] == s.labels[p - 1], idx[p] == idx[p - 1]);
        }
        if y > 0 {
            assert_eq!(s.labels[p] == s.labels[p - w], idx[p] == idx[p - w]);
        }
    }
    assert_eq!(next as usize, s.num_components);
    for (c, b) in s.bboxes().iter().enumerate() {
        let cells: Vec<usize> = (0..w * h).filter(|&p| s.labels[p] as usize == c).collect();
        assert_eq!(cells.len(), s.component_area[c] as usize);
        assert_eq!(b.0, cells.iter().map(|p| p % w).min().unwrap());
        assert_eq!(b.1, cells.iter().map(|p| p / w).min().unwrap());
        assert_eq!(b.2, cells.iter().map(|p| p % w).max().unwrap());
        assert_eq!(b.3, cells.iter().map(|p| p / w).max().unwrap());
    }
}

#[test]
fn outlines_enclose_their_components_before_and_after_merging() {
    let (w, h) = (17, 11);
    let mut s = segment(&noise(w, h, 4), w, h);
    for min_area in [0, 3, 9, 1000] {
        let before = s.num_components;
        s.merge_small(min_area);
        assert!(s.num_components <= before);
        assert_eq!(s.component_area.iter().sum::<u32>() as usize, w * h);
        for (c, b) in s.bboxes().into_iter().enumerate() {
            let loops = contours_of(&s.labels, w, h, c as u32, b);
            let area: i64 = loops.iter().map(|l| signed_area(l)).sum();
            assert_eq!(area, 2 * s.component_area[c] as i64);
        }
    }
}

#[test]
fn merging_below_two_changes_nothing() {
    let idx = noise(6, 6, 3);
    for min_area in [0, 1] {
        let (mut s, t) = (segment(&idx, 6, 6), segment(&idx, 6, 6));
        s.merge_small(min_area);
        assert_eq!((s.labels, s.component_color), (t.labels, t.component_color));
        assert_eq!((s.num_components, s.component_area), (t.num_components, t.component_area));
    }
}

#[test]
fn transparent_components_neither_merge_nor_take_others_in() {
    // A speckle in transparency, and a transparent speckle in colour.
    let mut s = segment(&[0, 0, 0, 1, 1, 0, 5, 0, 1, 0, 0, 0, 0, 1, 1], 5, 3);
    assert_eq!(s.component_color, [0, 1, 5, 0]);
    s.merge_small(100);
    assert_eq!(s.component_color, [0, 1, 5, 0]);
    assert_eq!(s.component_area, [8, 5, 1, 1]);
}

#[test]
fn speckles_join_the_largest_neighbour() {
    // 2 stands between three pixels of 1 and four of 3.
    let mut s = segment(&[1, 1, 1, 2, 3, 3, 3, 3], 8, 1);
    s.merge_small(2);
    assert_eq!(s.labels, [0, 0, 0, 1, 1, 1, 1, 1]);
    assert_eq!(s.component_color, [1, 3]);
    assert_eq!(s.component_area, [3, 5]);
    // Merging cascades, and a region keeps the colour of the one that takes the other in.
    let mut s = segment(&[1, 2, 2, 3, 3, 3, 3], 7, 1);
    s.merge_small(3);
    assert_eq!((s.num_components, &s.component_color[..]), (2, &[2, 3][..]));
    assert_eq!(s.component_area, [3, 4]);
    let mut s = segment(&[1, 2, 2, 3, 3, 3, 3], 7, 1);
    s.merge_small(4);
    assert_eq!((s.num_components, &s.component_color[..]), (1, &[3][..]));
}

#[test]
fn without_a_larger_neighbour_a_region_is_left_as_it_is() {
    let mut s = segment(&[1, 2], 2, 1);
    s.merge_small(4);
    assert_eq!((s.num_components, &s.labels[..]), (2, &[0, 1][..]));
    assert_eq!(s.component_color, [1, 2]);
    assert_eq!(s.component_area, [1, 1]);
}

#[test]
fn outlines_wind_round_their_cells_and_no_others() {
    let (w, h) = (12, 10);
    let s = segment(&noise(w, h, 2), w, h);
    for (c, b) in s.bboxes().into_iter().enumerate() {
        let loops = contours_of(&s.labels, w, h, c as u32, b);
        for y in 0..h as i32 {
            for x in 0..w as i32 {
                // Sides that cross the ray from the middle of the cell to the right.
                let mut winding = 0;
                for l in &loops {
                    for (i, p) in l.iter().enumerate() {
                        let q = l[(i + 1) % l.len()];
                        if p.0 == q.0 && p.0 > x {
                            winding += (q.1 > y) as i32 - (p.1 > y) as i32;
                        }
                    }
                }
                let inside = s.labels[y as usize * w + x as usize] as usize == c;
                assert_eq!(winding, inside as i32);
            }
        }
    }
}

/// How many parts of the outside of component `c`, touching corners included, stay in the image.
fn holes(labels: &[u32], w: usize, h: usize, c: u32) -> usize {
    // One row and column of outside all round.
    let (pw, ph) = (w + 2, h + 2);
    let mut seen = vec![false; pw * ph];
    for y in 0..h {
        for x in 0..w {
            seen[(y + 1) * pw + x + 1] = labels[y * w + x] == c;
        }
    }
    let mut parts = 0;
    for start in 0..pw * ph {
        if seen[start] {
            continue;
        }
        parts += 1;
        seen[start] = true;
        let mut stack = vec![start];
        while let Some(p) = stack.pop() {
            let (x, y) = ((p % pw) as i32, (p / pw) as i32);
            for (dx, dy) in [(-1, -1), (0, -1), (1, -1), (-1, 0), (1, 0), (-1, 1), (0, 1), (1, 1)] {
                let (u, v) = (x + dx, y + dy);
                if u >= 0 && v >= 0 && (u as usize) < pw && (v as usize) < ph {
                    let q = v as usize * pw + u as usize;
                    if !seen[q] {
                        seen[q] = true;
                        stack.push(q);
                    }
                }
            }
        }
    }
    parts - 1
}

#[test]
fn each_region_has_an_outer_loop_and_one_loop_per_hole() {
    let (w, h) = (40, 30);
    let mut most = 0;
    for colors in 2..4 {
        let s = segment(&noise(w, h, colors), w, h);
        for (c, b) in s.bboxes().into_iter().enumerate() {
            let loops = contours_of(&s.labels, w, h, c as u32, b);
            let areas: Vec<i64> = loops.iter().map(|l| signed_area(l)).collect();
            let count = holes(&s.labels, w, h, c as u32);
            most = most.max(count);
            assert_eq!(areas.iter().filter(|&&a| a > 0).count(), 1);
            assert_eq!(areas.iter().filter(|&&a| a < 0).count(), count);
            assert_eq!(loops.len(), 1 + count);
        }
    }
    assert!(most > 1);
}

#[test]
fn sides_of_outlines_are_horizontal_and_vertical_in_turn() {
    let (w, h) = (20, 20);
    let s = segment(&noise(w, h, 2), w, h);
    for (c, b) in s.bboxes().into_iter().enumerate() {
        for l in contours_of(&s.labels, w, h, c as u32, b) {
            assert!(l.len() >= 4 && l.len() % 2 == 0);
            let across = l[0].1 == l[1].1;
            for (i, p) in l.iter().enumerate() {
                let q = l[(i + 1) % l.len()];
                if across == (i % 2 == 0) {
                    assert!(p.1 == q.1 && p.0 != q.0);
                } else {
                    assert!(p.0 == q.0 && p.1 != q.1);
                }
            }
        }
    }
}

#[test]
fn components_may_be_numbered_in_any_order() {
    // The ids 2, 0 and 1 from left to right, and one that does not occur.
    let mut s = Segmentation {
        width: 6,
        height: 1,
        labels: vec![2, 2, 2, 0, 1, 1],
        num_components: 4,
        component_color: vec![7, 8, 9, 5],
        component_area: vec![1, 2, 3, 0],
    };
    s.merge_small(2);
    // The single pixel joins the larger of its neighbours, which are left as they are.
    assert_eq!(s.num_components, 3);
    assert_eq!(s.labels, [0, 0, 0, 0, 1, 1]);
    assert_eq!(s.component_color, [9, 8, 5]);
    assert_eq!(s.component_area, [4, 2, 0]);
    // Ids count up as the components come, not as they occur.
    let mut t = Segmentation {
        width: 5,
        height: 1,
        labels: vec![2, 1, 1, 0, 0],
        num_components: 3,
        component_color: vec![7, 8, 9],
        component_area: vec![2, 2, 1],
    };
    t.merge_small(2);
    assert_eq!((t.num_components, &t.labels[..]), (2, &[1, 1, 1, 0, 0][..]));
    assert_eq!(t.component_color, [7, 8]);
}

#[test]
fn large_regions_stay_and_small_ones_join_a_larger_one() {
    let (w, h, min_area) = (24, 24, 6);
    let before = segment(&noise(w, h, 3), w, h);
    let mut after = segment(&noise(w, h, 3), w, h);
    after.merge_small(min_area);
    let color = |s: &Segmentation, p: usize| s.component_color[s.labels[p] as usize];
    let area = |s: &Segmentation, p: usize| s.component_area[s.labels[p] as usize];
    for p in 0..w * h {
        if area(&before, p) >= min_area {
            assert_eq!(color(&after, p), color(&before, p));
            for q in 0..p {
                if area(&before, q) >= min_area && before.labels[p] != before.labels[q] {
                    assert_ne!(after.labels[p], after.labels[q]);
                }
            }
        }
        // An opaque pixel on the right or below of a larger region.
        let (x, y) = (p % w, p / w);
        for (q, there) in [(p + 1, x + 1 < w), (p + w, y + 1 < h)] {
            if there && color(&before, p) != 0 && color(&before, q) != 0 {
                let (a, b) = (area(&before, p), area(&before, q));
                if before.labels[p] != before.labels[q] && a < min_area && a < b {
                    assert!(area(&after, p) > a);
                }
            }
        }
    }
}
