use penrose_config::geometry::{
    as_columns, as_fan, as_rows, scale, split_at_height, split_at_width, Region, RATIO_SCALE,
};

fn region(x: u32, y: u32, w: u32, h: u32) -> Region {
    Region::new(x, y, w, h)
}

/// The pixels of `r`, one by one.
fn pixels(r: &Region) -> Vec<(u32, u32)> {
    let mut all = Vec::new();
    for px in r.x..r.x + r.w {
        for py in r.y..r.y + r.h {
            all.push((px, py));
        }
    }
    all
}

/// Whether the parts, put together, hold each pixel of `whole` once and no other.
fn shares_out(parts: &[Region], whole: &Region) -> bool {
    let mut got: Vec<(u32, u32)> = Vec::new();
    for part in parts {
        got.extend(pixels(part));
    }
    let mut want = pixels(whole);
    got.sort();
    want.sort();
    got == want
}

#[test]
fn new_region_keeps_its_values() {
    let r = Region::new(10, 20, 30, 40);
    assert_eq!((r.x, r.y, r.w, r.h), (10, 20, 30, 40));
    assert_eq!(r, Region { x: 10, y: 20, w: 30, h: 40 });
}

#[test]
fn bounds_are_checked_at_both_far_edges() {
    assert!(region(0, 0, 1920, 1080).check_bounds());
    assert!(region(u32::MAX, u32::MAX, 0, 0).check_bounds());
    assert!(region(u32::MAX - 5, 0, 5, 1).check_bounds());
    assert!(!region(u32::MAX - 5, 0, 6, 1).check_bounds());
    assert!(!region(0, u32::MAX, 1, 1).check_bounds());
}

#[test]
fn two_columns_of_an_even_width() {
    let cols = as_columns(&region(0, 0, 100, 100), 2);
    assert_eq!(cols, vec![region(0, 0, 50, 100), region(50, 0, 50, 100)]);
}

#[test]
fn two_rows_of_an_even_height() {
    let rows = as_rows(&region(0, 0, 100, 100), 2);
    assert_eq!(rows, vec![region(0, 0, 100, 50), region(0, 50, 100, 50)]);
}

#[test]
fn last_column_takes_what_is_left_over() {
    let cols = as_columns(&region(10, 5, 1000, 700), 3);
    assert_eq!(
        cols,
        vec![region(10, 5, 333, 700), region(343, 5, 333, 700), region(676, 5, 334, 700)]
    );
    let last = cols[2];
    assert_eq!(last.x + last.w, 10 + 1000);
}

#[test]
fn last_row_takes_what_is_left_over() {
    let rows = as_rows(&region(10, 5, 700, 1000), 3);
    assert_eq!(
        rows,
        vec![region(10, 5, 700, 333), region(10, 338, 700, 333), region(10, 671, 700, 334)]
    );
    let last = rows[2];
    assert_eq!(last.y + last.h, 5 + 1000);
}

#[test]
fn no_columns_and_no_rows_for_zero() {
    assert_eq!(as_columns(&region(0, 0, 1920, 1080), 0), Vec::<Region>::new());
    assert_eq!(as_rows(&region(0, 0, 1920, 1080), 0), Vec::<Region>::new());
}

#[test]
fn one_column_or_row_is_the_region_itself() {
    let r = region(3, 4, 1921, 1081);
    assert_eq!(as_columns(&r, 1), vec![r]);
    assert_eq!(as_rows(&r, 1), vec![r]);
}

#[test]
fn more_columns_than_pixels() {
    let cols = as_columns(&region(7, 0, 3, 10), 5);
    assert_eq!(cols.len(), 5);
    for c in &cols[..4] {
        assert_eq!(*c, region(7, 0, 0, 10));
    }
    assert_eq!(cols[4], region(7, 0, 3, 10));
}

#[test]
fn columns_of_an_empty_region() {
    let cols = as_columns(&region(0, 0, 0, 0), 3);
    assert_eq!(cols, vec![region(0, 0, 0, 0); 3]);
    let rows = as_rows(&region(0, 0, 0, 0), 3);
    assert_eq!(rows, vec![region(0, 0, 0, 0); 3]);
}

#[test]
fn columns_at_the_far_edge_of_the_coordinates() {
    let r = region(u32::MAX - 10, u32::MAX - 10, 10, 10);
    let cols = as_columns(&r, 3);
    assert_eq!(cols[0], region(u32::MAX - 10, u32::MAX - 10, 3, 10));
    assert_eq!(cols[2], region(u32::MAX - 4, u32::MAX - 10, 4, 10));
    let rows = as_rows(&r, 4);
    assert_eq!(rows[3], region(u32::MAX - 10, u32::MAX - 4, 10, 4));
}

#[test]
fn columns_put_together_give_the_region_again() {
    let whole = region(5, 9, 23, 4);
    for n in 1..=30u32 {
        let cols = as_columns(&whole, n);
        assert_eq!(cols.len(), n as usize);
        assert!(shares_out(&cols, &whole), "{} columns", n);
        assert_eq!(cols[0].x, whole.x);
        for pair in cols.windows(2) {
            assert_eq!(pair[0].x + pair[0].w, pair[1].x);
        }
        let last = cols[cols.len() - 1];
        assert_eq!(last.x + last.w, whole.x + whole.w);
        for c in &cols[..cols.len() - 1] {
            assert_eq!(c.w, whole.w / n);
        }
    }
}

#[test]
fn rows_put_together_give_the_region_again() {
    let whole = region(5, 9, 4, 23);
    for n in 1..=30u32 {
        let rows = as_rows(&whole, n);
        assert_eq!(rows.len(), n as usize);
        assert!(shares_out(&rows, &whole), "{} rows", n);
        assert_eq!(rows[0].y, whole.y);
        for pair in rows.windows(2) {
            assert_eq!(pair[0].y + pair[0].h, pair[1].y);
        }
        let last = rows[rows.len() - 1];
        assert_eq!(last.y + last.h, whole.y + whole.h);
        for r in &rows[..rows.len() - 1] {
            assert_eq!(r.h, whole.h / n);
        }
    }
}

#[test]
fn split_at_a_width_within_the_region() {
    let r = region(10, 10, 50, 60);
    assert_eq!(split_at_width(&r, 30), Some((region(10, 10, 30, 60), region(40, 10, 20, 60))));
    assert_eq!(split_at_width(&r, 0), Some((region(10, 10, 0, 60), region(10, 10, 50, 60))));
    assert_eq!(split_at_width(&r, 50), Some((region(10, 10, 50, 60), region(60, 10, 0, 60))));
}

#[test]
fn split_at_a_height_within_the_region() {
    let r = region(10, 10, 50, 60);
    assert_eq!(split_at_height(&r, 40), Some((region(10, 10, 50, 40), region(10, 50, 50, 20))));
    assert_eq!(split_at_height(&r, 0), Some((region(10, 10, 50, 0), region(10, 10, 50, 60))));
    assert_eq!(split_at_height(&r, 60), Some((region(10, 10, 50, 60), region(10, 70, 50, 0))));
}

#[test]
fn no_split_beyond_the_region() {
    let r = region(10, 10, 50, 60);
    assert_eq!(split_at_width(&r, 51), None);
    assert_eq!(split_at_width(&r, 100), None);
    assert_eq!(split_at_height(&r, 61), None);
    assert_eq!(split_at_height(&r, u32::MAX), None);
}

#[test]
fn scale_rounds_down() {
    assert_eq!(RATIO_SCALE, 1000);
    assert_eq!(scale(1920, 600), 1152);
    assert_eq!(scale(1000, 333), 333);
    assert_eq!(scale(1001, 500), 500);
    assert_eq!(scale(7, 600), 4);
    assert_eq!(scale(1920, 0), 0);
    assert_eq!(scale(0, 600), 0);
}

#[test]
fn scale_stops_at_the_whole() {
    assert_eq!(scale(1920, 1000), 1920);
    assert_eq!(scale(1920, 1001), 1920);
    assert_eq!(scale(u32::MAX, u32::MAX), u32::MAX);
    assert_eq!(scale(u32::MAX, 999), 4_290_672_327);
}

#[test]
fn fan_with_the_middle_sheet_pulled() {
    let sheets = as_fan(&region(0, 0, 1000, 600), 3, 600, Some(1));
    assert_eq!(
        sheets,
        vec![region(0, 0, 200, 600), region(200, 0, 600, 600), region(800, 0, 200, 600)]
    );
}

#[test]
fn fan_with_the_first_and_the_last_sheet_pulled() {
    let whole = region(100, 50, 1000, 600);
    assert_eq!(
        as_fan(&whole, 3, 600, Some(0)),
        vec![region(100, 50, 600, 600), region(700, 50, 200, 600), region(900, 50, 200, 600)]
    );
    assert_eq!(
        as_fan(&whole, 3, 600, Some(2)),
        vec![region(100, 50, 200, 600), region(300, 50, 200, 600), region(500, 50, 600, 600)]
    );
}

#[test]
fn fan_with_no_sheet_pulled() {
    let sheets = as_fan(&region(0, 0, 1000, 600), 3, 600, None);
    assert_eq!(
        sheets,
        vec![region(0, 0, 200, 600), region(200, 0, 200, 600), region(400, 0, 200, 600)]
    );
    let beyond = as_fan(&region(0, 0, 1000, 600), 3, 600, Some(7));
    assert_eq!(beyond, sheets);
}

#[test]
fn fan_of_an_odd_width_in_two() {
    let sheets = as_fan(&region(0, 0, 101, 10), 2, 50, Some(0));
    assert_eq!(sheets, vec![region(0, 0, 50, 10), region(50, 0, 51, 10)]);
}

#[test]
fn fan_with_a_sheet_wider_than_the_region() {
    let sheets = as_fan(&region(0, 0, 100, 10), 3, 500, Some(1));
    assert_eq!(sheets, vec![region(0, 0, 0, 10), region(0, 0, 100, 10), region(100, 0, 0, 10)]);
}

#[test]
fn fan_of_one_and_of_none() {
    assert_eq!(as_fan(&region(0, 0, 100, 10), 0, 60, Some(0)), Vec::<Region>::new());
    assert_eq!(as_fan(&region(0, 0, 100, 10), 1, 60, Some(0)), vec![region(0, 0, 60, 10)]);
    assert_eq!(as_fan(&region(0, 0, 100, 10), 1, 60, None), vec![region(0, 0, 0, 10)]);
}
