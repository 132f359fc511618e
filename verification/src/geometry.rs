//! Regions of the screen and how they are cut into columns and rows.
//!
//! The even cuts and the cuts at a given width or height are penrose's own;
//! what this module adds is that nothing of a region is lost when it is cut.

use vstd::prelude::*;

verus! {

/// An axis-aligned rectangle of pixels: its top left corner and its extent.
#[derive(Clone, Copy, Debug, PartialEq, Eq, Hash, Structural)]
pub struct Region {
    /// The x-coordinate of the left edge.
    pub x: u32,
    /// The y-coordinate of the top edge.
    pub y: u32,
    /// The width.
    pub w: u32,
    /// The height.
    pub h: u32,
}

impl Region {
    /// The right and the bottom edge are coordinates too.
    pub open spec fn in_bounds(self) -> bool {
        &&& self.x + self.w <= u32::MAX
        &&& self.y + self.h <= u32::MAX
    }

    /// The pixel at `(px, py)` lies inside this region.
    pub open spec fn covers(self, px: int, py: int) -> bool {
        &&& self.x <= px < self.x + self.w
        &&& self.y <= py < self.y + self.h
    }

    /// No pixel of this region lies outside `outer`.
    pub open spec fn within(self, outer: Region) -> bool {
        &&& outer.x <= self.x
        &&& self.x + self.w <= outer.x + outer.w
        &&& outer.y <= self.y
        &&& self.y + self.h <= outer.y + outer.h
    }

    /// The region `w` wide and `h` high whose top left corner is at `(x, y)`.
    pub fn new(x: u32, y: u32, w: u32, h: u32) -> (r: Region)
        ensures
            r == (Region { x, y, w, h }),
    {
        Region { x, y, w, h }
    }

    /// Whether the far edges of this region can be written as coordinates.
    pub fn check_bounds(&self) -> (ok: bool)
        ensures
            ok == self.in_bounds(),
    {
        self.w <= u32::MAX - self.x && self.h <= u32::MAX - self.y
    }
}

/// Column `i` of `n` where every column is `region.w / n` wide and what is
/// left over on the right is dropped.
pub open spec fn even_column(region: Region, n: int, i: int) -> Region {
    Region {
        x: (region.x + i * (region.w as int / n)) as u32,
        y: region.y,
        w: (region.w as int / n) as u32,
        h: region.h,
    }
}

/// Row `i` of `n` where every row is `region.h / n` high and what is left
/// over at the bottom is dropped.
pub open spec fn even_row(region: Region, n: int, i: int) -> Region {
    Region {
        x: region.x,
        y: (region.y + i * (region.h as int / n)) as u32,
        w: region.w,
        h: (region.h as int / n) as u32,
    }
}

/// Column `i` of `n`: equally wide, left to right, the last one reaching the
/// right edge of `region`.
pub open spec fn column(region: Region, n: int, i: int) -> Region {
    let step = region.w as int / n;
    Region {
        x: (region.x + i * step) as u32,
        y: region.y,
        w: if i == n - 1 {
            (region.w - i * step) as u32
        } else {
            step as u32
        },
        h: region.h,
    }
}

/// Row `i` of `n`: equally high, top to bottom, the last one reaching the
/// bottom edge of `region`.
pub open spec fn row(region: Region, n: int, i: int) -> Region {
    let step = region.h as int / n;
    Region {
        x: region.x,
        y: (region.y + i * step) as u32,
        w: region.w,
        h: if i == n - 1 {
            (region.h - i * step) as u32
        } else {
            step as u32
        },
    }
}

/// The `n` columns of `region`, left to right.
pub open spec fn columns(region: Region, n: u32) -> Seq<Region> {
    Seq::new(n as nat, |i: int| column(region, n as int, i))
}

/// The `n` rows of `region`, top to bottom.
pub open spec fn rows(region: Region, n: u32) -> Seq<Region> {
    Seq::new(n as nat, |i: int| row(region, n as int, i))
}

/// What is left of `region` when it is cut at `width` from its left edge.
pub open spec fn left_of_cut(region: Region, width: u32) -> Region {
    Region { x: region.x, y: region.y, w: width, h: region.h }
}

/// What lies right of a cut at `width` from the left edge of `region`.
pub open spec fn right_of_cut(region: Region, width: u32) -> Region {
    Region {
        x: (region.x + width) as u32,
        y: region.y,
        w: (region.w - width) as u32,
        h: region.h,
    }
}

/// What lies above a cut at `height` from the top edge of `region`.
pub open spec fn above_cut(region: Region, height: u32) -> Region {
    Region { x: region.x, y: region.y, w: region.w, h: height }
}

/// What lies below a cut at `height` from the top edge of `region`.
pub open spec fn below_cut(region: Region, height: u32) -> Region {
    Region {
        x: region.x,
        y: (region.y + height) as u32,
        w: region.w,
        h: (region.h - height) as u32,
    }
}

/// A ratio is written in thousandths: 600 stands for six tenths.
pub const RATIO_SCALE: u32 = 1000;

/// The part of `extent` that `ratio` thousandths of it come to, rounded down.
/// A ratio above one counts as one.
pub open spec fn scaled(extent: u32, ratio: u32) -> u32 {
    if ratio >= RATIO_SCALE {
        extent
    } else {
        ((extent * ratio) / (RATIO_SCALE as int)) as u32
    }
}

/// How far each sheet of a fan of `n` stands from the one before it, when one
/// sheet is `wide` wide: the rest of the width, shared out among the other
/// sheets.
pub open spec fn fan_step(region: Region, n: u32, wide: u32) -> int {
    if n <= 1 || wide >= region.w {
        0
    } else {
        (region.w - wide) / (n - 1)
    }
}

/// Where a sheet lies in a fan with respect to the sheet that is pulled out.
pub enum FanPlace {
    /// Left of the pulled sheet, or in a fan with no sheet pulled out.
    Before,
    /// The sheet that is pulled out.
    Pulled,
    /// Right of the pulled sheet.
    After,
}

/// Sheet `i` of a fan of `n` sheets laid out from the left edge of `region`.
///
/// Every sheet is as high as the region and [`fan_step`] wide, and starts that
/// far right of the one before it. The sheet that is pulled out is `wide`
/// wide instead (at most as wide as the region), and the sheets after it
/// start where it ends.
pub open spec fn sheet(region: Region, n: u32, wide: u32, i: int, place: FanPlace) -> Region {
    let wide = if wide >= region.w {
        region.w
    } else {
        wide
    };
    let step = fan_step(region, n, wide);
    match place {
        FanPlace::Before => Region {
            x: (region.x + i * step) as u32,
            y: region.y,
            w: step as u32,
            h: region.h,
        },
        FanPlace::Pulled => Region {
            x: (region.x + i * step) as u32,
            y: region.y,
            w: wide,
            h: region.h,
        },
        FanPlace::After => Region {
            x: (region.x + (i - 1) * step + wide) as u32,
            y: region.y,
            w: step as u32,
            h: region.h,
        },
    }
}

/// The position that `pulled` names, as a number to count with.
pub open spec fn spot(pulled: Option<u32>) -> Option<int> {
    match pulled {
        Some(p) => Some(p as int),
        None => None,
    }
}

/// Where sheet `i` lies when sheet `pulled` is the one pulled out.
pub open spec fn fan_place(pulled: Option<int>, i: int) -> FanPlace {
    match pulled {
        Some(p) => if i == p {
            FanPlace::Pulled
        } else if i > p {
            FanPlace::After
        } else {
            FanPlace::Before
        },
        None => FanPlace::Before,
    }
}

/// The `n` sheets of a fan, left to right.
pub open spec fn fan(region: Region, n: u32, wide: u32, pulled: Option<int>) -> Seq<Region> {
    Seq::new(n as nat, |i: int| sheet(region, n, wide, i, fan_place(pulled, i)))
}

/// `parts` stand side by side from the left edge of `whole` to its right
/// edge, each as high as `whole`, with no gap and no overlap between
/// neighbours.
pub open spec fn tiles_across(parts: Seq<Region>, whole: Region) -> bool {
    &&& parts.len() > 0
    &&& parts[0].x == whole.x
    &&& parts[parts.len() - 1].x + parts[parts.len() - 1].w == whole.x + whole.w
    &&& forall|i: int|
        0 <= i < parts.len() ==> (#[trigger] parts[i]).y == whole.y && parts[i].h == whole.h
    &&& forall|i: int, j: int|
        0 <= i && j == i + 1 && j < parts.len() ==> (#[trigger] parts[i]).x + parts[i].w == (
        #[trigger] parts[j]).x
}

/// `parts` lie one under the other from the top edge of `whole` to its bottom
/// edge, each as wide as `whole`, with no gap and no overlap between
/// neighbours.
pub open spec fn tiles_down(parts: Seq<Region>, whole: Region) -> bool {
    &&& parts.len() > 0
    &&& parts[0].y == whole.y
    &&& parts[parts.len() - 1].y + parts[parts.len() - 1].h == whole.y + whole.h
    &&& forall|i: int|
        0 <= i < parts.len() ==> (#[trigger] parts[i]).x == whole.x && parts[i].w == whole.w
    &&& forall|i: int, j: int|
        0 <= i && j == i + 1 && j < parts.len() ==> (#[trigger] parts[i]).y + parts[i].h == (
        #[trigger] parts[j]).y
}

/// `penrose::PenroseError`, the error of a cut that penrose refuses. Nothing
/// is known of what such a value holds.
#[verifier::external_type_specification]
#[verifier::external_body]
pub struct ExPenroseError(penrose::PenroseError);

/// `penrose::core::data_types::Region::as_columns`. For `n` of 0 or 1 it hands
/// back the region itself, alone; for more it hands back `n` columns of width
/// `region.w / n`, the first at the left edge and each next one that width
/// further right.
#[verifier::external_body]
fn even_columns(region: &Region, n: u32) -> (cols: Vec<Region>)
    requires
        region.in_bounds(),
    ensures
        n <= 1 ==> cols@ == seq![*region],
        n >= 2 ==> cols@ == Seq::new(n as nat, |i: int| even_column(*region, n as int, i)),
{
    let whole = penrose::core::data_types::Region::new(region.x, region.y, region.w, region.h);
    let mut cols = Vec::new();
    for c in whole.as_columns(n) {
        cols.push(Region { x: c.x, y: c.y, w: c.w, h: c.h });
    }
    cols
}

/// `penrose::core::data_types::Region::as_rows`. For `n` of 0 or 1 it hands
/// back the region itself, alone; for more it hands back `n` rows of height
/// `region.h / n`, the first at the top edge and each next one that height
/// further down.
#[verifier::external_body]
fn even_rows(region: &Region, n: u32) -> (rows: Vec<Region>)
    requires
        region.in_bounds(),
    ensures
        n <= 1 ==> rows@ == seq![*region],
        n >= 2 ==> rows@ == Seq::new(n as nat, |i: int| even_row(*region, n as int, i)),
{
    let whole = penrose::core::data_types::Region::new(region.x, region.y, region.w, region.h);
    let mut rows = Vec::new();
    for r in whole.as_rows(n) {
        rows.push(Region { x: r.x, y: r.y, w: r.w, h: r.h });
    }
    rows
}

/// `penrose::core::data_types::Region::split_at_width`. It fails when `width`
/// is more than the region has; otherwise it hands back the part left of the
/// cut, `width` wide, and the part right of it, which has the rest.
#[verifier::external_body]
fn cut_at_width(region: &Region, width: u32) -> (parts: Result<
    (Region, Region),
    penrose::PenroseError,
>)
    requires
        region.in_bounds(),
    ensures
        parts is Ok <==> width <= region.w,
        parts matches Ok(p) ==> p.0 == left_of_cut(*region, width) && p.1 == right_of_cut(
            *region,
            width,
        ),
{
    let whole = penrose::core::data_types::Region::new(region.x, region.y, region.w, region.h);
    match whole.split_at_width(width) {
        Ok((l, r)) => Ok(
            (Region { x: l.x, y: l.y, w: l.w, h: l.h }, Region { x: r.x, y: r.y, w: r.w, h: r.h }),
        ),
        Err(e) => Err(e),
    }
}

/// `penrose::core::data_types::Region::split_at_height`. It fails when
/// `height` is more than the region has; otherwise it hands back the part
/// above the cut, `height` high, and the part below it, which has the rest.
#[verifier::external_body]
fn cut_at_height(region: &Region, height: u32) -> (parts: Result<
    (Region, Region),
    penrose::PenroseError,
>)
    requires
        region.in_bounds(),
    ensures
        parts is Ok <==> height <= region.h,
        parts matches Ok(p) ==> p.0 == above_cut(*region, height) && p.1 == below_cut(
            *region,
            height,
        ),
{
    let whole = penrose::core::data_types::Region::new(region.x, region.y, region.w, region.h);
    match whole.split_at_height(height) {
        Ok((a, b)) => Ok(
            (Region { x: a.x, y: a.y, w: a.w, h: a.h }, Region { x: b.x, y: b.y, w: b.w, h: b.h }),
        ),
        Err(e) => Err(e),
    }
}

/// `i` steps of `extent / n`, and one more, do not reach beyond `extent`.
proof fn lemma_steps_fit(extent: int, n: int, i: int)
    requires
        0 <= extent,
        0 < n,
        0 <= i < n,
    ensures
        0 <= extent / n,
        0 <= i * (extent / n),
        (i + 1) * (extent / n) <= extent,
        i * (extent / n) + (extent / n) == (i + 1) * (extent / n),
{
    assert(0 <= extent / n && n * (extent / n) <= extent) by (nonlinear_arith)
        requires
            0 <= extent,
            0 < n,
    ;
    assert(0 <= i * (extent / n) && (i + 1) * (extent / n) <= n * (extent / n) && i * (extent / n)
        + (extent / n) == (i + 1) * (extent / n)) by (nonlinear_arith)
        requires
            0 <= extent / n,
            0 <= i < n,
    ;
}

/// A column of a region lies within it, and neighbouring columns touch.
pub proof fn lemma_column_within(region: Region, n: u32, i: int)
    requires
        region.in_bounds(),
        0 <= i < n,
    ensures
        column(region, n as int, i).within(region),
        column(region, n as int, i).in_bounds(),
        column(region, n as int, i).x == region.x + i * (region.w as int / n as int),
        i < n - 1 ==> column(region, n as int, i).w == region.w as int / n as int,
        i == n - 1 ==> column(region, n as int, i).x + column(region, n as int, i).w == region.x
            + region.w,
{
    lemma_steps_fit(region.w as int, n as int, i);
}

/// A row of a region lies within it, and neighbouring rows touch.
pub proof fn lemma_row_within(region: Region, n: u32, i: int)
    requires
        region.in_bounds(),
        0 <= i < n,
    ensures
        row(region, n as int, i).within(region),
        row(region, n as int, i).in_bounds(),
        row(region, n as int, i).y == region.y + i * (region.h as int / n as int),
        i < n - 1 ==> row(region, n as int, i).h == region.h as int / n as int,
        i == n - 1 ==> row(region, n as int, i).y + row(region, n as int, i).h == region.y
            + region.h,
{
    lemma_steps_fit(region.h as int, n as int, i);
}

/// The last column is wider than the others by what the division leaves
/// over: less than one pixel for each column.
pub proof fn lemma_last_column_excess(region: Region, n: u32)
    requires
        region.in_bounds(),
        n > 0,
    ensures
        column(region, n as int, n - 1).w - (region.w as int) / (n as int) == (region.w as int) % (
        n as int),
        0 <= (region.w as int) % (n as int) < n,
{
    lemma_steps_fit(region.w as int, n as int, n - 1);
    let w = region.w as int;
    let k = n as int;
    assert(w - (k - 1) * (w / k) - w / k == w % k && 0 <= w % k < k) by (nonlinear_arith)
        requires
            0 <= w,
            0 < k,
    ;
}

/// The last row is higher than the others by what the division leaves over:
/// less than one pixel for each row.
pub proof fn lemma_last_row_excess(region: Region, n: u32)
    requires
        region.in_bounds(),
        n > 0,
    ensures
        row(region, n as int, n - 1).h - (region.h as int) / (n as int) == (region.h as int) % (
        n as int),
        0 <= (region.h as int) % (n as int) < n,
{
    lemma_steps_fit(region.h as int, n as int, n - 1);
    let h = region.h as int;
    let k = n as int;
    assert(h - (k - 1) * (h / k) - h / k == h % k && 0 <= h % k < k) by (nonlinear_arith)
        requires
            0 <= h,
            0 < k,
    ;
}

/// The columns of a region that lies within another lie within that other.
pub proof fn lemma_columns_within(region: Region, n: u32, outer: Region)
    requires
        region.in_bounds(),
        region.within(outer),
    ensures
        columns(region, n).len() == n,
        forall|i: int|
            0 <= i < n ==> (#[trigger] columns(region, n)[i]).within(outer) && columns(
                region,
                n,
            )[i].in_bounds(),
{
    assert forall|i: int| 0 <= i < n implies (#[trigger] columns(region, n)[i]).within(outer)
        && columns(region, n)[i].in_bounds() by {
        lemma_column_within(region, n, i);
    }
}

/// The rows of a region that lies within another lie within that other.
pub proof fn lemma_rows_within(region: Region, n: u32, outer: Region)
    requires
        region.in_bounds(),
        region.within(outer),
    ensures
        rows(region, n).len() == n,
        forall|i: int|
            0 <= i < n ==> (#[trigger] rows(region, n)[i]).within(outer) && rows(
                region,
                n,
            )[i].in_bounds(),
{
    assert forall|i: int| 0 <= i < n implies (#[trigger] rows(region, n)[i]).within(outer) && rows(
        region,
        n,
    )[i].in_bounds() by {
        lemma_row_within(region, n, i);
    }
}

/// A part is no more than the whole.
pub proof fn lemma_scaled_fits(extent: u32, ratio: u32)
    ensures
        scaled(extent, ratio) <= extent,
{
    if ratio < RATIO_SCALE {
        assert(0 <= (extent * ratio) / 1000 <= extent) by (nonlinear_arith)
            requires
                0 <= extent,
                0 <= ratio < 1000,
        ;
    }
}

/// Both parts of a cut lie within the region that was cut, and touch.
pub proof fn lemma_cuts_within(region: Region, at: u32)
    requires
        region.in_bounds(),
    ensures
        at <= region.w ==> left_of_cut(region, at).within(region) && right_of_cut(
            region,
            at,
        ).within(region) && left_of_cut(region, at).in_bounds() && right_of_cut(
            region,
            at,
        ).in_bounds() && tiles_across(
            seq![left_of_cut(region, at), right_of_cut(region, at)],
            region,
        ),
        at <= region.h ==> above_cut(region, at).within(region) && below_cut(region, at).within(
            region,
        ) && above_cut(region, at).in_bounds() && below_cut(region, at).in_bounds() && tiles_down(
            seq![above_cut(region, at), below_cut(region, at)],
            region,
        ),
{
}

/// The columns of a region stand side by side and fill it.
pub proof fn lemma_columns_tile(region: Region, n: u32)
    requires
        region.in_bounds(),
        n > 0,
    ensures
        tiles_across(columns(region, n), region),
{
    let parts = columns(region, n);
    lemma_column_within(region, n, 0);
    lemma_column_within(region, n, n - 1);
    assert forall|i: int, j: int| 0 <= i && j == i + 1 && j < parts.len() implies (
    #[trigger] parts[i]).x + parts[i].w == (#[trigger] parts[j]).x by {
        lemma_column_within(region, n, i);
        lemma_column_within(region, n, j);
        lemma_steps_fit(region.w as int, n as int, i);
    }
}

/// The rows of a region lie one under the other and fill it.
pub proof fn lemma_rows_tile(region: Region, n: u32)
    requires
        region.in_bounds(),
        n > 0,
    ensures
        tiles_down(rows(region, n), region),
{
    let parts = rows(region, n);
    lemma_row_within(region, n, 0);
    lemma_row_within(region, n, n - 1);
    assert forall|i: int, j: int| 0 <= i && j == i + 1 && j < parts.len() implies (
    #[trigger] parts[i]).y + parts[i].h == (#[trigger] parts[j]).y by {
        lemma_row_within(region, n, i);
        lemma_row_within(region, n, j);
        lemma_steps_fit(region.h as int, n as int, i);
    }
}

/// Of parts that stand side by side, an earlier one ends where a later one
/// starts, or before.
proof fn lemma_across_in_order(parts: Seq<Region>, whole: Region, i: int, j: int)
    requires
        tiles_across(parts, whole),
        0 <= i < j < parts.len(),
    ensures
        parts[i].x + parts[i].w <= parts[j].x,
    decreases j - i,
{
    if j > i + 1 {
        lemma_across_in_order(parts, whole, i, j - 1);
        assert(parts[j - 1].x + parts[j - 1].w == parts[j].x);
    }
}

/// Of parts that stand side by side, one holds the column of pixels at `px`,
/// if `px` is right of where part `from` starts and left of the far edge.
proof fn lemma_across_find(parts: Seq<Region>, whole: Region, px: int, from: int) -> (at: int)
    requires
        tiles_across(parts, whole),
        0 <= from < parts.len(),
        parts[from].x <= px < whole.x + whole.w,
    ensures
        from <= at < parts.len(),
        parts[at].x <= px < parts[at].x + parts[at].w,
    decreases parts.len() - from,
{
    if px < parts[from].x + parts[from].w {
        from
    } else {
        assert(parts[from].x + parts[from].w == parts[from + 1].x);
        lemma_across_find(parts, whole, px, from + 1)
    }
}

/// Of parts that lie one under the other, an earlier one ends where a later
/// one starts, or before.
proof fn lemma_down_in_order(parts: Seq<Region>, whole: Region, i: int, j: int)
    requires
        tiles_down(parts, whole),
        0 <= i < j < parts.len(),
    ensures
        parts[i].y + parts[i].h <= parts[j].y,
    decreases j - i,
{
    if j > i + 1 {
        lemma_down_in_order(parts, whole, i, j - 1);
        assert(parts[j - 1].y + parts[j - 1].h == parts[j].y);
    }
}

/// Of parts that lie one under the other, one holds the row of pixels at
/// `py`, if `py` is below where part `from` starts and above the far edge.
proof fn lemma_down_find(parts: Seq<Region>, whole: Region, py: int, from: int) -> (at: int)
    requires
        tiles_down(parts, whole),
        0 <= from < parts.len(),
        parts[from].y <= py < whole.y + whole.h,
    ensures
        from <= at < parts.len(),
        parts[at].y <= py < parts[at].y + parts[at].h,
    decreases parts.len() - from,
{
    if py < parts[from].y + parts[from].h {
        from
    } else {
        assert(parts[from].y + parts[from].h == parts[from + 1].y);
        lemma_down_find(parts, whole, py, from + 1)
    }
}

/// `parts` share out the pixels of `whole`: each pixel of `whole` lies in one
/// of them, none of them holds a pixel from outside, and no pixel lies in
/// two.
pub open spec fn partitions(parts: Seq<Region>, whole: Region) -> bool {
    &&& forall|px: int, py: int|
        #[trigger] whole.covers(px, py) <==> exists|i: int|
            0 <= i < parts.len() && #[trigger] parts[i].covers(px, py)
    &&& forall|i: int, j: int, px: int, py: int|
        0 <= i < j < parts.len() ==> !(#[trigger] parts[i].covers(px, py)
            && #[trigger] parts[j].covers(px, py))
}

/// Parts that stand side by side from edge to edge share out the pixels of
/// the whole.
pub proof fn lemma_tiles_across_partitions(parts: Seq<Region>, whole: Region)
    requires
        tiles_across(parts, whole),
    ensures
        partitions(parts, whole),
{
    assert forall|px: int, py: int| #[trigger] whole.covers(px, py) implies exists|i: int|
        0 <= i < parts.len() && #[trigger] parts[i].covers(px, py) by {
        let at = lemma_across_find(parts, whole, px, 0);
        assert(parts[at].covers(px, py));
    }
    assert forall|px: int, py: int|
        (exists|i: int| 0 <= i < parts.len() && #[trigger] parts[i].covers(px, py))
        implies #[trigger] whole.covers(px, py) by {
        let i = choose|i: int| 0 <= i < parts.len() && #[trigger] parts[i].covers(px, py);
        if 0 < i {
            lemma_across_in_order(parts, whole, 0, i);
        }
        if i < parts.len() - 1 {
            lemma_across_in_order(parts, whole, i, parts.len() - 1);
        }
    }
    assert forall|i: int, j: int, px: int, py: int| 0 <= i < j < parts.len() implies !(
    #[trigger] parts[i].covers(px, py) && #[trigger] parts[j].covers(px, py)) by {
        lemma_across_in_order(parts, whole, i, j);
    }
}

/// Parts that lie one under the other from edge to edge share out the pixels
/// of the whole.
pub proof fn lemma_tiles_down_partitions(parts: Seq<Region>, whole: Region)
    requires
        tiles_down(parts, whole),
    ensures
        partitions(parts, whole),
{
    assert forall|px: int, py: int| #[trigger] whole.covers(px, py) implies exists|i: int|
        0 <= i < parts.len() && #[trigger] parts[i].covers(px, py) by {
        let at = lemma_down_find(parts, whole, py, 0);
        assert(parts[at].covers(px, py));
    }
    assert forall|px: int, py: int|
        (exists|i: int| 0 <= i < parts.len() && #[trigger] parts[i].covers(px, py))
        implies #[trigger] whole.covers(px, py) by {
        let i = choose|i: int| 0 <= i < parts.len() && #[trigger] parts[i].covers(px, py);
        if 0 < i {
            lemma_down_in_order(parts, whole, 0, i);
        }
        if i < parts.len() - 1 {
            lemma_down_in_order(parts, whole, i, parts.len() - 1);
        }
    }
    assert forall|i: int, j: int, px: int, py: int| 0 <= i < j < parts.len() implies !(
    #[trigger] parts[i].covers(px, py) && #[trigger] parts[j].covers(px, py)) by {
        lemma_down_in_order(parts, whole, i, j);
    }
}

/// Two regions share out the pixels of a third between them: each of its
/// pixels lies in one of the two and not in the other, and they hold no pixel
/// from outside.
pub open spec fn splits(first: Region, second: Region, whole: Region) -> bool {
    &&& forall|px: int, py: int|
        #[trigger] whole.covers(px, py) <==> first.covers(px, py) || second.covers(px, py)
    &&& forall|px: int, py: int|
        !(#[trigger] first.covers(px, py) && #[trigger] second.covers(px, py))
}

/// Where two regions share out a third, and each of the two is shared out
/// in turn, all those parts together share out the third.
pub proof fn lemma_partitions_join(
    a: Seq<Region>,
    first: Region,
    b: Seq<Region>,
    second: Region,
    whole: Region,
)
    requires
        partitions(a, first),
        partitions(b, second),
        splits(first, second, whole),
    ensures
        partitions(a + b, whole),
{
    let all = a + b;
    assert forall|px: int, py: int| #[trigger] whole.covers(px, py) implies exists|k: int|
        0 <= k < all.len() && #[trigger] all[k].covers(px, py) by {
        if first.covers(px, py) {
            let i = choose|i: int| 0 <= i < a.len() && #[trigger] a[i].covers(px, py);
            assert(all[i].covers(px, py));
        } else {
            assert(second.covers(px, py));
            let j = choose|j: int| 0 <= j < b.len() && #[trigger] b[j].covers(px, py);
            assert(all[a.len() + j].covers(px, py));
        }
    }
    assert forall|px: int, py: int|
        (exists|k: int| 0 <= k < all.len() && #[trigger] all[k].covers(px, py))
        implies #[trigger] whole.covers(px, py) by {
        let k = choose|k: int| 0 <= k < all.len() && #[trigger] all[k].covers(px, py);
        if k < a.len() {
            assert(a[k].covers(px, py));
            assert(first.covers(px, py));
        } else {
            assert(b[k - a.len()].covers(px, py));
            assert(second.covers(px, py));
        }
    }
    assert forall|i: int, j: int, px: int, py: int| 0 <= i < j < all.len() implies !(
    #[trigger] all[i].covers(px, py) && #[trigger] all[j].covers(px, py)) by {
        if all[i].covers(px, py) && all[j].covers(px, py) {
            if j < a.len() {
                assert(a[i].covers(px, py) && a[j].covers(px, py));
            } else if i >= a.len() {
                assert(b[i - a.len()].covers(px, py) && b[j - a.len()].covers(px, py));
            } else {
                assert(a[i].covers(px, py) && first.covers(px, py));
                assert(b[j - a.len()].covers(px, py) && second.covers(px, py));
            }
        }
    }
}

/// The two parts of a cut share out the region that was cut.
pub proof fn lemma_cut_splits(region: Region, at: u32)
    requires
        region.in_bounds(),
    ensures
        at <= region.w ==> splits(left_of_cut(region, at), right_of_cut(region, at), region),
        at <= region.h ==> splits(above_cut(region, at), below_cut(region, at), region),
{
}

/// The columns that a region is cut into put together give the region
/// again: every pixel of it lies in exactly one column, and the columns hold
/// no other pixel.
pub proof fn lemma_columns_partition(region: Region, n: u32)
    requires
        region.in_bounds(),
        n > 0,
    ensures
        partitions(columns(region, n), region),
{
    lemma_columns_tile(region, n);
    lemma_tiles_across_partitions(columns(region, n), region);
}

/// The rows that a region is cut into put together give the region again:
/// every pixel of it lies in exactly one row, and the rows hold no other
/// pixel.
pub proof fn lemma_rows_partition(region: Region, n: u32)
    requires
        region.in_bounds(),
        n > 0,
    ensures
        partitions(rows(region, n), region),
{
    lemma_rows_tile(region, n);
    lemma_tiles_down_partitions(rows(region, n), region);
}

/// Cuts `region` into `n` columns, left to right. All are `region.w / n` wide
/// but the last, which takes the pixels that the division leaves over, so that
/// the columns cover the region exactly. No columns for `n == 0`.
pub fn as_columns(region: &Region, n: u32) -> (parts: Vec<Region>)
    requires
        region.in_bounds(),
    ensures
        parts@ == columns(*region, n),
        n > 0 ==> tiles_across(parts@, *region),
        n > 0 ==> partitions(parts@, *region),
{
    if n == 0 {
        return Vec::new();
    }
    let mut parts = even_columns(region, n);
    let last: usize = (n - 1) as usize;
    proof {
        lemma_steps_fit(region.w as int, n as int, n - 1);
    }
    let c = parts[last];
    let taken: u32 = c.x - region.x;
    parts.set(last, Region { x: c.x, y: c.y, w: region.w - taken, h: c.h });
    proof {
        assert forall|i: int| 0 <= i < n implies #[trigger] parts@[i] == column(
            *region,
            n as int,
            i,
        ) by {
            lemma_steps_fit(region.w as int, n as int, i);
        }
        assert(parts@ =~= columns(*region, n));
        lemma_columns_tile(*region, n);
        lemma_columns_partition(*region, n);
    }
    parts
}

/// Cuts `region` into `n` rows, top to bottom. All are `region.h / n` high
/// but the last, which takes the pixels that the division leaves over, so that
/// the rows cover the region exactly. No rows for `n == 0`.
pub fn as_rows(region: &Region, n: u32) -> (parts: Vec<Region>)
    requires
        region.in_bounds(),
    ensures
        parts@ == rows(*region, n),
        n > 0 ==> tiles_down(parts@, *region),
        n > 0 ==> partitions(parts@, *region),
{
    if n == 0 {
        return Vec::new();
    }
    let mut parts = even_rows(region, n);
    let last: usize = (n - 1) as usize;
    proof {
        lemma_steps_fit(region.h as int, n as int, n - 1);
    }
    let r = parts[last];
    let taken: u32 = r.y - region.y;
    parts.set(last, Region { x: r.x, y: r.y, w: r.w, h: region.h - taken });
    proof {
        assert forall|i: int| 0 <= i < n implies #[trigger] parts@[i] == row(
            *region,
            n as int,
            i,
        ) by {
            lemma_steps_fit(region.h as int, n as int, i);
        }
        assert(parts@ =~= rows(*region, n));
        lemma_rows_tile(*region, n);
        lemma_rows_partition(*region, n);
    }
    parts
}

/// Cuts `region` in two at `width` from its left edge. There is no such cut
/// when `width` is more than the region has.
pub fn split_at_width(region: &Region, width: u32) -> (parts: Option<(Region, Region)>)
    requires
        region.in_bounds(),
    ensures
        parts == if width <= region.w {
            Some((left_of_cut(*region, width), right_of_cut(*region, width)))
        } else {
            None
        },
{
    match cut_at_width(region, width) {
        Ok(p) => Some(p),
        Err(_) => None,
    }
}

/// Cuts `region` in two at `height` from its top edge. There is no such cut
/// when `height` is more than the region has.
pub fn split_at_height(region: &Region, height: u32) -> (parts: Option<(Region, Region)>)
    requires
        region.in_bounds(),
    ensures
        parts == if height <= region.h {
            Some((above_cut(*region, height), below_cut(*region, height)))
        } else {
            None
        },
{
    match cut_at_height(region, height) {
        Ok(p) => Some(p),
        Err(_) => None,
    }
}

/// The part of `extent` that `ratio` thousandths of it come to, rounded down;
/// all of it for a ratio of one or more.
pub fn scale(extent: u32, ratio: u32) -> (part: u32)
    ensures
        part == scaled(extent, ratio),
        part <= extent,
{
    if ratio >= RATIO_SCALE {
        return extent;
    }
    assert(0 <= extent * ratio <= extent * 1000 && (extent * ratio) / 1000 <= extent)
        by (nonlinear_arith)
        requires
            0 <= extent,
            0 <= ratio < 1000,
    ;
    let product: u64 = extent as u64 * ratio as u64;
    (product / RATIO_SCALE as u64) as u32
}

/// The steps of a fan stay within what the pulled sheet leaves of the width.
proof fn lemma_fan_steps_fit(region: Region, n: u32, wide: u32, i: int)
    requires
        wide <= region.w,
        0 <= i < n,
    ensures
        0 <= fan_step(region, n, wide) <= region.w - wide,
        0 <= i * fan_step(region, n, wide) <= region.w - wide,
        i >= 1 ==> 0 <= (i - 1) * fan_step(region, n, wide) + fan_step(region, n, wide)
            <= region.w - wide,
{
    let step = fan_step(region, n, wide);
    if n <= 1 || wide >= region.w {
        assert(i * 0 == 0 && (i - 1) * 0 == 0);
    } else {
        let rest = region.w - wide;
        let others = n - 1;
        lemma_steps_fit(rest, others, 0);
        if i < others {
            lemma_steps_fit(rest, others, i);
        } else {
            lemma_steps_fit(rest, others, i - 1);
        }
        if i >= 1 {
            lemma_steps_fit(rest, others, i - 1);
        }
    }
}

/// Where a sheet of the fan is pulled out, every sheet lies within the
/// region.
pub proof fn lemma_fan_within(region: Region, n: u32, wide: u32, pulled: int)
    requires
        region.in_bounds(),
        0 <= pulled < n,
    ensures
        fan(region, n, wide, Some(pulled)).len() == n,
        forall|i: int|
            0 <= i < n ==> (#[trigger] fan(region, n, wide, Some(pulled))[i]).within(region),
{
    let wide_in = if wide >= region.w {
        region.w
    } else {
        wide
    };
    assert forall|i: int| 0 <= i < n implies (#[trigger] fan(
        region,
        n,
        wide,
        Some(pulled),
    )[i]).within(region) by {
        lemma_fan_steps_fit(region, n, wide_in, i);
        lemma_fan_steps_fit(region, n, wide_in, n - 1);
        let step = fan_step(region, n, wide_in);
        assert(i * step <= (n - 1) * step && (i + 1) * step == i * step + step && (i - 1) * step
            + step == i * step) by (nonlinear_arith)
            requires
                0 <= i < n,
                0 <= step,
        ;
        if i < pulled {
            assert((i + 1) * step <= (n - 1) * step) by (nonlinear_arith)
                requires
                    0 <= i + 1 <= n - 1,
                    0 <= step,
            ;
        }
    }
}

/// Fans `n` sheets out from the left edge of `region`, after [`sheet`]: the
/// one `pulled` out is `wide` wide, the others share what is left.
pub fn as_fan(region: &Region, n: u32, wide: u32, pulled: Option<u32>) -> (sheets: Vec<Region>)
    requires
        region.in_bounds(),
    ensures
        sheets@ == fan(*region, n, wide, spot(pulled)),
{
    let wide: u32 = if wide >= region.w {
        region.w
    } else {
        wide
    };
    let step: u32 = if n <= 1 || wide >= region.w {
        0
    } else {
        (region.w - wide) / (n - 1)
    };
    let mut sheets: Vec<Region> = Vec::new();
    let mut i: u32 = 0;
    while i < n
        invariant
            i <= n,
            region.in_bounds(),
            wide <= region.w,
            step == fan_step(*region, n, wide),
            sheets@.len() == i,
            forall|k: int| 0 <= k < i ==> sheets@[k] == sheet(*region, n, wide, k, fan_place(spot(pulled), k)),
        decreases n - i,
    {
        proof {
            lemma_fan_steps_fit(*region, n, wide, i as int);
        }
        let next = match pulled {
            Some(p) if p == i => Region {
                x: region.x + i * step,
                y: region.y,
                w: wide,
                h: region.h,
            },
            Some(p) if p < i => Region {
                x: region.x + (i - 1) * step + wide,
                y: region.y,
                w: step,
                h: region.h,
            },
            _ => Region { x: region.x + i * step, y: region.y, w: step, h: region.h },
        };
        sheets.push(next);
        i += 1;
    }
    assert(sheets@ =~= fan(*region, n, wide, spot(pulled)));
    sheets
}

} // verus!
