//! The layouts: each hands every client on a monitor the region it is to
//! take. Clients are known by their ids and by the order they come in.

use vstd::prelude::*;
use crate::geometry::{
    above_cut, as_columns, as_fan, as_rows, below_cut, column, columns, fan, fan_place,
    left_of_cut, lemma_column_within, lemma_columns_partition, lemma_columns_within,
    lemma_cut_splits, lemma_cuts_within, lemma_fan_within, lemma_partitions_join,
    lemma_row_within, lemma_rows_partition, lemma_rows_within, lemma_scaled_fits, partitions,
    right_of_cut, row, rows, scale, scaled, sheet, splits, split_at_height, split_at_width, spot,
    FanPlace, Region,
};

verus! {

/// The id by which the window manager knows a client.
pub type ClientId = u32;

/// Where a client goes: to the region given, or out of sight.
pub type Placement = (ClientId, Option<Region>);

/// The ids of the clients placed, in order.
pub open spec fn client_ids(placements: Seq<Placement>) -> Seq<ClientId> {
    Seq::new(placements.len(), |i: int| placements[i].0)
}

/// `placements` holds one entry for each of `clients`, in their order: no
/// client is left out, none is added, and none comes more often than it was
/// given.
pub open spec fn echoes(placements: Seq<Placement>, clients: Seq<ClientId>) -> bool {
    &&& placements.len() == clients.len()
    &&& client_ids(placements) == clients
    &&& client_ids(placements).to_set() == clients.to_set()
}

/// Each client, in order, paired with the region at its position.
pub open spec fn placed(clients: Seq<ClientId>, regions: Seq<Region>) -> Seq<Placement>
    recommends
        regions.len() == clients.len(),
{
    Seq::new(clients.len(), |i: int| (clients[i], Some(regions[i])))
}

/// Every client is shown, in a region that lies within `monitor`.
pub open spec fn shown_within(placements: Seq<Placement>, monitor: Region) -> bool {
    forall|i: int|
        0 <= i < placements.len() ==> ((#[trigger] placements[i]).1 matches Some(r) && r.within(
            monitor,
        ))
}

/// Every client is shown.
pub open spec fn all_shown(placements: Seq<Placement>) -> bool {
    forall|i: int| 0 <= i < placements.len() ==> (#[trigger] placements[i]).1 is Some
}

/// Placements that pair each client with a region echo the clients.
pub proof fn lemma_placed_echoes(clients: Seq<ClientId>, regions: Seq<Region>)
    ensures
        echoes(placed(clients, regions), clients),
        all_shown(placed(clients, regions)),
{
    assert(client_ids(placed(clients, regions)) =~= clients);
}

/// Pairs each client, in order, with the region at its position.
fn place(clients: &[ClientId], regions: &Vec<Region>) -> (placements: Vec<Placement>)
    requires
        regions@.len() == clients@.len(),
    ensures
        placements@ == placed(clients@, regions@),
{
    let mut placements: Vec<Placement> = Vec::new();
    let mut i: usize = 0;
    while i < clients.len()
        invariant
            i <= clients@.len(),
            regions@.len() == clients@.len(),
            placements@.len() == i,
            forall|k: int| 0 <= k < i ==> placements@[k] == (clients@[k], Some(regions@[k])),
        decreases clients@.len() - i,
    {
        placements.push((clients[i], Some(regions[i])));
        i += 1;
    }
    assert(placements@ =~= placed(clients@, regions@));
    placements
}

/// The region that client `i` of `n` takes where the clients stand side by
/// side in up to three columns.
///
/// One client: the whole region. Two or three: two columns, the first client
/// alone in the left one, the others in rows in the right one. Four or more:
/// three columns, the first client alone in the middle one, the next two in
/// rows in the right one, all others in rows in the left one.
pub open spec fn sides_region(region: Region, n: u32, i: int) -> Region {
    if n <= 1 {
        column(region, 1, i)
    } else if n <= 3 {
        if i == 0 {
            column(region, 2, 0)
        } else {
            row(column(region, 2, 1), n - 1, i - 1)
        }
    } else {
        if i == 0 {
            column(region, 3, 1)
        } else if i <= 2 {
            row(column(region, 3, 2), 2, i - 1)
        } else {
            row(column(region, 3, 0), n - 3, i - 3)
        }
    }
}

/// The regions that `n` clients take side by side in up to three columns,
/// in the order of the clients: see [`sides_region`].
pub open spec fn sides_regions(region: Region, n: u32) -> Seq<Region> {
    Seq::new(n as nat, |i: int| sides_region(region, n, i))
}

/// The regions of the clients as the columns and rows that they are cut from.
proof fn lemma_sides_regions_cut(region: Region, n: u32)
    requires
        region.in_bounds(),
    ensures
        n <= 1 ==> sides_regions(region, n) == columns(region, n),
        2 <= n <= 3 ==> sides_regions(region, n) == rows(columns(region, 2)[0], 1) + rows(
            columns(region, 2)[1],
            (n - 1) as u32,
        ),
        n >= 4 ==> sides_regions(region, n) == rows(columns(region, 3)[1], 1) + rows(
            columns(region, 3)[2],
            2,
        ) + rows(columns(region, 3)[0], (n - 3) as u32),
{
    if n <= 1 {
        assert(sides_regions(region, n) =~= columns(region, n));
    } else if n <= 3 {
        let cols = columns(region, 2);
        lemma_column_within(region, 2, 0);
        lemma_row_within(cols[0], 1, 0);
        assert(sides_regions(region, n) =~= rows(cols[0], 1) + rows(cols[1], (n - 1) as u32));
    } else {
        let cols = columns(region, 3);
        lemma_column_within(region, 3, 1);
        lemma_row_within(cols[1], 1, 0);
        assert(sides_regions(region, n) =~= rows(cols[1], 1) + rows(cols[2], 2) + rows(
            cols[0],
            (n - 3) as u32,
        ));
    }
}

/// There is a region for each of the `n` clients, and it lies within the
/// monitor's.
pub proof fn lemma_sides_regions_within(region: Region, n: u32)
    requires
        region.in_bounds(),
    ensures
        sides_regions(region, n).len() == n,
        forall|i: int| 0 <= i < n ==> (#[trigger] sides_regions(region, n)[i]).within(region),
{
    lemma_sides_regions_cut(region, n);
    if n <= 1 {
        lemma_columns_within(region, n, region);
    } else if n <= 3 {
        let cols = columns(region, 2);
        lemma_columns_within(region, 2, region);
        lemma_rows_within(cols[0], 1, region);
        lemma_rows_within(cols[1], (n - 1) as u32, region);
    } else {
        let cols = columns(region, 3);
        lemma_columns_within(region, 3, region);
        lemma_rows_within(cols[1], 1, region);
        lemma_rows_within(cols[2], 2, region);
        lemma_rows_within(cols[0], (n - 3) as u32, region);
    }
}

/// The clients share the monitor out among them: each of its pixels lies in
/// the region of one client and of no other, and no region holds a pixel from
/// outside.
pub proof fn lemma_sides_regions_partition(region: Region, n: u32)
    requires
        region.in_bounds(),
        n > 0,
    ensures
        partitions(sides_regions(region, n), region),
{
    lemma_sides_regions_cut(region, n);
    if n <= 1 {
        lemma_columns_partition(region, n);
    } else if n <= 3 {
        let cols = columns(region, 2);
        lemma_column_within(region, 2, 0);
        lemma_column_within(region, 2, 1);
        lemma_rows_partition(cols[0], 1);
        lemma_rows_partition(cols[1], (n - 1) as u32);
        assert(splits(cols[0], cols[1], region));
        lemma_partitions_join(
            rows(cols[0], 1),
            cols[0],
            rows(cols[1], (n - 1) as u32),
            cols[1],
            region,
        );
    } else {
        let cols = columns(region, 3);
        lemma_column_within(region, 3, 0);
        lemma_column_within(region, 3, 1);
        lemma_column_within(region, 3, 2);
        let right_two = Region {
            x: cols[1].x,
            y: region.y,
            w: (cols[1].w + cols[2].w) as u32,
            h: region.h,
        };
        lemma_rows_partition(cols[1], 1);
        lemma_rows_partition(cols[2], 2);
        lemma_rows_partition(cols[0], (n - 3) as u32);
        assert(splits(cols[1], cols[2], right_two));
        lemma_partitions_join(rows(cols[1], 1), cols[1], rows(cols[2], 2), cols[2], right_two);
        assert(splits(right_two, cols[0], region));
        lemma_partitions_join(
            rows(cols[1], 1) + rows(cols[2], 2),
            right_two,
            rows(cols[0], (n - 3) as u32),
            cols[0],
            region,
        );
    }
}

/// Lays the clients out in up to three columns with the first client in the
/// centre of attention: see [`sides_region`]. Neither the focus nor the main
/// count nor the main ratio changes anything, and no client is hidden.
pub fn stack_sides(
    clients: &[ClientId],
    _focused: Option<ClientId>,
    monitor_region: &Region,
    _main_count: u32,
    _main_ratio: u32,
) -> (placements: Vec<Placement>)
    requires
        monitor_region.in_bounds(),
        clients@.len() <= u32::MAX,
    ensures
        placements@ == placed(clients@, sides_regions(*monitor_region, clients@.len() as u32)),
        echoes(placements@, clients@),
        shown_within(placements@, *monitor_region),
{
    let n: u32 = clients.len() as u32;
    let regions = if n <= 1 {
        as_columns(monitor_region, n)
    } else if n <= 3 {
        let cols = as_columns(monitor_region, 2);
        proof {
            lemma_column_within(*monitor_region, 2, 0);
            lemma_column_within(*monitor_region, 2, 1);
        }
        let mut regions = as_rows(&cols[0], 1);
        let mut stack = as_rows(&cols[1], n - 1);
        regions.append(&mut stack);
        regions
    } else {
        let cols = as_columns(monitor_region, 3);
        proof {
            lemma_column_within(*monitor_region, 3, 0);
            lemma_column_within(*monitor_region, 3, 1);
            lemma_column_within(*monitor_region, 3, 2);
        }
        let mut regions = as_rows(&cols[1], 1);
        let mut right = as_rows(&cols[2], 2);
        let mut left = as_rows(&cols[0], n - 3);
        regions.append(&mut right);
        regions.append(&mut left);
        regions
    };
    proof {
        lemma_sides_regions_cut(*monitor_region, n);
        lemma_placed_echoes(clients@, regions@);
        lemma_sides_regions_within(*monitor_region, n);
    }
    place(clients, &regions)
}

/// The region that client `i` of `n` takes when the first `main_count`
/// clients share the left part of the region, `main_ratio` thousandths of its
/// width, and the others the rest, each group in rows. With no client to
/// spare for the right part, or a main count of zero, all are rows of the
/// whole region.
pub open spec fn side_stack_region(
    region: Region,
    n: u32,
    main_count: u32,
    main_ratio: u32,
    i: int,
) -> Region {
    let split = scaled(region.w, main_ratio);
    if n <= main_count || main_count == 0 {
        row(region, n as int, i)
    } else if i < main_count {
        row(left_of_cut(region, split), main_count as int, i)
    } else {
        row(right_of_cut(region, split), n - main_count, i - main_count)
    }
}

/// The regions that `n` clients take with the main clients on the left, in
/// the order of the clients: see [`side_stack_region`].
pub open spec fn side_stack_regions(
    region: Region,
    n: u32,
    main_count: u32,
    main_ratio: u32,
) -> Seq<Region> {
    Seq::new(n as nat, |i: int| side_stack_region(region, n, main_count, main_ratio, i))
}

/// The regions of the clients as the rows that they are cut from.
proof fn lemma_side_stack_regions_cut(region: Region, n: u32, main_count: u32, main_ratio: u32)
    ensures
        n <= main_count || main_count == 0 ==> side_stack_regions(
            region,
            n,
            main_count,
            main_ratio,
        ) == rows(region, n),
        !(n <= main_count || main_count == 0) ==> side_stack_regions(
            region,
            n,
            main_count,
            main_ratio,
        ) == rows(left_of_cut(region, scaled(region.w, main_ratio)), main_count) + rows(
            right_of_cut(region, scaled(region.w, main_ratio)),
            (n - main_count) as u32,
        ),
{
    let split = scaled(region.w, main_ratio);
    if n <= main_count || main_count == 0 {
        assert(side_stack_regions(region, n, main_count, main_ratio) =~= rows(region, n));
    } else {
        assert(side_stack_regions(region, n, main_count, main_ratio) =~= rows(
            left_of_cut(region, split),
            main_count,
        ) + rows(right_of_cut(region, split), (n - main_count) as u32));
    }
}

/// There is a region for each of the `n` clients, and it lies within the
/// monitor's.
pub proof fn lemma_side_stack_regions_within(
    region: Region,
    n: u32,
    main_count: u32,
    main_ratio: u32,
)
    requires
        region.in_bounds(),
    ensures
        side_stack_regions(region, n, main_count, main_ratio).len() == n,
        forall|i: int|
            0 <= i < n ==> (#[trigger] side_stack_regions(
                region,
                n,
                main_count,
                main_ratio,
            )[i]).within(region),
{
    lemma_side_stack_regions_cut(region, n, main_count, main_ratio);
    if n <= main_count || main_count == 0 {
        lemma_rows_within(region, n, region);
    } else {
        let split = scaled(region.w, main_ratio);
        lemma_scaled_fits(region.w, main_ratio);
        lemma_cuts_within(region, split);
        lemma_rows_within(left_of_cut(region, split), main_count, region);
        lemma_rows_within(right_of_cut(region, split), (n - main_count) as u32, region);
    }
}

/// The clients share the monitor out among them: each of its pixels lies in
/// the region of one client and of no other, and no region holds a pixel from
/// outside.
pub proof fn lemma_side_stack_regions_partition(
    region: Region,
    n: u32,
    main_count: u32,
    main_ratio: u32,
)
    requires
        region.in_bounds(),
        n > 0,
    ensures
        partitions(side_stack_regions(region, n, main_count, main_ratio), region),
{
    lemma_side_stack_regions_cut(region, n, main_count, main_ratio);
    if n <= main_count || main_count == 0 {
        lemma_rows_partition(region, n);
    } else {
        let split = scaled(region.w, main_ratio);
        lemma_scaled_fits(region.w, main_ratio);
        lemma_cuts_within(region, split);
        lemma_cut_splits(region, split);
        lemma_rows_partition(left_of_cut(region, split), main_count);
        lemma_rows_partition(right_of_cut(region, split), (n - main_count) as u32);
        lemma_partitions_join(
            rows(left_of_cut(region, split), main_count),
            left_of_cut(region, split),
            rows(right_of_cut(region, split), (n - main_count) as u32),
            right_of_cut(region, split),
            region,
        );
    }
}

/// The main clients in rows on the left, the others in rows on the right: see
/// [`side_stack_region`]. The focus changes nothing, and no client is hidden.
pub fn side_stack(
    clients: &[ClientId],
    _focused: Option<ClientId>,
    monitor_region: &Region,
    main_count: u32,
    main_ratio: u32,
) -> (placements: Vec<Placement>)
    requires
        monitor_region.in_bounds(),
        clients@.len() <= u32::MAX,
    ensures
        placements@ == placed(
            clients@,
            side_stack_regions(*monitor_region, clients@.len() as u32, main_count, main_ratio),
        ),
        echoes(placements@, clients@),
        shown_within(placements@, *monitor_region),
{
    let n: u32 = clients.len() as u32;
    let regions = if n <= main_count || main_count == 0 {
        as_rows(monitor_region, n)
    } else {
        let split = scale(monitor_region.w, main_ratio);
        let (main, stack) = split_at_width(monitor_region, split).unwrap();
        proof {
            lemma_cuts_within(*monitor_region, split);
        }
        let mut regions = as_rows(&main, main_count);
        let mut rest = as_rows(&stack, n - main_count);
        regions.append(&mut rest);
        regions
    };
    proof {
        lemma_side_stack_regions_cut(*monitor_region, n, main_count, main_ratio);
        lemma_placed_echoes(clients@, regions@);
        lemma_side_stack_regions_within(*monitor_region, n, main_count, main_ratio);
    }
    place(clients, &regions)
}

/// The region that client `i` of `n` takes when the first `main_count`
/// clients share the upper part of the region, `main_ratio` thousandths of
/// its height, and the others the rest, each group in columns. With no client
/// to spare for the lower part, or a main count of zero, all are columns of
/// the whole region.
pub open spec fn bottom_stack_region(
    region: Region,
    n: u32,
    main_count: u32,
    main_ratio: u32,
    i: int,
) -> Region {
    let split = scaled(region.h, main_ratio);
    if n <= main_count || main_count == 0 {
        column(region, n as int, i)
    } else if i < main_count {
        column(above_cut(region, split), main_count as int, i)
    } else {
        column(below_cut(region, split), n - main_count, i - main_count)
    }
}

/// The regions that `n` clients take with the main clients at the top, in
/// the order of the clients: see [`bottom_stack_region`].
pub open spec fn bottom_stack_regions(
    region: Region,
    n: u32,
    main_count: u32,
    main_ratio: u32,
) -> Seq<Region> {
    Seq::new(n as nat, |i: int| bottom_stack_region(region, n, main_count, main_ratio, i))
}

/// The regions of the clients as the columns that they are cut from.
proof fn lemma_bottom_stack_regions_cut(region: Region, n: u32, main_count: u32, main_ratio: u32)
    ensures
        n <= main_count || main_count == 0 ==> bottom_stack_regions(
            region,
            n,
            main_count,
            main_ratio,
        ) == columns(region, n),
        !(n <= main_count || main_count == 0) ==> bottom_stack_regions(
            region,
            n,
            main_count,
            main_ratio,
        ) == columns(above_cut(region, scaled(region.h, main_ratio)), main_count) + columns(
            below_cut(region, scaled(region.h, main_ratio)),
            (n - main_count) as u32,
        ),
{
    let split = scaled(region.h, main_ratio);
    if n <= main_count || main_count == 0 {
        assert(bottom_stack_regions(region, n, main_count, main_ratio) =~= columns(region, n));
    } else {
        assert(bottom_stack_regions(region, n, main_count, main_ratio) =~= columns(
            above_cut(region, split),
            main_count,
        ) + columns(below_cut(region, split), (n - main_count) as u32));
    }
}

/// There is a region for each of the `n` clients, and it lies within the
/// monitor's.
pub proof fn lemma_bottom_stack_regions_within(
    region: Region,
    n: u32,
    main_count: u32,
    main_ratio: u32,
)
    requires
        region.in_bounds(),
    ensures
        bottom_stack_regions(region, n, main_count, main_ratio).len() == n,
        forall|i: int|
            0 <= i < n ==> (#[trigger] bottom_stack_regions(
                region,
                n,
                main_count,
                main_ratio,
            )[i]).within(region),
{
    lemma_bottom_stack_regions_cut(region, n, main_count, main_ratio);
    if n <= main_count || main_count == 0 {
        lemma_columns_within(region, n, region);
    } else {
        let split = scaled(region.h, main_ratio);
        lemma_scaled_fits(region.h, main_ratio);
        lemma_cuts_within(region, split);
        lemma_columns_within(above_cut(region, split), main_count, region);
        lemma_columns_within(below_cut(region, split), (n - main_count) as u32, region);
    }
}

/// The clients share the monitor out among them: each of its pixels lies in
/// the region of one client and of no other, and no region holds a pixel from
/// outside.
pub proof fn lemma_bottom_stack_regions_partition(
    region: Region,
    n: u32,
    main_count: u32,
    main_ratio: u32,
)
    requires
        region.in_bounds(),
        n > 0,
    ensures
        partitions(bottom_stack_regions(region, n, main_count, main_ratio), region),
{
    lemma_bottom_stack_regions_cut(region, n, main_count, main_ratio);
    if n <= main_count || main_count == 0 {
        lemma_columns_partition(region, n);
    } else {
        let split = scaled(region.h, main_ratio);
        lemma_scaled_fits(region.h, main_ratio);
        lemma_cuts_within(region, split);
        lemma_cut_splits(region, split);
        lemma_columns_partition(above_cut(region, split), main_count);
        lemma_columns_partition(below_cut(region, split), (n - main_count) as u32);
        lemma_partitions_join(
            columns(above_cut(region, split), main_count),
            above_cut(region, split),
            columns(below_cut(region, split), (n - main_count) as u32),
            below_cut(region, split),
            region,
        );
    }
}

/// The main clients in columns at the top, the others in columns underneath:
/// see [`bottom_stack_region`]. The focus changes nothing, and no client is
/// hidden.
pub fn bottom_stack(
    clients: &[ClientId],
    _focused: Option<ClientId>,
    monitor_region: &Region,
    main_count: u32,
    main_ratio: u32,
) -> (placements: Vec<Placement>)
    requires
        monitor_region.in_bounds(),
        clients@.len() <= u32::MAX,
    ensures
        placements@ == placed(
            clients@,
            bottom_stack_regions(*monitor_region, clients@.len() as u32, main_count, main_ratio),
        ),
        echoes(placements@, clients@),
        shown_within(placements@, *monitor_region),
{
    let n: u32 = clients.len() as u32;
    let regions = if n <= main_count || main_count == 0 {
        as_columns(monitor_region, n)
    } else {
        let split = scale(monitor_region.h, main_ratio);
        let (main, stack) = split_at_height(monitor_region, split).unwrap();
        proof {
            lemma_cuts_within(*monitor_region, split);
        }
        let mut regions = as_columns(&main, main_count);
        let mut rest = as_columns(&stack, n - main_count);
        regions.append(&mut rest);
        regions
    };
    proof {
        lemma_bottom_stack_regions_cut(*monitor_region, n, main_count, main_ratio);
        lemma_placed_echoes(clients@, regions@);
        lemma_bottom_stack_regions_within(*monitor_region, n, main_count, main_ratio);
    }
    place(clients, &regions)
}

/// The sheet pulled out of a fan takes at least this many thousandths of the
/// width.
pub const PAPER_MIN_RATIO: u32 = 500;

/// The client at place `i` has the focus.
pub open spec fn has_focus(clients: Seq<ClientId>, focused: Option<ClientId>, i: int) -> bool {
    0 <= i < clients.len() && focused == Some(clients[i])
}

/// One of the clients before place `i` has the focus.
pub open spec fn focus_before(clients: Seq<ClientId>, focused: Option<ClientId>, i: int) -> bool {
    exists|j: int| 0 <= j < i && #[trigger] has_focus(clients, focused, j)
}

/// Where the sheet of client `i` lies in the fan: the first client that has
/// the focus is pulled out.
pub open spec fn paper_place(clients: Seq<ClientId>, focused: Option<ClientId>, i: int) -> FanPlace {
    if focus_before(clients, focused, i) {
        FanPlace::After
    } else if has_focus(clients, focused, i) {
        FanPlace::Pulled
    } else {
        FanPlace::Before
    }
}

/// The region that client `i` takes when the clients are fanned out like
/// sheets of paper and the focused one is pulled out: it takes `main_ratio`
/// thousandths of the width, and not less than [`PAPER_MIN_RATIO`]. A client
/// that is alone takes the whole region.
pub open spec fn paper_region(
    clients: Seq<ClientId>,
    focused: Option<ClientId>,
    region: Region,
    main_ratio: u32,
    i: int,
) -> Region {
    let ratio = if main_ratio > PAPER_MIN_RATIO {
        main_ratio
    } else {
        PAPER_MIN_RATIO
    };
    if clients.len() == 1 {
        region
    } else {
        sheet(
            region,
            clients.len() as u32,
            scaled(region.w, ratio),
            i,
            paper_place(clients, focused, i),
        )
    }
}

/// The regions that the clients take when they are fanned out, in the order
/// of the clients: see [`paper_region`].
pub open spec fn paper_regions(
    clients: Seq<ClientId>,
    focused: Option<ClientId>,
    region: Region,
    main_ratio: u32,
) -> Seq<Region> {
    Seq::new(clients.len(), |i: int| paper_region(clients, focused, region, main_ratio, i))
}

/// The client at `at` is the first to have the focus; with no `at`, none has
/// it.
spec fn first_with_focus(clients: Seq<ClientId>, focused: Option<ClientId>, at: Option<int>) -> bool {
    match at {
        Some(k) => has_focus(clients, focused, k) && !focus_before(clients, focused, k),
        None => !focus_before(clients, focused, clients.len() as int),
    }
}

/// The sheets of the clients are those of a fan with the sheet of the first
/// focused client pulled out.
proof fn lemma_paper_regions_fan(
    clients: Seq<ClientId>,
    focused: Option<ClientId>,
    region: Region,
    main_ratio: u32,
    at: Option<int>,
)
    requires
        first_with_focus(clients, focused, at),
        clients.len() != 1,
        clients.len() <= u32::MAX,
    ensures
        paper_regions(clients, focused, region, main_ratio) == fan(
            region,
            clients.len() as u32,
            scaled(
                region.w,
                if main_ratio > PAPER_MIN_RATIO {
                    main_ratio
                } else {
                    PAPER_MIN_RATIO
                },
            ),
            at,
        ),
{
    let ratio = if main_ratio > PAPER_MIN_RATIO {
        main_ratio
    } else {
        PAPER_MIN_RATIO
    };
    let n = clients.len() as u32;
    assert forall|i: int| 0 <= i < n implies paper_place(clients, focused, i) == fan_place(
        at,
        i,
    ) by {
        match at {
            Some(k) => {
                if i > k {
                    assert(has_focus(clients, focused, k));
                } else if i < k {
                    if focus_before(clients, focused, i) {
                        let j = choose|j: int| 0 <= j < i && #[trigger] has_focus(clients, focused, j);
                        assert(has_focus(clients, focused, j));
                    }
                }
            },
            None => {
                if focus_before(clients, focused, i) {
                    let j = choose|j: int| 0 <= j < i && #[trigger] has_focus(clients, focused, j);
                    assert(has_focus(clients, focused, j));
                }
                if has_focus(clients, focused, i) {
                    assert(focus_before(clients, focused, clients.len() as int));
                }
            },
        }
    }
    assert(paper_regions(clients, focused, region, main_ratio) =~= fan(
        region,
        n,
        scaled(region.w, ratio),
        at,
    ));
}

/// Where a client up to place `upto` has the focus, there is a first such
/// client.
proof fn lemma_first_with_focus(clients: Seq<ClientId>, focused: Option<ClientId>, upto: int) -> (at:
    int)
    requires
        has_focus(clients, focused, upto),
    ensures
        first_with_focus(clients, focused, Some(at)),
        0 <= at <= upto,
    decreases upto,
{
    if focus_before(clients, focused, upto) {
        let j = choose|j: int| 0 <= j < upto && #[trigger] has_focus(clients, focused, j);
        lemma_first_with_focus(clients, focused, j)
    } else {
        upto
    }
}

/// There is a region for each client, and where one of the clients has the
/// focus, or there is one client only, it lies within the monitor's.
pub proof fn lemma_paper_regions_within(
    clients: Seq<ClientId>,
    focused: Option<ClientId>,
    region: Region,
    main_ratio: u32,
)
    requires
        region.in_bounds(),
        clients.len() <= u32::MAX,
    ensures
        paper_regions(clients, focused, region, main_ratio).len() == clients.len(),
        focus_before(clients, focused, clients.len() as int) || clients.len() == 1 ==> forall|
            i: int,
        |
            0 <= i < clients.len() ==> (#[trigger] paper_regions(
                clients,
                focused,
                region,
                main_ratio,
            )[i]).within(region),
{
    if clients.len() != 1 && focus_before(clients, focused, clients.len() as int) {
        let ratio = if main_ratio > PAPER_MIN_RATIO {
            main_ratio
        } else {
            PAPER_MIN_RATIO
        };
        let some = choose|j: int| 0 <= j < clients.len() && #[trigger] has_focus(clients, focused, j);
        let at = lemma_first_with_focus(clients, focused, some);
        lemma_paper_regions_fan(clients, focused, region, main_ratio, Some(at));
        lemma_fan_within(region, clients.len() as u32, scaled(region.w, ratio), at);
    }
}

/// The first place among `clients` that holds `id`.
fn find_client(clients: &[ClientId], id: ClientId) -> (at: Option<u32>)
    requires
        clients@.len() <= u32::MAX,
    ensures
        first_with_focus(clients@, Some(id), spot(at)),
{
    let mut i: usize = 0;
    while i < clients.len()
        invariant
            i <= clients@.len() <= u32::MAX,
            forall|k: int| 0 <= k < i ==> !has_focus(clients@, Some(id), k),
        decreases clients@.len() - i,
    {
        if clients[i] == id {
            return Some(i as u32);
        }
        i += 1;
    }
    None
}

/// Fans the clients out like sheets of paper, the focused one pulled out: see
/// [`paper_region`]. The main count changes nothing, and no client is hidden.
pub fn paper(
    clients: &[ClientId],
    focused: Option<ClientId>,
    monitor_region: &Region,
    _main_count: u32,
    main_ratio: u32,
) -> (placements: Vec<Placement>)
    requires
        monitor_region.in_bounds(),
        clients@.len() <= u32::MAX,
    ensures
        placements@ == placed(
            clients@,
            paper_regions(clients@, focused, *monitor_region, main_ratio),
        ),
        echoes(placements@, clients@),
        all_shown(placements@),
        focus_before(clients@, focused, clients@.len() as int) || clients@.len() == 1
            ==> shown_within(placements@, *monitor_region),
{
    let n: u32 = clients.len() as u32;
    let regions = if n == 1 {
        let mut regions: Vec<Region> = Vec::new();
        regions.push(*monitor_region);
        regions
    } else {
        let ratio = if main_ratio > PAPER_MIN_RATIO {
            main_ratio
        } else {
            PAPER_MIN_RATIO
        };
        let pulled = match focused {
            Some(id) => find_client(clients, id),
            None => None,
        };
        proof {
            lemma_paper_regions_fan(clients@, focused, *monitor_region, main_ratio, spot(pulled));
        }
        as_fan(monitor_region, n, scale(monitor_region.w, ratio), pulled)
    };
    proof {
        assert(regions@ =~= paper_regions(clients@, focused, *monitor_region, main_ratio));
        lemma_placed_echoes(clients@, regions@);
        lemma_paper_regions_within(clients@, focused, *monitor_region, main_ratio);
    }
    place(clients, &regions)
}

/// The layouts to choose from.
#[derive(Clone, Copy, Debug, PartialEq, Eq, Hash, Structural)]
pub enum Strategy {
    /// Up to three columns, the first client in the centre: [`stack_sides`].
    Sides,
    /// The main clients on the left, the others on the right: [`side_stack`].
    SideStack,
    /// The main clients at the top, the others underneath: [`bottom_stack`].
    BottomStack,
    /// A fan of sheets with the focused client pulled out: [`paper`].
    Paper,
}

/// What a strategy makes of the clients on a monitor.
pub open spec fn arrangement(
    strategy: Strategy,
    clients: Seq<ClientId>,
    focused: Option<ClientId>,
    region: Region,
    main_count: u32,
    main_ratio: u32,
) -> Seq<Placement> {
    let n = clients.len() as u32;
    placed(
        clients,
        match strategy {
            Strategy::Sides => sides_regions(region, n),
            Strategy::SideStack => side_stack_regions(region, n, main_count, main_ratio),
            Strategy::BottomStack => bottom_stack_regions(region, n, main_count, main_ratio),
            Strategy::Paper => paper_regions(clients, focused, region, main_ratio),
        },
    )
}

/// Whatever the strategy and however many clients there are, each client is
/// placed, once, and none besides: there are as many placements as clients,
/// with the same ids, and none is hidden.
pub proof fn lemma_arrangement_echoes(
    strategy: Strategy,
    clients: Seq<ClientId>,
    focused: Option<ClientId>,
    region: Region,
    main_count: u32,
    main_ratio: u32,
)
    ensures
        echoes(arrangement(strategy, clients, focused, region, main_count, main_ratio), clients),
        all_shown(arrangement(strategy, clients, focused, region, main_count, main_ratio)),
{
    let n = clients.len() as u32;
    let regions = match strategy {
        Strategy::Sides => sides_regions(region, n),
        Strategy::SideStack => side_stack_regions(region, n, main_count, main_ratio),
        Strategy::BottomStack => bottom_stack_regions(region, n, main_count, main_ratio),
        Strategy::Paper => paper_regions(clients, focused, region, main_ratio),
    };
    lemma_placed_echoes(clients, regions);
}

impl Strategy {
    /// Places the clients, given in order, on a monitor. Every client is
    /// placed, once, and none besides; the result depends on nothing but the
    /// arguments.
    pub fn compute(
        &self,
        clients: &[ClientId],
        focused: Option<ClientId>,
        region: &Region,
        main_count: u32,
        main_ratio: u32,
    ) -> (placements: Vec<Placement>)
        requires
            region.in_bounds(),
            clients@.len() <= u32::MAX,
        ensures
            placements@ == arrangement(*self, clients@, focused, *region, main_count, main_ratio),
            echoes(placements@, clients@),
            all_shown(placements@),
            *self != Strategy::Paper ==> shown_within(placements@, *region),
    {
        match self {
            Strategy::Sides => stack_sides(clients, focused, region, main_count, main_ratio),
            Strategy::SideStack => side_stack(clients, focused, region, main_count, main_ratio),
            Strategy::BottomStack => bottom_stack(clients, focused, region, main_count, main_ratio),
            Strategy::Paper => paper(clients, focused, region, main_count, main_ratio),
        }
    }
}

} // verus!
