//! The layouts that a workspace can cycle through, the one in use, and the
//! two numbers of each that the user may turn up and down.

use vstd::prelude::*;
use vstd::arithmetic::div_mod::{lemma_mod_add_multiples_vanish, lemma_small_mod};
use crate::geometry::Region;
use crate::layouts::{
    all_shown, arrangement, echoes, shown_within, ClientId, Placement, Strategy,
};

verus! {

/// Which way to go through the layouts.
#[derive(Clone, Copy, Debug, PartialEq, Eq, Hash, Structural)]
pub enum Direction {
    /// On to the next one.
    Forward,
    /// Back to the one before.
    Backward,
}

/// When and how a layout is to be applied.
#[derive(Clone, Copy, Debug, PartialEq, Eq, Hash, Structural)]
pub struct LayoutConf {
    /// The clients are not tiled: what the layout computes is advice only.
    pub floating: bool,
    /// No gaps are left between the windows.
    pub gapless: bool,
    /// The layout is applied anew when the focus moves, not only when a
    /// client comes or goes.
    pub follow_focus: bool,
    /// Cycling on from this layout at either end of the list starts again at
    /// the other end.
    pub allow_wrapping: bool,
}

impl Default for LayoutConf {
    /// Tiled, with gaps, applied when clients come and go, wrapping.
    fn default() -> (conf: LayoutConf)
        ensures
            conf == (LayoutConf {
                floating: false,
                gapless: false,
                follow_focus: false,
                allow_wrapping: true,
            }),
    {
        LayoutConf { floating: false, gapless: false, follow_focus: false, allow_wrapping: true }
    }
}

impl LayoutConf {
    /// The configuration that suits a strategy. One that goes by the focus
    /// is floating and is applied anew when the focus moves; the others take
    /// the default.
    pub fn suited_to(strategy: Strategy) -> (conf: LayoutConf)
        ensures
            conf == if strategy == Strategy::Paper {
                LayoutConf {
                    floating: true,
                    gapless: false,
                    follow_focus: true,
                    allow_wrapping: true,
                }
            } else {
                LayoutConf {
                    floating: false,
                    gapless: false,
                    follow_focus: false,
                    allow_wrapping: true,
                }
            },
    {
        match strategy {
            Strategy::Paper => LayoutConf {
                floating: true,
                gapless: false,
                follow_focus: true,
                allow_wrapping: true,
            },
            _ => LayoutConf::default(),
        }
    }
}

/// A layout as the user sees it: a name, a strategy and its settings.
#[derive(Debug)]
pub struct Layout {
    /// The name shown for this layout.
    pub symbol: String,
    /// When and how it is applied.
    pub conf: LayoutConf,
    /// How it places the clients.
    pub strategy: Strategy,
    /// How many clients go to the main area.
    pub main_count: u32,
    /// How much of the monitor the main area takes, in thousandths.
    pub main_ratio: u32,
}

impl Layout {
    /// A layout named `symbol`.
    pub fn new(
        symbol: &str,
        conf: LayoutConf,
        strategy: Strategy,
        main_count: u32,
        main_ratio: u32,
    ) -> (layout: Layout)
        ensures
            layout.symbol@ == symbol@,
            layout.conf == conf,
            layout.strategy == strategy,
            layout.main_count == main_count,
            layout.main_ratio == main_ratio,
    {
        Layout { symbol: symbol.to_owned(), conf, strategy, main_count, main_ratio }
    }

    /// Places the clients after this layout's strategy, with its main count
    /// and main ratio as they stand.
    pub fn arrange(
        &self,
        clients: &[ClientId],
        focused: Option<ClientId>,
        region: &Region,
    ) -> (placements: Vec<Placement>)
        requires
            region.in_bounds(),
            clients@.len() <= u32::MAX,
        ensures
            placements@ == arrangement(
                self.strategy,
                clients@,
                focused,
                *region,
                self.main_count,
                self.main_ratio,
            ),
            echoes(placements@, clients@),
            all_shown(placements@),
            self.strategy != Strategy::Paper ==> shown_within(placements@, *region),
    {
        self.strategy.compute(clients, focused, region, self.main_count, self.main_ratio)
    }
}

/// The index that cycling leads to from `current` among `len` layouts: one
/// further in the direction given; at the end of the list, round to the
/// other end if `wrap` says so, and nowhere if not.
pub open spec fn cycled(len: int, current: int, direction: Direction, wrap: bool) -> int {
    match direction {
        Direction::Forward => if current + 1 < len {
            current + 1
        } else if wrap {
            0
        } else {
            current
        },
        Direction::Backward => if current > 0 {
            current - 1
        } else if wrap {
            len - 1
        } else {
            current
        },
    }
}

/// A main count of `current` changed by `delta`: never below zero, and no
/// more than the type holds.
pub open spec fn adjusted_count(current: u32, delta: i32) -> u32 {
    if current + delta < 0 {
        0
    } else if current + delta > u32::MAX {
        u32::MAX
    } else {
        (current + delta) as u32
    }
}

/// A main ratio of `current` changed by `delta`, both in thousandths, and
/// brought back into `min ..= max` where it has left it.
pub open spec fn adjusted_ratio(current: u32, delta: i32, min: u32, max: u32) -> u32 {
    if current + delta < min {
        min
    } else if current + delta > max {
        max
    } else {
        (current + delta) as u32
    }
}

/// The least main ratio to allow, in thousandths, if the main area is not to
/// dwindle to nothing.
pub const MIN_RATIO: u32 = 50;

/// The greatest main ratio to allow, in thousandths, if the other area is not
/// to dwindle to nothing.
pub const MAX_RATIO: u32 = 950;

/// What a registry holds.
pub struct RegistryView {
    /// The layouts, in the order they are cycled through.
    pub layouts: Seq<Layout>,
    /// The index of the layout in use.
    pub current: int,
    /// The least main ratio that adjusting leads to.
    pub min_ratio: u32,
    /// The greatest main ratio that adjusting leads to.
    pub max_ratio: u32,
}

impl RegistryView {
    /// There is a layout in use, and the bounds on the ratio are in order.
    pub open spec fn wf(self) -> bool {
        &&& 0 <= self.current < self.layouts.len()
        &&& self.min_ratio <= self.max_ratio
    }

    /// The layout in use.
    pub open spec fn active(self) -> Layout {
        self.layouts[self.current]
    }

    /// The same layouts with another one in use: see [`cycled`]. Whether the
    /// list wraps is for the layout in use to say.
    pub open spec fn cycle(self, direction: Direction) -> RegistryView {
        RegistryView {
            current: cycled(
                self.layouts.len() as int,
                self.current,
                direction,
                self.active().conf.allow_wrapping,
            ),
            ..self
        }
    }

    /// The same registry but for the layout in use, which is now `layout`.
    pub open spec fn with_active(self, layout: Layout) -> RegistryView {
        RegistryView { layouts: self.layouts.update(self.current, layout), ..self }
    }

    /// The main count of the layout in use changed by `delta`: see
    /// [`adjusted_count`].
    pub open spec fn adjust_main_count(self, delta: i32) -> RegistryView {
        self.with_active(
            Layout { main_count: adjusted_count(self.active().main_count, delta), ..self.active() },
        )
    }

    /// The main ratio of the layout in use changed by `delta`: see
    /// [`adjusted_ratio`].
    pub open spec fn adjust_ratio(self, delta: i32) -> RegistryView {
        self.with_active(
            Layout {
                main_ratio: adjusted_ratio(
                    self.active().main_ratio,
                    delta,
                    self.min_ratio,
                    self.max_ratio,
                ),
                ..self.active()
            },
        )
    }

    /// The layout in use made floating if it was not, and the reverse.
    pub open spec fn toggle_floating(self) -> RegistryView {
        self.with_active(
            Layout {
                conf: LayoutConf { floating: !self.active().conf.floating, ..self.active().conf },
                ..self.active()
            },
        )
    }
}

/// The layouts of a workspace and the one in use.
#[derive(Debug)]
pub struct Registry {
    layouts: Vec<Layout>,
    current: usize,
    min_ratio: u32,
    max_ratio: u32,
}

impl View for Registry {
    type V = RegistryView;

    closed spec fn view(&self) -> RegistryView {
        RegistryView {
            layouts: self.layouts@,
            current: self.current as int,
            min_ratio: self.min_ratio,
            max_ratio: self.max_ratio,
        }
    }
}

impl Registry {
    /// What holds of every registry: see [`RegistryView::wf`].
    #[verifier::type_invariant]
    spec fn well_formed(self) -> bool {
        self@.wf()
    }

    /// A registry of `layouts` with the first one in use, whose main ratios
    /// are kept within `min_ratio ..= max_ratio` when they are adjusted. There
    /// is none without a layout, nor with bounds in the wrong order.
    pub fn new(layouts: Vec<Layout>, min_ratio: u32, max_ratio: u32) -> (registry: Option<Registry>)
        ensures
            registry is Some <==> layouts@.len() > 0 && min_ratio <= max_ratio,
            registry matches Some(r) ==> r@ == (RegistryView {
                layouts: layouts@,
                current: 0,
                min_ratio,
                max_ratio,
            }) && r@.wf(),
    {
        if layouts.len() == 0 || min_ratio > max_ratio {
            None
        } else {
            Some(Registry { layouts, current: 0, min_ratio, max_ratio })
        }
    }

    /// How many layouts there are: at least one.
    pub fn len(&self) -> (n: usize)
        ensures
            n == self@.layouts.len(),
            n > 0,
            self@.wf(),
    {
        proof {
            use_type_invariant(self);
        }
        self.layouts.len()
    }

    /// The index of the layout in use.
    pub fn current_index(&self) -> (i: usize)
        ensures
            i == self@.current,
            self@.wf(),
    {
        proof {
            use_type_invariant(self);
        }
        self.current
    }

    /// The layout in use.
    pub fn current(&self) -> (layout: &Layout)
        ensures
            *layout == self@.active(),
            self@.wf(),
    {
        proof {
            use_type_invariant(self);
        }
        &self.layouts[self.current]
    }

    /// Goes on to the next layout, or back to the one before: see
    /// [`RegistryView::cycle`]. The layouts themselves stay as they are.
    pub fn cycle(&mut self, direction: Direction)
        ensures
            final(self)@ == old(self)@.cycle(direction),
            final(self)@.layouts == old(self)@.layouts,
            final(self)@.wf(),
    {
        proof {
            use_type_invariant(&*self);
        }
        let len = self.layouts.len();
        let wrap = self.layouts[self.current].conf.allow_wrapping;
        let next = match direction {
            Direction::Forward => if self.current + 1 < len {
                self.current + 1
            } else if wrap {
                0
            } else {
                self.current
            },
            Direction::Backward => if self.current > 0 {
                self.current - 1
            } else if wrap {
                len - 1
            } else {
                self.current
            },
        };
        self.current = next;
    }

    /// Changes the main count of the layout in use by `delta`; it stops at
    /// zero. No other layout is touched.
    pub fn adjust_main_count(&mut self, delta: i32)
        ensures
            final(self)@ == old(self)@.adjust_main_count(delta),
            final(self)@.wf(),
    {
        proof {
            use_type_invariant(&*self);
        }
        let count = self.layouts[self.current].main_count;
        let sum: i64 = count as i64 + delta as i64;
        let adjusted: u32 = if sum < 0 {
            0
        } else if sum > u32::MAX as i64 {
            u32::MAX
        } else {
            sum as u32
        };
        self.layouts[self.current].main_count = adjusted;
    }

    /// Changes the main ratio of the layout in use by `delta` thousandths and
    /// keeps it within the bounds of this registry. No other layout is
    /// touched.
    pub fn adjust_ratio(&mut self, delta: i32)
        ensures
            final(self)@ == old(self)@.adjust_ratio(delta),
            final(self)@.min_ratio <= final(self)@.active().main_ratio <= final(self)@.max_ratio,
            final(self)@.wf(),
    {
        proof {
            use_type_invariant(&*self);
        }
        let ratio = self.layouts[self.current].main_ratio;
        let sum: i64 = ratio as i64 + delta as i64;
        let adjusted: u32 = if sum < self.min_ratio as i64 {
            self.min_ratio
        } else if sum > self.max_ratio as i64 {
            self.max_ratio
        } else {
            sum as u32
        };
        self.layouts[self.current].main_ratio = adjusted;
    }

    /// Makes the layout in use floating if it was not, and the reverse. No
    /// other layout is touched.
    pub fn toggle_floating(&mut self)
        ensures
            final(self)@ == old(self)@.toggle_floating(),
            final(self)@.wf(),
    {
        proof {
            use_type_invariant(&*self);
        }
        let floating = self.layouts[self.current].conf.floating;
        self.layouts[self.current].conf.floating = !floating;
    }

    /// Places the clients after the layout in use. The registry is left as
    /// it is.
    pub fn compute(
        &self,
        clients: &[ClientId],
        focused: Option<ClientId>,
        region: &Region,
    ) -> (placements: Vec<Placement>)
        requires
            region.in_bounds(),
            clients@.len() <= u32::MAX,
        ensures
            placements@ == arrangement(
                self@.active().strategy,
                clients@,
                focused,
                *region,
                self@.active().main_count,
                self@.active().main_ratio,
            ),
            echoes(placements@, clients@),
            all_shown(placements@),
            self@.active().strategy != Strategy::Paper ==> shown_within(placements@, *region),
    {
        proof {
            use_type_invariant(self);
        }
        self.layouts[self.current].arrange(clients, focused, region)
    }
}

/// The layouts of this configuration, in the order they are cycled through:
/// `[sides]`, `[side]` and `[botm]`. The last two start with one main client
/// on six tenths of the monitor.
pub fn my_layouts() -> (layouts: Vec<Layout>)
    ensures
        layouts@.len() == 3,
        layouts@[0].symbol@ == "[sides]"@,
        layouts@[1].symbol@ == "[side]"@,
        layouts@[2].symbol@ == "[botm]"@,
        layouts@[0].strategy == Strategy::Sides,
        layouts@[1].strategy == Strategy::SideStack,
        layouts@[2].strategy == Strategy::BottomStack,
        layouts@[0].main_count == 0 && layouts@[0].main_ratio == 0,
        layouts@[1].main_count == 1 && layouts@[1].main_ratio == 600,
        layouts@[2].main_count == 1 && layouts@[2].main_ratio == 600,
        forall|i: int|
            0 <= i < 3 ==> (#[trigger] layouts@[i]).conf == (LayoutConf {
                floating: false,
                gapless: false,
                follow_focus: false,
                allow_wrapping: true,
            }),
{
    let n_main: u32 = 1;
    let ratio: u32 = 600;
    let mut layouts: Vec<Layout> = Vec::new();
    layouts.push(Layout::new("[sides]", LayoutConf::default(), Strategy::Sides, 0, 0));
    layouts.push(Layout::new("[side]", LayoutConf::default(), Strategy::SideStack, n_main, ratio));
    layouts.push(Layout::new("[botm]", LayoutConf::default(), Strategy::BottomStack, n_main, ratio));
    layouts
}

/// A registry after cycling `times` times in one direction.
pub open spec fn cycle_times(view: RegistryView, direction: Direction, times: nat) -> RegistryView
    decreases times,
{
    if times == 0 {
        view
    } else {
        cycle_times(view.cycle(direction), direction, (times - 1) as nat)
    }
}

/// Every layout of the registry allows wrapping.
pub open spec fn all_wrap(view: RegistryView) -> bool {
    forall|i: int| 0 <= i < view.layouts.len() ==> (#[trigger] view.layouts[i]).conf.allow_wrapping
}

/// Where every layout allows wrapping, cycling forward `times` times moves
/// the index that far round the list and changes nothing else.
proof fn lemma_cycle_forward_steps(view: RegistryView, times: nat)
    requires
        view.wf(),
        all_wrap(view),
    ensures
        cycle_times(view, Direction::Forward, times) == (RegistryView {
            current: (view.current + times) % (view.layouts.len() as int),
            ..view
        }),
    decreases times,
{
    let len = view.layouts.len() as int;
    if times == 0 {
        lemma_small_mod(view.current as nat, len as nat);
    } else {
        let next = view.cycle(Direction::Forward);
        lemma_cycle_forward_steps(next, (times - 1) as nat);
        if view.current + 1 == len {
            lemma_mod_add_multiples_vanish(times - 1, len);
        }
    }
}

/// Where every layout allows wrapping, cycling forward as many times as
/// there are layouts leads back to the layout that was in use, and leaves
/// the registry as it was.
pub proof fn lemma_cycle_forward_comes_round(view: RegistryView)
    requires
        view.wf(),
        all_wrap(view),
    ensures
        cycle_times(view, Direction::Forward, view.layouts.len()) == view,
{
    let len = view.layouts.len();
    lemma_cycle_forward_steps(view, len);
    lemma_mod_add_multiples_vanish(view.current, len as int);
    lemma_small_mod(view.current as nat, len);
}

/// Where the last layout is in use and does not allow wrapping, cycling
/// forward changes nothing.
pub proof fn lemma_cycle_forward_stops_at_end(view: RegistryView)
    requires
        view.wf(),
        view.current == view.layouts.len() - 1,
        !view.active().conf.allow_wrapping,
    ensures
        view.cycle(Direction::Forward) == view,
{
}

/// Taking a hundred off a main count of no more than a hundred leaves zero.
pub proof fn lemma_adjust_main_count_reaches_zero(current: u32)
    requires
        current <= 100,
    ensures
        adjusted_count(current, -100i32) == 0,
{
}

/// An adjusted main count is never negative, and at the floor a further
/// decrement changes nothing.
pub proof fn lemma_adjust_main_count_floor(current: u32, delta: i32)
    ensures
        adjusted_count(current, delta) >= 0,
        current + delta <= 0 ==> adjusted_count(current, delta) == 0,
        delta <= 0 ==> adjusted_count(0, delta) == 0,
{
}

/// An adjusted main ratio lies within the bounds, whatever it was before and
/// however large the change; at either bound a further step outwards changes
/// nothing.
pub proof fn lemma_adjust_ratio_within_bounds(current: u32, delta: i32, min: u32, max: u32)
    requires
        min <= max,
    ensures
        min <= adjusted_ratio(current, delta, min, max) <= max,
        delta <= 0 ==> adjusted_ratio(min, delta, min, max) == min,
        delta >= 0 ==> adjusted_ratio(max, delta, min, max) == max,
{
}

} // verus!
