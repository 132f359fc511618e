use penrose_config::geometry::Region;
use penrose_config::layouts::{side_stack, stack_sides, Strategy};
use penrose_config::registry::{
    my_layouts, Direction, Layout, LayoutConf, Registry, MAX_RATIO, MIN_RATIO,
};

const MONITOR: Region = Region { x: 0, y: 0, w: 1920, h: 1080 };

fn conf(allow_wrapping: bool) -> LayoutConf {
    LayoutConf { floating: false, gapless: false, follow_focus: false, allow_wrapping }
}

fn registry_of(n: u32, allow_wrapping: bool) -> Registry {
    let mut layouts = Vec::new();
    for i in 0..n {
        layouts.push(Layout::new("[l]", conf(allow_wrapping), Strategy::SideStack, i, 100 * i));
    }
    Registry::new(layouts, 50, 950).expect("a registry")
}

fn mine() -> Registry {
    Registry::new(my_layouts(), MIN_RATIO, MAX_RATIO).expect("a registry")
}

#[test]
fn ratios_of_use_lie_between_a_twentieth_and_nineteen_twentieths() {
    assert_eq!((MIN_RATIO, MAX_RATIO), (50, 950));
}

#[test]
fn default_conf_is_tiled_and_wraps() {
    let c = LayoutConf::default();
    assert_eq!(
        c,
        LayoutConf { floating: false, gapless: false, follow_focus: false, allow_wrapping: true }
    );
}

#[test]
fn conf_suited_to_a_strategy() {
    assert_eq!(LayoutConf::suited_to(Strategy::Sides), LayoutConf::default());
    assert_eq!(LayoutConf::suited_to(Strategy::SideStack), LayoutConf::default());
    assert_eq!(LayoutConf::suited_to(Strategy::BottomStack), LayoutConf::default());
    assert_eq!(
        LayoutConf::suited_to(Strategy::Paper),
        LayoutConf { floating: true, gapless: false, follow_focus: true, allow_wrapping: true }
    );
}

#[test]
fn new_layout_keeps_what_it_is_given() {
    let l = Layout::new("[papr]", conf(false), Strategy::Paper, 3, 700);
    assert_eq!(l.symbol, "[papr]");
    assert_eq!(l.conf, conf(false));
    assert_eq!(l.strategy, Strategy::Paper);
    assert_eq!(l.main_count, 3);
    assert_eq!(l.main_ratio, 700);
}

#[test]
fn layout_arranges_with_its_own_settings() {
    let l = Layout::new("[side]", LayoutConf::default(), Strategy::SideStack, 2, 700);
    let clients = [1, 2, 3, 4];
    assert_eq!(l.arrange(&clients, None, &MONITOR), side_stack(&clients, None, &MONITOR, 2, 700));
}

#[test]
fn my_layouts_are_sides_side_and_bottom() {
    let layouts = my_layouts();
    assert_eq!(layouts.len(), 3);
    let symbols: Vec<&str> = layouts.iter().map(|l| l.symbol.as_str()).collect();
    assert_eq!(symbols, vec!["[sides]", "[side]", "[botm]"]);
    let strategies: Vec<Strategy> = layouts.iter().map(|l| l.strategy).collect();
    assert_eq!(strategies, vec![Strategy::Sides, Strategy::SideStack, Strategy::BottomStack]);
    assert_eq!((layouts[0].main_count, layouts[0].main_ratio), (0, 0));
    assert_eq!((layouts[1].main_count, layouts[1].main_ratio), (1, 600));
    assert_eq!((layouts[2].main_count, layouts[2].main_ratio), (1, 600));
    assert!(layouts.iter().all(|l| l.conf == LayoutConf::default()));
}

#[test]
fn new_registry_starts_at_the_first_layout() {
    let r = mine();
    assert_eq!(r.len(), 3);
    assert_eq!(r.current_index(), 0);
    assert_eq!(r.current().symbol, "[sides]");
}

#[test]
fn no_registry_without_a_layout() {
    assert!(Registry::new(Vec::new(), 50, 950).is_none());
}

#[test]
fn no_registry_with_bounds_in_the_wrong_order() {
    assert!(Registry::new(my_layouts(), 951, 950).is_none());
    assert!(Registry::new(my_layouts(), 950, 950).is_some());
    assert!(Registry::new(my_layouts(), 0, u32::MAX).is_some());
}

#[test]
fn cycling_forward_goes_through_the_layouts_in_order() {
    let mut r = mine();
    r.cycle(Direction::Forward);
    assert_eq!((r.current_index(), r.current().symbol.as_str()), (1, "[side]"));
    r.cycle(Direction::Forward);
    assert_eq!((r.current_index(), r.current().symbol.as_str()), (2, "[botm]"));
    r.cycle(Direction::Forward);
    assert_eq!((r.current_index(), r.current().symbol.as_str()), (0, "[sides]"));
}

#[test]
fn cycling_backward_goes_through_the_layouts_in_reverse() {
    let mut r = mine();
    r.cycle(Direction::Backward);
    assert_eq!(r.current_index(), 2);
    r.cycle(Direction::Backward);
    assert_eq!(r.current_index(), 1);
    r.cycle(Direction::Backward);
    assert_eq!(r.current_index(), 0);
}

#[test]
fn cycling_forward_as_often_as_there_are_layouts_comes_round() {
    for n in 1..=7u32 {
        for start in 0..n {
            let mut r = registry_of(n, true);
            for _ in 0..start {
                r.cycle(Direction::Forward);
            }
            assert_eq!(r.current_index(), start as usize);
            for _ in 0..n {
                r.cycle(Direction::Forward);
            }
            assert_eq!(r.current_index(), start as usize);
        }
    }
}

#[test]
fn cycling_past_the_last_layout_without_wrapping_stays() {
    let mut r = registry_of(3, false);
    r.cycle(Direction::Forward);
    r.cycle(Direction::Forward);
    assert_eq!(r.current_index(), 2);
    r.cycle(Direction::Forward);
    assert_eq!(r.current_index(), 2);
    r.cycle(Direction::Forward);
    assert_eq!(r.current_index(), 2);
    r.cycle(Direction::Backward);
    assert_eq!(r.current_index(), 1);
}

#[test]
fn cycling_before_the_first_layout_without_wrapping_stays() {
    let mut r = registry_of(3, false);
    r.cycle(Direction::Backward);
    assert_eq!(r.current_index(), 0);
}

#[test]
fn wrapping_goes_by_the_layout_in_use() {
    let layouts = vec![
        Layout::new("[a]", conf(true), Strategy::Sides, 0, 0),
        Layout::new("[b]", conf(false), Strategy::Sides, 0, 0),
    ];
    let mut r = Registry::new(layouts, 50, 950).expect("a registry");
    r.cycle(Direction::Backward);
    assert_eq!(r.current_index(), 1);
    r.cycle(Direction::Forward);
    assert_eq!(r.current_index(), 1);
    r.cycle(Direction::Backward);
    assert_eq!(r.current_index(), 0);
}

#[test]
fn cycling_a_single_layout_stays() {
    for wrap in [true, false] {
        let mut r = registry_of(1, wrap);
        r.cycle(Direction::Forward);
        assert_eq!(r.current_index(), 0);
        r.cycle(Direction::Backward);
        assert_eq!(r.current_index(), 0);
    }
}

#[test]
fn cycling_keeps_the_settings_of_each_layout() {
    let mut r = mine();
    r.cycle(Direction::Forward);
    r.adjust_main_count(2);
    r.adjust_ratio(150);
    r.cycle(Direction::Forward);
    assert_eq!((r.current().main_count, r.current().main_ratio), (1, 600));
    r.cycle(Direction::Backward);
    assert_eq!((r.current().main_count, r.current().main_ratio), (3, 750));
}

#[test]
fn main_count_goes_up_and_down() {
    let mut r = mine();
    r.cycle(Direction::Forward);
    r.adjust_main_count(1);
    assert_eq!(r.current().main_count, 2);
    r.adjust_main_count(3);
    assert_eq!(r.current().main_count, 5);
    r.adjust_main_count(-2);
    assert_eq!(r.current().main_count, 3);
    r.adjust_main_count(0);
    assert_eq!(r.current().main_count, 3);
}

#[test]
fn main_count_less_a_hundred_is_zero() {
    for start in [0u32, 1, 5, 99, 100] {
        let layouts = vec![Layout::new("[l]", conf(true), Strategy::SideStack, start, 600)];
        let mut r = Registry::new(layouts, 50, 950).expect("a registry");
        r.adjust_main_count(-100);
        assert_eq!(r.current().main_count, 0);
        r.adjust_main_count(-1);
        assert_eq!(r.current().main_count, 0);
    }
}

#[test]
fn main_count_above_a_hundred_less_a_hundred() {
    let layouts = vec![Layout::new("[l]", conf(true), Strategy::SideStack, 101, 600)];
    let mut r = Registry::new(layouts, 50, 950).expect("a registry");
    r.adjust_main_count(-100);
    assert_eq!(r.current().main_count, 1);
}

#[test]
fn main_count_stops_at_both_ends() {
    let layouts = vec![Layout::new("[l]", conf(true), Strategy::SideStack, u32::MAX - 1, 600)];
    let mut r = Registry::new(layouts, 50, 950).expect("a registry");
    r.adjust_main_count(5);
    assert_eq!(r.current().main_count, u32::MAX);
    r.adjust_main_count(i32::MAX);
    assert_eq!(r.current().main_count, u32::MAX);
    r.adjust_main_count(i32::MIN);
    assert_eq!(r.current().main_count, u32::MAX - (1 << 31));
    r.adjust_main_count(i32::MIN);
    assert_eq!(r.current().main_count, 0);
    r.adjust_main_count(i32::MIN);
    assert_eq!(r.current().main_count, 0);
}

#[test]
fn ratio_goes_up_and_down() {
    let mut r = mine();
    r.cycle(Direction::Forward);
    r.adjust_ratio(50);
    assert_eq!(r.current().main_ratio, 650);
    r.adjust_ratio(-100);
    assert_eq!(r.current().main_ratio, 550);
}

#[test]
fn ratio_stays_within_the_bounds() {
    let mut r = mine();
    r.cycle(Direction::Forward);
    for delta in [1000, -1000, i32::MAX, i32::MIN, 349, 351, -549, -551, 1, -1, 0] {
        r.adjust_ratio(delta);
        let ratio = r.current().main_ratio;
        assert!((50..=950).contains(&ratio), "{} after {}", ratio, delta);
    }
    r.adjust_ratio(i32::MAX);
    assert_eq!(r.current().main_ratio, 950);
    r.adjust_ratio(1);
    assert_eq!(r.current().main_ratio, 950);
    r.adjust_ratio(i32::MIN);
    assert_eq!(r.current().main_ratio, 50);
    r.adjust_ratio(-1);
    assert_eq!(r.current().main_ratio, 50);
}

#[test]
fn ratio_from_outside_the_bounds_comes_inside() {
    let mut r = mine();
    assert_eq!(r.current().main_ratio, 0);
    r.adjust_ratio(0);
    assert_eq!(r.current().main_ratio, 50);
    let layouts = vec![Layout::new("[l]", conf(true), Strategy::SideStack, 1, u32::MAX)];
    let mut r = Registry::new(layouts, 50, 950).expect("a registry");
    r.adjust_ratio(-10);
    assert_eq!(r.current().main_ratio, 950);
}

#[test]
fn adjusting_touches_the_layout_in_use_alone() {
    let mut r = mine();
    r.cycle(Direction::Forward);
    r.adjust_main_count(4);
    r.adjust_ratio(-300);
    r.toggle_floating();
    assert_eq!(r.current_index(), 1);
    assert_eq!((r.current().main_count, r.current().main_ratio), (5, 300));
    assert!(r.current().conf.floating);
    assert_eq!(r.current().symbol, "[side]");
    assert_eq!(r.current().strategy, Strategy::SideStack);
    r.cycle(Direction::Forward);
    assert_eq!((r.current().main_count, r.current().main_ratio), (1, 600));
    assert!(!r.current().conf.floating);
    r.cycle(Direction::Forward);
    assert_eq!((r.current().main_count, r.current().main_ratio), (0, 0));
    assert!(!r.current().conf.floating);
}

#[test]
fn toggling_floating_twice_changes_nothing() {
    let mut r = mine();
    r.toggle_floating();
    assert_eq!(
        r.current().conf,
        LayoutConf { floating: true, gapless: false, follow_focus: false, allow_wrapping: true }
    );
    r.toggle_floating();
    assert_eq!(r.current().conf, LayoutConf::default());
}

#[test]
fn registry_computes_with_the_layout_in_use() {
    let mut r = mine();
    let clients = [1, 2, 3, 4, 5];
    assert_eq!(r.compute(&clients, None, &MONITOR), stack_sides(&clients, None, &MONITOR, 0, 0));
    r.cycle(Direction::Forward);
    assert_eq!(r.compute(&clients, None, &MONITOR), side_stack(&clients, None, &MONITOR, 1, 600));
    r.adjust_main_count(1);
    r.adjust_ratio(100);
    assert_eq!(r.compute(&clients, None, &MONITOR), side_stack(&clients, None, &MONITOR, 2, 700));
    assert_eq!(r.current_index(), 1);
}
