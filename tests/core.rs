use bottom::config::{ConfigV1, FlagConfig, StringOrNum};
use bottom::group::{group_by_name, GROUP_PID};
use bottom::focus::{navigate, Direction};
use bottom::history::{rate_at, Domain, HistoryStore, TimePoint};
use bottom::layout::{compile, split_extent, Constraint, LayoutNode, NodeKind, Rect, FALLBACK_ID};
use bottom::process::{build, build_forest, filter_records, sort_records, Filter, ProcessRecord, SortColumn, Target, ViewPolicy};

fn tp(timestamp: u64, value: u64) -> TimePoint {
    TimePoint { timestamp, value }
}

fn rec(pid: u32, parent: Option<u32>, name: &str, cpu: u64) -> ProcessRecord {
    ProcessRecord {
        pid,
        parent_pid: parent,
        name: name.to_string(),
        command: format!("/usr/bin/{}", name),
        cpu,
        mem: 0,
        read_rate: 0,
        write_rate: 0,
        actionable: true,
    }
}

#[test]
fn rate_of_monotonic_counter() {
    let s = vec![tp(0, 0), tp(1, 100), tp(2, 250)];
    assert_eq!(rate_at(&s, 1), 100);
    assert_eq!(rate_at(&s, 2), 150);
}

#[test]
fn rate_clamps_counter_reset() {
    let s = vec![tp(2, 250), tp(3, 10)];
    assert_eq!(rate_at(&s, 3), 0);
}

#[test]
fn rate_without_two_samples_is_zero() {
    assert_eq!(rate_at(&vec![tp(5, 40)], 5), 0);
    assert_eq!(rate_at(&vec![], 5), 0);
}

#[test]
fn prune_keeps_recent_points() {
    let mut h = HistoryStore::new(10, vec![Domain::Network]);
    for t in 0..30u64 {
        h.ingest(Domain::Network, 1, tp(t, t * 10));
    }
    h.prune(29);
    let pts = h.query(Domain::Network, 1, 29, 100);
    assert_eq!(pts.len(), 11);
    assert!(pts.iter().all(|p| p.timestamp >= 19));
    assert_eq!(h.rate(Domain::Network, 1, 25), 10);
}

#[test]
fn unknown_domain_and_old_samples_are_dropped() {
    let mut h = HistoryStore::new(60, vec![Domain::Cpu]);
    h.ingest(Domain::Temperature, 0, tp(1, 5));
    assert!(h.query(Domain::Temperature, 0, 10, 10).is_empty());
    h.ingest(Domain::Cpu, 0, tp(5, 1));
    h.ingest(Domain::Cpu, 0, tp(3, 2));
    assert_eq!(h.query(Domain::Cpu, 0, 10, 10), vec![tp(5, 1)]);
    assert!(h.query(Domain::Cpu, 7, 10, 10).is_empty());
}

#[test]
fn query_window() {
    let mut h = HistoryStore::new(100, vec![Domain::Memory]);
    for t in 0..10u64 {
        h.ingest(Domain::Memory, 2, tp(t, t));
    }
    let pts = h.query(Domain::Memory, 2, 6, 2);
    assert_eq!(pts, vec![tp(4, 4), tp(5, 5), tp(6, 6)]);
}

#[test]
fn split_sums_to_extent() {
    let cs = vec![Constraint::Fixed(3), Constraint::Ratio(1), Constraint::Ratio(2)];
    let lens = split_extent(10, &cs);
    assert_eq!(lens, vec![3, 2, 5]);
    assert_eq!(split_extent(1, &cs).iter().map(|l| *l as u32).sum::<u32>(), 1);
    assert_eq!(split_extent(7, &vec![Constraint::Fixed(2), Constraint::Fixed(2)]), vec![2, 5]);
}

fn two_by_two() -> Vec<LayoutNode> {
    let w = |id: u64| LayoutNode { kind: NodeKind::Widget(id), constraint: Constraint::Ratio(1), children: vec![] };
    vec![
        LayoutNode { kind: NodeKind::Column, constraint: Constraint::Ratio(1), children: vec![1, 2] },
        LayoutNode { kind: NodeKind::Row, constraint: Constraint::Ratio(1), children: vec![3, 4] },
        LayoutNode { kind: NodeKind::Row, constraint: Constraint::Ratio(1), children: vec![5, 6] },
        w(10),
        w(11),
        w(12),
        w(13),
    ]
}

#[test]
fn compile_tiles_the_screen() {
    let out = compile(&two_by_two(), 81, 25);
    assert_eq!(out.ids, vec![10, 11, 12, 13]);
    assert_eq!(out.rects[0], Rect { x: 0, y: 0, width: 40, height: 12 });
    assert_eq!(out.rects[1], Rect { x: 40, y: 0, width: 41, height: 12 });
    assert_eq!(out.rects[2], Rect { x: 0, y: 12, width: 40, height: 13 });
    assert_eq!(out.rects[3], Rect { x: 40, y: 12, width: 41, height: 13 });
    let area: u32 = out.rects.iter().map(|r| r.width as u32 * r.height as u32).sum();
    assert_eq!(area, 81 * 25);
}

#[test]
fn compile_falls_back() {
    let out = compile(&vec![], 5, 5);
    assert_eq!(out.ids, vec![FALLBACK_ID]);
    let tiny = compile(&two_by_two(), 1, 1);
    assert_eq!(tiny.ids, vec![FALLBACK_ID]);
    assert_eq!(tiny.rects, vec![Rect { x: 0, y: 0, width: 1, height: 1 }]);
}

#[test]
fn navigation_moves_or_stays() {
    let out = compile(&two_by_two(), 80, 24);
    assert_eq!(navigate(&out.rects, 0, Direction::Right), 1);
    assert_eq!(navigate(&out.rects, 0, Direction::Down), 2);
    assert_eq!(navigate(&out.rects, 0, Direction::Left), 0);
    assert_eq!(navigate(&out.rects, 0, Direction::Up), 0);
    assert_eq!(out.neighbor(3, Direction::Up), 1);
    assert_eq!(out.neighbor(3, Direction::Left), 2);
    for i in 0..4 {
        for d in [Direction::Up, Direction::Down, Direction::Left, Direction::Right] {
            assert!(navigate(&out.rects, i, d) < 4);
        }
    }
}

#[test]
fn filter_modes() {
    let s = vec![rec(1, None, "Firefox", 0), rec(2, None, "fire", 0), rec(3, None, "bash", 0)];
    let f = Filter { pattern: "fire".to_string(), case_sensitive: false, whole_word: false, target: Target::Name };
    assert_eq!(filter_records(&s, &f).len(), 2);
    let f = Filter { pattern: "fire".to_string(), case_sensitive: true, whole_word: false, target: Target::Name };
    assert_eq!(filter_records(&s, &f).len(), 1);
    let f = Filter { pattern: "fire".to_string(), case_sensitive: false, whole_word: true, target: Target::Name };
    let r = filter_records(&s, &f);
    assert_eq!(r.len(), 1);
    assert_eq!(r[0].pid, 2);
    let f = Filter { pattern: "bin/bash".to_string(), case_sensitive: true, whole_word: false, target: Target::Command };
    assert_eq!(filter_records(&s, &f)[0].pid, 3);
}

#[test]
fn sort_is_deterministic_and_reversible() {
    let s = vec![rec(4, None, "a", 5), rec(2, None, "b", 9), rec(3, None, "c", 5), rec(1, None, "d", 1)];
    let asc = sort_records(&s, SortColumn::Cpu, false);
    let again = sort_records(&s, SortColumn::Cpu, false);
    let pids = |v: &Vec<ProcessRecord>| v.iter().map(|r| r.pid).collect::<Vec<u32>>();
    assert_eq!(pids(&asc), pids(&again));
    assert_eq!(pids(&asc), vec![1, 3, 4, 2]);
    let desc = sort_records(&s, SortColumn::Cpu, true);
    assert_eq!(pids(&desc), vec![2, 3, 4, 1]);
}

#[test]
fn cycle_in_parents_becomes_root() {
    let s = vec![rec(1, Some(2), "a", 0), rec(2, Some(1), "b", 0), rec(3, Some(1), "c", 0), rec(4, Some(99), "d", 0)];
    let f = build_forest(&s);
    assert_eq!(f, vec![None, None, Some(0), None]);
    let selfish = vec![rec(7, Some(7), "x", 0)];
    assert_eq!(build_forest(&selfish), vec![None]);
}

#[test]
fn config_holds_flags() {
    let flags = FlagConfig { retention: Some(StringOrNum::String("10m".to_string())), tree: Some(true), ..FlagConfig::default() };
    let c = ConfigV1 { flags: Some(flags), row: None };
    assert!(c.flags.is_some());
    let d = ConfigV1::default();
    assert!(d.flags.is_none());
    let _n = StringOrNum::Num(3);
}

#[test]
fn sort_keeps_equal_records_in_input_order() {
    let mut a = rec(5, None, "first", 3);
    a.mem = 1;
    let mut b = rec(5, None, "second", 3);
    b.mem = 2;
    let s = vec![a, b, rec(1, None, "z", 3)];
    let up = sort_records(&s, SortColumn::Cpu, false);
    let names: Vec<String> = up.iter().map(|r| r.name.clone()).collect();
    assert_eq!(names, vec!["z", "first", "second"]);
    let down = sort_records(&s, SortColumn::Cpu, true);
    let names: Vec<String> = down.iter().map(|r| r.name.clone()).collect();
    assert_eq!(names, vec!["z", "first", "second"]);
}

#[test]
fn build_filters_then_sorts() {
    let s = vec![rec(3, None, "fish", 7), rec(1, None, "bash", 2), rec(2, None, "fishy", 9), rec(4, None, "zsh", 9)];
    let p = ViewPolicy {
        filter: Some(Filter { pattern: "fish".to_string(), case_sensitive: true, whole_word: false, target: Target::Name }),
        column: SortColumn::Cpu,
        descending: true,
    };
    let v1 = build(&s, &p);
    let v2 = build(&s, &p);
    let pids = |v: &Vec<ProcessRecord>| v.iter().map(|r| r.pid).collect::<Vec<u32>>();
    assert_eq!(pids(&v1), vec![2, 3]);
    assert_eq!(pids(&v1), pids(&v2));
    let all = ViewPolicy { filter: None, column: SortColumn::Cpu, descending: false };
    assert_eq!(pids(&build(&s, &all)), vec![1, 3, 2, 4]);
    let all_down = ViewPolicy { filter: None, column: SortColumn::Cpu, descending: true };
    assert_eq!(pids(&build(&s, &all_down)), vec![2, 4, 3, 1]);
    assert!(build(&vec![], &all).is_empty());
}

#[test]
fn string_or_num_from() {
    assert!(matches!(StringOrNum::from("10m".to_string()), StringOrNum::String(ref t) if t == "10m"));
    assert!(matches!(StringOrNum::from(600u64), StringOrNum::Num(600)));
}

#[test]
fn split_shares_by_ratio_and_fixed() {
    let cs = vec![Constraint::Ratio(1), Constraint::Fixed(4), Constraint::Ratio(3)];
    assert_eq!(split_extent(20, &cs), vec![4, 4, 12]);
    assert_eq!(split_extent(3, &cs), vec![0, 3, 0]);
}

#[test]
fn group_by_name_sums_and_flags_rows() {
    let s = vec![rec(10, None, "a", 1), rec(11, None, "a", 2), rec(12, None, "b", 5)];
    let g = group_by_name(&s);
    assert_eq!(g.len(), 2);
    assert_eq!(g[0].name, "a");
    assert_eq!(g[0].cpu, 3);
    assert_eq!(g[1].name, "b");
    assert_eq!(g[1].cpu, 5);
    assert!(g.iter().all(|r| !r.actionable && r.pid == GROUP_PID && r.parent_pid.is_none()));
    assert!(group_by_name(&vec![]).is_empty());
    let mut big = rec(1, None, "x", u64::MAX);
    big.mem = 7;
    let g = group_by_name(&vec![big, rec(2, None, "x", 4)]);
    assert_eq!(g[0].cpu, u64::MAX);
    assert_eq!(g[0].mem, 7);
}
