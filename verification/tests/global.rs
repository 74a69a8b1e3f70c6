use dashboard_aggregator::aggregate::AggregatedData;
use dashboard_aggregator::counts::Counts;
use dashboard_aggregator::global::{CountOverflow, GlobalAggregates};

fn listing(c: &Counts) -> Vec<(String, u64)> {
    let mut out = Vec::new();
    for i in 0..c.len() {
        out.push((c.label_at(i).clone(), c.count_at(i)));
    }
    out
}

fn pairs(items: &[(&str, u64)]) -> Vec<(String, u64)> {
    items.iter().map(|(k, n)| (k.to_string(), *n)).collect()
}

fn part(priorities: &[(&str, u64)], sources: &[(&str, u64)], destinations: &[(&str, u64)], aware: &[(&str, u64)]) -> AggregatedData {
    let mut data = AggregatedData::new();
    for (k, n) in priorities {
        data.priorities_count.add(k, *n);
    }
    for (k, n) in sources {
        data.threat_sources.add(k, *n);
    }
    for (k, n) in destinations {
        data.threat_destinations.add(k, *n);
    }
    for (k, n) in aware {
        data.aware_threats.add(k, *n);
    }
    data
}

fn whole(g: &GlobalAggregates) -> Vec<Vec<(String, u64)>> {
    vec![
        listing(&g.totals().priorities_count),
        listing(&g.totals().threat_sources),
        listing(&g.totals().threat_destinations),
        listing(&g.totals().aware_threats),
    ]
}

#[test]
fn totals_start_with_the_six_priorities_at_zero() {
    let g = GlobalAggregates::new();
    assert_eq!(
        listing(&g.totals().priorities_count),
        pairs(&[("0", 0), ("1", 0), ("2", 0), ("3", 0), ("4", 0), ("5", 0)])
    );
    assert_eq!(g.totals().threat_sources.len(), 0);
    assert_eq!(g.totals().threat_destinations.len(), 0);
    assert_eq!(g.totals().aware_threats.len(), 0);
}

#[test]
fn merge_adds_label_by_label() {
    let mut g = GlobalAggregates::new();
    let a = part(&[("1", 2), ("3", 1)], &[("10.0.0.1", 2), ("10.0.0.2", 1)], &[("d", 3)], &[("2024-03-01 AM", 1)]);
    let b = part(&[("1", 1), ("high", 4)], &[("10.0.0.2", 5)], &[("e", 5)], &[("2024-03-01 AM", 2), ("2024-03-01 PM", 1)]);
    assert_eq!(g.merge_into(&a), Ok(()));
    assert_eq!(g.merge_into(&b), Ok(()));
    assert_eq!(
        whole(&g),
        vec![
            pairs(&[("0", 0), ("1", 3), ("2", 0), ("3", 1), ("4", 0), ("5", 0), ("high", 4)]),
            pairs(&[("10.0.0.1", 2), ("10.0.0.2", 6)]),
            pairs(&[("d", 3), ("e", 5)]),
            pairs(&[("2024-03-01 AM", 3), ("2024-03-01 PM", 1)]),
        ]
    );
}

#[test]
fn merge_does_not_depend_on_the_order() {
    let a = part(&[("1", 2), ("3", 1)], &[("10.0.0.1", 2)], &[("d", 3)], &[("2024-03-01 AM", 1)]);
    let b = part(&[("1", 1), ("9", 4)], &[("10.0.0.2", 5), ("10.0.0.1", 1)], &[], &[("2024-03-01 AM", 2)]);
    let c = part(&[], &[("10.0.0.3", 7)], &[("d", 1)], &[]);
    let mut first = GlobalAggregates::new();
    for p in [&a, &b, &c] {
        assert_eq!(first.merge_into(p), Ok(()));
    }
    let mut second = GlobalAggregates::new();
    for p in [&c, &b, &a] {
        assert_eq!(second.merge_into(p), Ok(()));
    }
    let mut third = GlobalAggregates::new();
    for p in [&b, &a, &c] {
        assert_eq!(third.merge_into(p), Ok(()));
    }
    assert_eq!(whole(&first), whole(&second));
    assert_eq!(whole(&first), whole(&third));
}

#[test]
fn merge_of_two_parts_commutes() {
    let a = part(&[("1", 2)], &[("x", 2), ("y", 1)], &[("d", 3)], &[("k", 1)]);
    let b = part(&[("2", 1)], &[("y", 5), ("z", 1)], &[("d", 1)], &[("j", 2)]);
    let mut ab = a.clone();
    ab.priorities_count.absorb(&b.priorities_count);
    ab.threat_sources.absorb(&b.threat_sources);
    ab.threat_destinations.absorb(&b.threat_destinations);
    ab.aware_threats.absorb(&b.aware_threats);
    let mut ba = b.clone();
    ba.priorities_count.absorb(&a.priorities_count);
    ba.threat_sources.absorb(&a.threat_sources);
    ba.threat_destinations.absorb(&a.threat_destinations);
    ba.aware_threats.absorb(&a.aware_threats);
    assert_eq!(listing(&ab.priorities_count), listing(&ba.priorities_count));
    assert_eq!(listing(&ab.threat_sources), listing(&ba.threat_sources));
    assert_eq!(listing(&ab.threat_sources), pairs(&[("x", 2), ("y", 6), ("z", 1)]));
    assert_eq!(listing(&ab.threat_destinations), listing(&ba.threat_destinations));
    assert_eq!(listing(&ab.aware_threats), listing(&ba.aware_threats));
}

#[test]
fn merge_of_an_empty_part_changes_nothing() {
    let mut g = GlobalAggregates::new();
    assert_eq!(g.merge_into(&part(&[("1", 2)], &[("x", 1)], &[], &[])), Ok(()));
    let before = whole(&g);
    assert_eq!(g.merge_into(&AggregatedData::new()), Ok(()));
    assert_eq!(whole(&g), before);
}

#[test]
fn the_defaults_stay_whatever_is_merged() {
    let mut g = GlobalAggregates::new();
    assert_eq!(g.merge_into(&part(&[("7", 2), ("", 1), ("10", 3)], &[], &[], &[])), Ok(()));
    for k in ["0", "1", "2", "3", "4", "5"] {
        assert_eq!(g.totals().priorities_count.get(k), Some(0));
    }
    assert_eq!(g.totals().priorities_count.get("7"), Some(2));
    assert_eq!(g.totals().priorities_count.get("6"), None);
}

#[test]
fn merge_refuses_a_sum_out_of_range_and_changes_nothing() {
    let mut g = GlobalAggregates::new();
    assert_eq!(g.merge_into(&part(&[("1", 1)], &[("x", u64::MAX)], &[("d", 1)], &[])), Ok(()));
    let before = whole(&g);
    let too_much = part(&[("1", 5)], &[("x", 1)], &[("d", 1)], &[("k", 1)]);
    assert_eq!(g.merge_into(&too_much), Err(CountOverflow));
    assert_eq!(whole(&g), before);
    let fine = part(&[("1", 5)], &[("y", 1)], &[("d", 1)], &[("k", 1)]);
    assert_eq!(g.merge_into(&fine), Ok(()));
    assert_eq!(g.totals().threat_sources.get("x"), Some(u64::MAX));
    assert_eq!(g.totals().priorities_count.get("1"), Some(6));
}

#[test]
fn merge_refuses_an_overflow_in_any_of_the_four() {
    for which in 0..4 {
        let mut full = AggregatedData::new();
        let mut one = AggregatedData::new();
        match which {
            0 => {
                full.priorities_count.add("k", u64::MAX);
                one.priorities_count.add("k", 1);
            }
            1 => {
                full.threat_sources.add("k", u64::MAX);
                one.threat_sources.add("k", 1);
            }
            2 => {
                full.threat_destinations.add("k", u64::MAX);
                one.threat_destinations.add("k", 1);
            }
            _ => {
                full.aware_threats.add("k", u64::MAX);
                one.aware_threats.add("k", 1);
            }
        }
        let mut g = GlobalAggregates::new();
        assert_eq!(g.merge_into(&full), Ok(()));
        assert_eq!(g.merge_into(&one), Err(CountOverflow));
    }
}
