use dashboard_aggregator::aggregate::{extract_aggregates, AggregatedData};
use dashboard_aggregator::counts::{Counts, Entry};
use dashboard_aggregator::global::GlobalAggregates;
use dashboard_aggregator::ranking::{ascending, descending, ranked, ranks_ahead, top};
use dashboard_aggregator::report::{events_report, render, section, sources_report, Section, TOP_LIMIT};
use dashboard_aggregator::selection::{filter_files, FileCandidate};
use dashboard_aggregator::timestamp::Timestamp;

fn counts(items: &[(&str, u64)]) -> Counts {
    let mut c = Counts::new();
    for (k, n) in items {
        c.add(k, *n);
    }
    c
}

fn entries(items: &[(&str, u64)]) -> Vec<Entry> {
    items.iter().map(|(k, n)| Entry { label: k.to_string(), count: *n }).collect()
}

fn texts(items: &[&str]) -> Vec<String> {
    items.iter().map(|s| s.to_string()).collect()
}

fn totals_of(sources: &[(&str, u64)], destinations: &[(&str, u64)]) -> GlobalAggregates {
    let mut part = AggregatedData::new();
    for (k, n) in sources {
        part.threat_sources.add(k, *n);
    }
    for (k, n) in destinations {
        part.threat_destinations.add(k, *n);
    }
    let mut g = GlobalAggregates::new();
    assert_eq!(g.merge_into(&part), Ok(()));
    g
}

#[test]
fn the_overview_shows_ten() {
    assert_eq!(TOP_LIMIT, 10);
}

#[test]
fn ranking_puts_the_largest_count_first() {
    let c = counts(&[("a", 1), ("b", 5), ("c", 3), ("d", 9), ("e", 2)]);
    assert_eq!(ranked(&c), entries(&[("d", 9), ("b", 5), ("c", 3), ("e", 2), ("a", 1)]));
}

#[test]
fn ranking_breaks_ties_by_label_ascending() {
    let c = counts(&[("z", 2), ("m", 2), ("a", 2), ("q", 7), ("b", 1), ("10", 2), ("9", 2)]);
    assert_eq!(
        ranked(&c),
        entries(&[("q", 7), ("10", 2), ("9", 2), ("a", 2), ("m", 2), ("z", 2), ("b", 1)])
    );
}

#[test]
fn ranking_of_nothing_is_empty() {
    assert_eq!(ranked(&Counts::new()), Vec::<Entry>::new());
}

#[test]
fn ranks_ahead_orders_by_count_then_label() {
    let e = |k: &str, n: u64| Entry { label: k.to_string(), count: n };
    assert!(ranks_ahead(&e("b", 2), &e("a", 1)));
    assert!(!ranks_ahead(&e("a", 1), &e("b", 2)));
    assert!(ranks_ahead(&e("a", 2), &e("b", 2)));
    assert!(!ranks_ahead(&e("b", 2), &e("a", 2)));
    assert!(!ranks_ahead(&e("a", 2), &e("a", 2)));
}

#[test]
fn descending_listing_is_by_label_not_by_number() {
    let c = counts(&[("0", 0), ("1", 4), ("5", 1), ("10", 2), ("4", 0), ("high", 1)]);
    assert_eq!(
        descending(&c),
        entries(&[("high", 1), ("5", 1), ("4", 0), ("10", 2), ("1", 4), ("0", 0)])
    );
}

#[test]
fn ascending_listing_is_by_label() {
    let c = counts(&[("2024-03-02 AM", 1), ("2024-03-01 PM", 2), ("2024-03-01 AM", 3), ("2023-12-31 PM", 4)]);
    assert_eq!(
        ascending(&c),
        entries(&[("2023-12-31 PM", 4), ("2024-03-01 AM", 3), ("2024-03-01 PM", 2), ("2024-03-02 AM", 1)])
    );
}

#[test]
fn top_takes_the_first_entries() {
    let all = entries(&[("a", 5), ("b", 4), ("c", 3)]);
    assert_eq!(top(all.clone(), 2), entries(&[("a", 5), ("b", 4)]));
    assert_eq!(top(all.clone(), 3), all);
    assert_eq!(top(all.clone(), 10), all);
    assert_eq!(top(all, 0), Vec::<Entry>::new());
}

#[test]
fn a_section_holds_two_aligned_arrays() {
    let s = section("Threat Sources", "Source", &entries(&[("10.0.0.1", 2), ("10.0.0.2", 1)]));
    assert_eq!(
        s,
        Section {
            title: "Threat Sources".to_string(),
            label_heading: "Source".to_string(),
            labels: texts(&["10.0.0.1", "10.0.0.2"]),
            count_heading: "Count".to_string(),
            counts: vec![2, 1],
        }
    );
}

#[test]
fn the_overview_of_nothing_has_the_default_priorities() {
    let doc = events_report(&GlobalAggregates::new());
    assert_eq!(doc.len(), 4);
    assert_eq!(doc[0].title, "Priorities");
    assert_eq!(doc[0].label_heading, "Priority");
    assert_eq!(doc[0].labels, texts(&["5", "4", "3", "2", "1", "0"]));
    assert_eq!(doc[0].counts, vec![0, 0, 0, 0, 0, 0]);
    assert_eq!(doc[1].title, "Threat Sources");
    assert_eq!(doc[1].label_heading, "Source");
    assert_eq!(doc[2].title, "Threat Destinations");
    assert_eq!(doc[2].label_heading, "Destination");
    assert_eq!(doc[3].title, "AWARE Threats");
    assert_eq!(doc[3].label_heading, "Date");
    for s in &doc[1..] {
        assert!(s.labels.is_empty());
        assert!(s.counts.is_empty());
    }
    for s in &doc {
        assert_eq!(s.count_heading, "Count");
    }
}

#[test]
fn the_overview_shows_at_most_ten_sources_and_destinations() {
    let names: Vec<String> = (0..25).map(|i| format!("10.0.0.{:02}", i)).collect();
    let sources: Vec<(&str, u64)> = names.iter().enumerate().map(|(i, k)| (k.as_str(), (i as u64 % 12) + 1)).collect();
    let destinations: Vec<(&str, u64)> = names.iter().take(11).map(|k| (k.as_str(), 1)).collect();
    let g = totals_of(&sources, &destinations);
    let doc = events_report(&g);
    assert_eq!(doc[1].labels.len(), 10);
    assert_eq!(doc[1].counts.len(), 10);
    assert_eq!(doc[1].counts, vec![12, 12, 11, 11, 10, 10, 9, 9, 8, 8]);
    assert_eq!(
        doc[1].labels,
        texts(&[
            "10.0.0.11", "10.0.0.23", "10.0.0.10", "10.0.0.22", "10.0.0.09", "10.0.0.21",
            "10.0.0.08", "10.0.0.20", "10.0.0.07", "10.0.0.19"
        ])
    );
    assert_eq!(doc[2].labels.len(), 10);
    assert_eq!(doc[2].labels, names[..10].to_vec());
    assert_eq!(doc[2].counts, vec![1; 10]);
}

#[test]
fn the_overview_shows_all_when_there_are_ten_or_fewer() {
    let g = totals_of(&[("b", 1), ("a", 3), ("c", 2)], &[("x", 1)]);
    let doc = events_report(&g);
    assert_eq!(doc[1].labels, texts(&["a", "c", "b"]));
    assert_eq!(doc[1].counts, vec![3, 2, 1]);
    assert_eq!(doc[2].labels, texts(&["x"]));
    assert_eq!(doc[2].counts, vec![1]);
}

#[test]
fn the_list_of_sources_is_complete() {
    let names: Vec<String> = (0..25).map(|i| format!("10.0.0.{:02}", i)).collect();
    let sources: Vec<(&str, u64)> = names.iter().enumerate().map(|(i, k)| (k.as_str(), i as u64 + 1)).collect();
    let g = totals_of(&sources, &[]);
    let doc = sources_report(&g);
    assert_eq!(doc.len(), 1);
    assert_eq!(doc[0].title, "Threat Sources");
    assert_eq!(doc[0].label_heading, "Source");
    assert_eq!(doc[0].count_heading, "Count");
    assert_eq!(doc[0].labels, names);
    assert_eq!(doc[0].counts, (1..=25).collect::<Vec<u64>>());
}

#[test]
fn the_list_of_sources_sums_over_files() {
    let mut g = GlobalAggregates::new();
    for part_sources in [vec![("a", 1u64), ("b", 2)], vec![("b", 3), ("c", 4)], vec![("a", 5)]] {
        let mut part = AggregatedData::new();
        for (k, n) in part_sources {
            part.threat_sources.add(k, n);
        }
        assert_eq!(g.merge_into(&part), Ok(()));
    }
    let doc = sources_report(&g);
    assert_eq!(doc[0].labels, texts(&["a", "b", "c"]));
    assert_eq!(doc[0].counts, vec![6, 5, 4]);
}

#[test]
fn render_writes_pretty_json() {
    let doc = vec![section("Threat Sources", "Source", &entries(&[("10.0.0.1", 2), ("10.0.0.2", 1)]))];
    let expected = "{\n  \"Threat Sources\": {\n    \"Count\": [\n      2,\n      1\n    ],\n    \"Source\": [\n      \"10.0.0.1\",\n      \"10.0.0.2\"\n    ]\n  }\n}";
    assert_eq!(render(&doc), Ok(expected.to_string()));
}

#[test]
fn render_of_an_empty_section() {
    let doc = vec![section("AWARE Threats", "Date", &Vec::new())];
    let expected = "{\n  \"AWARE Threats\": {\n    \"Count\": [],\n    \"Date\": []\n  }\n}";
    assert_eq!(render(&doc), Ok(expected.to_string()));
}

#[test]
fn render_escapes_labels() {
    let doc = vec![section("T", "L", &entries(&[("a\"b\\c\n", 1)]))];
    let text = render(&doc).unwrap();
    let value: serde_json::Value = serde_json::from_str(&text).unwrap();
    assert_eq!(value["T"]["L"][0].as_str(), Some("a\"b\\c\n"));
    assert_eq!(value["T"]["Count"][0].as_u64(), Some(1));
}

#[test]
fn render_keeps_large_counts() {
    let doc = vec![section("T", "L", &entries(&[("k", u64::MAX)]))];
    let value: serde_json::Value = serde_json::from_str(&render(&doc).unwrap()).unwrap();
    assert_eq!(value["T"]["Count"][0].as_u64(), Some(u64::MAX));
}

#[test]
fn render_of_the_overview_has_four_members() {
    let g = totals_of(&[("a", 1)], &[("b", 2)]);
    let text = render(&events_report(&g)).unwrap();
    let value: serde_json::Value = serde_json::from_str(&text).unwrap();
    let object = value.as_object().unwrap();
    let mut keys: Vec<&str> = object.keys().map(|k| k.as_str()).collect();
    keys.sort();
    assert_eq!(keys, vec!["AWARE Threats", "Priorities", "Threat Destinations", "Threat Sources"]);
    assert_eq!(value["Priorities"]["Priority"].as_array().unwrap().len(), 6);
    assert_eq!(value["Priorities"]["Count"].as_array().unwrap().len(), 6);
    assert_eq!(value["Threat Sources"]["Source"][0].as_str(), Some("a"));
    assert_eq!(value["Threat Destinations"]["Destination"][0].as_str(), Some("b"));
    assert_eq!(value["Threat Destinations"]["Count"][0].as_u64(), Some(2));
    assert!(text.contains("\n  \"Priorities\": {\n"));
}

#[test]
fn one_file_from_listing_to_documents() {
    let now: i64 = 1_709_283_600;
    let listing = vec![
        FileCandidate { name: "fwddmp.log.tmp".to_string(), modified_secs: Some(now as u64 - 60) },
        FileCandidate { name: "fwddmp.log.tmp.old".to_string(), modified_secs: Some(now as u64 - 8 * 86_400) },
        FileCandidate { name: "readme.txt".to_string(), modified_secs: Some(now as u64 - 60) },
    ];
    assert_eq!(filter_files(&listing, now, 7), vec![0]);

    let cutoff = Timestamp { year: 2024, month: 2, day: 23, hour: 9, minute: 0, second: 0, nanosecond: 0 };
    let file = "\
id,priority,c2,flags,time,c5,source,c7,c8,c9,c10,c11,destination
1,1,x,none,2024/02/28 10:00:00,x,10.0.0.1,a,b,c,d,e,192.168.1.1
2,1,x,none,2024/02/29 10:00:00,x,10.0.0.1,a,b,c,d,e,192.168.1.2
3,3,x,none,2024/03/01 08:00:00,x,10.0.0.2,a,b,c,d,e,192.168.1.1
4,5,x,none,2024/02/01 08:00:00,x,10.0.0.3,a,b,c,d,e,192.168.1.3
";
    let extraction = extract_aggregates(file.as_bytes(), &cutoff);
    assert!(extraction.notices.is_empty());
    let mut totals = GlobalAggregates::new();
    assert_eq!(totals.merge_into(&extraction.data), Ok(()));

    let overview = events_report(&totals);
    assert_eq!(overview[0].labels, texts(&["5", "4", "3", "2", "1", "0"]));
    assert_eq!(overview[0].counts, vec![0, 0, 1, 0, 2, 0]);
    assert_eq!(overview[1].labels, texts(&["10.0.0.1", "10.0.0.2"]));
    assert_eq!(overview[1].counts, vec![2, 1]);
    assert_eq!(overview[2].labels, texts(&["192.168.1.1", "192.168.1.2"]));
    assert_eq!(overview[2].counts, vec![2, 1]);
    assert!(overview[3].labels.is_empty());

    let events: serde_json::Value = serde_json::from_str(&render(&overview).unwrap()).unwrap();
    let labels = events["Priorities"]["Priority"].as_array().unwrap();
    let numbers = events["Priorities"]["Count"].as_array().unwrap();
    for (label, number) in labels.iter().zip(numbers) {
        let expected = match label.as_str().unwrap() {
            "1" => 2,
            "3" => 1,
            _ => 0,
        };
        assert_eq!(number.as_u64(), Some(expected));
    }
    assert_eq!(events["Threat Sources"]["Source"][0].as_str(), Some("10.0.0.1"));
    assert_eq!(events["Threat Sources"]["Count"][0].as_u64(), Some(2));
    assert_eq!(events["Threat Sources"]["Source"][1].as_str(), Some("10.0.0.2"));
    assert_eq!(events["Threat Sources"]["Count"][1].as_u64(), Some(1));
    assert_eq!(events["Threat Sources"]["Source"].as_array().unwrap().len(), 2);

    let sources = sources_report(&totals);
    assert_eq!(sources[0].labels, texts(&["10.0.0.1", "10.0.0.2"]));
    assert_eq!(sources[0].counts, vec![2, 1]);
}

#[test]
fn no_days_back_gives_the_seeded_documents() {
    let now: i64 = 1_709_283_600;
    let listing = vec![
        FileCandidate { name: "fwddmp.log.tmp".to_string(), modified_secs: Some(now as u64) },
        FileCandidate { name: "fwddmp.log.tmp.1".to_string(), modified_secs: Some(now as u64 - 5) },
    ];
    assert!(filter_files(&listing, now, 0).is_empty());
    let totals = GlobalAggregates::new();
    let overview = events_report(&totals);
    assert_eq!(overview[0].counts, vec![0; 6]);
    assert!(overview[1].labels.is_empty() && overview[2].labels.is_empty() && overview[3].labels.is_empty());
    let sources = sources_report(&totals);
    assert!(sources[0].labels.is_empty() && sources[0].counts.is_empty());
    let expected = "{\n  \"Threat Sources\": {\n    \"Count\": [],\n    \"Source\": []\n  }\n}";
    assert_eq!(render(&sources), Ok(expected.to_string()));
}
