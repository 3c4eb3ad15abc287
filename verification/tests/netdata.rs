use dashboard_metrics::netdata::{
    metrics_action, nodes_by_name, parse_nodes, primary_node, series_columns_of,
    split_series_name, MetricsAction, MetricsPoll, NetdataEndpoint, NodeRecord,
};

fn text(s: &str) -> Option<String> {
    Some(s.to_string())
}

fn record(name: Option<&str>, state: Option<&str>, memory: Option<&str>) -> NodeRecord {
    NodeRecord {
        name: name.map(str::to_string),
        state: state.map(str::to_string),
        cpu_model: None,
        net_iface: None,
        memory: memory.map(str::to_string),
    }
}

#[test]
fn endpoint_drops_trailing_slashes() {
    let e = NetdataEndpoint::new("http://netdata:19999//", "spark-*".to_string());
    assert_eq!(e.base_url(), "http://netdata:19999");
    assert_eq!(e.nodes(), "spark-*");
    assert_eq!(e.nodes_url(), "http://netdata:19999/api/v3/nodes");
    assert_eq!(e.data_url(), "http://netdata:19999/api/v3/data");
}

#[test]
fn parses_named_nodes_with_defaults() {
    let records = vec![
        NodeRecord {
            name: text("spark-test"),
            state: text("reachable"),
            cpu_model: text("GB10 CPU"),
            net_iface: text("eth0"),
            memory: text("134217728000"),
        },
        record(None, Some("reachable"), Some("1")),
        record(Some("spark-stale"), Some("stale"), None),
        record(Some("odd"), None, Some("lots")),
    ];
    let nodes = parse_nodes(&records);
    assert_eq!(nodes.len(), 3);
    assert_eq!(nodes[0].name, "spark-test");
    assert_eq!(nodes[0].state, "reachable");
    assert_eq!(nodes[0].cpu_name.as_deref(), Some("GB10 CPU"));
    assert_eq!(nodes[0].network_name.as_deref(), Some("eth0"));
    assert_eq!(nodes[0].total_memory, 134217728000);
    assert_eq!(nodes[1].name, "spark-stale");
    assert_eq!(nodes[1].state, "stale");
    assert_eq!(nodes[1].total_memory, 0);
    assert_eq!(nodes[2].state, "unknown");
    assert_eq!(nodes[2].total_memory, 0);
    assert_eq!(nodes[2].cpu_name, None);
}

#[test]
fn nodes_are_listed_by_name_keeping_ties_in_order() {
    let records = vec![
        record(Some("spark-b"), Some("first"), None),
        record(Some("spark-a"), None, None),
        record(None, None, None),
        record(Some("spark-b"), Some("second"), None),
        record(Some("Spark-c"), None, None),
    ];
    let nodes = nodes_by_name(&records);
    let listed: Vec<(&str, &str)> =
        nodes.iter().map(|n| (n.name.as_str(), n.state.as_str())).collect();
    assert_eq!(
        listed,
        [
            ("Spark-c", "unknown"),
            ("spark-a", "unknown"),
            ("spark-b", "first"),
            ("spark-b", "second")
        ]
    );
}

#[test]
fn series_names_split_as_splitn_does() {
    for name in [
        "user,spark-test,system.cpu",
        "gpu,spark-test,nvidia_smi.gpu_utilization",
        "a,b",
        "a",
        "",
        ",,",
        "a,b,c,d",
        "dim,,ctx",
    ] {
        let mut parts = name.splitn(3, ',');
        let expected = (|| Some((parts.next()?, parts.next()?, parts.next()?)))();
        let got = split_series_name(name);
        match (got, expected) {
            (Some(k), Some((d, n, c))) => {
                assert_eq!(k.dimension, d);
                assert_eq!(k.node, n);
                assert_eq!(k.context, c);
            }
            (None, None) => {}
            (got, expected) => panic!("{name:?}: {got:?} vs {expected:?}"),
        }
    }
}

#[test]
fn series_columns_skip_malformed_names() {
    let names = vec![
        text("user,spark-test,system.cpu"),
        None,
        text("broken"),
        text("used,spark-test,system.ram"),
    ];
    let columns = series_columns_of(&names);
    assert_eq!(columns.len(), 2);
    assert_eq!(columns[0].0, 1);
    assert_eq!(columns[0].1.dimension, "user");
    assert_eq!(columns[0].1.node, "spark-test");
    assert_eq!(columns[0].1.context, "system.cpu");
    assert_eq!(columns[1].0, 4);
    assert_eq!(columns[1].1.dimension, "used");
    assert_eq!(columns[1].1.context, "system.ram");
}

#[test]
fn the_first_reachable_node_is_featured() {
    let states: Vec<String> = ["stale", "reachable", "reachable"].iter().map(|s| s.to_string()).collect();
    assert_eq!(primary_node(&states), 1);
    let states: Vec<String> = ["stale", "offline"].iter().map(|s| s.to_string()).collect();
    assert_eq!(primary_node(&states), 0);
}

#[test]
fn metrics_polls_publish_only_collected_nodes() {
    assert_eq!(metrics_action(&MetricsPoll::Failed), MetricsAction::PollFailed);
    assert_eq!(metrics_action(&MetricsPoll::Collected(vec![])), MetricsAction::NoMatchingNodes);
    let states = vec!["stale".to_string(), "reachable".to_string()];
    assert_eq!(
        metrics_action(&MetricsPoll::Collected(states)),
        MetricsAction::Publish { primary: 1 }
    );
}

#[test]
fn joined_series_parts_split_back() {
    for (d, n, c) in [("user", "spark-test", "system.cpu"), ("", "", ""), ("a", "b", "c,d,e")] {
        let key = split_series_name(&format!("{d},{n},{c}")).expect("three parts");
        assert_eq!((key.dimension.as_str(), key.node.as_str(), key.context.as_str()), (d, n, c));
    }
}

#[test]
fn a_normalised_base_url_stays_as_it_is() {
    let once = NetdataEndpoint::new("http://netdata:19999///", String::new());
    let twice = NetdataEndpoint::new(once.base_url(), String::new());
    assert_eq!(once.base_url(), twice.base_url());
    assert!(!once.base_url().ends_with('/'));
}

#[test]
fn endpoint_queries_name_the_selected_nodes() {
    let e = NetdataEndpoint::new("http://netdata:19999", "spark-*".to_string());
    let pairs = |q: Vec<(String, String)>| q.into_iter().collect::<Vec<_>>();
    assert_eq!(pairs(e.nodes_query()), [("scope_nodes".to_string(), "spark-*".to_string())]);
    let expected: Vec<(String, String)> = [
        ("nodes", "spark-*"),
        ("contexts", "system.cpu|system.ram|nvidia_smi.gpu_utilization|nvidia_smi.gpu_memory_utilization|nvidia_smi.gpu_power_draw|nvidia_smi.gpu_temperature|nvidia_smi.gpu_clock_freq|disk.io|net.net"),
        ("after", "-30"),
        ("points", "1"),
        ("group_by", "node,context,dimension"),
        ("format", "json2"),
        ("options", "seconds,unaligned,absolute"),
    ]
    .iter()
    .map(|(k, v)| (k.to_string(), v.to_string()))
    .collect();
    assert_eq!(pairs(e.data_query()), expected);
}

#[test]
fn node_order_in_the_answer_does_not_matter() {
    let records = || {
        vec![
            record(Some("spark-c"), Some("stale"), Some("7")),
            record(Some("spark-a"), None, None),
            record(None, Some("reachable"), None),
            record(Some("Spark-b"), Some("reachable"), Some("x")),
        ]
    };
    let forward = nodes_by_name(&records());
    let mut reversed_records = records();
    reversed_records.reverse();
    let reversed = nodes_by_name(&reversed_records);
    let view = |ns: &[dashboard_metrics::netdata::NodeInfo]| {
        ns.iter()
            .map(|n| (n.name.clone(), n.state.clone(), n.total_memory))
            .collect::<Vec<_>>()
    };
    assert_eq!(view(&forward), view(&reversed));
    assert_eq!(forward[0].name, "Spark-b");
}
