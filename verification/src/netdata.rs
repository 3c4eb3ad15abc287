//! The decisions behind polling a Netdata agent: its endpoint URLs, the node
//! list read from its `nodes` answer, the series keys read from its `data`
//! answer, and the choice of the node a dashboard snapshot features.
use vstd::prelude::*;
use crate::order::{key_lt, sort_stable, with_key, SortKey};
use crate::text::{
    compare_text, chars_of, find_char, index_of_char, lemma_index_of_char, lemma_trim_end_of_shape,
    lemma_text_lt_irreflexive, lemma_text_lt_total, parse_u64, parse_u64_spec, text_lt, text_of, trim_end_char,
    trim_end_of, TextOrder,
};

verus! {

// ---------------------------------------------------------------------------
// Endpoint
// ---------------------------------------------------------------------------

/// Where a Netdata agent is reached, and which of its nodes are asked for.
#[derive(Clone, Debug)]
pub struct NetdataEndpoint {
    base_url: String,
    nodes: String,
}

/// The views of a list of query parameters.
pub open spec fn query_view(q: Seq<(String, String)>) -> Seq<(Seq<char>, Seq<char>)> {
    q.map_values(|p: (String, String)| (p.0@, p.1@))
}

/// The metric contexts that a data query asks for.
pub open spec fn data_contexts() -> Seq<char> {
    "system.cpu|system.ram|nvidia_smi.gpu_utilization|nvidia_smi.gpu_memory_utilization|nvidia_smi.gpu_power_draw|nvidia_smi.gpu_temperature|nvidia_smi.gpu_clock_freq|disk.io|net.net"@
}

fn text_pair(key: &str, value: &str) -> (p: (String, String))
    ensures
        p.0@ == key@,
        p.1@ == value@,
{
    (String::from_str(key), String::from_str(value))
}

impl NetdataEndpoint {
    /// The agent's base URL, without trailing slashes.
    pub closed spec fn base(&self) -> Seq<char> {
        self.base_url@
    }

    /// The node selector handed to the agent.
    pub closed spec fn selector(&self) -> Seq<char> {
        self.nodes@
    }

    /// An endpoint for `base_url` (trailing slashes removed) and the node selector `nodes`.
    pub fn new(base_url: &str, nodes: String) -> (e: Self)
        ensures
            e.base() == trim_end_of(base_url@, '/'),
            e.selector() == nodes@,
    {
        NetdataEndpoint { base_url: trim_end_char(base_url, '/'), nodes }
    }

    /// The agent's base URL, without trailing slashes.
    pub fn base_url(&self) -> (r: &str)
        ensures
            r@ == self.base(),
    {
        self.base_url.as_str()
    }

    /// The node selector handed to the agent.
    pub fn nodes(&self) -> (r: &str)
        ensures
            r@ == self.selector(),
    {
        self.nodes.as_str()
    }

    /// The URL of the agent's node list.
    pub fn nodes_url(&self) -> (r: String)
        ensures
            r@ == self.base() + "/api/v3/nodes"@,
    {
        let mut r = self.base_url.clone();
        r.append("/api/v3/nodes");
        r
    }

    /// The URL of the agent's metric data.
    pub fn data_url(&self) -> (r: String)
        ensures
            r@ == self.base() + "/api/v3/data"@,
    {
        let mut r = self.base_url.clone();
        r.append("/api/v3/data");
        r
    }

    /// The query of a node-list request: the nodes in scope.
    pub fn nodes_query(&self) -> (q: Vec<(String, String)>)
        ensures
            query_view(q@) == seq![("scope_nodes"@, self.selector())],
    {
        let mut q: Vec<(String, String)> = Vec::new();
        q.push(text_pair("scope_nodes", self.nodes.as_str()));
        assert(query_view(q@) =~= seq![("scope_nodes"@, self.selector())]);
        q
    }

    /// The query of a data request: the selected nodes' CPU, memory, GPU,
    /// disk and network series over the last 30 seconds, as one point per
    /// series grouped by node, context and dimension, in `json2` format.
    pub fn data_query(&self) -> (q: Vec<(String, String)>)
        ensures
            query_view(q@) == seq![
                ("nodes"@, self.selector()),
                ("contexts"@, data_contexts()),
                ("after"@, "-30"@),
                ("points"@, "1"@),
                ("group_by"@, "node,context,dimension"@),
                ("format"@, "json2"@),
                ("options"@, "seconds,unaligned,absolute"@),
            ],
    {
        let mut q: Vec<(String, String)> = Vec::new();
        q.push(text_pair("nodes", self.nodes.as_str()));
        q.push(text_pair("contexts", "system.cpu|system.ram|nvidia_smi.gpu_utilization|nvidia_smi.gpu_memory_utilization|nvidia_smi.gpu_power_draw|nvidia_smi.gpu_temperature|nvidia_smi.gpu_clock_freq|disk.io|net.net"));
        q.push(text_pair("after", "-30"));
        q.push(text_pair("points", "1"));
        q.push(text_pair("group_by", "node,context,dimension"));
        q.push(text_pair("format", "json2"));
        q.push(text_pair("options", "seconds,unaligned,absolute"));
        assert(query_view(q@) =~= seq![
            ("nodes"@, self.selector()),
            ("contexts"@, data_contexts()),
            ("after"@, "-30"@),
            ("points"@, "1"@),
            ("group_by"@, "node,context,dimension"@),
            ("format"@, "json2"@),
            ("options"@, "seconds,unaligned,absolute"@),
        ]);
        q
    }
}

// ---------------------------------------------------------------------------
// Nodes
// ---------------------------------------------------------------------------

/// What a `nodes` answer says of one node, each field as text where it is text.
pub struct NodeRecord {
    /// `nm`
    pub name: Option<String>,
    /// `state`
    pub state: Option<String>,
    /// `labels._system_cpu_model`
    pub cpu_model: Option<String>,
    /// `labels._net_default_iface`
    pub net_iface: Option<String>,
    /// `hw.memory`
    pub memory: Option<String>,
}

/// A node of the agent, as a snapshot reports it.
#[derive(Clone, Debug)]
pub struct NodeInfo {
    pub name: String,
    pub state: String,
    pub cpu_name: Option<String>,
    pub network_name: Option<String>,
    pub total_memory: u64,
}

/// The mathematical content of a `NodeInfo`.
pub struct NodeView {
    pub name: Seq<char>,
    pub state: Seq<char>,
    pub cpu_name: Option<Seq<char>>,
    pub network_name: Option<Seq<char>>,
    pub total_memory: u64,
}

pub open spec fn opt_text(o: Option<String>) -> Option<Seq<char>> {
    match o {
        Some(s) => Some(s@),
        None => None,
    }
}

impl View for NodeInfo {
    type V = NodeView;

    open spec fn view(&self) -> NodeView {
        NodeView {
            name: self.name@,
            state: self.state@,
            cpu_name: opt_text(self.cpu_name),
            network_name: opt_text(self.network_name),
            total_memory: self.total_memory,
        }
    }
}

/// The node a named record describes: a missing state reads as `unknown`, and
/// a memory size that is missing or not a decimal `u64` reads as 0.
pub open spec fn node_view_of(r: NodeRecord) -> NodeView {
    NodeView {
        name: opt_text(r.name)->0,
        state: match r.state {
            Some(s) => s@,
            None => "unknown"@,
        },
        cpu_name: opt_text(r.cpu_model),
        network_name: opt_text(r.net_iface),
        total_memory: match r.memory {
            Some(m) => match parse_u64_spec(m@) {
                Some(v) => v,
                None => 0,
            },
            None => 0,
        },
    }
}

/// The nodes that a list of records describes: the records without a name
/// are skipped, the others kept in order.
pub open spec fn node_views(rs: Seq<NodeRecord>) -> Seq<NodeView>
    decreases rs.len(),
{
    if rs.len() == 0 {
        Seq::<NodeView>::empty()
    } else {
        let r = node_views(rs.drop_last());
        if rs.last().name is Some {
            r.push(node_view_of(rs.last()))
        } else {
            r
        }
    }
}

pub open spec fn views_of(ns: Seq<NodeInfo>) -> Seq<NodeView> {
    ns.map_values(|n: NodeInfo| n@)
}

fn copy_text(o: &Option<String>) -> (r: Option<String>)
    ensures
        opt_text(r) == opt_text(*o),
{
    match o {
        Some(s) => Some(s.clone()),
        None => None,
    }
}

/// The node a named record describes.
fn node_of(r: &NodeRecord) -> (n: NodeInfo)
    requires
        r.name is Some,
    ensures
        n@ == node_view_of(*r),
{
    let name = match &r.name {
        Some(s) => s.clone(),
        None => String::new(),
    };
    let state = match &r.state {
        Some(s) => s.clone(),
        None => String::from_str("unknown"),
    };
    let total_memory = match &r.memory {
        Some(m) => match parse_u64(m.as_str()) {
            Some(v) => v,
            None => 0,
        },
        None => 0,
    };
    NodeInfo {
        name,
        state,
        cpu_name: copy_text(&r.cpu_model),
        network_name: copy_text(&r.net_iface),
        total_memory,
    }
}

/// The nodes of a `nodes` answer, in the answer's order: records without a
/// name are skipped, a missing state reads as `unknown`, a missing or
/// malformed memory size as 0.
pub fn parse_nodes(records: &Vec<NodeRecord>) -> (r: Vec<NodeInfo>)
    ensures
        views_of(r@) == node_views(records@),
{
    let mut out: Vec<NodeInfo> = Vec::new();
    let mut i: usize = 0;
    assert(records@.take(0) =~= Seq::<NodeRecord>::empty());
    assert(views_of(out@) =~= Seq::<NodeView>::empty());
    while i < records.len()
        invariant
            i <= records.len(),
            views_of(out@) == node_views(records@.take(i as int)),
        decreases records.len() - i,
    {
        assert(records@.take(i + 1).drop_last() =~= records@.take(i as int));
        assert(records@.take(i + 1).last() == records@[i as int]);
        if records[i].name.is_some() {
            let n = node_of(&records[i]);
            out.push(n);
            assert(views_of(out@) =~= node_views(records@.take(i as int)).push(n@));
        }
        i = i + 1;
    }
    assert(records@.take(records@.len() as int) =~= records@);
    out
}

/// Nodes are listed by name.
impl SortKey for NodeInfo {
    open spec fn sort_key(&self) -> (Seq<char>, Seq<char>) {
        (self.name@, Seq::<char>::empty())
    }

    fn compare_key(&self, other: &Self) -> (r: TextOrder) {
        proof {
            lemma_text_lt_irreflexive(Seq::<char>::empty());
        }
        compare_text(self.name.as_str(), other.name.as_str())
    }
}

/// The nodes of `vs` named `name`, in order.
pub open spec fn named(vs: Seq<NodeView>, name: Seq<char>) -> Seq<NodeView>
    decreases vs.len(),
{
    if vs.len() == 0 {
        Seq::<NodeView>::empty()
    } else {
        let r = named(vs.drop_last(), name);
        if vs.last().name == name {
            r.push(vs.last())
        } else {
            r
        }
    }
}

proof fn lemma_named_views(ns: Seq<NodeInfo>, name: Seq<char>)
    ensures
        views_of(with_key(ns, (name, Seq::<char>::empty()))) == named(views_of(ns), name),
    decreases ns.len(),
{
    if ns.len() > 0 {
        lemma_named_views(ns.drop_last(), name);
        assert(views_of(ns).drop_last() =~= views_of(ns.drop_last()));
        let k = (name, Seq::<char>::empty());
        if ns.last().name@ == name {
            assert(views_of(with_key(ns.drop_last(), k).push(ns.last())) =~= views_of(
                with_key(ns.drop_last(), k),
            ).push(ns.last()@));
        }
    }
}

/// `out` lists the nodes that `rs` describes by name, nodes with the same
/// name in their order in `rs`.
pub open spec fn listed_by_name(rs: Seq<NodeRecord>, out: Seq<NodeInfo>) -> bool {
    &&& out.len() == node_views(rs).len()
    &&& forall|i: int, j: int|
        0 <= i < j < out.len() ==> !text_lt(#[trigger] out[j].name@, #[trigger] out[i].name@)
    &&& forall|name: Seq<char>| #[trigger] named(views_of(out), name) == named(node_views(rs), name)
}

/// The nodes of a `nodes` answer, listed by name; nodes with the same name
/// keep the answer's order.
pub fn nodes_by_name(records: &Vec<NodeRecord>) -> (r: Vec<NodeInfo>)
    ensures
        listed_by_name(records@, r@),
{
    let parsed = parse_nodes(records);
    let ghost p = parsed@;
    let out = sort_stable(parsed);
    proof {
        assert forall|name: Seq<char>| #[trigger]
            named(views_of(out@), name) == named(node_views(records@), name) by {
            let k = (name, Seq::<char>::empty());
            assert(with_key(out@, k) == with_key(p, k));
            lemma_named_views(out@, name);
            lemma_named_views(p, name);
        }
        assert forall|i: int, j: int| 0 <= i < j < out@.len() implies !text_lt(
            #[trigger] out@[j].name@,
            #[trigger] out@[i].name@,
        ) by {
            assert(!key_lt(out@[j].sort_key(), out@[i].sort_key()));
        }
        assert(views_of(p).len() == p.len());
    }
    out
}

// ---------------------------------------------------------------------------
// Series of the data answer
// ---------------------------------------------------------------------------

/// Identifies one metric series: a dimension of a context on a node.
#[derive(Clone, Debug)]
pub struct MetricKey {
    pub node: String,
    pub context: String,
    pub dimension: String,
}

/// The (dimension, node, context) that a series name
/// `dimension,node,context` denotes: the text before the first comma, the
/// text between the first and the second, and the rest (which may hold more
/// commas). A name with fewer than two commas denotes none.
pub open spec fn dimension_parts(s: Seq<char>) -> Option<(Seq<char>, Seq<char>, Seq<char>)> {
    let i = index_of_char(s, ',');
    if i >= s.len() {
        None
    } else {
        let rest = s.skip(i + 1);
        let j = index_of_char(rest, ',');
        if j >= rest.len() {
            None
        } else {
            Some((s.take(i), rest.take(j), rest.skip(j + 1)))
        }
    }
}

pub open spec fn key_parts(k: MetricKey) -> (Seq<char>, Seq<char>, Seq<char>) {
    (k.dimension@, k.node@, k.context@)
}

/// Splits a series name `dimension,node,context` into its key.
pub fn split_series_name(name: &str) -> (r: Option<MetricKey>)
    ensures
        match r {
            Some(k) => dimension_parts(name@) == Some(key_parts(k)),
            None => dimension_parts(name@) is None,
        },
{
    let chars = chars_of(name);
    assert(chars@.skip(0) =~= chars@);
    let i = find_char(&chars, 0, ',');
    if i >= chars.len() {
        return None;
    }
    let j = find_char(&chars, i + 1, ',');
    if j >= chars.len() {
        return None;
    }
    let ghost rest = chars@.skip(i + 1);
    assert(chars@.skip(i + 1) == rest);
    assert(rest.take(j - i - 1) =~= chars@.subrange(i + 1, j as int));
    assert(rest.skip(j - i - 1 + 1) =~= chars@.subrange(j + 1, chars@.len() as int));
    assert(chars@.take(i as int) =~= chars@.subrange(0, i as int));
    let dimension = text_of(&chars, 0, i);
    let node = text_of(&chars, i + 1, j);
    let context = text_of(&chars, j + 1, chars.len());
    Some(MetricKey { node, context, dimension })
}

/// The series columns of a `data` answer: for each series name (by position
/// `i` in the name list) that splits into a key, the pair of its column
/// `i + 1` in a result row and that key, in the order of the names.
pub open spec fn series_columns(names: Seq<Option<String>>) -> Seq<(int, (Seq<char>, Seq<char>, Seq<char>))>
    decreases names.len(),
{
    if names.len() == 0 {
        Seq::empty()
    } else {
        let r = series_columns(names.drop_last());
        match names.last() {
            Some(n) => match dimension_parts(n@) {
                Some(p) => r.push((names.len() as int, p)),
                None => r,
            },
            None => r,
        }
    }
}

pub open spec fn columns_view(cs: Seq<(usize, MetricKey)>) -> Seq<(int, (Seq<char>, Seq<char>, Seq<char>))> {
    cs.map_values(|c: (usize, MetricKey)| (c.0 as int, key_parts(c.1)))
}

/// Pairs each well-formed series name with the row column that holds its
/// value; a name that is not text (`None`) or not `dimension,node,context`
/// is skipped.
pub fn series_columns_of(names: &Vec<Option<String>>) -> (r: Vec<(usize, MetricKey)>)
    ensures
        columns_view(r@) == series_columns(names@),
{
    let mut out: Vec<(usize, MetricKey)> = Vec::new();
    let mut i: usize = 0;
    assert(names@.take(0) =~= Seq::<Option<String>>::empty());
    assert(columns_view(out@) =~= series_columns(names@.take(0)));
    while i < names.len()
        invariant
            i <= names.len(),
            columns_view(out@) == series_columns(names@.take(i as int)),
        decreases names.len() - i,
    {
        assert(names@.take(i + 1).drop_last() =~= names@.take(i as int));
        assert(names@.take(i + 1).last() == names@[i as int]);
        assert(names@.take(i + 1).len() == i + 1);
        match &names[i] {
            Some(n) => {
                match split_series_name(n.as_str()) {
                    Some(k) => {
                        let ghost before = out@;
                        out.push((i + 1, k));
                        assert(columns_view(out@) =~= columns_view(before).push(
                            ((i + 1) as int, key_parts(k)),
                        ));
                    },
                    None => {},
                }
            },
            None => {},
        }
        i = i + 1;
    }
    assert(names@.take(names@.len() as int) =~= names@);
    out
}

// ---------------------------------------------------------------------------
// Choosing the featured node
// ---------------------------------------------------------------------------

/// The node a snapshot features: the first whose state is `reachable`, or
/// else the first node.
pub open spec fn primary_index(states: Seq<String>) -> int {
    if exists|i: int| 0 <= i < states.len() && (#[trigger] states[i])@ == "reachable"@ {
        choose|i: int|
            0 <= i < states.len() && (#[trigger] states[i])@ == "reachable"@ && forall|j: int|
                0 <= j < i ==> (#[trigger] states[j])@ != "reachable"@
    } else {
        0
    }
}

/// The position of the node a snapshot features, given the nodes' states in
/// order: the first `reachable` node, or else the first node.
pub fn primary_node(states: &[String]) -> (r: usize)
    requires
        states@.len() > 0,
    ensures
        r < states@.len(),
        r == primary_index(states@),
        states@[r as int]@ == "reachable"@ || forall|j: int|
            0 <= j < states@.len() ==> (#[trigger] states@[j])@ != "reachable"@,
        (forall|j: int| 0 <= j < states@.len() ==> (#[trigger] states@[j])@ != "reachable"@)
            ==> r == 0,
        forall|j: int| 0 <= j < r ==> (#[trigger] states@[j])@ != "reachable"@,
{
    let reachable = String::from_str("reachable");
    let mut i: usize = 0;
    while i < states.len()
        invariant
            i <= states@.len(),
            reachable@ == "reachable"@,
            forall|j: int| 0 <= j < i ==> (#[trigger] states@[j])@ != "reachable"@,
        decreases states@.len() - i,
    {
        if states[i] == reachable {
            proof {
                let w = choose|w: int|
                    0 <= w < states@.len() && (#[trigger] states@[w])@ == "reachable"@ && forall|
                        j: int,
                    |
                        0 <= j < w ==> (#[trigger] states@[j])@ != "reachable"@;
                assert(exists|w: int|
                    0 <= w < states@.len() && (#[trigger] states@[w])@ == "reachable"@
                        && forall|j: int| 0 <= j < w ==> (#[trigger] states@[j])@ != "reachable"@)
                    by {
                    assert(states@[i as int]@ == "reachable"@);
                }
                if w < i {
                    assert(states@[w]@ != "reachable"@);
                } else if w > i {
                    assert(states@[i as int]@ != "reachable"@);
                }
            }
            return i;
        }
        i = i + 1;
    }
    0
}

/// What a metrics poll brought back.
pub enum MetricsPoll {
    /// The agent could not be polled.
    Failed,
    /// The states of the collected nodes, in snapshot order.
    Collected(Vec<String>),
}

/// What to do after a metrics poll.
#[derive(Clone, Copy, Debug, PartialEq, Eq, Structural)]
pub enum MetricsAction {
    /// Publish a snapshot of the collected nodes that features node `primary`.
    Publish { primary: usize },
    /// Report that the agent matched no node; publish nothing.
    NoMatchingNodes,
    /// Report that the poll failed; publish nothing.
    PollFailed,
}

/// The decision taken on each metrics poll: a failure or an empty node list
/// publishes nothing and is reported; otherwise a snapshot featuring the
/// first reachable node (or else the first node) is published.
pub fn metrics_action(poll: &MetricsPoll) -> (a: MetricsAction)
    ensures
        match poll {
            MetricsPoll::Failed => a == MetricsAction::PollFailed,
            MetricsPoll::Collected(states) => if states@.len() == 0 {
                a == MetricsAction::NoMatchingNodes
            } else {
                a == MetricsAction::Publish { primary: primary_index(states@) as usize }
            },
        },
{
    match poll {
        MetricsPoll::Failed => MetricsAction::PollFailed,
        MetricsPoll::Collected(states) => {
            if states.len() == 0 {
                MetricsAction::NoMatchingNodes
            } else {
                let primary = primary_node(states.as_slice());
                MetricsAction::Publish { primary }
            }
        },
    }
}

// ---------------------------------------------------------------------------
// Laws
// ---------------------------------------------------------------------------

/// The endpoint's base URL is the configured one without its trailing
/// slashes: it does not end in `/`, only slashes were cut, and normalising
/// again changes nothing.
pub proof fn law_base_url_is_normalised(raw: Seq<char>)
    ensures
        trim_end_of(raw, '/').len() > 0 ==> trim_end_of(raw, '/').last() != '/',
        trim_end_of(raw, '/') == raw.take(trim_end_of(raw, '/').len() as int),
        forall|i: int| trim_end_of(raw, '/').len() <= i < raw.len() ==> #[trigger] raw[i] == '/',
        trim_end_of(trim_end_of(raw, '/'), '/') == trim_end_of(raw, '/'),
{
    lemma_trim_end_of_shape(raw, '/');
}

/// A series name that splits is its three parts joined by commas, and the
/// first two parts hold no comma.
pub proof fn law_series_name_splits_into_its_parts(s: Seq<char>)
    requires
        dimension_parts(s) is Some,
    ensures
        ({
            let (d, n, c) = dimension_parts(s)->0;
            &&& s == d + seq![','] + n + seq![','] + c
            &&& !d.contains(',')
            &&& !n.contains(',')
        }),
{
    lemma_index_of_char(s, ',');
    let i = index_of_char(s, ',');
    let rest = s.skip(i + 1);
    lemma_index_of_char(rest, ',');
    let j = index_of_char(rest, ',');
    let (d, n, c) = dimension_parts(s)->0;
    assert(s =~= d + seq![','] + n + seq![','] + c);
    assert(!d.contains(',')) by {
        if d.contains(',') {
            let k = choose|k: int| 0 <= k < d.len() && d[k] == ',';
            assert(s[k] == ',');
        }
    }
    assert(!n.contains(',')) by {
        if n.contains(',') {
            let k = choose|k: int| 0 <= k < n.len() && n[k] == ',';
            assert(rest[k] == ',');
        }
    }
}

proof fn lemma_index_after_prefix(d: Seq<char>, t: Seq<char>)
    requires
        !d.contains(','),
        t.len() > 0,
        t[0] == ',',
    ensures
        index_of_char(d + t, ',') == d.len(),
{
    let s = d + t;
    lemma_index_of_char(s, ',');
    let i = index_of_char(s, ',');
    if i < d.len() {
        assert(d[i] == ',');
    } else if i > d.len() {
        assert(s[d.len() as int] == ',');
    }
}

/// Joining three parts by commas, the first two without a comma, gives a
/// series name that splits back into those parts.
pub proof fn law_series_name_from_parts(d: Seq<char>, n: Seq<char>, c: Seq<char>)
    requires
        !d.contains(','),
        !n.contains(','),
    ensures
        dimension_parts(d + seq![','] + n + seq![','] + c) == Some((d, n, c)),
{
    let s = d + seq![','] + n + seq![','] + c;
    let t = seq![','] + n + seq![','] + c;
    assert(s =~= d + t);
    lemma_index_after_prefix(d, t);
    let rest = s.skip(d.len() + 1int);
    let u = seq![','] + c;
    assert(rest =~= n + u);
    lemma_index_after_prefix(n, u);
    assert(s.take(d.len() as int) =~= d);
    assert(rest.take(n.len() as int) =~= n);
    assert(rest.skip(n.len() + 1int) =~= c);
}

/// No two of the nodes share a name.
pub open spec fn names_distinct(vs: Seq<NodeView>) -> bool {
    forall|i: int, j: int| 0 <= i < j < vs.len() ==> (#[trigger] vs[i]).name != (#[trigger] vs[j]).name
}

proof fn lemma_node_views_add(a: Seq<NodeRecord>, b: Seq<NodeRecord>)
    ensures
        node_views(a + b) == node_views(a) + node_views(b),
    decreases b.len(),
{
    if b.len() == 0 {
        assert(a + b =~= a);
        assert(node_views(a) + node_views(b) =~= node_views(a));
    } else {
        lemma_node_views_add(a, b.drop_last());
        assert((a + b).drop_last() =~= a + b.drop_last());
        assert((a + b).last() == b.last());
        assert(node_views(a + b) =~= node_views(a) + node_views(b));
    }
}

/// Reordering the records reorders the nodes they describe.
proof fn lemma_node_views_permuted(r1: Seq<NodeRecord>, r2: Seq<NodeRecord>)
    requires
        r1.to_multiset() == r2.to_multiset(),
    ensures
        node_views(r1).to_multiset() == node_views(r2).to_multiset(),
    decreases r1.len(),
{
    broadcast use vstd::seq_lib::group_to_multiset_ensures;
    broadcast use vstd::seq_lib::lemma_multiset_commutative;

    if r1.len() == 0 {
        assert(r1.to_multiset().len() == r1.len());
        assert(r2.to_multiset().len() == r2.len());
        assert(r2.len() == 0);
        assert(r1 =~= r2);
    } else {
        let x = r1.last();
        let rest = r1.drop_last();
        assert(r1 =~= rest.push(x));
        assert(r1.to_multiset().count(x) > 0);
        assert(r2.contains(x));
        let j = choose|j: int| 0 <= j < r2.len() && r2[j] == x;
        let r2r = r2.remove(j);
        assert(r2r.to_multiset() =~= rest.to_multiset());
        lemma_node_views_permuted(rest, r2r);
        let pre = r2.subrange(0, j);
        let post = r2.subrange(j + 1, r2.len() as int);
        assert(r2 =~= pre + seq![x] + post);
        assert(r2r =~= pre + post);
        assert(r1 =~= rest + seq![x]);
        lemma_node_views_add(pre + seq![x], post);
        lemma_node_views_add(pre, seq![x]);
        lemma_node_views_add(pre, post);
        lemma_node_views_add(rest, seq![x]);
        let a = node_views(pre);
        let m = node_views(seq![x]);
        let b = node_views(post);
        assert(node_views(r2).to_multiset() =~= a.to_multiset().add(m.to_multiset()).add(
            b.to_multiset(),
        ));
        assert(node_views(r2r).to_multiset() =~= a.to_multiset().add(b.to_multiset()));
        assert(node_views(r1).to_multiset() =~= node_views(rest).to_multiset().add(
            m.to_multiset(),
        ));
    }
}

proof fn lemma_named_count(vs: Seq<NodeView>, n: Seq<char>, v: NodeView)
    ensures
        named(vs, n).to_multiset().count(v) == if v.name == n {
            vs.to_multiset().count(v)
        } else {
            0
        },
    decreases vs.len(),
{
    broadcast use vstd::seq_lib::group_to_multiset_ensures;

    if vs.len() == 0 {
    } else {
        lemma_named_count(vs.drop_last(), n, v);
        assert(vs =~= vs.drop_last().push(vs.last()));
    }
}

proof fn lemma_named_absent(vs: Seq<NodeView>, n: Seq<char>)
    requires
        forall|i: int| 0 <= i < vs.len() ==> (#[trigger] vs[i]).name != n,
    ensures
        named(vs, n) == Seq::<NodeView>::empty(),
    decreases vs.len(),
{
    if vs.len() > 0 {
        assert forall|i: int| 0 <= i < vs.drop_last().len() implies (
        #[trigger] vs.drop_last()[i]).name != n by {
            assert(vs.drop_last()[i] == vs[i]);
        }
        lemma_named_absent(vs.drop_last(), n);
        assert(vs.last() == vs[vs.len() - 1]);
    }
}

proof fn lemma_named_member(vs: Seq<NodeView>, n: Seq<char>)
    requires
        named(vs, n).len() > 0,
    ensures
        exists|i: int| 0 <= i < vs.len() && (#[trigger] vs[i]).name == n,
    decreases vs.len(),
{
    if vs.last().name == n {
        assert(vs[vs.len() - 1].name == n);
    } else {
        lemma_named_member(vs.drop_last(), n);
        let i = choose|i: int| 0 <= i < vs.drop_last().len() && (#[trigger] vs.drop_last()[i]).name == n;
        assert(vs[i] == vs.drop_last()[i]);
    }
}

proof fn lemma_named_at_most_one(vs: Seq<NodeView>, n: Seq<char>)
    requires
        names_distinct(vs),
    ensures
        named(vs, n).len() <= 1,
    decreases vs.len(),
{
    if vs.len() > 0 {
        let rest = vs.drop_last();
        assert(names_distinct(rest)) by {
            assert forall|i: int, j: int| 0 <= i < j < rest.len() implies (#[trigger] rest[i]).name
                != (#[trigger] rest[j]).name by {
                assert(rest[i] == vs[i] && rest[j] == vs[j]);
            }
        }
        lemma_named_at_most_one(rest, n);
        if vs.last().name == n {
            assert forall|i: int| 0 <= i < rest.len() implies (#[trigger] rest[i]).name != n by {
                assert(rest[i] == vs[i]);
                assert(vs[i].name != vs[vs.len() - 1].name);
            }
            lemma_named_absent(rest, n);
        }
    }
}

/// With distinct names, two orderings of the same nodes have the same node of each name.
proof fn lemma_named_of_permutation(v1: Seq<NodeView>, v2: Seq<NodeView>, n: Seq<char>)
    requires
        v1.to_multiset() == v2.to_multiset(),
        names_distinct(v1),
    ensures
        named(v1, n) == named(v2, n),
{
    broadcast use vstd::seq_lib::group_to_multiset_ensures;

    let a = named(v1, n);
    let b = named(v2, n);
    assert(a.to_multiset() =~= b.to_multiset()) by {
        assert forall|v: NodeView| a.to_multiset().count(v) == b.to_multiset().count(v) by {
            lemma_named_count(v1, n, v);
            lemma_named_count(v2, n, v);
        }
    }
    lemma_named_at_most_one(v1, n);
    assert(a.to_multiset().len() == a.len());
    assert(b.to_multiset().len() == b.len());
    assert(a.len() == b.len());
    if a.len() == 0 {
        assert(a =~= b);
    } else {
        assert(a.contains(a[0]));
        assert(b.to_multiset().count(a[0]) > 0);
        assert(b.contains(a[0]));
        assert(a =~= b);
    }
}

/// Two name-ordered listings with the same nodes of each name are equal.
proof fn lemma_by_name_unique(a: Seq<NodeView>, b: Seq<NodeView>)
    requires
        a.len() == b.len(),
        forall|i: int, j: int| 0 <= i < j < a.len() ==> !text_lt(#[trigger] a[j].name, #[trigger] a[i].name),
        forall|i: int, j: int| 0 <= i < j < b.len() ==> !text_lt(#[trigger] b[j].name, #[trigger] b[i].name),
        forall|n: Seq<char>| #[trigger] named(a, n) == named(b, n),
    ensures
        a == b,
    decreases a.len(),
{
    if a.len() == 0 {
        assert(a =~= b);
    } else {
        let na = a.last().name;
        let nb = b.last().name;
        assert(named(a, na).len() > 0);
        assert(named(b, nb).len() > 0);
        assert(named(b, na) == named(a, na));
        assert(named(a, nb) == named(b, nb));
        lemma_named_member(b, na);
        lemma_named_member(a, nb);
        let i = choose|i: int| 0 <= i < b.len() && (#[trigger] b[i]).name == na;
        let j = choose|j: int| 0 <= j < a.len() && (#[trigger] a[j]).name == nb;
        if i < b.len() - 1 {
            assert(!text_lt(b[b.len() - 1].name, b[i].name));
        }
        if j < a.len() - 1 {
            assert(!text_lt(a[a.len() - 1].name, a[j].name));
        }
        lemma_text_lt_total(na, nb);
        assert(na == nb);
        assert(named(a, na).last() == a.last());
        assert(named(b, na).last() == b.last());
        let ap = a.drop_last();
        let bp = b.drop_last();
        assert forall|n: Seq<char>| #[trigger] named(ap, n) == named(bp, n) by {
            assert(named(a, n) == named(b, n));
            if n == na {
                assert(named(ap, n) =~= named(a, n).drop_last());
                assert(named(bp, n) =~= named(b, n).drop_last());
            }
        }
        assert forall|i: int, j: int| 0 <= i < j < ap.len() implies !text_lt(
            #[trigger] ap[j].name,
            #[trigger] ap[i].name,
        ) by {
            assert(ap[i] == a[i] && ap[j] == a[j]);
        }
        assert forall|i: int, j: int| 0 <= i < j < bp.len() implies !text_lt(
            #[trigger] bp[j].name,
            #[trigger] bp[i].name,
        ) by {
            assert(bp[i] == b[i] && bp[j] == b[j]);
        }
        lemma_by_name_unique(ap, bp);
        assert(a =~= ap.push(a.last()));
        assert(b =~= bp.push(b.last()));
    }
}

/// When the nodes of an answer have distinct names, the order in which the
/// answer lists them does not matter: two answers that list the same records
/// in any order give the same nodes by name.
pub proof fn law_node_order_does_not_matter(
    r1: Seq<NodeRecord>,
    r2: Seq<NodeRecord>,
    out1: Seq<NodeInfo>,
    out2: Seq<NodeInfo>,
)
    requires
        r1.to_multiset() == r2.to_multiset(),
        names_distinct(node_views(r1)),
        listed_by_name(r1, out1),
        listed_by_name(r2, out2),
    ensures
        views_of(out1) == views_of(out2),
{
    broadcast use vstd::seq_lib::group_to_multiset_ensures;

    let v1 = node_views(r1);
    let v2 = node_views(r2);
    lemma_node_views_permuted(r1, r2);
    assert(v1.to_multiset().len() == v1.len());
    assert(v2.to_multiset().len() == v2.len());
    assert(v1.len() == v2.len());
    let a = views_of(out1);
    let b = views_of(out2);
    assert forall|n: Seq<char>| #[trigger] named(a, n) == named(b, n) by {
        lemma_named_of_permutation(v1, v2, n);
    }
    assert forall|i: int, j: int| 0 <= i < j < a.len() implies !text_lt(
        #[trigger] a[j].name,
        #[trigger] a[i].name,
    ) by {
        assert(!text_lt(out1[j].name@, out1[i].name@));
    }
    assert forall|i: int, j: int| 0 <= i < j < b.len() implies !text_lt(
        #[trigger] b[j].name,
        #[trigger] b[i].name,
    ) by {
        assert(!text_lt(out2[j].name@, out2[i].name@));
    }
    lemma_by_name_unique(a, b);
}

/// A named record adds one node at the end of the node list: its name; its
/// state, or `unknown` when it has none; its CPU model and network
/// interface as given; and the memory size it gives whenever that parses as
/// a decimal `u64`, whatever the state, or else 0.
pub proof fn law_named_record_adds_its_node(rs: Seq<NodeRecord>, r: NodeRecord)
    requires
        r.name is Some,
    ensures
        node_views(rs.push(r)).len() == node_views(rs).len() + 1,
        node_views(rs.push(r)).drop_last() == node_views(rs),
        ({
            let v = node_views(rs.push(r)).last();
            &&& v.name == r.name->0@
            &&& v.state == if r.state is Some {
                r.state->0@
            } else {
                "unknown"@
            }
            &&& v.cpu_name == if r.cpu_model is Some {
                Some(r.cpu_model->0@)
            } else {
                None
            }
            &&& v.network_name == if r.net_iface is Some {
                Some(r.net_iface->0@)
            } else {
                None
            }
            &&& (r.memory is Some && parse_u64_spec(r.memory->0@) is Some) ==> v.total_memory
                == parse_u64_spec(r.memory->0@)->0
            &&& !(r.memory is Some && parse_u64_spec(r.memory->0@) is Some) ==> v.total_memory
                == 0
        }),
{
    assert(rs.push(r).drop_last() =~= rs);
    assert(rs.push(r).last() == r);
}

/// A record without a name adds no node.
pub proof fn law_unnamed_record_is_skipped(rs: Seq<NodeRecord>, r: NodeRecord)
    requires
        r.name is None,
    ensures
        node_views(rs.push(r)) == node_views(rs),
{
    assert(rs.push(r).drop_last() =~= rs);
    assert(rs.push(r).last() == r);
}

/// Every well-formed series name gets a column: the name at position `i`
/// that splits into `p` is paired with column `i + 1`.
pub proof fn law_every_series_name_gets_its_column(names: Seq<Option<String>>, i: int)
    requires
        0 <= i < names.len(),
        names[i] is Some,
        dimension_parts(names[i]->0@) is Some,
    ensures
        series_columns(names).contains((i + 1, dimension_parts(names[i]->0@)->0)),
    decreases names.len(),
{
    let rest = names.drop_last();
    let r = series_columns(rest);
    if i == names.len() - 1 {
        assert(names.last() == names[i]);
        let x = (i + 1, dimension_parts(names[i]->0@)->0);
        assert(r.push(x)[r.len() as int] == x);
    } else {
        assert(rest[i] == names[i]);
        law_every_series_name_gets_its_column(rest, i);
        let x = (i + 1, dimension_parts(names[i]->0@)->0);
        let k = choose|k: int| 0 <= k < r.len() && r[k] == x;
        match names.last() {
            Some(n) => match dimension_parts(n@) {
                Some(p) => {
                    assert(r.push((names.len() as int, p))[k] == x);
                },
                None => {},
            },
            None => {},
        }
    }
}

/// Each column comes from a well-formed series name at the position before
/// it, and columns come in increasing order, each at most once.
pub proof fn law_series_columns_come_from_names(names: Seq<Option<String>>)
    ensures
        forall|k: int|
            0 <= k < series_columns(names).len() ==> {
                let (c, p) = #[trigger] series_columns(names)[k];
                &&& 1 <= c <= names.len()
                &&& names[c - 1] is Some
                &&& dimension_parts(names[c - 1]->0@) == Some(p)
            },
        forall|k1: int, k2: int|
            0 <= k1 < k2 < series_columns(names).len() ==> (#[trigger] series_columns(names)[k1]).0
                < (#[trigger] series_columns(names)[k2]).0,
    decreases names.len(),
{
    if names.len() > 0 {
        let rest = names.drop_last();
        law_series_columns_come_from_names(rest);
        let r = series_columns(rest);
        let cs = series_columns(names);
        assert forall|k: int| 0 <= k < r.len() implies {
            let (c, p) = #[trigger] r[k];
            &&& 1 <= c <= names.len()
            &&& names[c - 1] is Some
            &&& dimension_parts(names[c - 1]->0@) == Some(p)
        } by {
            let (c, p) = r[k];
            assert(names[c - 1] == rest[c - 1]);
        }
        assert forall|k: int| 0 <= k < r.len() implies (#[trigger] r[k]).0 <= rest.len() by {}
        assert(names.last() == names[names.len() - 1]);
        assert forall|k: int|
            0 <= k < cs.len() implies {
                let (c, p) = #[trigger] cs[k];
                &&& 1 <= c <= names.len()
                &&& names[c - 1] is Some
                &&& dimension_parts(names[c - 1]->0@) == Some(p)
            } by {
            if k < r.len() {
                assert(cs[k] == r[k]);
            }
        }
        assert forall|k1: int, k2: int| 0 <= k1 < k2 < cs.len() implies (#[trigger] cs[k1]).0
            < (#[trigger] cs[k2]).0 by {
            assert(cs[k1] == r[k1]);
            if k2 < r.len() {
                assert(cs[k2] == r[k2]);
            }
        }
    }
}

/// The featured node is the first reachable one, and the first node when
/// none is reachable.
pub proof fn law_featured_node_is_first_reachable_or_first(states: Seq<String>)
    requires
        states.len() > 0,
    ensures
        0 <= primary_index(states) < states.len(),
        (exists|i: int| 0 <= i < states.len() && (#[trigger] states[i])@ == "reachable"@) ==> {
            &&& states[primary_index(states)]@ == "reachable"@
            &&& forall|j: int| 0 <= j < primary_index(states) ==> (#[trigger] states[j])@ != "reachable"@
        },
        (forall|j: int| 0 <= j < states.len() ==> (#[trigger] states[j])@ != "reachable"@)
            ==> primary_index(states) == 0,
{
    if exists|i: int| 0 <= i < states.len() && (#[trigger] states[i])@ == "reachable"@ {
        let i = choose|i: int| 0 <= i < states.len() && (#[trigger] states[i])@ == "reachable"@;
        lemma_first_reachable(states, i);
    }
}

proof fn lemma_first_reachable(states: Seq<String>, i: int)
    requires
        0 <= i < states.len(),
        states[i]@ == "reachable"@,
    ensures
        exists|w: int|
            0 <= w < states.len() && (#[trigger] states[w])@ == "reachable"@ && forall|j: int|
                0 <= j < w ==> (#[trigger] states[j])@ != "reachable"@,
    decreases i,
{
    if exists|j: int| 0 <= j < i && (#[trigger] states[j])@ == "reachable"@ {
        let j = choose|j: int| 0 <= j < i && (#[trigger] states[j])@ == "reachable"@;
        lemma_first_reachable(states, j);
    } else {
        assert(forall|j: int| 0 <= j < i ==> (#[trigger] states[j])@ != "reachable"@);
    }
}

} // verus!
