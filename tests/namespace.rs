use metrics_dashboard::namespace::{tree_from_results, NamespaceNode};
use metrics_dashboard::registry::{MetricKey, MetricKind, SearchResult};

fn results(names: &[&str]) -> Vec<SearchResult> {
    names
        .iter()
        .map(|n| SearchResult {
            key: MetricKey::new(n.to_string(), Vec::new(), MetricKind::Counter),
            description: None,
        })
        .collect()
}

fn render(nodes: &[NamespaceNode]) -> String {
    let parts: Vec<String> = nodes
        .iter()
        .map(|n| match n {
            NamespaceNode::Namespace { display_path, children } => {
                format!("{}{{{}}}", display_path, render(children))
            }
            NamespaceNode::Metric { display_path, result } => {
                format!("{}={}", display_path, result.key.name)
            }
        })
        .collect();
    parts.join(",")
}

#[test]
fn groups_and_collapses_single_child_chains() {
    let mut rs = results(&["foo::bar::baz", "foo::bar::fizz", "foo::foo::baz", "fizz::bat"]);
    let tree = tree_from_results(&mut rs);
    assert_eq!(
        render(&tree),
        "fizz::bat=fizz::bat,foo{bar{baz=foo::bar::baz,fizz=foo::bar::fizz},foo::baz=foo::foo::baz}"
    );
    assert_eq!(rs[0].key.name, "fizz::bat");
}

#[test]
fn malformed_names_are_dropped() {
    for bad in ["", "::", ":", "a::", "::a", "a:::b"] {
        let mut rs = results(&[bad]);
        assert!(tree_from_results(&mut rs).is_empty(), "{bad:?}");
    }
    let mut rs = results(&["", "::", ":", "a::", "::a", "a:::b", "x::y"]);
    assert_eq!(render(&tree_from_results(&mut rs)), "x::y=x::y");
}

#[test]
fn multi_level_chain_collapses_into_one_node() {
    let mut rs = results(&["a::b::c::d"]);
    assert_eq!(render(&tree_from_results(&mut rs)), "a::b::c::d=a::b::c::d");
    let mut rs = results(&["a::b::c::d", "a::b::c::e"]);
    assert_eq!(render(&tree_from_results(&mut rs)), "a::b::c{d=a::b::c::d,e=a::b::c::e}");
}

#[test]
fn leaf_shows_the_rest_of_its_name() {
    let mut rs = results(&["x::a:c"]);
    assert_eq!(render(&tree_from_results(&mut rs)), "x::a:c=x::a:c");
    let mut rs = results(&["x::a:c", "x::b"]);
    assert_eq!(render(&tree_from_results(&mut rs)), "x{a:c=x::a:c,b=x::b}");
}

#[test]
fn leaf_shows_its_last_segment() {
    let mut rs = results(&["top", "ns::one", "ns::two"]);
    assert_eq!(render(&tree_from_results(&mut rs)), "ns{one=ns::one,two=ns::two},top=top");
}

#[test]
fn bare_prefix_is_not_a_group() {
    let mut rs = results(&["a::x", "ab"]);
    assert_eq!(render(&tree_from_results(&mut rs)), "a::x=a::x,ab=ab");
    let mut rs = results(&["a::b", "a:c"]);
    assert_eq!(render(&tree_from_results(&mut rs)), "a::b=a::b,a:c=a:c");
}
