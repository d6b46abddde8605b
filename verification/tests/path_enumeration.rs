use redsystem::post_graph::PostGraph;
use redsystem::posts::{Post, PostTypes};

fn post(name: &str, parents: &[&str]) -> PostTypes {
    PostTypes::Post(Post {
        name: name.to_string(),
        title: String::new(),
        parents: parents.iter().map(|s| s.to_string()).collect(),
        aliases: Vec::new(),
        dirname: String::new(),
        image: String::new(),
        year: String::new(),
        dl_url: String::new(),
        body: String::new(),
        children: Vec::new(),
        parent_names: Vec::new(),
    })
}

fn built(items: Vec<PostTypes>) -> PostGraph {
    let mut graph = PostGraph::new();
    graph.add_posts(&items).expect("construction succeeds");
    graph
}

fn has_path(
    paths: &[(String, Vec<String>, Option<usize>)],
    target: &str,
    ancestors: &[&str],
    cycle: Option<usize>,
) -> bool {
    paths.iter().any(|(t, a, c)| {
        t == target
            && a.len() == ancestors.len()
            && a.iter().zip(ancestors.iter()).all(|(x, y)| x == y)
            && *c == cycle
    })
}

#[test]
fn isolated_cycle_is_unreachable_and_silent() {
    let graph = built(vec![post("a", &["b"]), post("b", &["a"])]);
    let paths = graph.find_all_paths();
    assert!(paths.is_empty());
}

#[test]
fn reachable_cycle_terminates_with_cycle_back_index() {
    let graph = built(vec![post("a", &["INDEX", "b"]), post("b", &["a"])]);
    let paths = graph.find_all_paths();
    assert_eq!(paths.len(), 3);
    assert!(has_path(&paths, "a", &[], None));
    assert!(has_path(&paths, "b", &["a"], None));
    assert!(has_path(&paths, "a", &["a", "b"], Some(0)));
}

#[test]
fn self_loop_closes_immediately() {
    let graph = built(vec![post("a", &["INDEX", "a"])]);
    let paths = graph.find_all_paths();
    assert_eq!(paths.len(), 2);
    assert!(has_path(&paths, "a", &[], None));
    assert!(has_path(&paths, "a", &["a"], Some(0)));
}

#[test]
fn multi_parent_nodes_appear_once_per_route() {
    let graph = built(vec![post("a", &[]), post("b", &["a"]), post("c", &["a", "INDEX"])]);
    let paths = graph.find_all_paths();
    assert_eq!(paths.len(), 4);
    assert!(has_path(&paths, "a", &[], None));
    assert!(has_path(&paths, "b", &["a"], None));
    assert!(has_path(&paths, "c", &["a"], None));
    assert!(has_path(&paths, "c", &[], None));
}

#[test]
fn deep_chains_are_enumerated_fully() {
    let graph = built(vec![post("a", &[]), post("b", &["a"]), post("c", &["b"])]);
    let paths = graph.find_all_paths();
    assert_eq!(paths.len(), 3);
    assert!(has_path(&paths, "a", &[], None));
    assert!(has_path(&paths, "b", &["a"], None));
    assert!(has_path(&paths, "c", &["a", "b"], None));
}

#[test]
fn root_is_never_a_route_target_or_ancestor() {
    let graph = built(vec![post("a", &[]), post("b", &["a", "INDEX"])]);
    for (target, ancestors, _) in graph.find_all_paths() {
        assert_ne!(target, "Root");
        assert!(ancestors.iter().all(|n| n != "Root"));
    }
}
