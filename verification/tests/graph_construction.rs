use redsystem::errors::GraphError;
use redsystem::post_graph::PostGraph;
use redsystem::posts::{Category, Post, PostTypes};

fn post(name: &str, parents: &[&str]) -> PostTypes {
    PostTypes::Post(Post {
        name: name.to_string(),
        title: String::new(),
        parents: parents.iter().map(|s| s.to_string()).collect(),
        aliases: Vec::new(),
        dirname: String::new(),
        image: String::new(),
        year: String::new(),
        dl_url: String::new(),
        body: String::new(),
        children: Vec::new(),
        parent_names: Vec::new(),
    })
}

fn cat(name: &str, parents: &[&str]) -> PostTypes {
    PostTypes::Category(Category {
        name: name.to_string(),
        title: String::new(),
        parents: parents.iter().map(|s| s.to_string()).collect(),
        aliases: Vec::new(),
        dirname: String::new(),
        body: String::new(),
        children: Vec::new(),
        parent_names: Vec::new(),
    })
}

fn built(items: Vec<PostTypes>) -> (PostGraph, Vec<PostTypes>) {
    let mut graph = PostGraph::new();
    graph.add_posts(&items).expect("construction succeeds");
    (graph, items)
}

#[test]
fn index_token_always_links_from_root() {
    let (graph, items) = built(vec![post("c", &["INDEX"])]);
    let parents = graph.get_parent_names(&items[0]);
    assert_eq!(parents, vec!["Root".to_string()]);
}

#[test]
fn parentless_items_hang_under_root() {
    let (graph, items) = built(vec![post("a", &[])]);
    assert_eq!(graph.get_parent_names(&items[0]), vec!["Root".to_string()]);
}

#[test]
fn repeated_parent_references_collapse_to_one_edge() {
    let (graph, items) = built(vec![cat("a", &[]), post("c", &["a", "a"])]);
    let children = graph.get_children_names(&items[0]);
    assert_eq!(children, vec!["c".to_string()]);
    assert_eq!(graph.get_parent_names(&items[1]), vec!["a".to_string()]);
}

#[test]
fn missing_parents_are_all_reported_exactly() {
    let mut graph = PostGraph::new();
    let items = vec![cat("a", &[]), post("c", &["a", "ghost"])];
    match graph.add_posts(&items) {
        Ok(()) => panic!("the unresolved parent must be reported"),
        Err(errors) => {
            assert_eq!(errors.len(), 1);
            let GraphError::MissingEdgeError(child, missing) = &errors[0];
            assert_eq!(child, "c");
            assert_eq!(missing, &vec!["ghost".to_string()]);
        }
    }
}

#[test]
fn resolvable_edges_survive_a_failing_sibling() {
    let mut graph = PostGraph::new();
    let items = vec![cat("a", &[]), post("b", &["a"]), post("c", &["ghost"])];
    assert!(graph.add_posts(&items).is_err());
    assert_eq!(graph.get_children_names(&items[0]), vec!["b".to_string()]);
}

#[test]
fn aliases_resolve_to_the_same_node() {
    let (graph, items) = built(vec![
        PostTypes::Category(Category {
            name: "games".to_string(),
            title: String::new(),
            parents: Vec::new(),
            aliases: vec!["play".to_string()],
            dirname: String::new(),
            body: String::new(),
            children: Vec::new(),
            parent_names: Vec::new(),
        }),
        post("doom", &["play"]),
    ]);
    assert_eq!(graph.getidx("games"), graph.getidx("play"));
    assert_eq!(graph.get_children_names(&items[0]), vec!["doom".to_string()]);
}

#[test]
fn child_listings_sort_ascending_by_bare_name() {
    let (graph, _items) = built(vec![
        cat("top", &[]),
        post("zeta", &["top"]),
        post("alpha", &["top"]),
        post("mid", &["top"]),
    ]);
    let idx = graph.getidx("top");
    let posts = graph.get_child_posts(idx);
    let names: Vec<&str> = posts.iter().map(|p| p.name.as_str()).collect();
    assert_eq!(names, vec!["alpha", "mid", "zeta"]);
    assert!(graph.get_child_cats(idx).is_empty());
}

#[test]
fn child_categories_and_posts_are_split_by_kind() {
    let (graph, _items) = built(vec![
        cat("top", &[]),
        cat("inner", &["top"]),
        post("leaf", &["top"]),
    ]);
    let idx = graph.getidx("top");
    let cats = graph.get_child_cats(idx);
    assert_eq!(cats.len(), 1);
    assert_eq!(cats[0].name, "inner");
    let posts = graph.get_child_posts(idx);
    assert_eq!(posts.len(), 1);
    assert_eq!(posts[0].name, "leaf");
}

#[test]
fn diagnostic_dump_is_exact() {
    let (graph, _items) = built(vec![cat("top", &[]), post("leaf", &["top"])]);
    let expected = "digraph {\n    0 [label=\"ROOT\"]\n    1 [label=\"Category(top)\"]\n    2 [label=\"Post(leaf)\"]\n    0 -> 1\n    1 -> 2\n}";
    assert_eq!(graph.dot(), expected);
}

#[test]
fn end_to_end_edges_match_declarations() {
    let (graph, items) = built(vec![
        cat("a", &[]),
        post("b", &["a"]),
        post("c", &["a", "INDEX"]),
    ]);
    let mut a_children = graph.get_children_names(&items[0]);
    a_children.sort();
    assert_eq!(a_children, vec!["b".to_string(), "c".to_string()]);
    assert_eq!(graph.get_parent_names(&items[1]), vec!["a".to_string()]);
    let mut c_parents = graph.get_parent_names(&items[2]);
    c_parents.sort();
    assert_eq!(c_parents, vec!["Root".to_string(), "a".to_string()]);
}

#[test]
fn neighbor_identifiers_mirror_edges() {
    let (graph, _items) = built(vec![cat("a", &[]), post("b", &["a"])]);
    let a = graph.getidx("a");
    let b = graph.getidx("b");
    assert_eq!(graph.children_of(a), vec![b]);
    assert_eq!(graph.parents_of(b), vec![a]);
    assert_eq!(graph.children_of(graph.root()), vec![a]);
    assert!(graph.parents_of(graph.root()).is_empty());
}

#[test]
fn resolve_answers_registered_names_only() {
    let (graph, _items) = built(vec![cat("a", &[])]);
    assert_eq!(graph.resolve("a"), Some(graph.getidx("a")));
    assert_eq!(graph.resolve("nobody"), None);
}
