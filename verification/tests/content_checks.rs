use redsystem::errors::IOError;
use redsystem::gen_html::PostHtml;
use redsystem::posts::{get_fakeposts, get_posts, Category, Post, PostTypes, TeraNextPost};
use redsystem::registry::NameRegistry;
use redsystem::text::{str_le, usize_to_string};

fn bare_post(name: &str) -> Post {
    Post {
        name: name.to_string(),
        title: String::new(),
        parents: Vec::new(),
        aliases: Vec::new(),
        dirname: String::new(),
        image: String::new(),
        year: String::new(),
        dl_url: String::new(),
        body: String::new(),
        children: Vec::new(),
        parent_names: Vec::new(),
    }
}

fn post_with(name: &str, dirname: &str, aliases: &[&str], parents: &[&str]) -> PostTypes {
    let mut p = bare_post(name);
    p.dirname = dirname.to_string();
    p.aliases = aliases.iter().map(|s| s.to_string()).collect();
    p.parents = parents.iter().map(|s| s.to_string()).collect();
    PostTypes::Post(p)
}

fn cat_with(name: &str, parents: &[&str]) -> PostTypes {
    PostTypes::Category(Category {
        name: name.to_string(),
        title: String::new(),
        parents: parents.iter().map(|s| s.to_string()).collect(),
        aliases: Vec::new(),
        dirname: String::new(),
        body: String::new(),
        children: Vec::new(),
        parent_names: Vec::new(),
    })
}

#[test]
fn qualified_names_join_directory_and_name() {
    let p = post_with("alpha", "games", &["al"], &[]);
    assert_eq!(p.name(), "games/alpha");
    assert_eq!(p.basename(), "alpha");
    assert_eq!(p.names(), vec!["games/al".to_string(), "games/alpha".to_string()]);
}

#[test]
fn empty_directory_leaves_name_bare() {
    let p = post_with("alpha", "", &["al"], &[]);
    assert_eq!(p.name(), "alpha");
    assert_eq!(p.names(), vec!["al".to_string(), "alpha".to_string()]);
}

#[test]
fn duplicate_names_are_reported_with_both_sources() {
    let items = vec![
        ("posts/a.toml".to_string(), post_with("same", "", &[], &[])),
        ("posts/b.toml".to_string(), cat_with("same", &[])),
    ];
    match get_posts(items) {
        Ok(_) => panic!("collision must be rejected"),
        Err(errors) => {
            assert_eq!(errors.len(), 1);
            match &errors[0] {
                IOError::DuplicateName(name, s1, s2) => {
                    assert_eq!(name, "same");
                    assert_eq!(s1, "posts/a.toml");
                    assert_eq!(s2, "posts/b.toml");
                }
                other => panic!("unexpected error {:?}", other),
            }
        }
    }
}

#[test]
fn alias_collisions_count_too() {
    let items = vec![
        ("one".to_string(), post_with("a", "", &["shared"], &[])),
        ("two".to_string(), post_with("b", "", &["shared"], &[])),
    ];
    let errors = get_posts(items).unwrap_err();
    assert_eq!(errors.len(), 1);
    match &errors[0] {
        IOError::DuplicateName(name, s1, s2) => {
            assert_eq!(name, "shared");
            assert_eq!(s1, "one");
            assert_eq!(s2, "two");
        }
        other => panic!("unexpected error {:?}", other),
    }
}

#[test]
fn collision_free_items_pass_through_in_order() {
    let items = vec![
        ("one".to_string(), post_with("a", "", &[], &[])),
        ("two".to_string(), post_with("b", "", &[], &["a"])),
    ];
    let out = get_posts(items).unwrap();
    assert_eq!(out.len(), 2);
    assert_eq!(out[0].name(), "a");
    assert_eq!(out[1].name(), "b");
}

#[test]
fn fakeposts_cover_unresolved_parents() {
    let items = vec![post_with("a", "", &[], &["ghost", "a"]), post_with("b", "", &[], &["ghost"])];
    let fakes = get_fakeposts(&items);
    assert_eq!(fakes.len(), 2);
    assert_eq!(fakes[0].name(), "ghost");
    assert_eq!(fakes[1].name(), "ghost");
    match &fakes[0] {
        PostTypes::Post(p) => {
            assert!(p.title.is_empty());
            assert!(p.parents.is_empty());
        }
        _ => panic!("placeholders are posts"),
    }
}

#[test]
fn fakeposts_empty_when_all_parents_exist() {
    let items = vec![post_with("a", "", &[], &[]), post_with("b", "", &[], &["a"])];
    assert!(get_fakeposts(&items).is_empty());
}

#[test]
fn registry_resolves_latest_registration() {
    let mut reg = NameRegistry::new();
    assert_eq!(reg.resolve("x"), None);
    reg.register("x".to_string(), 1);
    assert_eq!(reg.resolve("x"), Some(1));
    reg.register("x".to_string(), 2);
    assert_eq!(reg.resolve("x"), Some(2));
    assert_eq!(reg.resolve("y"), None);
}

#[test]
fn string_order_is_lexicographic() {
    assert!(str_le("alpha", "mid"));
    assert!(str_le("alpha", "alpha"));
    assert!(!str_le("zeta", "mid"));
    assert!(str_le("", "a"));
    assert!(str_le("ab", "b"));
}

#[test]
fn decimal_rendering_is_exact() {
    assert_eq!(usize_to_string(0), "0");
    assert_eq!(usize_to_string(7), "7");
    assert_eq!(usize_to_string(10), "10");
    assert_eq!(usize_to_string(90210), "90210");
}

#[test]
fn post_html_carries_its_parts() {
    let page = PostHtml::new("a.html".to_string(), "<p>hi</p>".to_string());
    assert_eq!(page.filename().as_str(), "a.html");
    assert_eq!(page.html().as_str(), "<p>hi</p>");
}

#[test]
fn link_lists_extend_in_place() {
    let mut p = post_with("a", "", &[], &[]);
    p.set_children_names(vec![("b".to_string(), "B".to_string())]);
    p.set_children_names(vec![("c".to_string(), "C".to_string())]);
    p.set_parent_names(vec![("r".to_string(), "R".to_string())]);
    match &p {
        PostTypes::Post(inner) => {
            let paths: Vec<&str> = inner.children.iter().map(|t| t.path.as_str()).collect();
            assert_eq!(paths, vec!["b", "c"]);
            assert_eq!(inner.parent_names.len(), 1);
            assert_eq!(inner.parent_names[0].path, "r");
        }
        _ => unreachable!(),
    }
}

#[test]
fn link_records_copy_cleanly() {
    let t = TeraNextPost { path: "p".to_string(), title: "T".to_string() };
    let u = t.duplicate();
    assert_eq!(u.path, "p");
    assert_eq!(u.title, "T");
}
