use locale_diff::listing::{arrange_level, hidden_name, FileNode};

fn node(name: &str, is_dir: bool) -> FileNode {
    FileNode { name: name.to_string(), path: format!("/root/{}", name), is_dir, children: None }
}

#[test]
fn arrange_puts_directories_first_then_names() {
    let entries = vec![node("b.json", false), node("zeta", true), node("a.json", false), node("alpha", true)];
    let r = arrange_level(entries);
    let names: Vec<String> = r.iter().map(|n| n.name.clone()).collect();
    assert_eq!(names, vec!["alpha", "zeta", "a.json", "b.json"]);
    assert!(r[0].is_dir && r[1].is_dir && !r[2].is_dir && !r[3].is_dir);
}

#[test]
fn arrange_drops_hidden_entries() {
    let entries = vec![node(".git", true), node("en.json", false), node(".DS_Store", false)];
    let r = arrange_level(entries);
    assert_eq!(r.len(), 1);
    assert_eq!(r[0].name, "en.json");
    assert_eq!(r[0].path, "/root/en.json");
}

#[test]
fn arrange_empty_listing() {
    assert!(arrange_level(Vec::new()).is_empty());
}

#[test]
fn arrange_keeps_children() {
    let mut dir = node("locales", true);
    dir.children = Some(vec![node("fr.json", false)]);
    let r = arrange_level(vec![node("readme.md", false), dir]);
    assert_eq!(r[0].name, "locales");
    assert_eq!(r[0].children.as_ref().unwrap()[0].name, "fr.json");
}

#[test]
fn hidden_names_start_with_a_dot() {
    assert!(hidden_name(&".env".to_string()));
    assert!(!hidden_name(&"env".to_string()));
    assert!(!hidden_name(&"".to_string()));
    assert!(!hidden_name(&"a.b".to_string()));
}
