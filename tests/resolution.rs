use taco::{Config, Project, RemoveError};

fn listing(p: &Project) -> Vec<(String, String)> {
    let mut v = p.commands().clone();
    v.sort();
    v
}

fn pairs(items: &[(&str, &str)]) -> Vec<(String, String)> {
    let mut v: Vec<(String, String)> =
        items.iter().map(|(a, b)| (a.to_string(), b.to_string())).collect();
    v.sort();
    v
}

#[test]
fn subdirectory_inherits_then_overrides() {
    let mut c = Config::new();
    c.add_command("/repo", "build", "cargo build");
    assert_eq!(listing(&c.resolve_project("/repo/src")), pairs(&[("build", "cargo build")]));
    c.add_command("/repo/src", "build", "make");
    assert_eq!(listing(&c.resolve_project("/repo/src")), pairs(&[("build", "make")]));
    assert_eq!(listing(&c.resolve_project("/repo")), pairs(&[("build", "cargo build")]));
}

#[test]
fn remove_never_added_reports_not_found() {
    let mut c = Config::new();
    c.add_command("/repo", "build", "cargo build");
    let before = listing(&c.resolve_project("/repo"));
    assert_eq!(c.remove_command("/repo", "test"), Err(RemoveError::AliasNotFound));
    assert_eq!(listing(&c.resolve_project("/repo")), before);
    assert_eq!(listing(c.get_project("/repo").unwrap()), pairs(&[("build", "cargo build")]));
}

#[test]
fn remove_from_missing_project() {
    let mut c = Config::new();
    c.add_command("/repo", "build", "cargo build");
    assert_eq!(c.remove_command("/other", "build"), Err(RemoveError::ProjectNotFound));
    assert_eq!(c.projects().len(), 1);
}

#[test]
fn remove_existing_command() {
    let mut c = Config::new();
    c.add_command("/repo", "build", "cargo build");
    c.add_command("/repo", "test", "cargo test");
    assert_eq!(c.remove_command("/repo", "build"), Ok("cargo build".to_string()));
    assert_eq!(listing(c.get_project("/repo").unwrap()), pairs(&[("test", "cargo test")]));
    assert_eq!(c.remove_command("/repo", "build"), Err(RemoveError::AliasNotFound));
}

#[test]
fn emptied_project_stays_registered() {
    let mut c = Config::new();
    c.add_command("/repo", "build", "cargo build");
    assert!(c.remove_command("/repo", "build").is_ok());
    assert_eq!(c.get_project("/repo").unwrap().len(), 0);
    assert_eq!(c.remove_command("/repo", "build"), Err(RemoveError::AliasNotFound));
}

#[test]
fn resolving_twice_gives_the_same() {
    let mut c = Config::new();
    c.add_command("/", "ls", "ls -la");
    c.add_command("/a", "x", "one");
    c.add_command("/lib", "y", "from lib");
    c.add_alias("/a", "/lib");
    let first = listing(&c.resolve_project("/a/b"));
    let second = listing(&c.resolve_project("/a/b"));
    assert_eq!(first, second);
    assert_eq!(first, pairs(&[("ls", "ls -la"), ("x", "one"), ("y", "from lib")]));
}

#[test]
fn deeper_definition_wins() {
    let mut c = Config::new();
    c.add_command("/a", "x", "V1");
    c.add_command("/a/b", "x", "V2");
    assert_eq!(c.resolve_project("/a/b").get("x"), Some(&"V2".to_string()));
    assert_eq!(c.resolve_project("/a").get("x"), Some(&"V1".to_string()));
}

#[test]
fn local_beats_link_added_before() {
    let mut c = Config::new();
    c.add_command("webdev", "y", "Q");
    c.add_alias("/p", "webdev");
    assert_eq!(c.resolve_project("/p").get("y"), Some(&"Q".to_string()));
    c.add_command("/p", "y", "P");
    assert_eq!(c.resolve_project("/p").get("y"), Some(&"P".to_string()));
}

#[test]
fn local_beats_link_added_after() {
    let mut c = Config::new();
    c.add_command("webdev", "y", "Q");
    c.add_command("/p", "y", "P");
    c.add_alias("/p", "webdev");
    assert_eq!(c.resolve_project("/p").get("y"), Some(&"P".to_string()));
}

#[test]
fn deeper_link_does_not_override_shallower_definition() {
    let mut c = Config::new();
    c.add_command("rust", "build", "cargo build");
    c.add_command("/a", "build", "make");
    c.add_alias("/a/b", "rust");
    assert_eq!(c.resolve_project("/a/b").get("build"), Some(&"make".to_string()));
}

#[test]
fn first_label_wins_among_links() {
    let mut c = Config::new();
    c.add_command("first", "t", "one");
    c.add_command("second", "t", "two");
    c.add_command("second", "u", "only second");
    c.add_alias("/p", "first");
    c.add_alias("/p", "second");
    assert_eq!(
        listing(&c.resolve_project("/p")),
        pairs(&[("t", "one"), ("u", "only second")])
    );
}

#[test]
fn link_to_unknown_label_adds_nothing() {
    let mut c = Config::new();
    c.add_alias("/p", "nothing");
    assert_eq!(c.resolve_project("/p").len(), 0);
}

#[test]
fn siblings_are_isolated() {
    let mut c = Config::new();
    c.add_command("/a/b", "secret", "echo b");
    c.add_command("/a", "shared", "echo a");
    let r = c.resolve_project("/a/c");
    assert_eq!(r.get("secret"), None);
    assert_eq!(listing(&r), pairs(&[("shared", "echo a")]));
    assert_eq!(c.resolve_project("/a/bc").get("secret"), None);
}

#[test]
fn empty_store_resolves_to_nothing() {
    let c = Config::new();
    assert_eq!(c.resolve_project("/").len(), 0);
    assert_eq!(c.resolve_project("/a/b/c").len(), 0);
    assert!(c.get_project("/a").is_none());
}

#[test]
fn root_commands_reach_everywhere() {
    let mut c = Config::new();
    c.add_command("/", "ls", "ls -la");
    assert_eq!(c.resolve_project("/").get("ls"), Some(&"ls -la".to_string()));
    assert_eq!(c.resolve_project("/x/y/z").get("ls"), Some(&"ls -la".to_string()));
}

#[test]
fn add_reports_previous_value() {
    let mut c = Config::new();
    assert_eq!(c.add_command("/repo", "build", "cargo build"), None);
    assert_eq!(c.add_command("/repo", "build", "make"), Some("cargo build".to_string()));
    assert_eq!(listing(c.get_project("/repo").unwrap()), pairs(&[("build", "make")]));
}

#[test]
fn get_project_is_not_merged() {
    let mut c = Config::new();
    c.add_command("/repo", "build", "cargo build");
    c.add_command("/repo/src", "test", "cargo test");
    assert_eq!(listing(c.get_project("/repo/src").unwrap()), pairs(&[("test", "cargo test")]));
    assert!(c.get_project("/repo/src/deeper").is_none());
}

#[test]
fn duplicate_links_accumulate() {
    let mut c = Config::new();
    c.add_alias("/p", "webdev");
    c.add_alias("/p", "webdev");
    assert_eq!(c.aliases().len(), 1);
    assert_eq!(c.aliases()[0].1, vec!["webdev".to_string(), "webdev".to_string()]);
}

#[test]
fn tables_round_trip() {
    let mut c = Config::new();
    c.add_command("/repo", "build", "cargo build");
    c.add_command("/repo", "test", "cargo test");
    c.add_command("/tmp", "x", "y");
    c.remove_command("/tmp", "x").unwrap();
    c.add_alias("/repo", "rust");
    c.add_alias("/empty", "a");

    let projects: Vec<(String, Vec<(String, String)>)> = c
        .projects()
        .iter()
        .map(|(dir, project)| (dir.clone(), project.commands().clone()))
        .collect();
    let back = Config::from_tables(c.aliases(), &projects);
    assert_eq!(back.projects().len(), 2);
    assert_eq!(listing(back.get_project("/repo").unwrap()), listing(c.get_project("/repo").unwrap()));
    assert_eq!(back.get_project("/tmp").unwrap().len(), 0);
    assert_eq!(back.aliases(), c.aliases());
}

#[test]
fn set_project_replaces() {
    let mut c = Config::new();
    c.add_command("/repo", "build", "cargo build");
    let mut p = Project::new();
    p.insert("run".to_string(), "cargo run".to_string());
    c.set_project("/repo".to_string(), p);
    assert_eq!(listing(c.get_project("/repo").unwrap()), pairs(&[("run", "cargo run")]));
}

#[test]
fn project_insert_and_remove() {
    let mut p = Project::new();
    assert_eq!(p.insert("a".to_string(), "1".to_string()), None);
    assert_eq!(p.insert("a".to_string(), "2".to_string()), Some("1".to_string()));
    assert_eq!(p.len(), 1);
    assert_eq!(p.remove("a"), Some("2".to_string()));
    assert_eq!(p.remove("a"), None);
    assert_eq!(p.len(), 0);
}

#[test]
fn overlay_and_fill_gaps() {
    let mut base = Project::new();
    base.insert("a".to_string(), "base a".to_string());
    base.insert("b".to_string(), "base b".to_string());
    let mut other = Project::new();
    other.insert("b".to_string(), "other b".to_string());
    other.insert("c".to_string(), "other c".to_string());

    let mut filled = Project::new();
    filled.overlay(&base);
    filled.fill_gaps(&other);
    assert_eq!(
        listing(&filled),
        pairs(&[("a", "base a"), ("b", "base b"), ("c", "other c")])
    );

    base.overlay(&other);
    assert_eq!(
        listing(&base),
        pairs(&[("a", "base a"), ("b", "other b"), ("c", "other c")])
    );
}

#[test]
fn later_table_entries_win() {
    let commands = pairs(&[("a", "1"), ("b", "2"), ("a", "3")]);
    let p = Project::from_commands(&commands);
    assert_eq!(listing(&p), pairs(&[("a", "3"), ("b", "2")]));

    let aliases = vec![
        ("/p".to_string(), vec!["x".to_string()]),
        ("/p".to_string(), vec!["y".to_string(), "z".to_string()]),
    ];
    let projects = vec![
        ("/p".to_string(), pairs(&[("a", "1")])),
        ("/p".to_string(), pairs(&[("b", "2")])),
        ("/q".to_string(), vec![]),
    ];
    let c = Config::from_tables(&aliases, &projects);
    assert_eq!(c.aliases().len(), 1);
    assert_eq!(c.aliases()[0].1, vec!["y".to_string(), "z".to_string()]);
    assert_eq!(listing(c.get_project("/p").unwrap()), pairs(&[("b", "2")]));
    assert_eq!(c.get_project("/q").unwrap().len(), 0);
}
