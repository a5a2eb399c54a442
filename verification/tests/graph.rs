use yoctofy::closure::compute_runtime_closure;
use yoctofy::error::RecipeError;
use yoctofy::model::{Dep, DepKind, Metadata, Node, Package, Resolve};
use yoctofy::plan::{index_nodes, index_packages, index_packages_by_full_id};
use yoctofy::root::{pick_root_id, select_root};

fn dep(pkg: &str, kinds: &[Option<&str>]) -> Dep {
    Dep {
        pkg: pkg.to_string(),
        dep_kinds: kinds.iter().map(|k| DepKind { kind: k.map(|s| s.to_string()) }).collect(),
    }
}

fn node(id: &str, deps: Vec<Dep>) -> Node {
    Node { id: id.to_string(), deps }
}

fn package(id: &str, name: &str) -> Package {
    Package {
        id: id.to_string(),
        name: name.to_string(),
        version: "1.0.0".to_string(),
        source: None,
        manifest_path: "/p/Cargo.toml".to_string(),
        license: None,
    }
}

fn metadata(packages: Vec<Package>, members: &[&str]) -> Metadata {
    Metadata {
        packages,
        resolve: Some(Resolve { nodes: Vec::new() }),
        workspace_members: members.iter().map(|s| s.to_string()).collect(),
    }
}

#[test]
fn dependency_kinds() {
    assert!(dep("a", &[None]).has_normal());
    assert!(dep("a", &[Some("build"), None]).has_normal());
    assert!(!dep("a", &[Some("build"), Some("dev")]).has_normal());
    assert!(!dep("a", &[]).has_normal());
}

#[test]
fn closure_follows_normal_dependencies_only() {
    let nodes = vec![
        node("r", vec![dep("a", &[None]), dep("b", &[Some("build")]), dep("d", &[Some("dev")])]),
        node("a", vec![dep("c", &[Some("dev"), None])]),
        node("b", vec![dep("e", &[None])]),
        node("c", vec![]),
    ];
    let reached = compute_runtime_closure("r", &index_nodes(&nodes));
    assert_eq!(*reached.keys(), vec!["a", "c", "r"]);
}

#[test]
fn closure_of_a_cycle() {
    let nodes = vec![node("a", vec![dep("b", &[None])]), node("b", vec![dep("a", &[None])])];
    let reached = compute_runtime_closure("b", &index_nodes(&nodes));
    assert_eq!(*reached.keys(), vec!["a", "b"]);
}

#[test]
fn closure_has_what_the_graph_lacks() {
    let nodes = vec![node("r", vec![dep("gone", &[None])])];
    let reached = compute_runtime_closure("r", &index_nodes(&nodes));
    assert_eq!(*reached.keys(), vec!["gone", "r"]);
    let alone = compute_runtime_closure("x", &index_nodes(&nodes));
    assert_eq!(*alone.keys(), vec!["x"]);
}

#[test]
fn closure_is_transitive() {
    let nodes = vec![
        node("a", vec![dep("b", &[None])]),
        node("b", vec![dep("c", &[None])]),
        node("c", vec![dep("d", &[None])]),
    ];
    let index = index_nodes(&nodes);
    let from_a = compute_runtime_closure("a", &index);
    let from_c = compute_runtime_closure("c", &index);
    assert!(from_a.contains(&"c".to_string()));
    for id in from_c.keys() {
        assert!(from_a.contains(id));
    }
}

#[test]
fn last_node_of_an_id_counts() {
    let nodes = vec![node("r", vec![dep("a", &[None])]), node("r", vec![dep("b", &[None])])];
    let reached = compute_runtime_closure("r", &index_nodes(&nodes));
    assert_eq!(*reached.keys(), vec!["b", "r"]);
}

#[test]
fn last_package_of_an_id_counts() {
    let packages = vec![package("x", "a"), package("x", "b"), package("y", "b")];
    let by_full_id = index_packages_by_full_id(&packages);
    assert_eq!(by_full_id.get(&"x".to_string()).unwrap().name, "b");
    let by_id = index_packages(&packages);
    assert_eq!(by_id.keys().len(), 2);
    assert_eq!(by_id.get(&packages[1].crate_id()).unwrap().id, "y");
}

#[test]
fn root_is_the_package_of_that_name() {
    let meta = metadata(vec![package("1", "a"), package("2", "b")], &[]);
    assert_eq!(pick_root_id(&meta, "b"), Ok("2".to_string()));
}

#[test]
fn root_prefers_members_of_the_workspace() {
    let meta = metadata(
        vec![package("1", "a"), package("3", "a"), package("2", "a"), package("0", "b")],
        &["3", "2", "0"],
    );
    assert_eq!(pick_root_id(&meta, "a"), Ok("2".to_string()));
}

#[test]
fn root_is_the_first_id_without_members() {
    let meta = metadata(vec![package("b 1", "a"), package("a 1", "a")], &[]);
    assert_eq!(pick_root_id(&meta, "a"), Ok("a 1".to_string()));
}

#[test]
fn root_that_is_not_there() {
    let meta = metadata(vec![package("1", "a")], &["1"]);
    let error = pick_root_id(&meta, "x").unwrap_err();
    assert_eq!(error, RecipeError::NoPackage { name: "x".to_string() });
    assert_eq!(error.message(), "no package named x in cargo metadata");
}

#[test]
fn root_needs_the_graph() {
    let mut meta = metadata(vec![package("1", "a")], &[]);
    assert_eq!(select_root(&meta, "a"), Ok("1".to_string()));
    assert_eq!(select_root(&meta, "x"), Err(RecipeError::NoPackage { name: "x".to_string() }));
    meta.resolve = None;
    assert_eq!(select_root(&meta, "a"), Err(RecipeError::NoResolve));
    assert_eq!(select_root(&meta, "x"), Err(RecipeError::NoResolve));
    assert_eq!(RecipeError::NoResolve.message(), "metadata missing resolve graph");
}
