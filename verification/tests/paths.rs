use drorg::linkage::load_linkage_table;
use drorg::records::NewLink;
use drorg::store::MirrorStore;

fn store_with_links(links: &[(i32, &str, &str)]) -> MirrorStore {
    let mut store = MirrorStore::new();
    for (account, parent, child) in links {
        store.upsert_link(&NewLink::new(*account, parent, child));
    }
    store
}

fn paths_of(store: &MirrorStore, account: i32, start: &str) -> Vec<Vec<String>> {
    let table = load_linkage_table(store, account, true).unwrap();
    table.find_parent_paths(start)
}

fn sorted(mut paths: Vec<Vec<String>>) -> Vec<Vec<String>> {
    paths.sort();
    paths
}

fn path(ids: &[&str]) -> Vec<String> {
    ids.iter().map(|s| s.to_string()).collect()
}

#[test]
fn unknown_document_has_no_path() {
    let store = store_with_links(&[(1, "root", "a")]);
    assert_eq!(paths_of(&store, 1, "stranger"), Vec::<Vec<String>>::new());
}

#[test]
fn empty_table_has_no_path() {
    let store = MirrorStore::new();
    assert_eq!(paths_of(&store, 1, "a"), Vec::<Vec<String>>::new());
}

#[test]
fn parentless_document_has_the_empty_path() {
    let store = store_with_links(&[(1, "root", "a")]);
    assert_eq!(paths_of(&store, 1, "root"), vec![Vec::<String>::new()]);
}

#[test]
fn single_chain_is_listed_outermost_first() {
    let store = store_with_links(&[(1, "root", "f"), (1, "f", "g"), (1, "g", "doc")]);
    assert_eq!(paths_of(&store, 1, "doc"), vec![path(&["root", "f", "g"])]);
}

#[test]
fn two_parents_give_two_single_element_paths() {
    let store = store_with_links(&[(1, "mum", "doc"), (1, "dad", "doc")]);
    let paths = sorted(paths_of(&store, 1, "doc"));
    assert_eq!(paths, vec![path(&["dad"]), path(&["mum"])]);
}

#[test]
fn diamond_gives_both_paths() {
    let store = store_with_links(&[
        (1, "root", "a"),
        (1, "root", "b"),
        (1, "a", "doc"),
        (1, "b", "doc"),
    ]);
    let paths = sorted(paths_of(&store, 1, "doc"));
    assert_eq!(paths, vec![path(&["root", "a"]), path(&["root", "b"])]);
}

#[test]
fn cycle_terminates_with_simple_paths() {
    // a and b contain each other; a is also in root.
    let store = store_with_links(&[
        (1, "root", "a"),
        (1, "a", "b"),
        (1, "b", "a"),
        (1, "b", "doc"),
    ]);
    let paths = paths_of(&store, 1, "doc");
    assert_eq!(paths, vec![path(&["root", "a", "b"])]);
    for p in &paths {
        let mut seen = p.clone();
        seen.sort();
        seen.dedup();
        assert_eq!(seen.len(), p.len());
        assert!(!p.contains(&"doc".to_string()));
    }
}

#[test]
fn cycle_without_root_has_no_path() {
    let store = store_with_links(&[(1, "a", "b"), (1, "b", "a")]);
    assert_eq!(paths_of(&store, 1, "a"), Vec::<Vec<String>>::new());
}

#[test]
fn self_loop_is_tolerated() {
    let store = store_with_links(&[(1, "root", "a"), (1, "a", "a")]);
    assert_eq!(paths_of(&store, 1, "a"), vec![path(&["root"])]);
}

#[test]
fn other_accounts_links_are_left_out() {
    let store = store_with_links(&[(1, "root1", "doc"), (2, "root2", "doc")]);
    assert_eq!(paths_of(&store, 1, "doc"), vec![path(&["root1"])]);
    assert_eq!(paths_of(&store, 2, "doc"), vec![path(&["root2"])]);
}

#[test]
fn shared_document_has_one_path_per_account() {
    let store = store_with_links(&[
        (1, "rootA", "folderA"),
        (1, "folderA", "shared1"),
        (2, "rootB", "shared1"),
    ]);
    assert_eq!(paths_of(&store, 1, "shared1"), vec![path(&["rootA", "folderA"])]);
    assert_eq!(paths_of(&store, 2, "shared1"), vec![path(&["rootB"])]);
}

#[test]
fn table_orientation_follows_the_flag() {
    let store = store_with_links(&[(1, "root", "a")]);
    let down = load_linkage_table(&store, 1, false).unwrap();
    assert!(!down.transposed);
    assert_eq!(down.account_id, 1);
    let up = load_linkage_table(&store, 1, true).unwrap();
    assert!(up.transposed);
    assert_eq!(up.graph.node_count(), 2);
    assert_eq!(up.graph.edge_count(), 1);
    let a = *up.nodes.get("a").unwrap();
    let root = *up.nodes.get("root").unwrap();
    let from_a: Vec<usize> =
        up.graph.neighbors(petgraph::graph::NodeIndex::new(a)).map(|n| n.index()).collect();
    assert_eq!(from_a, vec![root]);
    let a_down = *down.nodes.get("a").unwrap();
    let root_down = *down.nodes.get("root").unwrap();
    let from_root: Vec<usize> = down
        .graph
        .neighbors(petgraph::graph::NodeIndex::new(root_down))
        .map(|n| n.index())
        .collect();
    assert_eq!(from_root, vec![a_down]);
}
