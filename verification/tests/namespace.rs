use hydration_client::delta::Change;
use hydration_client::namespace::{Item, Kind, Namespace};

fn root(id: &str) -> Item {
    Item::Upsert {
        id: id.into(),
        parent: None,
        name: String::new(),
        kind: Kind::Root,
    }
}

fn folder(id: &str, parent: &str, name: &str) -> Item {
    Item::Upsert {
        id: id.into(),
        parent: Some(parent.into()),
        name: name.into(),
        kind: Kind::Folder,
    }
}

fn file(id: &str, parent: &str, name: &str, size: u64) -> Item {
    Item::Upsert {
        id: id.into(),
        parent: Some(parent.into()),
        name: name.into(),
        kind: Kind::File {
            size,
            ctag: Some(format!("v-{id}")),
        },
    }
}

fn paths(changes: &[Change]) -> Vec<String> {
    changes
        .iter()
        .filter_map(|c| match c {
            Change::Upserted { path, .. } => Some(path.clone()),
            _ => None,
        })
        .collect()
}

fn removed(changes: &[Change]) -> Vec<String> {
    let mut v: Vec<String> = changes
        .iter()
        .filter_map(|c| match c {
            Change::Removed { cloud_id } => Some(cloud_id.clone()),
            _ => None,
        })
        .collect();
    v.sort();
    v
}

/// Builds `/Work/{a.txt, Notes/b.txt}`.
fn tree() -> Namespace {
    let mut ns = Namespace::new();
    ns.apply(root("R"));
    ns.apply(folder("F", "R", "Work"));
    ns.apply(file("a", "F", "a.txt", 10));
    ns.apply(folder("G", "F", "Notes"));
    ns.apply(file("b", "G", "b.txt", 20));
    ns
}

#[test]
fn a_file_arrives_at_its_full_path() {
    let mut ns = Namespace::new();
    ns.apply(root("R"));
    ns.apply(folder("F", "R", "Work"));
    assert_eq!(paths(&ns.apply(file("a", "F", "a.txt", 10))), ["Work/a.txt"]);
}

#[test]
fn a_new_folder_is_not_a_change() {
    let mut ns = Namespace::new();
    ns.apply(root("R"));
    assert!(ns.apply(folder("F", "R", "Work")).is_empty());
}

#[test]
fn moving_a_folder_moves_everything_beneath_it() {
    let mut ns = tree();
    // One change from the service: "Work" is now called "Archive".
    let out = ns.apply(folder("F", "R", "Archive"));
    assert_eq!(
        paths(&out),
        ["Archive/a.txt", "Archive/Notes/b.txt"],
        "a folder move left its contents behind"
    );
}

#[test]
fn moving_a_folder_into_another_folder_repaths_the_subtree() {
    let mut ns = tree();
    ns.apply(folder("H", "R", "Archive"));
    let out = ns.apply(folder("G", "H", "Notes"));
    assert_eq!(paths(&out), ["Archive/Notes/b.txt"]);
    // And the file that stayed behind is untouched.
    assert!(!paths(&out).iter().any(|p| p.contains("a.txt")));
}

#[test]
fn a_folder_reported_unchanged_produces_no_work() {
    let mut ns = tree();
    assert!(
        ns.apply(folder("F", "R", "Work")).is_empty(),
        "an unchanged folder re-reported its whole subtree"
    );
}

#[test]
fn deleting_a_folder_removes_every_file_beneath_it() {
    let mut ns = tree();
    let out = ns.apply(Item::Delete { id: "F".into() });
    assert_eq!(removed(&out), ["a", "b"]);
    assert!(ns.apply(file("c", "F", "c.txt", 1)).is_empty());
    assert_eq!(ns.pending(), 1, "the subtree was not forgotten");
}

#[test]
fn deleting_a_file_removes_only_it() {
    let mut ns = tree();
    assert_eq!(removed(&ns.apply(Item::Delete { id: "a".into() })), ["a"]);
}

#[test]
fn an_item_whose_parent_has_not_arrived_is_held_and_replayed() {
    let mut ns = Namespace::new();
    ns.apply(root("R"));
    // The file arrives before the folder it lives in.
    assert!(ns.apply(file("a", "F", "a.txt", 10)).is_empty());
    assert_eq!(ns.pending(), 1);

    let out = ns.apply(folder("F", "R", "Work"));
    assert_eq!(paths(&out), ["Work/a.txt"], "the held item was never replayed");
    assert_eq!(ns.pending(), 0);
}

#[test]
fn a_reversed_subtree_still_resolves() {
    let mut ns = Namespace::new();
    ns.apply(file("c", "G", "c.txt", 30));
    ns.apply(folder("G", "F", "Notes"));
    ns.apply(folder("F", "R", "Work"));
    let out = ns.apply(root("R"));
    assert_eq!(paths(&out), ["Work/Notes/c.txt"]);
    assert_eq!(ns.pending(), 0);
}

#[test]
fn an_item_with_an_unknown_parent_stays_visible() {
    let mut ns = Namespace::new();
    ns.apply(root("R"));
    ns.apply(file("a", "NOWHERE", "a.txt", 10));
    assert_eq!(
        ns.pending(),
        1,
        "an unsyncable item disappeared instead of being reported"
    );
}

#[test]
fn a_cycle_is_refused_rather_than_followed() {
    let mut ns = Namespace::new();
    ns.apply(root("R"));
    ns.apply(folder("F", "R", "Work"));
    ns.apply(folder("G", "F", "Notes"));
    // G is now its own grandparent.
    ns.apply(folder("F", "G", "Work"));
    let out = ns.apply(file("a", "F", "a.txt", 10));
    assert!(
        out.is_empty(),
        "a cyclic parent chain produced a path: {:?}",
        paths(&out)
    );
}

#[test]
fn a_full_listing_names_every_file_at_its_current_path() {
    let mut ns = tree();
    ns.apply(folder("F", "R", "Archive"));
    assert_eq!(
        paths(&ns.listing()),
        ["Archive/a.txt", "Archive/Notes/b.txt"]
    );
}

#[test]
fn a_subtree_is_reported_shallowest_first() {
    let mut ns = Namespace::new();
    ns.apply(root("R"));
    ns.apply(folder("F", "R", "Work"));
    ns.apply(folder("G", "F", "Deep"));
    ns.apply(file("deep", "G", "z.txt", 1));
    ns.apply(file("shallow", "F", "a.txt", 1));
    let out = ns.apply(folder("F", "R", "Moved"));
    assert_eq!(paths(&out), ["Moved/a.txt", "Moved/Deep/z.txt"]);
}

#[test]
fn renaming_a_file_reports_it_at_the_new_name() {
    let mut ns = tree();
    let out = ns.apply(file("a", "F", "renamed.txt", 10));
    assert_eq!(paths(&out), ["Work/renamed.txt"]);
}

#[test]
fn deleting_an_unknown_item_is_not_an_error() {
    let mut ns = tree();
    assert!(ns.apply(Item::Delete { id: "ghost".into() }).is_empty());
}

#[test]
fn a_file_carries_its_size_and_version() {
    let mut ns = Namespace::new();
    ns.apply(root("R"));
    assert_eq!(
        ns.apply(file("a", "R", "a.txt", 10)),
        [Change::Upserted {
            cloud_id: "a".into(),
            path: "a.txt".into(),
            size: 10,
            etag: Some("v-a".into()),
        }]
    );
    assert!(!ns.is_empty());
    assert!(Namespace::new().is_empty());
}

#[test]
fn a_deletion_takes_the_whole_subtree_and_nothing_else() {
    let mut ns = tree();
    ns.apply(file("c", "R", "c.txt", 30));
    ns.apply(folder("H", "R", "Empty"));
    let out = ns.apply(Item::Delete { id: "F".into() });
    assert_eq!(out.len(), 2, "one change for each file and none for a folder");
    assert_eq!(removed(&out), ["a", "b"]);
    assert_eq!(paths(&ns.listing()), ["c.txt"]);
    assert!(ns.apply(Item::Delete { id: "F".into() }).is_empty());
    assert_eq!(paths(&ns.listing()), ["c.txt"]);
    for (id, gone) in [("x", "F"), ("y", "G"), ("z", "a")] {
        assert!(ns.apply(file(id, gone, "late.txt", 1)).is_empty());
    }
    assert_eq!(ns.pending(), 3, "a parent that went is not known any more");
    assert_eq!(paths(&ns.listing()), ["c.txt"]);
}

#[test]
fn a_moved_folder_goes_with_its_new_parent_only() {
    let mut ns = tree();
    ns.apply(folder("H", "R", "Other"));
    ns.apply(folder("G", "H", "Notes"));
    assert_eq!(removed(&ns.apply(Item::Delete { id: "F".into() })), ["a"]);
    assert_eq!(paths(&ns.listing()), ["Other/Notes/b.txt"]);
    assert_eq!(removed(&ns.apply(Item::Delete { id: "H".into() })), ["b"]);
    assert!(ns.listing().is_empty());
}

fn orders(n: usize) -> Vec<Vec<usize>> {
    if n == 0 {
        return vec![Vec::new()];
    }
    let mut out = Vec::new();
    for shorter in orders(n - 1) {
        for at in 0..n {
            let mut one = shorter.clone();
            one.insert(at, n - 1);
            out.push(one);
        }
    }
    out
}

#[test]
fn the_order_of_arrival_does_not_matter() {
    let items = [
        root("R"),
        folder("F", "R", "Work"),
        folder("G", "F", "Notes"),
        file("a", "F", "a.txt", 10),
        file("b", "G", "b.txt", 20),
        file("c", "R", "c.txt", 30),
    ];
    let all = orders(items.len());
    assert_eq!(all.len(), 720);
    for order in all {
        let mut ns = Namespace::new();
        let mut reported = Vec::new();
        for i in &order {
            reported.extend(paths(&ns.apply(items[*i].clone())));
        }
        reported.sort();
        assert_eq!(ns.pending(), 0, "{order:?}");
        assert_eq!(
            paths(&ns.listing()),
            ["c.txt", "Work/a.txt", "Work/Notes/b.txt"],
            "{order:?}"
        );
        assert_eq!(
            reported,
            ["Work/Notes/b.txt", "Work/a.txt", "c.txt"],
            "{order:?}"
        );
    }
}

#[test]
fn a_deletion_goes_by_what_is_recorded_beneath() {
    let mut ns = tree();
    ns.apply(root("F"));
    assert_eq!(paths(&ns.listing()), ["a.txt", "Notes/b.txt"]);
    let out = ns.apply(Item::Delete { id: "R".into() });
    assert_eq!(removed(&out), ["a", "b"], "F is still recorded beneath R");
    assert!(ns.listing().is_empty());
    assert!(ns.is_empty());
}
