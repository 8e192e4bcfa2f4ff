use std::collections::HashSet;
use tagtree::collection::Elements;
use tagtree::name::{Element, TagError};
use tagtree::projection::Step;

fn s(x: &str) -> String {
    x.to_string()
}

fn strings(xs: &[&str]) -> Vec<String> {
    xs.iter().map(|x| x.to_string()).collect()
}

fn collection(names: &[&str]) -> Elements {
    Elements::from_names(&strings(names)).expect("valid names")
}

fn dir(path: &[&str]) -> Step {
    Step::CreateDir { path: strings(path) }
}

fn link(path: &[&str], name: &str) -> Step {
    Step::Link { dir: strings(path), name: s(name) }
}

fn tag_set(e: &Element) -> HashSet<String> {
    e.tags.iter().cloned().collect()
}

#[test]
fn parse_name_with_tags() {
    let e = Element::parse("2023-01-01_a_b.txt").unwrap();
    assert_eq!(e.name, "2023-01-01_a_b.txt");
    assert_eq!(e.tags, strings(&["2023", "a", "b"]));
}

#[test]
fn parse_name_without_tags_has_year() {
    let e = Element::parse("2021-12-31.pdf").unwrap();
    assert_eq!(e.tags, strings(&["2021"]));
}

#[test]
fn parse_tags_with_digits_and_hyphens() {
    let e = Element::parse("1999-05-07_Tax-Return_2020_x.jpeg").unwrap();
    assert_eq!(e.tags, strings(&["1999", "Tax-Return", "2020", "x"]));
}

#[test]
fn parse_repeated_tag_gives_one_set_member() {
    let e = Element::parse("2023-01-01_2023_a_a.md").unwrap();
    let expected: HashSet<String> = strings(&["2023", "a"]).into_iter().collect();
    assert_eq!(tag_set(&e), expected);
}

#[test]
fn parse_rejects_readme() {
    match Element::parse("README.md") {
        Err(TagError::InvalidFileName { name }) => assert_eq!(name, "README.md"),
        other => panic!("unexpected {:?}", other),
    }
}

#[test]
fn parse_rejects_off_convention_names() {
    for bad in [
        "2023-1-01.txt",
        "2023-01-01",
        "2023-01-01.",
        "2023-01-01_.txt",
        "2023-01-01_a__b.txt",
        "2023-01-01_a_.txt",
        "2023-01-01.TXT",
        "2023-01-01_a b.txt",
        "x2023-01-01.txt",
        "2023-01-01.txt.gz",
        "2023/01/01.txt",
        "2023-01-01_a.txt\n",
        "",
    ] {
        assert!(Element::parse(bad).is_err(), "accepted {:?}", bad);
    }
}

#[test]
fn error_message_names_the_file() {
    let m = TagError::InvalidFileName { name: s("README.md") }.message();
    assert!(m.contains("README.md"));
    assert!(TagError::MissingSourceDirectory.message().contains("Files"));
}

#[test]
fn from_names_skips_hidden_entries() {
    let c = collection(&[".DS_Store", "2023-01-01_a.txt", ".hidden.txt"]);
    assert_eq!(c.0.len(), 1);
    assert_eq!(c.0[0].name, "2023-01-01_a.txt");
}

#[test]
fn from_names_fails_on_first_malformed_name() {
    let r = Elements::from_names(&strings(&["2023-01-01.txt", "README.md", "bad"]));
    match r {
        Err(TagError::InvalidFileName { name }) => assert_eq!(name, "README.md"),
        other => panic!("unexpected {:?}", other),
    }
}

#[test]
fn from_names_of_empty_listing() {
    let c = collection(&[]);
    assert!(c.0.is_empty());
    assert!(c.projection().is_empty());
}

#[test]
fn tags_are_distinct_in_order_of_appearance() {
    let c = collection(&["2023-01-01_a_b.txt", "2022-01-02_b_c.txt", "2023-03-03_a.txt"]);
    assert_eq!(c.tags(), strings(&["2023", "a", "b", "2022", "c"]));
}

#[test]
fn names_in_order() {
    let c = collection(&["2023-01-01_a_b.txt", "2023-01-02_a.txt"]);
    assert_eq!(c.names(), strings(&["2023-01-01_a_b.txt", "2023-01-02_a.txt"]));
}

#[test]
fn filter_by_nothing_is_identity() {
    let c = collection(&["2023-01-01_a_b.txt", "2023-01-02_a.txt"]);
    let f = c.filter(&[]);
    assert_eq!(f, c);
}

#[test]
fn filter_keeps_supersets_and_removes_required_tags() {
    let c = collection(&["2023-01-01_a_b.txt", "2023-01-02_a.txt", "2022-05-05_b.txt"]);
    let f = c.filter(&strings(&["a", "b"]));
    assert_eq!(f.0.len(), 1);
    assert_eq!(f.0[0].name, "2023-01-01_a_b.txt");
    assert_eq!(f.0[0].tags, strings(&["2023"]));
    let g = c.filter(&strings(&["b"]));
    assert_eq!(g.names(), strings(&["2023-01-01_a_b.txt", "2022-05-05_b.txt"]));
    assert_eq!(g.0[0].tags, strings(&["2023", "a"]));
    assert_eq!(g.0[1].tags, strings(&["2022"]));
}

#[test]
fn filter_by_missing_tag_is_empty() {
    let c = collection(&["2023-01-01_a_b.txt"]);
    assert!(c.filter(&strings(&["zzz"])).0.is_empty());
}

#[test]
fn scenario_two_files() {
    let a = "2023-01-01_a_b.txt";
    let b = "2023-01-02_a.txt";
    let c = collection(&[a, b]);
    let expected = vec![
        dir(&["2023"]),
        link(&["2023"], a),
        link(&["2023"], b),
        dir(&["2023", "b"]),
        link(&["2023", "b"], a),
        dir(&["a"]),
        link(&["a"], a),
        link(&["a"], b),
        dir(&["a", "b"]),
        link(&["a", "b"], a),
        dir(&["b"]),
        link(&["b"], a),
    ];
    let steps = c.projection();
    assert_eq!(steps, expected);
    // `a` does not tell the files under 2023/ apart, so 2023/a is not opened
    assert!(!steps.contains(&dir(&["2023", "a"])));
}

#[test]
fn projection_never_goes_deeper_than_three_tags() {
    let c = collection(&[
        "2020-01-01_a_b_c_d.txt",
        "2020-01-02_a_b_c.txt",
        "2020-01-03_a_b.txt",
        "2020-01-04_a.txt",
        "2021-01-05_b_c_d.txt",
    ]);
    let steps = c.projection();
    let mut deepest = 0;
    for step in &steps {
        let d = match step {
            Step::CreateDir { path } => path.len(),
            Step::Link { dir, .. } => dir.len(),
        };
        assert!((1..=3).contains(&d));
        deepest = deepest.max(d);
    }
    assert_eq!(deepest, 3);
}

#[test]
fn shared_tag_opens_no_subfolder_below_root() {
    let c = collection(&["2023-01-01_a_x.txt", "2023-01-02_a_y.txt"]);
    let steps = c.projection();
    // every file under a/ carries 2023, and every file under 2023/ carries a
    assert!(!steps.contains(&dir(&["a", "2023"])));
    assert!(!steps.contains(&dir(&["2023", "a"])));
    assert!(steps.contains(&dir(&["a", "x"])));
    // at the root every tag gets a folder
    assert!(steps.contains(&dir(&["2023"])));
    assert!(steps.contains(&dir(&["a"])));
}

#[test]
fn rerun_creates_nothing_new() {
    let c = collection(&["2023-01-01_a_b.txt", "2023-01-02_a.txt", "2022-02-02_c.txt"]);
    let first = c.projection();
    let second = collection(&["2023-01-01_a_b.txt", "2023-01-02_a.txt", "2022-02-02_c.txt"])
        .projection();
    assert_eq!(first, second);
    let mut tree: HashSet<Vec<String>> = HashSet::new();
    let mut created = 0;
    for step in &first {
        if tree.insert(step.destination()) {
            created += 1;
        }
    }
    assert_eq!(created, first.len());
    for step in &second {
        assert!(!tree.insert(step.destination()));
    }
}

#[test]
fn destination_of_link_ends_with_file_name() {
    assert_eq!(link(&["a", "b"], "f.txt").destination(), strings(&["a", "b", "f.txt"]));
    assert_eq!(dir(&["a"]).destination(), strings(&["a"]));
}

#[test]
fn creates_dirs_and_refs_below_a_path() {
    let c = collection(&["2023-01-01_a_b.txt", "2023-01-02_a.txt"]);
    let mut steps = Vec::new();
    c.creates_dirs_and_refs(&strings(&["a", "b"]), &mut steps);
    assert_eq!(steps, vec![link(&["a", "b"], "2023-01-01_a_b.txt")]);
    let mut deep = Vec::new();
    c.creates_dirs_and_refs(&strings(&["a", "b", "2023"]), &mut deep);
    assert_eq!(deep, vec![link(&["a", "b", "2023"], "2023-01-01_a_b.txt")]);
}
