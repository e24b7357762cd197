use libsnow_generators::outputs::{group_by_output, out_path, RegistryPackage, Store};
use libsnow_generators::tabular::{chunk_puts, new_entries, parse_processed, processed_contents, BATCH_LIMIT};

fn pkg(attr: &str, outputs: &[(&str, &str)], version: Option<&str>) -> RegistryPackage {
    RegistryPackage {
        attribute: attr.to_string(),
        outputs: outputs.iter().map(|(n, p)| (n.to_string(), p.to_string())).collect(),
        version: version.map(|v| v.to_string()),
    }
}

fn group(path: &str, attrs: &[&str], version: Option<&str>) -> (String, Store) {
    (
        path.to_string(),
        Store { attribute: attrs.iter().map(|a| a.to_string()).collect(), version: version.map(|v| v.to_string()) },
    )
}

#[test]
fn attributes_sharing_an_output_collapse_into_one_group() {
    let pkgs = vec![
        pkg("python3", &[("out", "/nix/store/abc-python3-3.11")], Some("3.11")),
        pkg("python", &[("out", "/nix/store/abc-python3-3.11")], Some("3.11")),
    ];
    let groups = group_by_output(&pkgs);
    assert_eq!(groups.len(), 1);
    assert_eq!(groups[0].0, "/nix/store/abc-python3-3.11");
    let mut attrs = groups[0].1.attribute.clone();
    attrs.sort();
    assert_eq!(attrs, vec!["python", "python3"]);
    assert_eq!(groups[0].1.version.as_deref(), Some("3.11"));
}

#[test]
fn groups_are_non_empty_without_duplicates_and_keyed_by_paths() {
    let pkgs = vec![
        pkg("hello", &[("out", "/nix/store/h-hello-2.12"), ("man", "/nix/store/m-hello-man")], Some("2.12")),
        pkg("nohello", &[("dev", "/nix/store/d-dev")], None),
        pkg("hello-alias", &[("out", "/nix/store/h-hello-2.12")], Some("2.12.1")),
        pkg("cowsay", &[("out", "/nix/store/c-cowsay")], None),
    ];
    let groups = group_by_output(&pkgs);
    assert_eq!(groups.len(), 2);
    for (path, store) in &groups {
        assert!(!path.is_empty() && path.contains('/'));
        assert!(!store.attribute.is_empty());
        let mut a = store.attribute.clone();
        a.sort();
        a.dedup();
        assert_eq!(a.len(), store.attribute.len());
    }
    assert_eq!(groups[0].1.attribute, vec!["hello", "hello-alias"]);
    assert_eq!(groups[0].1.version.as_deref(), Some("2.12"));
    assert_eq!(groups[1], group("/nix/store/c-cowsay", &["cowsay"], None));
}

#[test]
fn package_without_out_is_skipped() {
    let p = pkg("lib", &[("lib", "/nix/store/l-lib")], Some("1"));
    assert_eq!(out_path(&p), None);
    assert!(group_by_output(&vec![p]).is_empty());
    let q = pkg("bin", &[("dev", "/nix/store/d"), ("out", "/nix/store/o")], None);
    assert_eq!(out_path(&q).as_deref(), Some("/nix/store/o"));
}

#[test]
fn delta_is_current_minus_processed() {
    let current = vec![
        group("/nix/store/a", &["a"], Some("1")),
        group("/nix/store/b", &["b", "b2"], None),
        group("/nix/store/c", &["c"], Some("3")),
    ];
    let processed = parse_processed("/nix/store/a\n/nix/store/c\n/nix/store/old");
    let delta = new_entries(&current, &processed);
    assert_eq!(delta, vec![group("/nix/store/b", &["b", "b2"], None)]);
}

#[test]
fn absent_processed_file_makes_everything_new() {
    let current = vec![group("/nix/store/a", &["a"], None), group("/nix/store/b", &["b"], None)];
    let processed = parse_processed("");
    assert_eq!(processed, vec![""]);
    assert_eq!(new_entries(&current, &processed), current);
}

#[test]
fn processed_file_holds_every_key_not_only_the_delta() {
    let current = vec![group("/nix/store/a", &["a"], None), group("/nix/store/b", &["b"], None)];
    let contents = processed_contents(&current);
    assert_eq!(contents, "/nix/store/a\n/nix/store/b");
    assert_eq!(parse_processed(&contents), vec!["/nix/store/a", "/nix/store/b"]);
    assert!(new_entries(&current, &parse_processed(&contents)).is_empty());
}

#[test]
fn sixty_puts_make_three_batches() {
    let items: Vec<u32> = (0..60).collect();
    let chunks = chunk_puts(items);
    let sizes: Vec<usize> = chunks.iter().map(|c| c.len()).collect();
    assert_eq!(sizes, vec![25, 25, 10]);
    let flat: Vec<u32> = chunks.into_iter().flatten().collect();
    assert_eq!(flat, (0..60).collect::<Vec<u32>>());
}

#[test]
fn batches_never_exceed_the_limit() {
    for n in [0usize, 1, 24, 25, 26, 50, 51, 1000] {
        let chunks = chunk_puts((0..n).collect::<Vec<usize>>());
        assert!(chunks.iter().all(|c| !c.is_empty() && c.len() <= BATCH_LIMIT));
        assert_eq!(chunks.iter().map(|c| c.len()).sum::<usize>(), n);
        assert_eq!(chunks.len(), (n + 24) / 25);
    }
}
