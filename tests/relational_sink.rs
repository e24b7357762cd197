use libsnow_generators::relational::{
    build_tables, compressed_file_name, db_file_name, git_revision_url_of, import_command, meta_rows,
    package_from_release, packages_url_of, pkg_rows, table_csv, MetaData, Pkg,
};

fn hello() -> Pkg {
    let mut meta = MetaData::empty();
    meta.description = Some("A program that produces a familiar, friendly greeting".to_string());
    meta.homepage = Some("\"https://www.gnu.org/software/hello/\"".to_string());
    meta.license = Some("{\"spdxId\":\"GPL-3.0-or-later\"}".to_string());
    meta.main_program = Some("hello".to_string());
    meta.platforms = Some("[\"x86_64-linux\"]".to_string());
    meta.broken = Some(false);
    meta.unfree = Some(false);
    meta.insecure = Some(true);
    package_from_release("hello".to_string(), Some(meta), "hello".to_string(), "2.12".to_string())
}

fn cowsay() -> Pkg {
    package_from_release("cowsay".to_string(), None, "cowsay".to_string(), "3.7.0".to_string())
}

#[test]
fn package_without_meta_gets_default_columns() {
    let pkgs = vec![hello(), cowsay()];
    let prows = pkg_rows(&pkgs);
    let mrows = meta_rows(&pkgs);
    assert_eq!(prows.len(), 2);
    assert_eq!(mrows.len(), 2);
    assert_eq!(prows[0], vec!["hello", "hello", "2.12"]);
    assert_eq!(prows[1], vec!["cowsay", "cowsay", "3.7.0"]);
    let mut expected = vec!["cowsay".to_string()];
    expected.extend(std::iter::repeat(String::new()).take(11));
    expected.extend(["0", "0", "0"].iter().map(|s| s.to_string()));
    assert_eq!(mrows[1], expected);
    assert_eq!(mrows[0][0], "hello");
    assert_eq!(mrows[0][4], "\"https://www.gnu.org/software/hello/\"");
    assert_eq!(mrows[0][2], "");
    assert_eq!(mrows[0][9], "hello");
    assert_eq!(&mrows[0][12..], &["0", "0", "1"]);
}

#[test]
fn row_counts_match_attribute_count() {
    let pkgs = vec![hello(), cowsay()];
    assert_eq!(pkg_rows(&pkgs).len(), meta_rows(&pkgs).len());
    assert_eq!(pkg_rows(&pkgs).len(), 2);
    assert!(pkg_rows(&vec![]).is_empty());
}

#[test]
fn pkg_rows_read_back_as_input_triples() {
    let pkgs = vec![cowsay(), hello()];
    let mut triples: Vec<(String, String, String)> =
        pkg_rows(&pkgs).into_iter().map(|r| (r[0].clone(), r[1].clone(), r[2].clone())).collect();
    triples.sort();
    let mut input: Vec<(String, String, String)> =
        pkgs.iter().map(|p| (p.attribute.clone(), p.pname.clone(), p.version.clone())).collect();
    input.sort();
    assert_eq!(triples, input);
}

#[test]
fn csv_encoding_quotes_where_needed() {
    let rows = vec![
        vec!["a".to_string(), "b,c".to_string(), "".to_string()],
        vec!["x".to_string(), "say \"hi\"".to_string(), "z".to_string()],
    ];
    let bytes = table_csv(&rows).unwrap();
    assert_eq!(String::from_utf8(bytes).unwrap(), "a,\"b,c\",\nx,\"say \"\"hi\"\"\",z\n");
}

#[test]
fn tables_are_encoded_for_the_loader() {
    let pkgs = vec![hello(), cowsay()];
    let data = build_tables(&pkgs).unwrap();
    assert_eq!(String::from_utf8(data.pkgs_csv).unwrap(), "hello,hello,2.12\ncowsay,cowsay,3.7.0\n");
    let meta = String::from_utf8(data.meta_csv).unwrap();
    assert!(meta.ends_with("cowsay,,,,,,,,,,,,0,0,0\n"));
    assert_eq!(meta.lines().count(), 2);
}

#[test]
fn names_and_addresses() {
    assert_eq!(db_file_name("0123abc"), "0123abc.db");
    assert_eq!(compressed_file_name("0123abc"), "0123abc.db.br");
    assert_eq!(
        packages_url_of("nixos/23.11", "nixos-23.11.1.abc"),
        "https://releases.nixos.org/nixos/23.11/nixos-23.11.1.abc/packages.json.br"
    );
    assert_eq!(
        git_revision_url_of("nixpkgs", "nixpkgs-24.05pre1.abc"),
        "https://releases.nixos.org/nixpkgs/nixpkgs-24.05pre1.abc/git-revision"
    );
    assert_eq!(import_command("pkgs"), ".import '|cat -' pkgs");
}

#[test]
fn csv_encoding_refuses_rows_of_unequal_width() {
    let rows = vec![vec!["a".to_string(), "b".to_string()], vec!["c".to_string()]];
    assert!(table_csv(&rows).is_err());
    assert!(table_csv(&vec![]).is_ok());
}
