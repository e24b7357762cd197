use libsnow_generators::markers::{
    family_of, marker_path, marker_writes, processed_path, read_marker, release_channel, ChannelRevisions,
    Family, MarkerWrite,
};

fn channel(name: &str, revs: &[&str]) -> ChannelRevisions {
    ChannelRevisions { channel: name.to_string(), revisions: revs.iter().map(|r| r.to_string()).collect() }
}

#[test]
fn markers_advance_to_the_last_revision_and_skip_idle_channels() {
    let chs = vec![
        channel("nixpkgs", &["r4", "r5"]),
        channel("nixos/23.11", &[]),
        channel("nixos/24.05", &["s1"]),
    ];
    let writes = marker_writes(&chs);
    assert_eq!(
        writes,
        vec![
            MarkerWrite { channel: "nixpkgs".to_string(), revision: "r5".to_string() },
            MarkerWrite { channel: "nixos/24.05".to_string(), revision: "s1".to_string() },
        ]
    );
}

#[test]
fn no_new_revisions_means_no_marker_writes() {
    let chs = vec![channel("nixpkgs", &[]), channel("nixos/23.11", &[])];
    assert!(marker_writes(&chs).is_empty());
}

#[test]
fn marker_round_trip() {
    let rev = "nixpkgs-24.05pre564493.b0d36bd0a420";
    assert_eq!(read_marker(rev), rev);
    assert_eq!(read_marker(&format!("{}\n", rev)), rev);
    assert_eq!(read_marker(&format!("{}\r\n", rev)), rev);
    assert_eq!(read_marker(""), "");
}

#[test]
fn families_and_paths() {
    assert_eq!(family_of("nixpkgs"), Some(Family::Flat));
    assert_eq!(family_of("nixos"), Some(Family::Releases));
    assert_eq!(family_of("other"), None);
    assert_eq!(release_channel("nixos", "23.11"), "nixos/23.11");
    assert_eq!(marker_path("./processed", "nixos/23.11"), "./processed/nixos/23.11/last");
    assert_eq!(processed_path("./processed", "nixos/23.11"), "./processed/nixos/23.11/store-paths");
}
