use libsnow_generators::markers::{marker_writes, ChannelRevisions};
use libsnow_generators::revisions::{
    listing_url_of, new_revisions, select_new_revisions, sort_by_modified, Content, DiscoveryError,
    Listing, ListingPage,
};

fn entry(key: &str, modified: &str) -> Content {
    Content { key: key.to_string(), last_modified: modified.to_string() }
}

fn names(v: &[String]) -> Vec<&str> {
    v.iter().map(|s| s.as_str()).collect()
}

fn five_revisions() -> Vec<Content> {
    vec![
        entry("nixpkgs/r1", "2024-01-01T00:00:00.000Z"),
        entry("nixpkgs/r2", "2024-01-02T00:00:00.000Z"),
        entry("nixpkgs/r3", "2024-01-03T00:00:00.000Z"),
        entry("nixpkgs/r4", "2024-01-04T00:00:00.000Z"),
        entry("nixpkgs/r5", "2024-01-05T00:00:00.000Z"),
    ]
}

#[test]
fn watermark_in_the_middle_keeps_later_revisions() {
    let revs = select_new_revisions(five_revisions(), "r3");
    assert_eq!(names(&revs), vec!["r4", "r5"]);
    let chs = vec![ChannelRevisions { channel: "nixpkgs".to_string(), revisions: revs }];
    let writes = marker_writes(&chs);
    assert_eq!(writes.len(), 1);
    assert_eq!(writes[0].channel, "nixpkgs");
    assert_eq!(writes[0].revision, "r5");
}

#[test]
fn empty_watermark_keeps_everything() {
    let listing = vec![
        entry("nixpkgs/r2", "2024-01-02T00:00:00.000Z"),
        entry("nixpkgs/r1", "2024-01-01T00:00:00.000Z"),
    ];
    let revs = select_new_revisions(listing, "");
    assert_eq!(names(&revs), vec!["r1", "r2"]);
    let chs = vec![ChannelRevisions { channel: "nixpkgs".to_string(), revisions: revs }];
    assert_eq!(marker_writes(&chs)[0].revision, "r2");
}

#[test]
fn bootstrap_returns_full_history_in_order() {
    let mut listing = five_revisions();
    listing.reverse();
    listing.swap(1, 3);
    let revs = select_new_revisions(listing, "");
    assert_eq!(names(&revs), vec!["r1", "r2", "r3", "r4", "r5"]);
}

#[test]
fn watermark_at_newest_yields_nothing_and_writes_no_marker() {
    let revs = select_new_revisions(five_revisions(), "r5");
    assert!(revs.is_empty());
    let chs = vec![ChannelRevisions { channel: "nixpkgs".to_string(), revisions: revs }];
    assert!(marker_writes(&chs).is_empty());
}

#[test]
fn order_is_by_modification_time_not_by_name() {
    let listing = vec![
        entry("nixos/23.11/b-rev", "2024-03-01T00:00:00.000Z"),
        entry("nixos/23.11/a-rev", "2024-03-02T00:00:00.000Z"),
        entry("nixos/23.11/c-rev", "2024-02-01T00:00:00.000Z"),
    ];
    let revs = select_new_revisions(listing, "");
    assert_eq!(names(&revs), vec!["c-rev", "b-rev", "a-rev"]);
}

#[test]
fn quoted_timestamps_are_compared_without_quotes() {
    let listing = vec![
        entry("nixpkgs/late", "\"2024-05-02T00:00:00.000Z\""),
        entry("nixpkgs/early", "2024-05-01T00:00:00.000Z"),
    ];
    let sorted = sort_by_modified(listing);
    assert_eq!(sorted[0].key, "nixpkgs/early");
    assert_eq!(sorted[1].key, "nixpkgs/late");
}

#[test]
fn watermark_matches_the_last_occurrence() {
    let listing = vec![
        entry("nixpkgs/r1", "2024-01-01T00:00:00.000Z"),
        entry("nixpkgs/r2", "2024-01-02T00:00:00.000Z"),
        entry("nixpkgs/r1", "2024-01-03T00:00:00.000Z"),
        entry("nixpkgs/r3", "2024-01-04T00:00:00.000Z"),
    ];
    let revs = new_revisions(&listing, "r1");
    assert_eq!(names(&revs), vec!["r3"]);
}

#[test]
fn listing_url_has_prefix_and_marker() {
    assert_eq!(
        listing_url_of("nixos/23.11", "nixos/23.11/nixos-23.11.1"),
        "https://nix-releases.s3.amazonaws.com/?delimiter=/&prefix=nixos/23.11/&marker=nixos/23.11/nixos-23.11.1"
    );
    let listing = Listing::new();
    assert_eq!(
        listing.next_url("nixpkgs"),
        "https://nix-releases.s3.amazonaws.com/?delimiter=/&prefix=nixpkgs/&marker="
    );
}

#[test]
fn truncated_full_page_is_paginated() {
    let mut listing = Listing::new();
    assert!(!listing.is_complete());
    let first: Vec<Content> = (0..1000)
        .map(|i| entry(&format!("nixpkgs/rev-{:04}", i), &format!("2020-01-01T00:{:02}:{:02}.000Z", i / 60, i % 60)))
        .collect();
    assert!(listing.absorb(ListingPage { contents: first, is_truncated: true }).is_ok());
    assert!(!listing.is_complete());
    assert_eq!(listing.marker, "nixpkgs/rev-0999");
    assert_eq!(
        listing.next_url("nixpkgs"),
        "https://nix-releases.s3.amazonaws.com/?delimiter=/&prefix=nixpkgs/&marker=nixpkgs/rev-0999"
    );
    let second = vec![entry("nixpkgs/rev-1000", "2021-01-01T00:00:00.000Z")];
    assert!(listing.absorb(ListingPage { contents: second, is_truncated: false }).is_ok());
    assert!(listing.is_complete());
    assert_eq!(listing.objects.len(), 1001);
    let revs = select_new_revisions(listing.objects, "rev-0997");
    assert_eq!(names(&revs), vec!["rev-0998", "rev-0999", "rev-1000"]);
}

#[test]
fn truncated_empty_page_is_an_error() {
    let mut listing = Listing::new();
    let r = listing.absorb(ListingPage { contents: vec![], is_truncated: true });
    assert_eq!(r, Err(DiscoveryError::TruncatedEmptyPage));
    assert!(listing.objects.is_empty());
    assert!(!listing.is_complete());
}

#[test]
fn empty_final_page_ends_the_listing() {
    let mut listing = Listing::new();
    assert!(listing.absorb(ListingPage { contents: vec![], is_truncated: false }).is_ok());
    assert!(listing.is_complete());
    assert!(select_new_revisions(listing.objects, "").is_empty());
}
