use libsnow_generators::evaluation::{
    archive_search_path_of, registry_expression_of, short_revision, tree_search_path, trim_space_of, EvalAction,
    EvalStage, Evaluation, SOURCE_TREE_EXPRESSION,
};

#[test]
fn unreachable_revision_aborts_the_run() {
    let mut ev = Evaluation::new();
    assert_eq!(ev.stage, EvalStage::SourceTree);
    assert_eq!(ev.step(false, ""), EvalAction::AbortRun);
    assert_eq!(ev.stage, EvalStage::Unreachable);
    assert_eq!(ev.step(true, "/nix/store/x"), EvalAction::AbortRun);
    assert_eq!(ev.source_path, "");
}

#[test]
fn failed_enumeration_is_retried_once_with_minimal_config() {
    let mut ev = Evaluation::new();
    assert_eq!(ev.step(true, "  /nix/store/src-nixpkgs\n"), EvalAction::EnumerateRegistry { minimal: false });
    assert_eq!(ev.source_path, "/nix/store/src-nixpkgs");
    assert_eq!(ev.step(false, ""), EvalAction::EnumerateRegistry { minimal: true });
    assert_eq!(ev.step(true, "{}"), EvalAction::ParseRegistry);
    assert_eq!(ev.stage, EvalStage::Enumerated);

    let mut ev = Evaluation::new();
    ev.step(true, "/nix/store/src");
    ev.step(false, "");
    assert_eq!(ev.step(false, ""), EvalAction::GiveUp);
    assert_eq!(ev.stage, EvalStage::Failed);

    let mut ev = Evaluation::new();
    ev.step(true, "/nix/store/src");
    assert_eq!(ev.step(true, "{}"), EvalAction::ParseRegistry);
}

#[test]
fn evaluator_arguments() {
    assert_eq!(SOURCE_TREE_EXPRESSION, "with import <nixpkgs> {}; pkgs.path");
    assert_eq!(short_revision("nixpkgs-24.05pre564493.b0d36bd0a420"), "b0d36bd0a420");
    assert_eq!(
        archive_search_path_of("b0d36bd0a420"),
        "nixpkgs=https://github.com/NixOS/nixpkgs/archive/b0d36bd0a420.tar.gz"
    );
    assert_eq!(tree_search_path("/nix/store/src"), "nixpkgs=/nix/store/src");
    assert_eq!(
        registry_expression_of("/nix/store/src", false),
        "with import /nix/store/src { config = import /nix/store/src/pkgs/top-level/packages-config.nix; }; (import ./registry.nix { inherit lib; }).genRegistry \"x86_64-linux\" pkgs"
    );
    assert_eq!(
        registry_expression_of("/nix/store/src", true),
        "with import /nix/store/src { config = { allowAliases = false; }; }; (import ./registry.nix { inherit lib; }).genRegistry \"x86_64-linux\" pkgs"
    );
}

#[test]
fn whitespace_trim() {
    assert_eq!(trim_space_of("\t /nix/store/a \r\n"), "/nix/store/a");
    assert_eq!(trim_space_of("\u{3000}x\u{a0}"), "x");
    assert_eq!(trim_space_of("   "), "");
}
