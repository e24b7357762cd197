//! Driving the evaluator for the output-keyed package set: the expressions
//! and search paths it is given, and the decisions between its runs (resolve
//! the source tree, enumerate the registry, retry once with a minimal
//! configuration).
use vstd::prelude::*;
use crate::text::{chars_of, last_segment, last_segment_of, string_of};

verus! {

/// The expression that resolves the pinned source tree's path.
pub const SOURCE_TREE_EXPRESSION: &'static str = "with import <nixpkgs> {}; pkgs.path";

/// Where the registry expression lives, beside the working directory.
pub const REGISTRY: &'static str = "./registry.nix";

/// What the driver does next.
#[derive(Debug, PartialEq, Eq, Structural)]
pub enum EvalAction {
    /// Enumerate the registry under the resolved source tree, with the full
    /// package configuration or, on the retry, the minimal one.
    EnumerateRegistry { minimal: bool },
    /// The last run succeeded: parse its output.
    ParseRegistry,
    /// The revision cannot be resolved: stop the whole run with a failure.
    AbortRun,
    /// Both enumerations failed: the revision fails.
    GiveUp,
}

#[derive(Debug, PartialEq, Eq, Structural)]
pub enum EvalStage {
    SourceTree,
    Registry,
    MinimalRegistry,
    Enumerated,
    Unreachable,
    Failed,
}

/// The driver's state for one revision.
pub struct Evaluation {
    pub stage: EvalStage,
    /// The resolved source tree, once known.
    pub source_path: String,
}

/// `char::is_whitespace`: the characters with the Unicode White_Space property.
pub open spec fn is_space(c: char) -> bool {
    ('\u{9}' <= c <= '\u{d}') || c == ' ' || c == '\u{85}' || c == '\u{a0}' || c == '\u{1680}'
        || ('\u{2000}' <= c <= '\u{200a}') || c == '\u{2028}' || c == '\u{2029}' || c
        == '\u{202f}' || c == '\u{205f}' || c == '\u{3000}'
}

pub open spec fn strip_leading_space(s: Seq<char>) -> Seq<char>
    decreases s.len(),
{
    if s.len() > 0 && is_space(s[0]) {
        strip_leading_space(s.drop_first())
    } else {
        s
    }
}

pub open spec fn strip_trailing_space(s: Seq<char>) -> Seq<char>
    decreases s.len(),
{
    if s.len() > 0 && is_space(s.last()) {
        strip_trailing_space(s.drop_last())
    } else {
        s
    }
}

/// `s` without whitespace at either end, as `str::trim` gives it.
pub open spec fn trim_space(s: Seq<char>) -> Seq<char> {
    strip_trailing_space(strip_leading_space(s))
}

/// The search path that pins `<nixpkgs>` to the archive of a revision.
pub open spec fn archive_search_path(rev: Seq<char>) -> Seq<char> {
    "nixpkgs=https://github.com/NixOS/nixpkgs/archive/"@ + rev + ".tar.gz"@
}

/// The registry expression over the source tree at `path`.
pub open spec fn registry_expression(path: Seq<char>, minimal: bool) -> Seq<char> {
    "with import "@ + path + if minimal {
        " { config = { allowAliases = false; }; }"@
    } else {
        " { config = import "@ + path + "/pkgs/top-level/packages-config.nix; }"@
    } + "; (import "@ + REGISTRY@ + " { inherit lib; }).genRegistry \"x86_64-linux\" pkgs"@
}

/// What the driver does after a run, and the stage it moves to.
pub open spec fn next_step(stage: EvalStage, succeeded: bool) -> (EvalStage, EvalAction) {
    match stage {
        EvalStage::SourceTree => if succeeded {
            (EvalStage::Registry, EvalAction::EnumerateRegistry { minimal: false })
        } else {
            (EvalStage::Unreachable, EvalAction::AbortRun)
        },
        EvalStage::Registry => if succeeded {
            (EvalStage::Enumerated, EvalAction::ParseRegistry)
        } else {
            (EvalStage::MinimalRegistry, EvalAction::EnumerateRegistry { minimal: true })
        },
        EvalStage::MinimalRegistry => if succeeded {
            (EvalStage::Enumerated, EvalAction::ParseRegistry)
        } else {
            (EvalStage::Failed, EvalAction::GiveUp)
        },
        EvalStage::Enumerated => (EvalStage::Enumerated, EvalAction::ParseRegistry),
        EvalStage::Unreachable => (EvalStage::Unreachable, EvalAction::AbortRun),
        EvalStage::Failed => (EvalStage::Failed, EvalAction::GiveUp),
    }
}

fn space(c: char) -> (r: bool)
    ensures
        r == is_space(c),
{
    ('\u{9}' <= c && c <= '\u{d}') || c == ' ' || c == '\u{85}' || c == '\u{a0}' || c
        == '\u{1680}' || ('\u{2000}' <= c && c <= '\u{200a}') || c == '\u{2028}' || c
        == '\u{2029}' || c == '\u{202f}' || c == '\u{205f}' || c == '\u{3000}'
}

/// `s` without whitespace at either end.
pub fn trim_space_of(s: &str) -> (r: String)
    ensures
        r@ == trim_space(s@),
{
    let chars = chars_of(s);
    let n = chars.len();
    let mut lo: usize = 0;
    assert(s@.subrange(0, n as int) =~= s@);
    while lo < n && space(chars[lo])
        invariant
            lo <= n == chars@.len(),
            chars@ == s@,
            strip_leading_space(s@.subrange(lo as int, n as int)) == strip_leading_space(s@),
        decreases n - lo,
    {
        assert(s@.subrange(lo as int, n as int).drop_first() =~= s@.subrange(lo + 1, n as int));
        lo += 1;
    }
    let ghost front = s@.subrange(lo as int, n as int);
    assert(strip_leading_space(front) == front);
    let mut hi: usize = n;
    while hi > lo && space(chars[hi - 1])
        invariant
            lo <= hi <= n == chars@.len(),
            chars@ == s@,
            front == s@.subrange(lo as int, n as int),
            strip_trailing_space(s@.subrange(lo as int, hi as int)) == strip_trailing_space(front),
        decreases hi,
    {
        assert(s@.subrange(lo as int, hi as int).drop_last() =~= s@.subrange(lo as int, hi - 1));
        hi -= 1;
    }
    string_of(&chars, lo, hi)
}

/// The part of a revision name after its last `.`: the short git hash that
/// the archive is published under.
pub fn short_revision(rev: &str) -> (r: String)
    ensures
        r@ == last_segment(rev@, '.'),
{
    last_segment_of(rev, '.')
}

pub fn archive_search_path_of(rev: &str) -> (r: String)
    ensures
        r@ == archive_search_path(rev@),
{
    let mut r = String::from_str("nixpkgs=https://github.com/NixOS/nixpkgs/archive/");
    r.append(rev);
    r.append(".tar.gz");
    r
}

/// The search path that pins `<nixpkgs>` to the resolved source tree.
pub fn tree_search_path(path: &str) -> (r: String)
    ensures
        r@ == "nixpkgs="@ + path@,
{
    let mut r = String::from_str("nixpkgs=");
    r.append(path);
    r
}

pub fn registry_expression_of(path: &str, minimal: bool) -> (r: String)
    ensures
        r@ == registry_expression(path@, minimal),
{
    let mut r = String::from_str("with import ");
    r.append(path);
    if minimal {
        r.append(" { config = { allowAliases = false; }; }");
    } else {
        r.append(" { config = import ");
        r.append(path);
        r.append("/pkgs/top-level/packages-config.nix; }");
    }
    r.append("; (import ");
    r.append(REGISTRY);
    r.append(" { inherit lib; }).genRegistry \"x86_64-linux\" pkgs");
    r
}

impl Evaluation {
    /// A driver that has run nothing yet; its first action resolves the source tree.
    pub fn new() -> (r: Evaluation)
        ensures
            r.stage == EvalStage::SourceTree,
            r.source_path@.len() == 0,
    {
        Evaluation { stage: EvalStage::SourceTree, source_path: String::new() }
    }

    /// The expression for the next enumeration.
    pub fn registry_expression(&self, minimal: bool) -> (r: String)
        ensures
            r@ == registry_expression(self.source_path@, minimal),
    {
        registry_expression_of(self.source_path.as_str(), minimal)
    }

    /// Takes the outcome of the last run: whether it succeeded, and what it
    /// printed. A successful source-tree run sets the source path to its
    /// output without surrounding whitespace.
    pub fn step(&mut self, succeeded: bool, stdout: &str) -> (r: EvalAction)
        ensures
            (final(self).stage, r) == next_step(old(self).stage, succeeded),
            final(self).source_path@ == if old(self).stage == EvalStage::SourceTree && succeeded {
                trim_space(stdout@)
            } else {
                old(self).source_path@
            },
    {
        match self.stage {
            EvalStage::SourceTree => {
                if succeeded {
                    self.source_path = trim_space_of(stdout);
                    self.stage = EvalStage::Registry;
                    EvalAction::EnumerateRegistry { minimal: false }
                } else {
                    self.stage = EvalStage::Unreachable;
                    EvalAction::AbortRun
                }
            },
            EvalStage::Registry => {
                if succeeded {
                    self.stage = EvalStage::Enumerated;
                    EvalAction::ParseRegistry
                } else {
                    self.stage = EvalStage::MinimalRegistry;
                    EvalAction::EnumerateRegistry { minimal: true }
                }
            },
            EvalStage::MinimalRegistry => {
                if succeeded {
                    self.stage = EvalStage::Enumerated;
                    EvalAction::ParseRegistry
                } else {
                    self.stage = EvalStage::Failed;
                    EvalAction::GiveUp
                }
            },
            EvalStage::Enumerated => EvalAction::ParseRegistry,
            EvalStage::Unreachable => EvalAction::AbortRun,
            EvalStage::Failed => EvalAction::GiveUp,
        }
    }
}

/// The run is aborted exactly when the source tree cannot be resolved, and a
/// revision fails only after the minimal retry failed too.
pub proof fn lemma_abort_only_on_unreachable(stage: EvalStage, succeeded: bool)
    ensures
        next_step(stage, succeeded).1 == EvalAction::AbortRun <==> (stage == EvalStage::SourceTree
            && !succeeded) || stage == EvalStage::Unreachable,
        next_step(stage, succeeded).1 == EvalAction::GiveUp <==> (stage == EvalStage::MinimalRegistry
            && !succeeded) || stage == EvalStage::Failed,
{
}

} // verus!
