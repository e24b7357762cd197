//! The output-keyed package set: packages of an evaluated registry grouped by
//! the path of their `out` output.
use vstd::prelude::*;
use crate::text::views;

verus! {

/// The attributes that build one output path, and the version of one of them.
#[derive(Debug, Clone, PartialEq, Eq)]
pub struct Store {
    pub attribute: Vec<String>,
    pub version: Option<String>,
}

/// One package of an evaluated registry: its attribute name, its outputs as
/// (output name, store path) pairs, and its version if it has one.
#[derive(Debug, Clone, PartialEq, Eq)]
pub struct RegistryPackage {
    pub attribute: String,
    pub outputs: Vec<(String, String)>,
    pub version: Option<String>,
}

pub open spec fn opt_view(o: Option<String>) -> Option<Seq<char>> {
    match o {
        Some(s) => Some(s@),
        None => None,
    }
}

/// The path of the first output named `out`, if any.
pub open spec fn find_out(outs: Seq<(String, String)>) -> Option<Seq<char>>
    decreases outs.len(),
{
    if outs.len() == 0 {
        None
    } else if outs[0].0@ == "out"@ {
        Some(outs[0].1@)
    } else {
        find_out(outs.drop_first())
    }
}

pub open spec fn out_of(p: RegistryPackage) -> Option<Seq<char>> {
    find_out(p.outputs@)
}

/// The attributes, in order, of the packages whose `out` is `path`.
pub open spec fn attributes_for(pkgs: Seq<RegistryPackage>, path: Seq<char>) -> Seq<Seq<char>>
    decreases pkgs.len(),
{
    if pkgs.len() == 0 {
        Seq::<Seq<char>>::empty()
    } else {
        let rest = attributes_for(pkgs.drop_last(), path);
        if out_of(pkgs.last()) == Some(path) {
            rest.push(pkgs.last().attribute@)
        } else {
            rest
        }
    }
}

/// The version of the first package whose `out` is `path`.
pub open spec fn first_version(pkgs: Seq<RegistryPackage>, path: Seq<char>) -> Option<Seq<char>>
    decreases pkgs.len(),
{
    if pkgs.len() == 0 {
        None
    } else if out_of(pkgs.last()) == Some(path) && attributes_for(pkgs.drop_last(), path).len()
        == 0 {
        opt_view(pkgs.last().version)
    } else {
        first_version(pkgs.drop_last(), path)
    }
}

/// `r` is the grouping of `pkgs` by output path: one group per distinct `out`
/// path, holding the attributes that build it, in order, and the version of
/// the first of them; packages without an `out` output belong to no group.
pub open spec fn grouped(r: Seq<(String, Store)>, pkgs: Seq<RegistryPackage>) -> bool {
    &&& forall|i: int, j: int| 0 <= i < j < r.len() ==> (#[trigger] r[i]).0@ != (#[trigger] r[j]).0@
    &&& forall|i: int|
        #![trigger r[i]]
        0 <= i < r.len() ==> {
            &&& views(r[i].1.attribute@) == attributes_for(pkgs, r[i].0@)
            &&& opt_view(r[i].1.version) == first_version(pkgs, r[i].0@)
            &&& exists|k: int| 0 <= k < pkgs.len() && out_of(#[trigger] pkgs[k]) == Some(r[i].0@)
        }
    &&& forall|k: int|
        0 <= k < pkgs.len() && (#[trigger] out_of(pkgs[k])) is Some ==> covered(
            r,
            out_of(pkgs[k])->0,
        )
}

/// Some group of `r` has the key `path`.
#[verifier::opaque]
pub open spec fn covered(r: Seq<(String, Store)>, path: Seq<char>) -> bool {
    exists|i: int| 0 <= i < r.len() && (#[trigger] r[i]).0@ == path
}

/// A valid output-path identifier: non-empty and holding a `/`.
pub open spec fn valid_output_path(p: Seq<char>) -> bool {
    p.len() > 0 && p.contains('/')
}

proof fn lemma_attributes_absent(pkgs: Seq<RegistryPackage>, path: Seq<char>)
    requires
        forall|k: int| 0 <= k < pkgs.len() ==> out_of(#[trigger] pkgs[k]) != Some(path),
    ensures
        attributes_for(pkgs, path).len() == 0,
    decreases pkgs.len(),
{
    if pkgs.len() > 0 {
        let prev = pkgs.drop_last();
        assert forall|k: int| 0 <= k < prev.len() implies out_of(#[trigger] prev[k]) != Some(
            path,
        ) by {
            assert(prev[k] == pkgs[k]);
        }
        lemma_attributes_absent(prev, path);
        assert(pkgs.last() == pkgs[pkgs.len() - 1]);
    }
}

/// Some package whose `out` is `path` has the attribute name `name`.
pub open spec fn built_by(pkgs: Seq<RegistryPackage>, path: Seq<char>, name: Seq<char>) -> bool {
    exists|k: int|
        0 <= k < pkgs.len() && out_of(#[trigger] pkgs[k]) == Some(path) && pkgs[k].attribute@ == name
}

/// Each attribute of a group belongs to a package whose `out` is the group's path.
proof fn lemma_attributes_source(pkgs: Seq<RegistryPackage>, path: Seq<char>)
    ensures
        forall|x: int|
            0 <= x < attributes_for(pkgs, path).len() ==> built_by(
                pkgs,
                path,
                #[trigger] attributes_for(pkgs, path)[x],
            ),
    decreases pkgs.len(),
{
    if pkgs.len() > 0 {
        let prev = pkgs.drop_last();
        lemma_attributes_source(prev, path);
        let a = attributes_for(pkgs, path);
        assert forall|x: int| 0 <= x < a.len() implies built_by(pkgs, path, #[trigger] a[x]) by {
            if x < attributes_for(prev, path).len() {
                assert(built_by(prev, path, attributes_for(prev, path)[x]));
                let k = choose|k: int|
                    0 <= k < prev.len() && out_of(#[trigger] prev[k]) == Some(path)
                        && prev[k].attribute@ == attributes_for(prev, path)[x];
                assert(pkgs[k] == prev[k]);
            } else {
                assert(pkgs[pkgs.len() - 1] == pkgs.last());
            }
        }
    }
}

proof fn lemma_attributes_distinct(pkgs: Seq<RegistryPackage>, path: Seq<char>)
    requires
        forall|i: int, j: int|
            0 <= i < j < pkgs.len() ==> (#[trigger] pkgs[i]).attribute@ != (#[trigger] pkgs[j]).attribute@,
    ensures
        attributes_for(pkgs, path).no_duplicates(),
    decreases pkgs.len(),
{
    if pkgs.len() > 0 {
        let prev = pkgs.drop_last();
        assert forall|i: int, j: int| 0 <= i < j < prev.len() implies (#[trigger] prev[i]).attribute@
            != (#[trigger] prev[j]).attribute@ by {
            assert(prev[i] == pkgs[i] && prev[j] == pkgs[j]);
        }
        lemma_attributes_distinct(prev, path);
        lemma_attributes_source(prev, path);
        let a = attributes_for(prev, path);
        if out_of(pkgs.last()) == Some(path) {
            assert forall|x: int| 0 <= x < a.len() implies a[x] != pkgs.last().attribute@ by {
                assert(built_by(prev, path, a[x]));
                let k = choose|k: int|
                    0 <= k < prev.len() && out_of(#[trigger] prev[k]) == Some(path)
                        && prev[k].attribute@ == a[x];
                assert(prev[k] == pkgs[k]);
                assert(pkgs[pkgs.len() - 1] == pkgs.last());
            }
            assert(a.push(pkgs.last().attribute@).no_duplicates());
        }
    }
}

/// The path of `p`'s `out` output, if it has one.
pub fn out_path(p: &RegistryPackage) -> (r: Option<String>)
    ensures
        opt_view(r) == out_of(*p),
{
    let name = String::from_str("out");
    let n = p.outputs.len();
    let mut i: usize = 0;
    assert(p.outputs@.subrange(0, n as int) =~= p.outputs@);
    while i < n
        invariant
            i <= n == p.outputs@.len(),
            name@ == "out"@,
            find_out(p.outputs@.subrange(i as int, n as int)) == out_of(*p),
        decreases n - i,
    {
        if p.outputs[i].0 == name {
            return Some(p.outputs[i].1.clone());
        }
        assert(p.outputs@.subrange(i as int, n as int).drop_first() =~= p.outputs@.subrange(
            i + 1,
            n as int,
        ));
        i += 1;
    }
    None
}

fn copy_version(v: &Option<String>) -> (r: Option<String>)
    ensures
        opt_view(r) == opt_view(*v),
{
    match v {
        Some(s) => Some(s.clone()),
        None => None,
    }
}

proof fn lemma_step_without_out(r: Seq<(String, Store)>, prefix: Seq<RegistryPackage>, p: RegistryPackage)
    requires
        grouped(r, prefix),
        out_of(p) is None,
    ensures
        grouped(r, prefix.push(p)),
{
    let next = prefix.push(p);
    assert(next.drop_last() =~= prefix);
    assert forall|g: int| #![trigger r[g]] 0 <= g < r.len() implies {
        &&& views(r[g].1.attribute@) == attributes_for(next, r[g].0@)
        &&& opt_view(r[g].1.version) == first_version(next, r[g].0@)
        &&& exists|k: int| 0 <= k < next.len() && out_of(#[trigger] next[k]) == Some(r[g].0@)
    } by {
        let k = choose|k: int| 0 <= k < prefix.len() && out_of(#[trigger] prefix[k]) == Some(r[g].0@);
        assert(next[k] == prefix[k]);
    }
    assert forall|k: int| 0 <= k < next.len() && (#[trigger] out_of(next[k])) is Some implies covered(
        r,
        out_of(next[k])->0,
    ) by {
        reveal(covered);
        assert(next[k] == prefix[k]);
    }
}

proof fn lemma_step_existing(
    old_r: Seq<(String, Store)>,
    r: Seq<(String, Store)>,
    prefix: Seq<RegistryPackage>,
    p: RegistryPackage,
    j: int,
)
    requires
        grouped(old_r, prefix),
        forall|g: int| 0 <= g < old_r.len() ==> (#[trigger] old_r[g]).1.attribute@.len() > 0,
        0 <= j < old_r.len(),
        out_of(p) == Some(old_r[j].0@),
        r.len() == old_r.len(),
        forall|g: int| 0 <= g < r.len() && g != j ==> r[g] == old_r[g],
        r[j].0 == old_r[j].0,
        r[j].1.version == old_r[j].1.version,
        views(r[j].1.attribute@) == views(old_r[j].1.attribute@).push(p.attribute@),
    ensures
        grouped(r, prefix.push(p)),
{
    let next = prefix.push(p);
    assert(next.drop_last() =~= prefix);
    assert(next.last() == p);
    assert forall|g: int| #![trigger r[g]] 0 <= g < r.len() implies {
        &&& views(r[g].1.attribute@) == attributes_for(next, r[g].0@)
        &&& opt_view(r[g].1.version) == first_version(next, r[g].0@)
        &&& exists|k: int| 0 <= k < next.len() && out_of(#[trigger] next[k]) == Some(r[g].0@)
    } by {
        assert(old_r[g] == old_r[g]);
        let k = choose|k: int| 0 <= k < prefix.len() && out_of(#[trigger] prefix[k]) == Some(old_r[g].0@);
        assert(next[k] == prefix[k]);
        if g == j {
            assert(views(old_r[j].1.attribute@).len() == old_r[j].1.attribute@.len());
        }
    }
    assert forall|k: int| 0 <= k < next.len() && (#[trigger] out_of(next[k])) is Some implies covered(
        r,
        out_of(next[k])->0,
    ) by {
        reveal(covered);
        if k < prefix.len() {
            assert(next[k] == prefix[k]);
            let g = choose|g: int| 0 <= g < old_r.len() && (#[trigger] old_r[g]).0@ == out_of(prefix[k])->0;
            assert(r[g].0 == old_r[g].0);
        } else {
            assert(r[j].0@ == old_r[j].0@);
        }
    }
    assert forall|a: int, b: int| 0 <= a < b < r.len() implies (#[trigger] r[a]).0@ != (#[trigger] r[b]).0@ by {
        assert(r[a].0 == old_r[a].0 && r[b].0 == old_r[b].0);
        assert(old_r[a].0@ != old_r[b].0@);
    }
}

proof fn lemma_step_new(
    old_r: Seq<(String, Store)>,
    r: Seq<(String, Store)>,
    prefix: Seq<RegistryPackage>,
    p: RegistryPackage,
)
    requires
        grouped(old_r, prefix),
        r.len() == old_r.len() + 1,
        forall|g: int| 0 <= g < old_r.len() ==> r[g] == old_r[g],
        forall|g: int| 0 <= g < old_r.len() ==> (#[trigger] old_r[g]).0@ != r.last().0@,
        out_of(p) == Some(r.last().0@),
        views(r.last().1.attribute@) == seq![p.attribute@],
        opt_view(r.last().1.version) == opt_view(p.version),
    ensures
        grouped(r, prefix.push(p)),
{
    let next = prefix.push(p);
    let key = r.last().0@;
    assert(next.drop_last() =~= prefix);
    assert(next.last() == p);
    assert forall|k: int| 0 <= k < prefix.len() implies out_of(#[trigger] prefix[k]) != Some(key) by {
        reveal(covered);
        if out_of(prefix[k]) == Some(key) {
            let g = choose|g: int| 0 <= g < old_r.len() && (#[trigger] old_r[g]).0@ == out_of(prefix[k])->0;
        }
    }
    lemma_attributes_absent(prefix, key);
    assert(attributes_for(prefix, key) =~= Seq::<Seq<char>>::empty());
    assert forall|g: int| #![trigger r[g]] 0 <= g < r.len() implies {
        &&& views(r[g].1.attribute@) == attributes_for(next, r[g].0@)
        &&& opt_view(r[g].1.version) == first_version(next, r[g].0@)
        &&& exists|k: int| 0 <= k < next.len() && out_of(#[trigger] next[k]) == Some(r[g].0@)
    } by {
        if g < old_r.len() {
            assert(old_r[g] == old_r[g]);
            let k = choose|k: int| 0 <= k < prefix.len() && out_of(#[trigger] prefix[k]) == Some(old_r[g].0@);
            assert(next[k] == prefix[k]);
        } else {
            assert(next[prefix.len() as int] == p);
        }
    }
    assert forall|k: int| 0 <= k < next.len() && (#[trigger] out_of(next[k])) is Some implies covered(
        r,
        out_of(next[k])->0,
    ) by {
        reveal(covered);
        if k < prefix.len() {
            assert(next[k] == prefix[k]);
            let g = choose|g: int| 0 <= g < old_r.len() && (#[trigger] old_r[g]).0@ == out_of(prefix[k])->0;
            assert(r[g] == old_r[g]);
        } else {
            assert(r[old_r.len() as int] == r.last());
        }
    }
    assert forall|a: int, b: int| 0 <= a < b < r.len() implies (#[trigger] r[a]).0@ != (#[trigger] r[b]).0@ by {
        assert(r[a] == old_r[a]);
        if b < old_r.len() {
            assert(r[b] == old_r[b]);
        } else {
            assert(r[b] == r.last());
        }
    }
}

/// Groups the packages by the path of their `out` output. Each path gets one
/// group whose attributes are those of the packages that build it, in order,
/// and whose version is that of the first of them; packages without an `out`
/// output are left out.
pub fn group_by_output(pkgs: &Vec<RegistryPackage>) -> (r: Vec<(String, Store)>)
    ensures
        grouped(r@, pkgs@),
{
    let mut r: Vec<(String, Store)> = Vec::new();
    let mut i: usize = 0;
    while i < pkgs.len()
        invariant
            i <= pkgs@.len(),
            grouped(r@, pkgs@.subrange(0, i as int)),
            forall|g: int| 0 <= g < r@.len() ==> (#[trigger] r@[g]).1.attribute@.len() > 0,
        decreases pkgs.len() - i,
    {
        let ghost prefix = pkgs@.subrange(0, i as int);
        let ghost p = pkgs@[i as int];
        assert(pkgs@.subrange(0, i + 1) =~= prefix.push(p));
        let ghost old_r = r@;
        match out_path(&pkgs[i]) {
            None => {
                proof {
                    lemma_step_without_out(r@, prefix, p);
                }
            },
            Some(o) => {
                let n = r.len();
                let mut j: usize = 0;
                while j < n && r[j].0 != o
                    invariant
                        j <= n == r@.len(),
                        forall|g: int| 0 <= g < j ==> (#[trigger] r@[g]).0@ != o@,
                    decreases n - j,
                {
                    j += 1;
                }
                let attr = pkgs[i].attribute.clone();
                if j < n {
                    r[j].1.attribute.push(attr);
                    proof {
                        assert(views(r@[j as int].1.attribute@) =~= views(
                            old_r[j as int].1.attribute@,
                        ).push(attr@));
                        lemma_step_existing(old_r, r@, prefix, p, j as int);
                        assert forall|g: int| 0 <= g < r@.len() implies (#[trigger] r@[g]).1.attribute@.len() > 0 by {
                            if g != j {
                                assert(r@[g] == old_r[g]);
                            }
                        }
                    }
                } else {
                    let mut attrs: Vec<String> = Vec::new();
                    attrs.push(attr);
                    let version = copy_version(&pkgs[i].version);
                    r.push((o, Store { attribute: attrs, version }));
                    proof {
                        assert(views(attrs@) =~= seq![p.attribute@]);
                        lemma_step_new(old_r, r@, prefix, p);
                        assert forall|g: int| 0 <= g < r@.len() implies (#[trigger] r@[g]).1.attribute@.len() > 0 by {
                            if g < n {
                                assert(r@[g] == old_r[g]);
                            }
                        }
                    }
                }
            },
        }
        i += 1;
    }
    assert(pkgs@.subrange(0, i as int) =~= pkgs@);
    r
}

/// Every group of an evaluated registry has at least one attribute and no
/// attribute twice, and its key is a valid output path when every package's
/// `out` is one.
pub proof fn lemma_groups_well_formed(r: Seq<(String, Store)>, pkgs: Seq<RegistryPackage>)
    requires
        grouped(r, pkgs),
        forall|i: int, j: int|
            0 <= i < j < pkgs.len() ==> (#[trigger] pkgs[i]).attribute@ != (#[trigger] pkgs[j]).attribute@,
        forall|k: int|
            0 <= k < pkgs.len() && (#[trigger] out_of(pkgs[k])) is Some ==> valid_output_path(
                out_of(pkgs[k])->0,
            ),
    ensures
        forall|g: int|
            #![trigger r[g]]
            0 <= g < r.len() ==> {
                &&& r[g].1.attribute@.len() > 0
                &&& views(r[g].1.attribute@).no_duplicates()
                &&& valid_output_path(r[g].0@)
            },
{
    assert forall|g: int| #![trigger r[g]] 0 <= g < r.len() implies {
        &&& r[g].1.attribute@.len() > 0
        &&& views(r[g].1.attribute@).no_duplicates()
        &&& valid_output_path(r[g].0@)
    } by {
        let k = choose|k: int| 0 <= k < pkgs.len() && out_of(#[trigger] pkgs[k]) == Some(r[g].0@);
        lemma_attributes_distinct(pkgs, r[g].0@);
        lemma_attributes_present(pkgs, r[g].0@, k);
        assert(views(r[g].1.attribute@).len() == r[g].1.attribute@.len());
    }
}

proof fn lemma_attributes_present(pkgs: Seq<RegistryPackage>, path: Seq<char>, k: int)
    requires
        0 <= k < pkgs.len(),
        out_of(pkgs[k]) == Some(path),
    ensures
        attributes_for(pkgs, path).len() > 0,
    decreases pkgs.len(),
{
    if k < pkgs.len() - 1 {
        assert(pkgs.drop_last()[k] == pkgs[k]);
        lemma_attributes_present(pkgs.drop_last(), path, k);
    }
}

} // verus!
