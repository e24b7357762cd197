//! The tabular sink: which output groups are new since the last run, what the
//! processed-outputs file holds afterwards, and how puts are batched.
use vstd::prelude::*;
use crate::outputs::{opt_view, Store};
use crate::text::{push_char, split_chars, split_on, views};

verus! {

/// The most puts that one batch write may carry.
pub const BATCH_LIMIT: usize = 25;

/// What an output group says: its path, its attributes and its version.
pub type EntryView = (Seq<char>, Seq<Seq<char>>, Option<Seq<char>>);

pub open spec fn entry_view(e: (String, Store)) -> EntryView {
    (e.0@, views(e.1.attribute@), opt_view(e.1.version))
}

pub open spec fn entries_view(es: Seq<(String, Store)>) -> Seq<EntryView> {
    es.map_values(|e: (String, Store)| entry_view(e))
}

/// The paths of the groups, in order.
pub open spec fn entry_keys(es: Seq<(String, Store)>) -> Seq<Seq<char>> {
    es.map_values(|e: (String, Store)| e.0@)
}

/// The groups whose path is not among `processed`, in order.
pub open spec fn unprocessed(es: Seq<(String, Store)>, processed: Seq<Seq<char>>) -> Seq<EntryView>
    decreases es.len(),
{
    if es.len() == 0 {
        Seq::<EntryView>::empty()
    } else {
        let rest = unprocessed(es.drop_last(), processed);
        if processed.contains(es.last().0@) {
            rest
        } else {
            rest.push(entry_view(es.last()))
        }
    }
}

/// The lines joined by newlines, with none after the last.
pub open spec fn join_lines(lines: Seq<Seq<char>>) -> Seq<char>
    decreases lines.len(),
{
    if lines.len() == 0 {
        Seq::<char>::empty()
    } else if lines.len() == 1 {
        lines[0]
    } else {
        join_lines(lines.drop_last()).push('\n') + lines.last()
    }
}

/// The items of the chunks, one chunk after the other.
pub open spec fn concat_all<T>(chunks: Seq<Seq<T>>) -> Seq<T>
    decreases chunks.len(),
{
    if chunks.len() == 0 {
        Seq::<T>::empty()
    } else {
        concat_all(chunks.drop_last()) + chunks.last()
    }
}

/// `chunks` cuts `items`, in order, into batches of `BATCH_LIMIT`, with what
/// is left in a shorter last batch.
pub open spec fn batched<T>(chunks: Seq<Seq<T>>, items: Seq<T>) -> bool {
    &&& concat_all(chunks) == items
    &&& forall|c: int| 0 <= c < chunks.len() ==> 0 < (#[trigger] chunks[c]).len() <= BATCH_LIMIT
    &&& forall|c: int| 0 <= c < chunks.len() - 1 ==> (#[trigger] chunks[c]).len() == BATCH_LIMIT
}

/// The lines of a processed-outputs file, as `contents.split('\n')` gives them.
pub fn parse_processed(contents: &str) -> (r: Vec<String>)
    ensures
        views(r@) == split_on(contents@, '\n'),
{
    split_chars(contents, '\n')
}

/// What the processed-outputs file holds after a revision: the path of every
/// group, one per line.
pub fn processed_contents(entries: &Vec<(String, Store)>) -> (r: String)
    ensures
        r@ == join_lines(entry_keys(entries@)),
{
    let mut r = String::new();
    let mut i: usize = 0;
    while i < entries.len()
        invariant
            i <= entries@.len(),
            r@ == join_lines(entry_keys(entries@).subrange(0, i as int)),
        decreases entries.len() - i,
    {
        let ghost keys = entry_keys(entries@);
        assert(keys.subrange(0, i + 1).drop_last() =~= keys.subrange(0, i as int));
        if i > 0 {
            push_char(&mut r, '\n');
        } else {
            assert(r@ =~= Seq::<char>::empty());
        }
        r.append(entries[i].0.as_str());
        i += 1;
    }
    assert(entry_keys(entries@).subrange(0, i as int) =~= entry_keys(entries@));
    r
}

fn copy_strings(v: &Vec<String>) -> (r: Vec<String>)
    ensures
        views(r@) == views(v@),
{
    let mut r: Vec<String> = Vec::new();
    let mut i: usize = 0;
    while i < v.len()
        invariant
            i <= v@.len(),
            views(r@) == views(v@).subrange(0, i as int),
        decreases v.len() - i,
    {
        let c = v[i].clone();
        let ghost before = r@;
        r.push(c);
        assert(views(r@) =~= views(before).push(c@));
        assert(views(v@).subrange(0, i + 1) =~= views(v@).subrange(0, i as int).push(v@[i as int]@));
        i += 1;
    }
    assert(views(v@).subrange(0, i as int) =~= views(v@));
    r
}

fn copy_entry(e: &(String, Store)) -> (r: (String, Store))
    ensures
        entry_view(r) == entry_view(*e),
{
    let version = match &e.1.version {
        Some(v) => Some(v.clone()),
        None => None,
    };
    (e.0.clone(), Store { attribute: copy_strings(&e.1.attribute), version })
}

fn is_listed(processed: &Vec<String>, key: &String) -> (r: bool)
    ensures
        r == views(processed@).contains(key@),
{
    let mut i: usize = 0;
    while i < processed.len()
        invariant
            i <= processed@.len(),
            forall|k: int| 0 <= k < i ==> (#[trigger] processed@[k])@ != key@,
        decreases processed.len() - i,
    {
        if processed[i] == *key {
            assert(views(processed@)[i as int] == key@);
            return true;
        }
        i += 1;
    }
    assert(!views(processed@).contains(key@)) by {
        if views(processed@).contains(key@) {
            let k = choose|k: int| 0 <= k < processed@.len() && views(processed@)[k] == key@;
            assert(processed@[k]@ == key@);
        }
    }
    false
}

/// The groups whose path the previous run did not see, in order.
pub fn new_entries(entries: &Vec<(String, Store)>, processed: &Vec<String>) -> (r: Vec<(String, Store)>)
    ensures
        entries_view(r@) == unprocessed(entries@, views(processed@)),
{
    let mut r: Vec<(String, Store)> = Vec::new();
    let mut i: usize = 0;
    while i < entries.len()
        invariant
            i <= entries@.len(),
            entries_view(r@) == unprocessed(entries@.subrange(0, i as int), views(processed@)),
        decreases entries.len() - i,
    {
        assert(entries@.subrange(0, i + 1).drop_last() =~= entries@.subrange(0, i as int));
        if !is_listed(processed, &entries[i].0) {
            let e = copy_entry(&entries[i]);
            let ghost before = r@;
            r.push(e);
            assert(entries_view(r@) =~= entries_view(before).push(entry_view(e)));
        }
        i += 1;
    }
    assert(entries@.subrange(0, i as int) =~= entries@);
    r
}

/// Cuts `items`, in order, into batches of `BATCH_LIMIT` puts, with what is
/// left in a shorter last batch.
pub fn chunk_puts<T>(items: Vec<T>) -> (r: Vec<Vec<T>>)
    ensures
        batched(r@.map_values(|c: Vec<T>| c@), items@),
{
    let ghost all = items@;
    let n = items.len();
    let mut items = items;
    let mut reversed: Vec<T> = Vec::new();
    while items.len() > 0
        invariant
            n == all.len(),
            items@ == all.subrange(0, items@.len() as int),
            reversed@.len() + items@.len() == n,
            forall|k: int| 0 <= k < reversed@.len() ==> #[trigger] reversed@[k] == all[n - 1 - k],
        decreases items.len(),
    {
        let x = items.pop().unwrap();
        reversed.push(x);
    }
    let mut chunks: Vec<Vec<T>> = Vec::new();
    let mut cur: Vec<T> = Vec::new();
    while reversed.len() > 0
        invariant
            n == all.len(),
            reversed@.len() <= n,
            forall|k: int| 0 <= k < reversed@.len() ==> #[trigger] reversed@[k] == all[n - 1 - k],
            concat_all(chunks@.map_values(|c: Vec<T>| c@)) + cur@ == all.subrange(
                0,
                n - reversed@.len(),
            ),
            forall|c: int| 0 <= c < chunks@.len() ==> (#[trigger] chunks@[c])@.len() == BATCH_LIMIT,
            cur@.len() <= BATCH_LIMIT,
            reversed@.len() < n ==> cur@.len() > 0,
        decreases reversed.len(),
    {
        let ghost i = n - reversed@.len();
        let x = reversed.pop().unwrap();
        assert(x == all[i]);
        if cur.len() == BATCH_LIMIT {
            let ghost before = chunks@;
            let full = cur;
            chunks.push(full);
            cur = Vec::new();
            proof {
                let vs = chunks@.map_values(|c: Vec<T>| c@);
                assert(vs.drop_last() =~= before.map_values(|c: Vec<T>| c@));
                assert(vs.last() == full@);
                assert(concat_all(vs) + cur@ =~= concat_all(vs));
            }
        }
        let ghost prev_cur = cur@;
        cur.push(x);
        assert(concat_all(chunks@.map_values(|c: Vec<T>| c@)) + cur@ =~= (concat_all(
            chunks@.map_values(|c: Vec<T>| c@),
        ) + prev_cur).push(x));
        assert(all.subrange(0, i + 1) =~= all.subrange(0, i).push(x));
    }
    if cur.len() > 0 {
        let ghost before = chunks@;
        let last = cur;
        chunks.push(last);
        proof {
            let vs = chunks@.map_values(|c: Vec<T>| c@);
            assert(vs.drop_last() =~= before.map_values(|c: Vec<T>| c@));
            assert(vs.last() == last@);
        }
    } else {
        assert(concat_all(chunks@.map_values(|c: Vec<T>| c@)) + cur@ =~= concat_all(
            chunks@.map_values(|c: Vec<T>| c@),
        ));
    }
    assert(all.subrange(0, n as int) =~= all);
    chunks
}

proof fn lemma_split_single(t: Seq<char>, sep: char)
    requires
        !t.contains(sep),
    ensures
        split_on(t, sep) == seq![t],
    decreases t.len(),
{
    if t.len() > 0 {
        assert(!t.drop_last().contains(sep)) by {
            if t.drop_last().contains(sep) {
                let k = choose|k: int| 0 <= k < t.drop_last().len() && t.drop_last()[k] == sep;
                assert(t[k] == sep);
            }
        }
        lemma_split_single(t.drop_last(), sep);
        assert(t[t.len() - 1] == t.last());
        assert(t.drop_last().push(t.last()) =~= t);
        assert(seq![t.drop_last()].update(0, t.drop_last().push(t.last())) =~= seq![t]);
    } else {
        assert(t =~= Seq::<char>::empty());
    }
}

proof fn lemma_split_piece(s: Seq<char>, t: Seq<char>, sep: char)
    requires
        !t.contains(sep),
    ensures
        split_on(s.push(sep) + t, sep) == split_on(s, sep).push(t),
    decreases t.len(),
{
    let x = s.push(sep) + t;
    if t.len() == 0 {
        assert(x =~= s.push(sep));
        assert(x.drop_last() =~= s);
        assert(t =~= Seq::<char>::empty());
    } else {
        let u = t.drop_last();
        assert(!u.contains(sep)) by {
            if u.contains(sep) {
                let k = choose|k: int| 0 <= k < u.len() && u[k] == sep;
                assert(t[k] == sep);
            }
        }
        lemma_split_piece(s, u, sep);
        assert(x.drop_last() =~= s.push(sep) + u);
        assert(x.last() == t[t.len() - 1]);
        assert(u.push(t.last()) =~= t);
        crate::text::lemma_split_nonempty(s, sep);
    }
}

/// Writing the paths of the groups one per line and reading the file back by
/// splitting on newlines yields the same paths, when there is at least one
/// and none holds a newline.
pub proof fn lemma_processed_round_trip(lines: Seq<Seq<char>>)
    requires
        lines.len() > 0,
        forall|i: int| 0 <= i < lines.len() ==> !(#[trigger] lines[i]).contains('\n'),
    ensures
        split_on(join_lines(lines), '\n') == lines,
    decreases lines.len(),
{
    if lines.len() == 1 {
        lemma_split_single(lines[0], '\n');
        assert(seq![lines[0]] =~= lines);
    } else {
        let prev = lines.drop_last();
        assert forall|i: int| 0 <= i < prev.len() implies !(#[trigger] prev[i]).contains('\n') by {
            assert(prev[i] == lines[i]);
        }
        lemma_processed_round_trip(prev);
        assert(lines.last() == lines[lines.len() - 1]);
        lemma_split_piece(join_lines(prev), lines.last(), '\n');
        assert(prev.push(lines.last()) =~= lines);
    }
}

/// The groups written are exactly those whose path the previous run did not
/// see: each written group is one of the current groups with an unseen path,
/// and each current group with an unseen path is written.
pub proof fn lemma_delta_is_difference(es: Seq<(String, Store)>, processed: Seq<Seq<char>>)
    ensures
        forall|x: int|
            0 <= x < unprocessed(es, processed).len() ==> {
                &&& !processed.contains((#[trigger] unprocessed(es, processed)[x]).0)
                &&& entries_view(es).contains(unprocessed(es, processed)[x])
            },
        forall|k: int|
            0 <= k < es.len() && !processed.contains((#[trigger] es[k]).0@) ==> unprocessed(
                es,
                processed,
            ).contains(entry_view(es[k])),
    decreases es.len(),
{
    if es.len() > 0 {
        let prev = es.drop_last();
        lemma_delta_is_difference(prev, processed);
        let u = unprocessed(es, processed);
        let pu = unprocessed(prev, processed);
        assert forall|x: int| 0 <= x < u.len() implies {
            &&& !processed.contains((#[trigger] u[x]).0)
            &&& entries_view(es).contains(u[x])
        } by {
            if x < pu.len() {
                assert(u[x] == pu[x]);
                let k = choose|k: int| 0 <= k < entries_view(prev).len() && entries_view(prev)[k] == pu[x];
                assert(entries_view(es)[k] == entries_view(prev)[k]);
            } else {
                assert(entries_view(es)[es.len() - 1] == u[x]);
            }
        }
        assert forall|k: int| 0 <= k < es.len() && !processed.contains((#[trigger] es[k]).0@) implies u.contains(
            entry_view(es[k]),
        ) by {
            if k < es.len() - 1 {
                assert(prev[k] == es[k]);
                let x = choose|x: int| 0 <= x < pu.len() && pu[x] == entry_view(prev[k]);
                if !processed.contains(es.last().0@) {
                    assert(u[x] == pu[x]);
                }
            } else {
                assert(es.last() == es[k]);
                assert(u[u.len() - 1] == entry_view(es[k]));
            }
        }
    }
}

} // verus!
