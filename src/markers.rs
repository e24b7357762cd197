//! The watermark manager: which channels exist on disk, where their files
//! are, how a `last` file is read, and which markers a finished run writes.
use vstd::prelude::*;
use crate::revisions::{marks_watermark, revisions_after, revision_of, sorted_by_modified, Content};
use crate::text::{chars_of, push_char, string_of, views};

verus! {

/// The two layouts of the watermarks directory.
#[derive(Debug, PartialEq, Eq, Structural)]
pub enum Family {
    /// The directory holds a `last` file itself; the channel is its name.
    Flat,
    /// The directory holds one subdirectory per release, each with a `last`
    /// file; the channel is `<family>/<release>`.
    Releases,
}

/// The new revisions of one channel, oldest first.
pub struct ChannelRevisions {
    pub channel: String,
    pub revisions: Vec<String>,
}

/// A marker to write: the channel's `last` file gets `revision`.
#[derive(Debug, PartialEq, Eq)]
pub struct MarkerWrite {
    pub channel: String,
    pub revision: String,
}

/// The family a directory of that name belongs to.
pub open spec fn family_spec(name: Seq<char>) -> Option<Family> {
    if name == "nixpkgs"@ {
        Some(Family::Flat)
    } else if name == "nixos"@ {
        Some(Family::Releases)
    } else {
        None
    }
}

/// The markers that a finished run writes: for each channel with new
/// revisions, in order, its latest one; channels with none are left alone.
pub open spec fn marker_updates(chs: Seq<ChannelRevisions>) -> Seq<(Seq<char>, Seq<char>)>
    decreases chs.len(),
{
    if chs.len() == 0 {
        Seq::<(Seq<char>, Seq<char>)>::empty()
    } else {
        let rest = marker_updates(chs.drop_last());
        let c = chs.last();
        if c.revisions@.len() == 0 {
            rest
        } else {
            rest.push((c.channel@, c.revisions@.last()@))
        }
    }
}

pub open spec fn writes_view(ws: Seq<MarkerWrite>) -> Seq<(Seq<char>, Seq<char>)> {
    ws.map_values(|w: MarkerWrite| (w.channel@, w.revision@))
}

/// `s` without line terminators (`\n`, `\r`) at its end.
pub open spec fn strip_line_end(s: Seq<char>) -> Seq<char>
    decreases s.len(),
{
    if s.len() > 0 && (s.last() == '\n' || s.last() == '\r') {
        strip_line_end(s.drop_last())
    } else {
        s
    }
}

/// The family of a directory under the watermarks directory, by its name.
pub fn family_of(name: &str) -> (r: Option<Family>)
    ensures
        r == family_spec(name@),
{
    let name = name.to_owned();
    let flat = String::from_str("nixpkgs");
    let releases = String::from_str("nixos");
    if name == flat {
        Some(Family::Flat)
    } else if name == releases {
        Some(Family::Releases)
    } else {
        None
    }
}

/// The channel key of a release of a family: `<family>/<release>`.
pub fn release_channel(family: &str, release: &str) -> (r: String)
    ensures
        r@ == family@.push('/') + release@,
{
    let mut r = String::from_str(family);
    push_char(&mut r, '/');
    r.append(release);
    r
}

/// The `last` file of a channel under the watermarks directory.
pub fn marker_path(dir: &str, channel: &str) -> (r: String)
    ensures
        r@ == dir@.push('/') + channel@ + "/last"@,
{
    let mut r = String::from_str(dir);
    push_char(&mut r, '/');
    r.append(channel);
    r.append("/last");
    r
}

/// The processed-outputs file of a channel under the watermarks directory.
pub fn processed_path(dir: &str, channel: &str) -> (r: String)
    ensures
        r@ == dir@.push('/') + channel@ + "/store-paths"@,
{
    let mut r = String::from_str(dir);
    push_char(&mut r, '/');
    r.append(channel);
    r.append("/store-paths");
    r
}

/// The watermark that a `last` file holds: its contents, without a trailing
/// line terminator.
pub fn read_marker(contents: &str) -> (r: String)
    ensures
        r@ == strip_line_end(contents@),
{
    let chars = chars_of(contents);
    let mut end = chars.len();
    assert(contents@.subrange(0, end as int) =~= contents@);
    while end > 0 && (chars[end - 1] == '\n' || chars[end - 1] == '\r')
        invariant
            end <= chars@.len(),
            chars@ == contents@,
            strip_line_end(contents@.subrange(0, end as int)) == strip_line_end(contents@),
        decreases end,
    {
        assert(contents@.subrange(0, end as int).drop_last() =~= contents@.subrange(0, end - 1));
        end -= 1;
    }
    string_of(&chars, 0, end)
}

/// The markers to write once every channel's revisions have been processed:
/// one per channel with new revisions, holding its latest revision.
pub fn marker_writes(chs: &Vec<ChannelRevisions>) -> (r: Vec<MarkerWrite>)
    ensures
        writes_view(r@) == marker_updates(chs@),
{
    let mut r: Vec<MarkerWrite> = Vec::new();
    let mut i: usize = 0;
    while i < chs.len()
        invariant
            i <= chs@.len(),
            writes_view(r@) == marker_updates(chs@.subrange(0, i as int)),
        decreases chs.len() - i,
    {
        assert(chs@.subrange(0, i + 1).drop_last() =~= chs@.subrange(0, i as int));
        let c = &chs[i];
        let n = c.revisions.len();
        if n > 0 {
            let w = MarkerWrite { channel: c.channel.clone(), revision: c.revisions[n - 1].clone() };
            let ghost before = r@;
            r.push(w);
            assert(writes_view(r@) =~= writes_view(before).push((w.channel@, w.revision@)));
        }
        i += 1;
    }
    assert(chs@.subrange(0, i as int) =~= chs@);
    r
}

/// After a run, the marker of a channel with new revisions is the last of
/// them, which is the revision of the entry modified last in the listing.
pub proof fn lemma_marker_is_latest(c: ChannelRevisions, listing: Seq<Content>, last: Seq<char>)
    requires
        sorted_by_modified(listing),
        views(c.revisions@) == revisions_after(listing, last),
        c.revisions@.len() > 0,
    ensures
        marker_updates(seq![c]) == seq![(c.channel@, c.revisions@.last()@)],
        c.revisions@.last()@ == revision_of(listing.last()),
{
    crate::revisions::lemma_last_new_revision_is_latest(listing, last);
    assert(seq![c].drop_last() =~= Seq::<ChannelRevisions>::empty());
    assert(seq![c].last() == c);
    assert(marker_updates(Seq::<ChannelRevisions>::empty()) =~= Seq::<(Seq<char>, Seq<char>)>::empty());
    assert(Seq::<(Seq<char>, Seq<char>)>::empty().push((c.channel@, c.revisions@.last()@)) =~= seq![
        (c.channel@, c.revisions@.last()@),
    ]);
    assert(views(c.revisions@).last() == c.revisions@.last()@);
}

/// A run that found no new revision in any channel writes no marker.
pub proof fn lemma_no_new_revisions_no_writes(chs: Seq<ChannelRevisions>)
    requires
        forall|i: int| 0 <= i < chs.len() ==> (#[trigger] chs[i]).revisions@.len() == 0,
    ensures
        marker_updates(chs).len() == 0,
    decreases chs.len(),
{
    if chs.len() > 0 {
        let prev = chs.drop_last();
        assert forall|i: int| 0 <= i < prev.len() implies (#[trigger] prev[i]).revisions@.len() == 0 by {
            assert(prev[i] == chs[i]);
        }
        lemma_no_new_revisions_no_writes(prev);
        assert(chs.last() == chs[chs.len() - 1]);
    }
}

/// Writing a revision to a `last` file and reading it back yields the same
/// revision, also when the file gained a line terminator; a revision ends in
/// neither `\n` nor `\r`.
pub proof fn lemma_marker_round_trip(rev: Seq<char>)
    requires
        rev.len() > 0,
        rev.last() != '\n',
        rev.last() != '\r',
    ensures
        strip_line_end(rev) == rev,
        strip_line_end(rev.push('\n')) == rev,
{
    assert(rev.push('\n').drop_last() =~= rev);
}

/// Re-running when every channel's newest listed revision is already its
/// watermark finds no new revision in any channel and writes no marker.
pub proof fn lemma_rerun_is_noop(
    chs: Seq<ChannelRevisions>,
    listings: Seq<Seq<Content>>,
    lasts: Seq<Seq<char>>,
)
    requires
        listings.len() == chs.len(),
        lasts.len() == chs.len(),
        forall|i: int|
            0 <= i < chs.len() ==> views((#[trigger] chs[i]).revisions@) == revisions_after(
                listings[i],
                lasts[i],
            ),
        forall|i: int|
            0 <= i < chs.len() ==> (#[trigger] listings[i]).len() == 0 || marks_watermark(
                listings[i].last(),
                lasts[i],
            ),
    ensures
        forall|i: int| 0 <= i < chs.len() ==> (#[trigger] chs[i]).revisions@.len() == 0,
        marker_updates(chs).len() == 0,
{
    assert forall|i: int| 0 <= i < chs.len() implies (#[trigger] chs[i]).revisions@.len() == 0 by {
        if listings[i].len() > 0 {
            crate::revisions::lemma_nothing_new_after_latest(listings[i], lasts[i]);
        }
        assert(views(chs[i].revisions@).len() == chs[i].revisions@.len());
    }
    lemma_no_new_revisions_no_writes(chs);
}

} // verus!
