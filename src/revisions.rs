//! Revision discovery: paging through the remote revision index, ordering
//! its entries by modification time and keeping those after the watermark.
use vstd::prelude::*;
use vstd::multiset::Multiset;
use vstd::seq_lib::{to_multiset_build, to_multiset_insert};
use crate::text::{
    chars_less, chars_lt, chars_of, last_segment, last_segment_of, lemma_lt_asymmetric,
    lemma_not_after_transitive, trim_char, trim_char_of, views,
};

verus! {

/// One entry of a bucket listing.
#[derive(Debug, Clone, PartialEq, Eq)]
pub struct Content {
    pub key: String,
    pub last_modified: String,
}

/// One page of a bucket listing.
pub struct ListingPage {
    pub contents: Vec<Content>,
    pub is_truncated: bool,
}

#[derive(Debug, PartialEq, Eq, Structural)]
pub enum DiscoveryError {
    /// The index said more entries follow but handed out none, so there is no
    /// cursor to continue from.
    TruncatedEmptyPage,
}

/// Where a bucket listing stands: the entries gathered so far, the cursor for
/// the next request, and whether more pages follow.
pub struct Listing {
    pub objects: Vec<Content>,
    pub marker: String,
    pub truncated: bool,
}

/// The listing request for the revisions of `channel`, resuming after `marker`.
pub open spec fn listing_url(channel: Seq<char>, marker: Seq<char>) -> Seq<char> {
    "https://nix-releases.s3.amazonaws.com/?delimiter=/&prefix="@ + channel + "/&marker="@
        + marker
}

/// The time an entry was last modified, without surrounding quotes.
pub open spec fn modified_key(c: Content) -> Seq<char> {
    trim_char(c.last_modified@, '"')
}

/// No entry was modified after an entry that follows it.
pub open spec fn sorted_by_modified(s: Seq<Content>) -> bool {
    forall|i: int, j: int|
        0 <= i < j < s.len() ==> !chars_lt(
            #[trigger] modified_key(s[j]),
            #[trigger] modified_key(s[i]),
        )
}

/// The revision an entry stands for: the last segment of its key.
pub open spec fn revision_of(c: Content) -> Seq<char> {
    last_segment(c.key@, '/')
}

/// Whether the entry is the revision that the watermark names.
pub open spec fn marks_watermark(c: Content, last: Seq<char>) -> bool {
    revision_of(c) == last
}

/// How many leading entries are at or before the watermark: up to and
/// including the last entry that it names, or none when it names none.
pub open spec fn watermark_cut(s: Seq<Content>, last: Seq<char>) -> int
    decreases s.len(),
{
    if s.len() == 0 {
        0
    } else if marks_watermark(s.last(), last) {
        s.len() as int
    } else {
        watermark_cut(s.drop_last(), last)
    }
}

/// The revisions of the entries after the watermark, in order.
pub open spec fn revisions_after(s: Seq<Content>, last: Seq<char>) -> Seq<Seq<char>> {
    s.subrange(watermark_cut(s, last), s.len() as int).map_values(|c: Content| revision_of(c))
}

pub proof fn lemma_watermark_cut_bounds(s: Seq<Content>, last: Seq<char>)
    ensures
        0 <= watermark_cut(s, last) <= s.len(),
        watermark_cut(s, last) > 0 ==> marks_watermark(s[watermark_cut(s, last) - 1], last),
        forall|k: int|
            watermark_cut(s, last) <= k < s.len() ==> !marks_watermark(#[trigger] s[k], last),
    decreases s.len(),
{
    if s.len() > 0 {
        let prev = s.drop_last();
        lemma_watermark_cut_bounds(prev, last);
        if !marks_watermark(s.last(), last) {
            let cut = watermark_cut(prev, last);
            if cut > 0 {
                assert(s[cut - 1] == prev[cut - 1]);
            }
            assert forall|k: int| cut <= k < s.len() implies !marks_watermark(
                #[trigger] s[k],
                last,
            ) by {
                if k < s.len() - 1 {
                    assert(s[k] == prev[k]);
                }
            }
        }
    }
}

/// Builds the request URL for the next page of `channel`'s listing.
pub fn listing_url_of(channel: &str, marker: &str) -> (r: String)
    ensures
        r@ == listing_url(channel@, marker@),
{
    let mut r = String::from_str("https://nix-releases.s3.amazonaws.com/?delimiter=/&prefix=");
    r.append(channel);
    r.append("/&marker=");
    r.append(marker);
    r
}

impl Listing {
    /// A listing that has fetched nothing yet.
    pub fn new() -> (r: Listing)
        ensures
            r.objects@.len() == 0,
            r.marker@.len() == 0,
            r.truncated,
    {
        Listing { objects: Vec::new(), marker: String::new(), truncated: true }
    }

    /// Whether the last page said that no more follow.
    pub fn is_complete(&self) -> (r: bool)
        ensures
            r == !self.truncated,
    {
        !self.truncated
    }

    /// The request for the next page of `channel`'s listing.
    pub fn next_url(&self, channel: &str) -> (r: String)
        ensures
            r@ == listing_url(channel@, self.marker@),
    {
        listing_url_of(channel, self.marker.as_str())
    }

    /// Takes in one page: its entries are added, the cursor moves to its last
    /// key, and the page's truncation flag says whether more follow. A
    /// truncated page with no entries is refused and leaves the listing as it
    /// was.
    pub fn absorb(&mut self, page: ListingPage) -> (r: Result<(), DiscoveryError>)
        ensures
            r is Err <==> (page.is_truncated && page.contents@.len() == 0),
            r is Err ==> *final(self) == *old(self),
            r is Ok ==> final(self).objects@ == old(self).objects@ + page.contents@,
            r is Ok ==> final(self).truncated == page.is_truncated,
            r is Ok ==> final(self).marker@ == if page.contents@.len() > 0 {
                page.contents@.last().key@
            } else {
                old(self).marker@
            },
    {
        let ListingPage { contents, is_truncated } = page;
        let n = contents.len();
        if n == 0 {
            if is_truncated {
                return Err(DiscoveryError::TruncatedEmptyPage);
            }
        } else {
            self.marker = contents[n - 1].key.clone();
        }
        let mut contents = contents;
        self.objects.append(&mut contents);
        self.truncated = is_truncated;
        Ok(())
    }
}

/// The modification time of `c` without quotes, as characters.
fn modified_chars(c: &Content) -> (r: Vec<char>)
    ensures
        r@ == modified_key(*c),
{
    let t = trim_char_of(c.last_modified.as_str(), '"');
    chars_of(t.as_str())
}

/// Orders the entries by modification time, oldest first.
pub fn sort_by_modified(objects: Vec<Content>) -> (r: Vec<Content>)
    ensures
        sorted_by_modified(r@),
        r@.to_multiset() == objects@.to_multiset(),
{
    let ghost all = objects@;
    let mut rest = objects;
    let mut sorted: Vec<Content> = Vec::new();
    let mut keys: Vec<Vec<char>> = Vec::new();
    proof {
        broadcast use vstd::seq_lib::group_to_multiset_ensures;
        broadcast use vstd::multiset::lemma_multiset_empty_len;

        assert(sorted@.to_multiset().len() == 0);
        assert(sorted@.to_multiset() =~= Multiset::<Content>::empty());
        assert(sorted@.to_multiset().add(rest@.to_multiset()) =~= all.to_multiset());
    }
    while rest.len() > 0
        invariant
            sorted_by_modified(sorted@),
            keys@.len() == sorted@.len(),
            forall|k: int| 0 <= k < keys@.len() ==> (#[trigger] keys@[k])@ == modified_key(sorted@[k]),
            sorted@.to_multiset().add(rest@.to_multiset()) == all.to_multiset(),
        decreases rest.len(),
    {
        let ghost before = rest@;
        let item = rest.pop().unwrap();
        proof {
            assert(before == rest@.push(item));
            to_multiset_build(rest@, item);
        }
        let key = modified_chars(&item);
        let mut pos: usize = 0;
        while pos < keys.len() && chars_less(&keys[pos], &key)
            invariant
                pos <= keys@.len(),
                keys@.len() == sorted@.len(),
                forall|k: int| 0 <= k < pos ==> chars_lt((#[trigger] keys@[k])@, key@),
            decreases keys.len() - pos,
        {
            pos += 1;
        }
        let ghost old_sorted = sorted@;
        let ghost old_keys = keys@;
        sorted.insert(pos, item);
        keys.insert(pos, key);
        proof {
            to_multiset_insert(old_sorted, pos as int, item);
            assert forall|k: int| 0 <= k < keys@.len() implies (#[trigger] keys@[k])@
                == modified_key(sorted@[k]) by {
                if k < pos {
                    assert(keys@[k] == old_keys[k]);
                } else if k > pos {
                    assert(keys@[k] == old_keys[k - 1]);
                }
            }
            assert forall|i: int, j: int| 0 <= i < j < sorted@.len() implies !chars_lt(
                #[trigger] modified_key(sorted@[j]),
                #[trigger] modified_key(sorted@[i]),
            ) by {
                let p = pos as int;
                if j < p {
                    assert(sorted@[i] == old_sorted[i] && sorted@[j] == old_sorted[j]);
                } else if j == p {
                    assert(sorted@[i] == old_sorted[i]);
                    assert(chars_lt(old_keys[i]@, key@));
                    lemma_lt_asymmetric(modified_key(old_sorted[i]), modified_key(item));
                } else if i == p {
                    assert(sorted@[j] == old_sorted[j - 1]);
                    assert(!chars_lt(old_keys[p]@, key@));
                    if j - 1 > p {
                        assert(!chars_lt(modified_key(old_sorted[j - 1]), modified_key(old_sorted[p])));
                        lemma_not_after_transitive(
                            modified_key(item),
                            modified_key(old_sorted[p]),
                            modified_key(old_sorted[j - 1]),
                        );
                    }
                } else if i < p {
                    assert(sorted@[i] == old_sorted[i] && sorted@[j] == old_sorted[j - 1]);
                } else {
                    assert(sorted@[i] == old_sorted[i - 1] && sorted@[j] == old_sorted[j - 1]);
                }
            }
        }
    }
    proof {
        broadcast use vstd::seq_lib::group_to_multiset_ensures;
        broadcast use vstd::multiset::lemma_multiset_empty_len;

        assert(rest@.to_multiset().len() == 0);
        assert(rest@.to_multiset() =~= Multiset::<Content>::empty());
        assert(sorted@.to_multiset().add(rest@.to_multiset()) =~= sorted@.to_multiset());
    }
    sorted
}

/// Whether `c` is the revision that `last` names.
fn is_watermark(c: &Content, last: &String) -> (r: bool)
    ensures
        r == marks_watermark(*c, last@),
{
    let name = last_segment_of(c.key.as_str(), '/');
    name == *last
}

/// The revisions after the watermark `last` in the ordered entries: those
/// after the last entry that it names, or all of them when it names none.
pub fn new_revisions(sorted: &Vec<Content>, last: &str) -> (r: Vec<String>)
    ensures
        views(r@) == revisions_after(sorted@, last@),
{
    let last = last.to_owned();
    let n = sorted.len();
    let mut cut: usize = n;
    assert(sorted@.subrange(0, n as int) =~= sorted@);
    while cut > 0 && !is_watermark(&sorted[cut - 1], &last)
        invariant
            cut <= n == sorted@.len(),
            watermark_cut(sorted@.subrange(0, cut as int), last@) == watermark_cut(
                sorted@,
                last@,
            ),
        decreases cut,
    {
        assert(sorted@.subrange(0, cut as int).drop_last() =~= sorted@.subrange(0, cut - 1));
        cut -= 1;
    }
    if cut > 0 {
        assert(sorted@.subrange(0, cut as int).last() == sorted@[cut - 1]);
    }
    let ghost kept = sorted@.subrange(cut as int, n as int);
    let mut r: Vec<String> = Vec::new();
    let mut i: usize = cut;
    while i < n
        invariant
            cut <= i <= n == sorted@.len(),
            kept == sorted@.subrange(cut as int, n as int),
            views(r@) == kept.subrange(0, i - cut).map_values(|c: Content| revision_of(c)),
        decreases n - i,
    {
        let name = last_segment_of(sorted[i].key.as_str(), '/');
        let ghost before = r@;
        r.push(name);
        assert(views(r@) =~= views(before).push(name@));
        assert(kept.subrange(0, i + 1 - cut) =~= kept.subrange(0, i - cut).push(sorted@[i as int]));
        assert(views(r@) =~= kept.subrange(0, i + 1 - cut).map_values(
            |c: Content| revision_of(c),
        ));
        i += 1;
    }
    assert(kept.subrange(0, n - cut) =~= kept);
    r
}

/// The revisions published after the watermark `last`, oldest first: the
/// entries are ordered by modification time, and those up to and including
/// the last one that the watermark names are dropped.
pub fn select_new_revisions(objects: Vec<Content>, last: &str) -> (r: Vec<String>)
    ensures
        exists|sorted: Seq<Content>|
            sorted_by_modified(sorted) && sorted.to_multiset() == objects@.to_multiset()
                && views(r@) == revisions_after(sorted, last@),
{
    let sorted = sort_by_modified(objects);
    new_revisions(&sorted, last)
}

/// In an ordered listing, the last new revision is the one modified last:
/// nothing in the listing was modified after it.
pub proof fn lemma_last_new_revision_is_latest(s: Seq<Content>, last: Seq<char>)
    requires
        sorted_by_modified(s),
        revisions_after(s, last).len() > 0,
    ensures
        revisions_after(s, last).last() == revision_of(s.last()),
        forall|k: int| 0 <= k < s.len() ==> !chars_lt(modified_key(s.last()), modified_key(#[trigger] s[k])),
{
    lemma_watermark_cut_bounds(s, last);
    assert forall|k: int| 0 <= k < s.len() implies !chars_lt(
        modified_key(s.last()),
        modified_key(#[trigger] s[k]),
    ) by {
        if k < s.len() - 1 {
            assert(!chars_lt(modified_key(s[s.len() - 1]), modified_key(s[k])));
        } else {
            lemma_lt_asymmetric(modified_key(s[k]), modified_key(s[k]));
        }
    }
}

/// When the newest entry of the listing is the watermark itself, there is
/// nothing new to process.
pub proof fn lemma_nothing_new_after_latest(s: Seq<Content>, last: Seq<char>)
    requires
        s.len() > 0,
        marks_watermark(s.last(), last),
    ensures
        revisions_after(s, last).len() == 0,
{
}

/// An empty watermark names no entry whose key ends in a revision name, so
/// every entry of the listing is new. (A key ending in `/` names the empty
/// revision, which an empty watermark does match.)
pub proof fn lemma_bootstrap_keeps_all(s: Seq<Content>)
    requires
        forall|k: int| 0 <= k < s.len() ==> revision_of(#[trigger] s[k]).len() > 0,
    ensures
        revisions_after(s, Seq::<char>::empty()) == s.map_values(|c: Content| revision_of(c)),
{
    lemma_watermark_cut_bounds(s, Seq::<char>::empty());
    if watermark_cut(s, Seq::<char>::empty()) > 0 {
        let k = watermark_cut(s, Seq::<char>::empty()) - 1;
        assert(revision_of(s[k]).len() > 0);
    }
    assert(s.subrange(0, s.len() as int) =~= s);
}

} // verus!
