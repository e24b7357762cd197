//! Character-level helpers shared by the pipeline: splitting on a separator,
//! taking the last segment of a path, trimming a quote character and
//! comparing strings in lexicographic order.
use vstd::prelude::*;

verus! {

/// The pieces of `s` between occurrences of `sep`, as `str::split` yields them:
/// there is always at least one piece, and a separator at either end yields an
/// empty piece there.
pub open spec fn split_on(s: Seq<char>, sep: char) -> Seq<Seq<char>>
    decreases s.len(),
{
    if s.len() == 0 {
        seq![Seq::<char>::empty()]
    } else {
        let prev = split_on(s.drop_last(), sep);
        if s.last() == sep {
            prev.push(Seq::<char>::empty())
        } else {
            prev.update(prev.len() - 1, prev.last().push(s.last()))
        }
    }
}

/// What follows the last `sep` in `s` (all of `s` when it holds none).
pub open spec fn last_segment(s: Seq<char>, sep: char) -> Seq<char> {
    split_on(s, sep).last()
}

/// `s` without the copies of `c` at its start.
pub open spec fn strip_leading(s: Seq<char>, c: char) -> Seq<char>
    decreases s.len(),
{
    if s.len() > 0 && s[0] == c {
        strip_leading(s.drop_first(), c)
    } else {
        s
    }
}

/// `s` without the copies of `c` at its end.
pub open spec fn strip_trailing(s: Seq<char>, c: char) -> Seq<char>
    decreases s.len(),
{
    if s.len() > 0 && s.last() == c {
        strip_trailing(s.drop_last(), c)
    } else {
        s
    }
}

/// `s` without the copies of `c` at either end, as `str::trim_matches` gives it.
pub open spec fn trim_char(s: Seq<char>, c: char) -> Seq<char> {
    strip_trailing(strip_leading(s, c), c)
}

/// Strict lexicographic order on character sequences; for strings this is the
/// order of their UTF-8 bytes, which is the order `String` compares by.
pub open spec fn chars_lt(a: Seq<char>, b: Seq<char>) -> bool
    decreases a.len(),
{
    if a.len() == 0 {
        b.len() > 0
    } else if b.len() == 0 {
        false
    } else if a[0] != b[0] {
        a[0] < b[0]
    } else {
        chars_lt(a.drop_first(), b.drop_first())
    }
}

/// The views of a sequence of strings.
pub open spec fn views(v: Seq<String>) -> Seq<Seq<char>> {
    v.map_values(|s: String| s@)
}

pub proof fn lemma_split_nonempty(s: Seq<char>, sep: char)
    ensures
        split_on(s, sep).len() >= 1,
    decreases s.len(),
{
    if s.len() > 0 {
        lemma_split_nonempty(s.drop_last(), sep);
    }
}

pub proof fn lemma_lt_asymmetric(a: Seq<char>, b: Seq<char>)
    ensures
        chars_lt(a, b) ==> !chars_lt(b, a),
    decreases a.len(),
{
    if a.len() > 0 && b.len() > 0 && a[0] == b[0] {
        lemma_lt_asymmetric(a.drop_first(), b.drop_first());
    }
}

/// "Not after" is transitive.
pub proof fn lemma_not_after_transitive(a: Seq<char>, b: Seq<char>, c: Seq<char>)
    requires
        !chars_lt(b, a),
        !chars_lt(c, b),
    ensures
        !chars_lt(c, a),
    decreases a.len(),
{
    if a.len() > 0 && b.len() > 0 && c.len() > 0 && a[0] == b[0] && b[0] == c[0] {
        lemma_not_after_transitive(a.drop_first(), b.drop_first(), c.drop_first());
    }
}

/// Relies on `String::push`: appends one character.
#[verifier::external_body]
pub(crate) fn push_char(s: &mut String, c: char)
    ensures
        final(s)@ == old(s)@.push(c),
{
    s.push(c)
}

/// Relies on `str::chars`: yields the characters of the string, in order.
#[verifier::external_body]
pub(crate) fn chars_of(s: &str) -> (r: Vec<char>)
    ensures
        r@ == s@,
{
    s.chars().collect()
}

/// A string holding `chars[from..to]`.
pub fn string_of(chars: &Vec<char>, from: usize, to: usize) -> (r: String)
    requires
        from <= to <= chars@.len(),
    ensures
        r@ == chars@.subrange(from as int, to as int),
{
    let mut r = String::new();
    let mut i = from;
    while i < to
        invariant
            from <= i <= to <= chars@.len(),
            r@ == chars@.subrange(from as int, i as int),
        decreases to - i,
    {
        push_char(&mut r, chars[i]);
        assert(r@ =~= chars@.subrange(from as int, i + 1));
        i += 1;
    }
    r
}

proof fn lemma_split_step(s: Seq<char>, i: int, sep: char)
    requires
        0 <= i < s.len(),
    ensures
        s.subrange(0, i + 1).drop_last() == s.subrange(0, i),
        s.subrange(0, i + 1).last() == s[i],
        split_on(s.subrange(0, i + 1), sep) == ({
            let prev = split_on(s.subrange(0, i), sep);
            if s[i] == sep {
                prev.push(Seq::<char>::empty())
            } else {
                prev.update(prev.len() - 1, prev.last().push(s[i]))
            }
        }),
{
    assert(s.subrange(0, i + 1).drop_last() =~= s.subrange(0, i));
}

/// Splits `s` at every `sep`, as `s.split(sep)` does.
pub fn split_chars(s: &str, sep: char) -> (r: Vec<String>)
    ensures
        views(r@) == split_on(s@, sep),
{
    let chars = chars_of(s);
    let mut pieces: Vec<String> = Vec::new();
    let mut cur = String::new();
    let mut i: usize = 0;
    while i < chars.len()
        invariant
            i <= chars@.len(),
            chars@ == s@,
            views(pieces@).push(cur@) == split_on(s@.subrange(0, i as int), sep),
        decreases chars.len() - i,
    {
        let c = chars[i];
        proof {
            lemma_split_step(s@, i as int, sep);
        }
        if c == sep {
            let ghost before = pieces@;
            let done = cur;
            pieces.push(done);
            cur = String::new();
            assert(views(pieces@) =~= views(before).push(done@));
            assert(views(pieces@).push(cur@) =~= split_on(s@.subrange(0, i + 1), sep));
        } else {
            let ghost old_cur = cur@;
            push_char(&mut cur, c);
            assert(views(pieces@).push(cur@) =~= views(pieces@).push(old_cur).update(
                pieces@.len() as int,
                old_cur.push(c),
            ));
        }
        i += 1;
    }
    assert(s@.subrange(0, i as int) =~= s@);
    let ghost before = pieces@;
    pieces.push(cur);
    assert(views(pieces@) =~= views(before).push(pieces@.last()@));
    pieces
}

/// What follows the last `sep` in `s`, as `s.split(sep).last()` gives it.
pub fn last_segment_of(s: &str, sep: char) -> (r: String)
    ensures
        r@ == last_segment(s@, sep),
{
    let chars = chars_of(s);
    let mut start: usize = 0;
    let mut i: usize = 0;
    while i < chars.len()
        invariant
            start <= i <= chars@.len(),
            chars@ == s@,
            split_on(s@.subrange(0, i as int), sep).last() == s@.subrange(start as int, i as int),
        decreases chars.len() - i,
    {
        proof {
            lemma_split_step(s@, i as int, sep);
            lemma_split_nonempty(s@.subrange(0, i as int), sep);
        }
        if chars[i] == sep {
            start = i + 1;
        }
        assert(s@.subrange(start as int, i + 1) =~= if chars[i as int] == sep {
            Seq::<char>::empty()
        } else {
            s@.subrange(start as int, i as int).push(chars[i as int])
        });
        i += 1;
    }
    assert(s@.subrange(0, i as int) =~= s@);
    string_of(&chars, start, chars.len())
}

/// `s` without the copies of `c` at either end, as `s.trim_matches(c)` gives it.
pub fn trim_char_of(s: &str, c: char) -> (r: String)
    ensures
        r@ == trim_char(s@, c),
{
    let chars = chars_of(s);
    let n = chars.len();
    let mut lo: usize = 0;
    assert(s@.subrange(0, n as int) =~= s@);
    while lo < n && chars[lo] == c
        invariant
            lo <= n == chars@.len(),
            chars@ == s@,
            strip_leading(s@.subrange(lo as int, n as int), c) == strip_leading(s@, c),
        decreases n - lo,
    {
        assert(s@.subrange(lo as int, n as int).drop_first() =~= s@.subrange(lo + 1, n as int));
        lo += 1;
    }
    let ghost front = s@.subrange(lo as int, n as int);
    assert(strip_leading(front, c) == front);
    let mut hi: usize = n;
    while hi > lo && chars[hi - 1] == c
        invariant
            lo <= hi <= n == chars@.len(),
            chars@ == s@,
            front == s@.subrange(lo as int, n as int),
            strip_trailing(s@.subrange(lo as int, hi as int), c) == strip_trailing(front, c),
        decreases hi,
    {
        assert(s@.subrange(lo as int, hi as int).drop_last() =~= s@.subrange(
            lo as int,
            hi - 1,
        ));
        hi -= 1;
    }
    string_of(&chars, lo, hi)
}

/// Whether `a` comes strictly before `b` in lexicographic order.
pub fn chars_less(a: &Vec<char>, b: &Vec<char>) -> (r: bool)
    ensures
        r == chars_lt(a@, b@),
{
    let mut i: usize = 0;
    assert(a@.subrange(0, a@.len() as int) =~= a@);
    assert(b@.subrange(0, b@.len() as int) =~= b@);
    while i < a.len() && i < b.len() && a[i] == b[i]
        invariant
            i <= a@.len(),
            i <= b@.len(),
            chars_lt(a@, b@) == chars_lt(
                a@.subrange(i as int, a@.len() as int),
                b@.subrange(i as int, b@.len() as int),
            ),
        decreases a.len() - i,
    {
        assert(a@.subrange(i as int, a@.len() as int).drop_first() =~= a@.subrange(
            i + 1,
            a@.len() as int,
        ));
        assert(b@.subrange(i as int, b@.len() as int).drop_first() =~= b@.subrange(
            i + 1,
            b@.len() as int,
        ));
        i += 1;
    }
    if i == b.len() {
        false
    } else if i == a.len() {
        true
    } else {
        a[i] < b[i]
    }
}

} // verus!
