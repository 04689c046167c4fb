//! Slash-separated path segments: a functional model of splitting a path
//! string on `'/'`, a verified splitter, and the substring relation the
//! inclusion filter is defined over.
use vstd::prelude::*;
use vstd::string::StrSliceExecFns;
use vstd::string::StringExecFns;

verus! {

/// The segments of `s`, split on `'/'`. Always at least one segment; an
/// empty string yields one empty segment, as `str::split` would.
pub open spec fn split_spec(s: Seq<char>) -> Seq<Seq<char>>
    decreases s.len(),
{
    if s.len() == 0 {
        seq![Seq::<char>::empty()]
    } else if s[0] == '/' {
        seq![Seq::<char>::empty()] + split_spec(s.skip(1))
    } else {
        let rest = split_spec(s.skip(1));
        seq![seq![s[0]] + rest[0]] + rest.skip(1)
    }
}

/// The views of a sequence of owned segment strings.
pub open spec fn seg_views(v: Seq<String>) -> Seq<Seq<char>> {
    v.map_values(|s: String| s@)
}

pub proof fn lemma_split_len(s: Seq<char>)
    ensures
        split_spec(s).len() >= 1,
    decreases s.len(),
{
    if s.len() == 0 {
    } else if s[0] == '/' {
    } else {
        lemma_split_len(s.skip(1));
    }
}

/// Appending one character either opens a fresh empty segment (on `'/'`)
/// or extends the last segment.
pub proof fn lemma_split_push(s: Seq<char>, c: char)
    ensures
        c == '/' ==> split_spec(s.push(c)) == split_spec(s).push(Seq::<char>::empty()),
        c != '/' ==> split_spec(s.push(c)) == split_spec(s).update(
            split_spec(s).len() - 1,
            split_spec(s).last().push(c),
        ),
    decreases s.len(),
{
    lemma_split_len(s);
    if s.len() == 0 {
        assert(s.push(c)[0] == c);
        assert(s.push(c).skip(1) =~= Seq::<char>::empty());
        assert(split_spec(Seq::<char>::empty()) == seq![Seq::<char>::empty()]);
        if c == '/' {
            assert(split_spec(s.push(c)) =~~= split_spec(s).push(Seq::<char>::empty()));
        } else {
            assert(seq![s.push(c)[0]] + split_spec(s.push(c).skip(1))[0] =~= split_spec(s).last().push(c));
            assert(split_spec(s.push(c)) =~~= split_spec(s).update(
                split_spec(s).len() - 1,
                split_spec(s).last().push(c),
            ));
        }
    } else {
        lemma_split_len(s.skip(1));
        lemma_split_push(s.skip(1), c);
        assert(s.push(c)[0] == s[0]);
        assert(s.push(c).skip(1) =~= s.skip(1).push(c));
        let rest = split_spec(s.skip(1));
        let restp = split_spec(s.skip(1).push(c));
        if c == '/' {
            assert(restp == rest.push(Seq::<char>::empty()));
            if s[0] == '/' {
                assert(split_spec(s.push(c)) =~~= split_spec(s).push(Seq::<char>::empty()));
            } else {
                assert(restp[0] == rest[0]);
                assert(restp.skip(1) =~~= rest.skip(1).push(Seq::<char>::empty()));
                assert(split_spec(s.push(c)) =~~= split_spec(s).push(Seq::<char>::empty()));
            }
        } else {
            assert(restp == rest.update(rest.len() - 1, rest.last().push(c)));
            if s[0] == '/' {
                assert(split_spec(s).last() == rest.last());
                assert(split_spec(s.push(c)) =~~= split_spec(s).update(
                    split_spec(s).len() - 1,
                    split_spec(s).last().push(c),
                ));
            } else {
                if rest.len() == 1 {
                    assert(restp[0] == rest[0].push(c));
                    assert(split_spec(s).last() == seq![s[0]] + rest[0]);
                    assert((seq![s[0]] + rest[0]).push(c) =~= seq![s[0]] + rest[0].push(c));
                    assert(split_spec(s.push(c)) =~~= split_spec(s).update(
                        split_spec(s).len() - 1,
                        split_spec(s).last().push(c),
                    ));
                } else {
                    assert(restp[0] == rest[0]);
                    assert(split_spec(s).last() == rest.last());
                    assert(restp.skip(1) =~~= rest.skip(1).update(
                        rest.skip(1).len() - 1,
                        rest.skip(1).last().push(c),
                    ));
                    assert(split_spec(s.push(c)) =~~= split_spec(s).update(
                        split_spec(s).len() - 1,
                        split_spec(s).last().push(c),
                    ));
                }
            }
        }
    }
}

/// Split a path string into its slash-separated segments.
pub fn split_segments(path: &str) -> (segs: Vec<String>)
    ensures
        seg_views(segs@) == split_spec(path@),
{
    let n: usize = path.unicode_len();
    let mut segs: Vec<String> = Vec::new();
    let mut start: usize = 0;
    let mut i: usize = 0;
    proof {
        assert(path@.take(0) =~= Seq::<char>::empty());
        assert(seg_views(segs@).push(path@.subrange(0, 0)) =~~= split_spec(path@.take(0)));
    }
    while i < n
        invariant
            n == path@.len(),
            0 <= start <= i <= n,
            seg_views(segs@).push(path@.subrange(start as int, i as int)) == split_spec(
                path@.take(i as int),
            ),
        decreases n - i,
    {
        let c = path.get_char(i);
        proof {
            assert(path@.take(i + 1) =~= path@.take(i as int).push(path@[i as int]));
            lemma_split_push(path@.take(i as int), c);
            lemma_split_len(path@.take(i as int));
        }
        if c == '/' {
            let seg = String::from_str(path.substring_char(start, i));
            segs.push(seg);
            proof {
                assert(seg_views(segs@) =~~= split_spec(path@.take(i as int)));
                assert(path@.subrange(i + 1, i + 1) =~= Seq::<char>::empty());
                assert(seg_views(segs@).push(path@.subrange(i + 1, i + 1)) =~~= split_spec(
                    path@.take(i + 1),
                ));
            }
            start = i + 1;
        } else {
            proof {
                let old_views = seg_views(segs@).push(path@.subrange(start as int, i as int));
                assert(old_views.last() == path@.subrange(start as int, i as int));
                assert(path@.subrange(start as int, i as int).push(c) =~= path@.subrange(
                    start as int,
                    i + 1,
                ));
                assert(seg_views(segs@).push(path@.subrange(start as int, i + 1)) =~~= old_views
                    .update(old_views.len() - 1, old_views.last().push(c)));
            }
        }
        i = i + 1;
    }
    let seg = String::from_str(path.substring_char(start, n));
    segs.push(seg);
    proof {
        assert(path@.take(n as int) =~= path@);
        assert(seg_views(segs@) =~~= split_spec(path@));
    }
    segs
}

/// `needle` occurs contiguously somewhere inside `hay`.
pub open spec fn is_substring(needle: Seq<char>, hay: Seq<char>) -> bool {
    exists|k: int|
        0 <= k && k + needle.len() <= hay.len() && #[trigger] hay.subrange(k, k + needle.len())
            == needle
}

/// A prefix is in particular a substring: this is why an ancestor path is
/// always kept when one of its descendants matches the inclusion pattern.
pub proof fn lemma_prefix_is_substring(needle: Seq<char>, hay: Seq<char>)
    requires
        needle.is_prefix_of(hay),
    ensures
        is_substring(needle, hay),
{
    let k: int = 0;
    assert(hay.subrange(k, k + needle.len()) =~= needle);
}

/// Decide the substring relation.
pub fn contains_substring(needle: &str, hay: &str) -> (r: bool)
    ensures
        r == is_substring(needle@, hay@),
{
    let m: usize = needle.unicode_len();
    let n: usize = hay.unicode_len();
    if m > n {
        return false;
    }
    let mut k: usize = 0;
    while k <= n - m
        invariant
            m == needle@.len(),
            n == hay@.len(),
            m <= n,
            0 <= k <= n - m + 1,
            forall|kk: int|
                0 <= kk < k ==> #[trigger] hay@.subrange(kk, kk + m) != needle@,
        decreases n - m + 1 - k,
    {
        let mut j: usize = 0;
        let mut hit: bool = true;
        while hit && j < m
            invariant
                m == needle@.len(),
                n == hay@.len(),
                m <= n,
                0 <= k <= n - m,
                0 <= j <= m,
                hit ==> forall|jj: int| 0 <= jj < j ==> hay@[k + jj] == needle@[jj],
                !hit ==> exists|jj: int| 0 <= jj < m && hay@[k + jj] != needle@[jj],
            decreases m - j,
        {
            if hay.get_char(k + j) != needle.get_char(j) {
                hit = false;
            }
            j = j + 1;
        }
        if hit {
            proof {
                assert(hay@.subrange(k as int, k + m) =~= needle@);
            }
            return true;
        }
        proof {
            if hay@.subrange(k as int, k + m) == needle@ {
                let jj = choose|jj: int| 0 <= jj < m && hay@[k + jj] != needle@[jj];
                assert(hay@.subrange(k as int, k + m)[jj] == hay@[k + jj]);
            }
        }
        k = k + 1;
    }
    false
}

} // verus!
