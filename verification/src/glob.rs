//! Path glob matcher for `whitelist_paths`.
//!
//! `*` matches a single segment; `**` matches zero or more segments.
use vstd::prelude::*;
use vstd::slice::slice_subrange;

use crate::text::{same_text, split};

verus! {

/// Whether the segments `path` match the segments of the pattern `pat`.
pub open spec fn segments_match(pat: Seq<Seq<char>>, path: Seq<Seq<char>>) -> bool
    decreases pat.len(),
{
    if pat.len() == 0 {
        path.len() == 0
    } else if pat[0] == "**"@ {
        exists|i: int|
            0 <= i <= path.len() && segments_match(pat.drop_first(), #[trigger] path.skip(i))
    } else {
        &&& path.len() > 0
        &&& pat[0] == "*"@ || pat[0] == path[0]
        &&& segments_match(pat.drop_first(), path.drop_first())
    }
}

/// Whether `path`, cut at its slashes, matches the pattern `pattern`.
pub open spec fn glob_match(pattern: Seq<char>, path: Seq<char>) -> bool {
    segments_match(crate::text::pieces(pattern, '/'), crate::text::pieces(path, '/'))
}

/// Whether `path` matches the glob `pattern`.
pub fn path_matches(pattern: &str, path: &str) -> (r: bool)
    ensures
        r == glob_match(pattern@, path@),
{
    let pat: Vec<String> = split(pattern, '/');
    let pth: Vec<String> = split(path, '/');
    matches_segments(pat.as_slice(), pth.as_slice())
}

/// Match segment by segment.
pub fn matches_segments(pattern: &[String], path: &[String]) -> (r: bool)
    ensures
        r == segments_match(crate::text::views(pattern@), crate::text::views(path@)),
    decreases pattern@.len(),
{
    let ghost pat = crate::text::views(pattern@);
    let ghost pth = crate::text::views(path@);
    if pattern.len() == 0 {
        return path.len() == 0;
    }
    let rest: &[String] = slice_subrange(pattern, 1, pattern.len());
    assert(crate::text::views(rest@) =~= pat.drop_first());
    if same_text(pattern[0].as_str(), "**") {
        let mut i: usize = 0;
        while i <= path.len()
            invariant
                i <= path@.len() + 1,
                pat == crate::text::views(pattern@),
                pth == crate::text::views(path@),
                pattern@.len() > 0,
                rest@.len() < pattern@.len(),
                crate::text::views(rest@) == pat.drop_first(),
                pat[0] == "**"@,
                forall|k: int| 0 <= k < i ==> !segments_match(pat.drop_first(), #[trigger] pth.skip(k)),
            decreases path@.len() + 1 - i,
        {
            let tail: &[String] = slice_subrange(path, i, path.len());
            assert(crate::text::views(tail@) =~= pth.skip(i as int));
            if matches_segments(rest, tail) {
                return true;
            }
            if i == path.len() {
                return false;
            }
            i = i + 1;
        }
        return false;
    }
    if path.len() == 0 {
        return false;
    }
    if same_text(pattern[0].as_str(), "*") || same_text(pattern[0].as_str(), path[0].as_str()) {
        let tail: &[String] = slice_subrange(path, 1, path.len());
        assert(crate::text::views(tail@) =~= pth.drop_first());
        matches_segments(rest, tail)
    } else {
        false
    }
}

/// A pattern without wildcards matches exactly its own segments.
pub proof fn literal_pattern_matches_itself_only(pat: Seq<Seq<char>>, path: Seq<Seq<char>>)
    requires
        forall|i: int| 0 <= i < pat.len() ==> #[trigger] pat[i] != "*"@ && pat[i] != "**"@,
    ensures
        segments_match(pat, path) <==> pat == path,
    decreases pat.len(),
{
    if pat.len() > 0 {
        if path.len() > 0 {
            literal_pattern_matches_itself_only(pat.drop_first(), path.drop_first());
            if pat[0] == path[0] && pat.drop_first() == path.drop_first() {
                assert(pat =~= seq![pat[0]] + pat.drop_first());
                assert(path =~= seq![path[0]] + path.drop_first());
            }
        }
    } else {
        assert(pat =~= path <==> path.len() == 0);
    }
}

/// `*` stands for one segment, whatever it is, and never for none or for two.
pub proof fn star_matches_one_segment(path: Seq<Seq<char>>)
    ensures
        segments_match(seq!["*"@], path) <==> path.len() == 1,
{
    reveal_strlit("*");
    reveal_strlit("**");
    reveal_with_fuel(segments_match, 2);
    let pat = seq!["*"@];
    assert(pat[0].len() != "**"@.len());
    assert(pat.drop_first() =~= Seq::<Seq<char>>::empty());
}

/// `**` alone matches every path.
pub proof fn double_star_matches_all(path: Seq<Seq<char>>)
    ensures
        segments_match(seq!["**"@], path),
{
    reveal_with_fuel(segments_match, 2);
    let pat = seq!["**"@];
    assert(pat.drop_first() =~= Seq::<Seq<char>>::empty());
    assert(path.skip(path.len() as int).len() == 0);
}

/// A pattern that ends in `**` matches its own prefix followed by any tail, the empty one
/// too.
pub proof fn double_star_tail_matches_any_tail(
    prefix: Seq<Seq<char>>,
    tail: Seq<Seq<char>>,
)
    ensures
        segments_match(prefix.push("**"@), prefix + tail),
    decreases prefix.len(),
{
    let pat = prefix.push("**"@);
    let path = prefix + tail;
    if prefix.len() == 0 {
        assert(pat =~= seq!["**"@]);
        assert(path =~= tail);
        double_star_matches_all(tail);
    } else {
        let rest = prefix.drop_first();
        double_star_tail_matches_any_tail(rest, tail);
        assert(pat.drop_first() =~= rest.push("**"@));
        assert(path.drop_first() =~= rest + tail);
        if pat[0] == "**"@ {
            assert(path.skip(1) =~= path.drop_first());
        }
    }
}

/// The first `k` segments of `path` match `a`, and the others match `b`.
pub open spec fn split_match(
    a: Seq<Seq<char>>,
    b: Seq<Seq<char>>,
    path: Seq<Seq<char>>,
    k: int,
) -> bool {
    &&& 0 <= k <= path.len()
    &&& segments_match(a, path.take(k))
    &&& segments_match(b, path.skip(k))
}

/// A pattern of two parts matches exactly the paths that can be cut in two, the first part of
/// which matches the one and the second the other.
pub proof fn joined_patterns_match_split_paths(
    a: Seq<Seq<char>>,
    b: Seq<Seq<char>>,
    path: Seq<Seq<char>>,
)
    ensures
        segments_match(a + b, path) <==> exists|k: int| #[trigger] split_match(a, b, path, k),
    decreases a.len(),
{
    let ab = a + b;
    if a.len() == 0 {
        assert(ab =~= b);
        assert(path.skip(0) =~= path);
        if segments_match(ab, path) {
            assert(split_match(a, b, path, 0));
        }
        if exists|k: int| #[trigger] split_match(a, b, path, k) {
            let k = choose|k: int| #[trigger] split_match(a, b, path, k);
            assert(path.take(k).len() == 0);
        }
    } else {
        let rest = a.drop_first();
        assert(ab.drop_first() =~= rest + b);
        if a[0] == "**"@ {
            if segments_match(ab, path) {
                let i = choose|i: int|
                    0 <= i <= path.len() && segments_match(ab.drop_first(), #[trigger] path.skip(i));
                let tail = path.skip(i);
                joined_patterns_match_split_paths(rest, b, tail);
                let k = choose|k: int| #[trigger] split_match(rest, b, tail, k);
                assert(path.take(i + k).skip(i) =~= tail.take(k));
                assert(path.skip(i + k) =~= tail.skip(k));
                assert(split_match(a, b, path, i + k));
            }
            if exists|k: int| #[trigger] split_match(a, b, path, k) {
                let k = choose|k: int| #[trigger] split_match(a, b, path, k);
                let front = path.take(k);
                let i = choose|i: int|
                    0 <= i <= front.len() && segments_match(rest, #[trigger] front.skip(i));
                let tail = path.skip(i);
                assert(tail.take(k - i) =~= front.skip(i));
                assert(tail.skip(k - i) =~= path.skip(k));
                assert(split_match(rest, b, tail, k - i));
                joined_patterns_match_split_paths(rest, b, tail);
                assert(segments_match(ab.drop_first(), path.skip(i)));
            }
        } else {
            if segments_match(ab, path) {
                let tail = path.drop_first();
                joined_patterns_match_split_paths(rest, b, tail);
                let k = choose|k: int| #[trigger] split_match(rest, b, tail, k);
                assert(path.take(k + 1).drop_first() =~= tail.take(k));
                assert(path.skip(k + 1) =~= tail.skip(k));
                assert(split_match(a, b, path, k + 1));
            }
            if exists|k: int| #[trigger] split_match(a, b, path, k) {
                let k = choose|k: int| #[trigger] split_match(a, b, path, k);
                let front = path.take(k);
                let tail = path.drop_first();
                assert(front.drop_first() =~= tail.take(k - 1));
                assert(path.skip(k) =~= tail.skip(k - 1));
                assert(split_match(rest, b, tail, k - 1));
                joined_patterns_match_split_paths(rest, b, tail);
            }
        }
    }
}

/// A pattern without a star matches the path that reads like it, and no other.
pub proof fn a_pattern_without_stars_matches_itself_only(pattern: Seq<char>, path: Seq<char>)
    requires
        !pattern.contains('*'),
    ensures
        glob_match(pattern, path) <==> path == pattern,
{
    reveal_strlit("*");
    reveal_strlit("**");
    let pat = crate::text::pieces(pattern, '/');
    assert forall|i: int| 0 <= i < pat.len() implies #[trigger] pat[i] != "*"@ && pat[i]
        != "**"@ by {
        crate::text::lemma_piece_is_entry(pattern, '/', i);
        let e = pat[i];
        let (a, b) = choose|a: Seq<char>, b: Seq<char>| #[trigger]
            crate::text::entry_between(pattern, '/', a, e, b);
        if e == "*"@ || e == "**"@ {
            assert(e[0] == '*');
            assert(pattern[a.len() as int] == '*');
        }
    }
    literal_pattern_matches_itself_only(pat, crate::text::pieces(path, '/'));
    crate::text::pieces_tell_texts_apart(pattern, path, '/');
}

/// Where two patterns match two paths, the patterns with a slash in between match the paths
/// with a slash in between.
pub proof fn slashes_join_matches(a: Seq<char>, b: Seq<char>, x: Seq<char>, y: Seq<char>)
    requires
        glob_match(a, x),
        glob_match(b, y),
    ensures
        glob_match(a.push('/') + b, x.push('/') + y),
{
    crate::text::pieces_of_joined_texts(a, b, '/');
    crate::text::pieces_of_joined_texts(x, y, '/');
    let (p, q) = (crate::text::pieces(a, '/'), crate::text::pieces(b, '/'));
    let (s, t) = (crate::text::pieces(x, '/'), crate::text::pieces(y, '/'));
    assert((s + t).take(s.len() as int) =~= s);
    assert((s + t).skip(s.len() as int) =~= t);
    assert(split_match(p, q, s + t, s.len() as int));
    joined_patterns_match_split_paths(p, q, s + t);
}

/// A star matches what has no slash, and two stars match everything.
pub proof fn one_star_stops_at_a_slash(path: Seq<char>)
    ensures
        glob_match(seq!['*'], path) <==> !path.contains('/'),
        glob_match(seq!['*', '*'], path),
{
    reveal_strlit("*");
    reveal_strlit("**");
    assert("*"@ =~= seq!['*']);
    assert("**"@ =~= seq!['*', '*']);
    let segments = crate::text::pieces(path, '/');
    crate::text::a_text_without_separator_is_one_piece(seq!['*'], '/');
    crate::text::a_text_without_separator_is_one_piece(seq!['*', '*'], '/');
    star_matches_one_segment(segments);
    double_star_matches_all(segments);
    if path.contains('/') {
        let i = choose|i: int| 0 <= i < path.len() && path[i] == '/';
        let (x, y) = (path.take(i), path.skip(i + 1));
        assert(path =~= x.push('/') + y);
        crate::text::pieces_of_joined_texts(x, y, '/');
        crate::text::pieces_of_joined_texts(x, x, '/');
    } else {
        crate::text::a_text_without_separator_is_one_piece(path, '/');
    }
}

}
