//! A code-graph `file` is not guaranteed repo-relative: some producers emit
//! absolute build-cache paths. The viewer recognises the shape of an absolute
//! path and presents it honestly instead of as source the reader could open.
use vstd::prelude::*;

use crate::text::{chars_of, decimal, decimal_spec};

verus! {

/// `c` separates path segments (`/` or `\`).
pub open spec fn is_path_sep(c: char) -> bool {
    c == '/' || c == '\\'
}

/// `c` is an ASCII letter.
pub open spec fn is_ascii_alpha(c: char) -> bool {
    ('a' <= c && c <= 'z') || ('A' <= c && c <= 'Z')
}

/// A path looks repo-relative unless it starts with `/` or `~`, or with a
/// Windows drive letter (`C:`).
pub open spec fn repo_relative_spec(p: Seq<char>) -> bool {
    &&& !(p.len() > 0 && (p[0] == '/' || p[0] == '~'))
    &&& !(p.len() >= 2 && is_ascii_alpha(p[0]) && p[1] == ':')
}

/// Scan state after reading `p`: the completed non-empty segments and the
/// segment still being read.
pub open spec fn seg_scan(p: Seq<char>) -> (Seq<Seq<char>>, Seq<char>)
    decreases p.len(),
{
    if p.len() == 0 {
        (seq![], seq![])
    } else {
        let prev = seg_scan(p.drop_last());
        let c = p.last();
        if is_path_sep(c) {
            (
                if prev.1.len() > 0 {
                    prev.0.push(prev.1)
                } else {
                    prev.0
                },
                seq![],
            )
        } else {
            (prev.0, prev.1.push(c))
        }
    }
}

/// The non-empty segments of `p` between `/` and `\` separators, in order.
pub open spec fn path_segments(p: Seq<char>) -> Seq<Seq<char>> {
    let s = seg_scan(p);
    if s.1.len() > 0 {
        s.0.push(s.1)
    } else {
        s.0
    }
}

/// A path shortened to its last two segments behind an ellipsis; a path of at
/// most two segments is kept as it is.
pub open spec fn shorten_spec(p: Seq<char>) -> Seq<char> {
    let segs = path_segments(p);
    if segs.len() <= 2 {
        p
    } else {
        ".../"@ + segs[segs.len() - 2] + "/"@ + segs[segs.len() - 1]
    }
}

/// The honest display of a `file:line` location.
pub open spec fn location_spec(file: Seq<char>, line: nat) -> Seq<char> {
    if repo_relative_spec(file) {
        file + ":"@ + decimal_spec(line)
    } else {
        shorten_spec(file) + ":"@ + decimal_spec(line)
            + " — not a repository file (absolute path outside the repo)"@
    }
}

/// Whether a code-graph `file` path looks repo-relative rather than an
/// absolute filesystem path (a syntactic check only).
pub fn is_repo_relative_path(path: &str) -> (r: bool)
    ensures
        r == repo_relative_spec(path@),
{
    let cs = chars_of(path);
    if cs.len() > 0 && (cs[0] == '/' || cs[0] == '~') {
        return false;
    }
    if cs.len() >= 2 {
        let c = cs[0];
        let alpha = ('a' <= c && c <= 'z') || ('A' <= c && c <= 'Z');
        if alpha && cs[1] == ':' {
            return false;
        }
    }
    true
}

/// The segment ranges of `cs` as character sequences.
pub open spec fn range_texts(cs: Seq<char>, ranges: Seq<(usize, usize)>) -> Seq<Seq<char>> {
    ranges.map_values(|r: (usize, usize)| cs.subrange(r.0 as int, r.1 as int))
}

/// Shorten an absolute path to its last two segments, prefixed with `...`.
pub fn shorten_absolute_path(path: &str) -> (r: String)
    ensures
        r@ == shorten_spec(path@),
{
    let cs = chars_of(path);
    let n = cs.len();
    let mut ranges: Vec<(usize, usize)> = Vec::new();
    let mut start: usize = 0;
    let mut i: usize = 0;
    while i < n
        invariant
            n == cs@.len(),
            cs@ == path@,
            i <= n,
            start <= i,
            forall|k: int| 0 <= k < ranges@.len() ==> (#[trigger] ranges@[k]).0 <= ranges@[k].1 <= n,
            range_texts(cs@, ranges@) == seg_scan(cs@.subrange(0, i as int)).0,
            cs@.subrange(start as int, i as int) == seg_scan(cs@.subrange(0, i as int)).1,
        decreases n - i,
    {
        let c = cs[i];
        let ghost pre = cs@.subrange(0, i as int);
        let ghost old_ranges = ranges@;
        proof {
            assert(cs@.subrange(0, i + 1).drop_last() =~= pre);
            assert(cs@.subrange(0, i + 1).last() == c);
        }
        if c == '/' || c == '\\' {
            if start < i {
                ranges.push((start, i));
                proof {
                    assert forall|k: int| 0 <= k < ranges@.len() implies (#[trigger] ranges@[k]).0
                        <= ranges@[k].1 <= n by {
                        if k < old_ranges.len() {
                            assert(ranges@[k] == old_ranges[k]);
                        }
                    }
                    assert(range_texts(cs@, ranges@) =~= range_texts(cs@, old_ranges).push(
                        cs@.subrange(start as int, i as int),
                    ));
                }
            }
            start = i + 1;
            proof {
                assert(cs@.subrange(start as int, i + 1) =~= Seq::<char>::empty());
            }
        } else {
            proof {
                assert(cs@.subrange(start as int, i + 1) =~= cs@.subrange(start as int, i as int).push(c));
            }
        }
        i += 1;
    }
    proof {
        assert(cs@.subrange(0, n as int) =~= cs@);
    }
    if start < n {
        let ghost old_ranges = ranges@;
        ranges.push((start, n));
        proof {
            assert(range_texts(cs@, ranges@) =~= range_texts(cs@, old_ranges).push(
                cs@.subrange(start as int, n as int),
            ));
        }
    }
    proof {
        assert(range_texts(cs@, ranges@) == path_segments(path@));
    }
    let m = ranges.len();
    if m <= 2 {
        return path.to_owned();
    }
    let (a0, a1) = ranges[m - 2];
    let (b0, b1) = ranges[m - 1];
    proof {
        assert(range_texts(cs@, ranges@)[m - 2] == cs@.subrange(a0 as int, a1 as int));
        assert(range_texts(cs@, ranges@)[m - 1] == cs@.subrange(b0 as int, b1 as int));
    }
    let mut out = String::new();
    out.append(".../");
    out.append(path.substring_char(a0, a1));
    out.append("/");
    out.append(path.substring_char(b0, b1));
    proof {
        assert(out@ =~= shorten_spec(path@));
    }
    out
}

/// Honest display for a code-graph `file:line` location: a non-repo-relative
/// path is shortened and explicitly marked as not a repository file.
pub fn format_location(file: &str, line: u32) -> (r: String)
    ensures
        r@ == location_spec(file@, line as nat),
{
    let digits = decimal(line as u64);
    if is_repo_relative_path(file) {
        let mut out = file.to_owned();
        out.append(":");
        out.append(digits.as_str());
        proof {
            assert(out@ =~= location_spec(file@, line as nat));
        }
        out
    } else {
        let mut out = shorten_absolute_path(file);
        out.append(":");
        out.append(digits.as_str());
        out.append(" — not a repository file (absolute path outside the repo)");
        proof {
            assert(out@ =~= location_spec(file@, line as nat));
        }
        out
    }
}

} // verus!
