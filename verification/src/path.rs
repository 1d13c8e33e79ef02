//! Dotted logger paths: `"a.b.c"` names a node three levels below the
//! root. A path is a sequence of one or more non-empty segments
//! separated by `.`; the empty path names the root. A path with an
//! empty segment (a leading, trailing or doubled dot) is malformed.
use vstd::prelude::*;

verus! {

/// Why a path was rejected.
#[derive(Clone, Copy, Debug, PartialEq, Eq, Structural)]
pub enum PathError {
    /// The path holds an empty segment: a leading, trailing or doubled
    /// delimiter.
    InvalidPathSegment,
}

/// Split `s` at every dot, `cur` being the partial segment read so far.
pub open spec fn split_acc(s: Seq<char>, cur: Seq<char>) -> Seq<Seq<char>>
    decreases s.len(),
{
    if s.len() == 0 {
        seq![cur]
    } else if s[0] == '.' {
        seq![cur] + split_acc(s.skip(1), Seq::empty())
    } else {
        split_acc(s.skip(1), cur.push(s[0]))
    }
}

/// The segments of a dotted path: none for the empty path, else the
/// parts between the dots.
pub open spec fn path_segments(s: Seq<char>) -> Seq<Seq<char>> {
    if s.len() == 0 {
        Seq::empty()
    } else {
        split_acc(s, Seq::empty())
    }
}

/// A path is well formed when none of its segments is empty.
pub open spec fn valid_path(s: Seq<char>) -> bool {
    forall|k: int| 0 <= k < path_segments(s).len() ==> (#[trigger] path_segments(s)[k]).len() > 0
}

/// The delimiter does not occur in `s`: true of every segment.
pub open spec fn dot_free(s: Seq<char>) -> bool {
    forall|i: int| 0 <= i < s.len() ==> s[i] != '.'
}

/// Splitting at dots leaves no dot inside any part.
proof fn lemma_split_acc_dot_free(s: Seq<char>, cur: Seq<char>)
    requires
        dot_free(cur),
    ensures
        forall|k: int| 0 <= k < split_acc(s, cur).len() ==> dot_free(#[trigger] split_acc(s, cur)[k]),
    decreases s.len(),
{
    if s.len() == 0 {
        assert(split_acc(s, cur)[0] == cur);
    } else if s[0] == '.' {
        lemma_split_acc_dot_free(s.skip(1), Seq::empty());
        let rest = split_acc(s.skip(1), Seq::empty());
        assert forall|k: int| 0 <= k < split_acc(s, cur).len() implies dot_free(
            #[trigger] split_acc(s, cur)[k],
        ) by {
            if k > 0 {
                assert(split_acc(s, cur)[k] == rest[k - 1]);
            }
        }
    } else {
        assert(dot_free(cur.push(s[0]))) by {
            assert(forall|i: int| 0 <= i < cur.len() ==> cur.push(s[0])[i] == cur[i]);
        }
        lemma_split_acc_dot_free(s.skip(1), cur.push(s[0]));
        assert(split_acc(s, cur) == split_acc(s.skip(1), cur.push(s[0])));
    }
}

/// The segments of a well-formed path are non-empty and hold no
/// delimiter.
pub proof fn lemma_valid_path_segments(s: Seq<char>)
    requires
        valid_path(s),
    ensures
        forall|k: int|
            0 <= k < path_segments(s).len() ==> (#[trigger] path_segments(s)[k]).len() > 0 && dot_free(
                path_segments(s)[k],
            ),
{
    if s.len() > 0 {
        lemma_split_acc_dot_free(s, Seq::empty());
    }
}

/// Split a dotted path into its segments, rejecting any empty segment.
pub fn parse_path(name: &str) -> (r: Result<Vec<String>, PathError>)
    ensures
        match r {
            Ok(v) => valid_path(name@) && v@.map_values(|s: String| s@) == path_segments(name@),
            Err(e) => !valid_path(name@) && e == PathError::InvalidPathSegment,
        },
{
    let n = name.unicode_len();
    if n == 0 {
        let segs: Vec<String> = Vec::new();
        proof {
            assert(segs@.map_values(|s: String| s@) =~= path_segments(name@));
        }
        return Ok(segs);
    }
    let mut segs: Vec<String> = Vec::new();
    proof {
        assert(name@.skip(0) =~= name@);
        assert(name@.subrange(0, 0) =~= Seq::<char>::empty());
        assert(segs@.map_values(|s: String| s@) =~= Seq::<Seq<char>>::empty());
        assert(Seq::<Seq<char>>::empty() + split_acc(name@, Seq::empty()) =~= split_acc(name@, Seq::empty()));
    }
    let mut start: usize = 0;
    let mut i: usize = 0;
    while i < n
        invariant
            n == name@.len(),
            n > 0,
            start <= i <= n,
            split_acc(name@, Seq::empty()) == segs@.map_values(|s: String| s@) + split_acc(
                name@.skip(i as int),
                name@.subrange(start as int, i as int),
            ),
            forall|m: int| 0 <= m < segs@.len() ==> (#[trigger] segs@[m])@.len() > 0,
        decreases n - i,
    {
        let ghost tail = name@.skip(i as int);
        let ghost cur = name@.subrange(start as int, i as int);
        proof {
            assert(tail.len() == n - i);
            assert(tail[0] == name@[i as int]);
            assert(tail.skip(1) =~= name@.skip(i as int + 1));
        }
        let ch = name.get_char(i);
        if ch == '.' {
            proof {
                assert(split_acc(tail, cur) == seq![cur] + split_acc(tail.skip(1), Seq::empty()));
            }
            if start == i {
                // The segment between the previous dot and this one is
                // empty, so the path is malformed.
                proof {
                    let all = split_acc(name@, Seq::empty());
                    let pre = segs@.map_values(|s: String| s@);
                    let rest = seq![cur] + split_acc(tail.skip(1), Seq::empty());
                    assert(all == pre + rest);
                    assert(rest[0] == cur);
                    assert(all[pre.len() as int] == rest[0]);
                    assert(path_segments(name@)[pre.len() as int].len() == 0);
                    assert(!valid_path(name@));
                }
                return Err(PathError::InvalidPathSegment);
            }
            let seg = name.substring_char(start, i).to_owned();
            segs.push(seg);
            start = i + 1;
            proof {
                assert(segs@.map_values(|s: String| s@) =~= segs@.drop_last().map_values(|s: String| s@).push(cur));
                assert(name@.subrange(start as int, i as int + 1) =~= Seq::<char>::empty());
                assert(split_acc(name@, Seq::empty()) =~= segs@.map_values(|s: String| s@) + split_acc(
                    name@.skip(i as int + 1),
                    name@.subrange(start as int, i as int + 1),
                ));
            }
        } else {
            proof {
                assert(split_acc(tail, cur) == split_acc(tail.skip(1), cur.push(name@[i as int])));
                assert(cur.push(name@[i as int]) =~= name@.subrange(start as int, i as int + 1));
            }
        }
        i += 1;
    }
    let ghost cur = name@.subrange(start as int, n as int);
    proof {
        assert(name@.skip(n as int).len() == 0);
        assert(split_acc(name@.skip(n as int), cur) == seq![cur]);
    }
    if start == n {
        // The path ends in a dot: its last segment is empty.
        proof {
            let all = split_acc(name@, Seq::empty());
            let pre = segs@.map_values(|s: String| s@);
            let rest = seq![cur];
            assert(all == pre + rest);
            assert(rest[0] == cur);
            assert(all[pre.len() as int] == rest[0]);
            assert(path_segments(name@)[pre.len() as int].len() == 0);
            assert(!valid_path(name@));
        }
        return Err(PathError::InvalidPathSegment);
    }
    let seg = name.substring_char(start, n).to_owned();
    let ghost pre = segs@.map_values(|s: String| s@);
    segs.push(seg);
    proof {
        let all = split_acc(name@, Seq::empty());
        assert(all == pre + seq![cur]);
        assert(segs@.map_values(|s: String| s@) =~= pre.push(cur));
        assert(pre.push(cur) =~= pre + seq![cur]);
        assert(segs@.map_values(|s: String| s@) == path_segments(name@));
        assert(cur.len() > 0);
        assert forall|k: int| 0 <= k < path_segments(name@).len() implies (#[trigger] path_segments(
            name@,
        )[k]).len() > 0 by {
            assert(path_segments(name@)[k] == segs@[k]@);
        }
    }
    Ok(segs)
}

} // verus!
