//! The base name of a path.
//!
//! A path is a text whose segments are separated by `/`. Empty segments and
//! segments that are a single dot stand for nothing. The base name is the last
//! segment that stands for something, unless that is `..`.

use vstd::prelude::*;

verus! {

/// Where the segment that ends at `end` starts.
pub open spec fn segment_start(s: Seq<char>, end: int) -> int
    decreases end,
{
    if end <= 0 || end > s.len() || s[end - 1] == '/' {
        end
    } else {
        segment_start(s, end - 1)
    }
}

/// Whether a segment stands for nothing: it is empty or a single dot.
pub open spec fn is_skipped(segment: Seq<char>) -> bool {
    segment.len() == 0 || segment == seq!['.']
}

/// Whether a segment names the parent directory.
pub open spec fn is_parent(segment: Seq<char>) -> bool {
    segment == seq!['.', '.']
}

/// Where the base name of `s[..end]` starts and ends: the search goes from
/// `end` to the left, over the segments that stand for nothing.
pub open spec fn base_name_range(s: Seq<char>, end: int) -> Option<(int, int)>
    decreases end,
{
    if end <= 0 || end > s.len() {
        None
    } else {
        let start = segment_start(s, end);
        if 0 <= start < end && !is_skipped(s.subrange(start, end)) {
            if is_parent(s.subrange(start, end)) {
                None
            } else {
                Some((start, end))
            }
        } else {
            base_name_range(s, end - 1)
        }
    }
}

/// The base name of the path `s`, if it has one.
pub open spec fn base_name(s: Seq<char>) -> Option<Seq<char>> {
    match base_name_range(s, s.len() as int) {
        Some((start, end)) => Some(s.subrange(start, end)),
        None => None,
    }
}

/// A segment starts inside the text, behind a separator or at the very start,
/// and holds no separator.
pub proof fn lemma_segment_start(s: Seq<char>, end: int)
    requires
        0 <= end <= s.len(),
    ensures
        0 <= segment_start(s, end) <= end,
        segment_start(s, end) > 0 ==> s[segment_start(s, end) - 1] == '/',
        forall|k: int| segment_start(s, end) <= k < end ==> #[trigger] s[k] != '/',
    decreases end,
{
    if end > 0 && s[end - 1] != '/' {
        lemma_segment_start(s, end - 1);
    }
}

/// The position that lies behind a separator, or at the start, with no
/// separator between it and `end`, is where the segment starts.
pub proof fn lemma_segment_start_unique(s: Seq<char>, start: int, end: int)
    requires
        0 <= start <= end <= s.len(),
        start > 0 ==> s[start - 1] == '/',
        forall|k: int| start <= k < end ==> #[trigger] s[k] != '/',
    ensures
        segment_start(s, end) == start,
    decreases end - start,
{
    if start < end {
        lemma_segment_start_unique(s, start, end - 1);
    }
}

/// Whether `name` can be the name of an entry of a directory: it is not
/// empty, holds no separator, and is neither `.` nor `..`.
pub open spec fn is_entry_name(name: Seq<char>) -> bool {
    name.len() > 0 && !is_skipped(name) && !is_parent(name) && forall|k: int|
        0 <= k < name.len() ==> #[trigger] name[k] != '/'
}

/// The base name of an entry's path is the entry's name: whatever the
/// directory, the path made of it, a separator and the name has that name as
/// its base name.
pub proof fn lemma_base_name_of_child(dir: Seq<char>, name: Seq<char>)
    requires
        is_entry_name(name),
    ensures
        base_name(dir + seq!['/'] + name) == Some(name),
{
    let path = dir + seq!['/'] + name;
    let start = dir.len() as int + 1;
    let end = path.len() as int;
    assert(path[start - 1] == '/');
    assert forall|k: int| start <= k < end implies #[trigger] path[k] != '/' by {
        assert(path[k] == name[k - start]);
    }
    lemma_segment_start_unique(path, start, end);
    assert(path.subrange(start, end) =~= name);
}

/// A name that can be the name of an entry is its own base name.
pub proof fn lemma_base_name_of_name(name: Seq<char>)
    requires
        is_entry_name(name),
    ensures
        base_name(name) == Some(name),
{
    lemma_segment_start_unique(name, 0, name.len() as int);
    assert(name.subrange(0, name.len() as int) =~= name);
}

/// The base name found from `end` to the left is a whole segment that can be
/// the name of an entry; between it and `end` the path holds nothing but
/// separators and single dots.
pub proof fn lemma_base_name_range(s: Seq<char>, end: int)
    requires
        0 <= end <= s.len(),
    ensures
        match base_name_range(s, end) {
            Some((from, to)) => {
                &&& 0 <= from < to <= end
                &&& from == 0 || s[from - 1] == '/'
                &&& to == end || s[to] == '/'
                &&& is_entry_name(s.subrange(from, to))
                &&& forall|k: int| to <= k < end ==> #[trigger] s[k] == '/' || s[k] == '.'
            },
            None => true,
        },
    decreases end,
{
    if end > 0 {
        let start = segment_start(s, end);
        lemma_segment_start(s, end);
        let segment = s.subrange(start, end);
        if start < end && !is_skipped(segment) {
            if !is_parent(segment) {
                assert forall|k: int| 0 <= k < segment.len() implies #[trigger] segment[k]
                    != '/' by {
                    assert(segment[k] == s[start + k]);
                }
            }
        } else {
            lemma_base_name_range(s, end - 1);
            if start < end {
                assert(segment[0] == s[start]);
            }
            match base_name_range(s, end - 1) {
                Some((from, to)) => {
                    if to == end - 1 && start < end {
                        let name = s.subrange(from, to);
                        assert(name[to - 1 - from] == s[to - 1]);
                    }
                },
                None => {},
            }
        }
    }
}

/// The base name of a path is a whole segment of it that can be the name of
/// an entry, and the last such: behind it the path holds nothing but
/// separators and single dots.
pub proof fn lemma_base_name(s: Seq<char>)
    ensures
        match base_name_range(s, s.len() as int) {
            Some((from, to)) => {
                &&& 0 <= from < to <= s.len()
                &&& from == 0 || s[from - 1] == '/'
                &&& to == s.len() || s[to] == '/'
                &&& is_entry_name(s.subrange(from, to))
                &&& forall|k: int| to <= k < s.len() ==> #[trigger] s[k] == '/' || s[k] == '.'
            },
            None => true,
        },
{
    lemma_base_name_range(s, s.len() as int);
}

/// Where the base name of the characters `s` starts and ends, if it has one.
pub fn find_base_name(s: &Vec<char>) -> (r: Option<(usize, usize)>)
    ensures
        match r {
            Some((start, end)) => base_name_range(s@, s.len() as int) == Some(
                (start as int, end as int),
            ) && start < end <= s.len(),
            None => base_name_range(s@, s.len() as int) is None,
        },
{
    let mut end: usize = s.len();
    while end > 0
        invariant
            end <= s.len(),
            base_name_range(s@, s.len() as int) == base_name_range(s@, end as int),
        decreases end,
    {
        let mut start: usize = end;
        while start > 0 && s[start - 1] != '/'
            invariant
                start <= end <= s.len(),
                forall|k: int| start <= k < end ==> #[trigger] s@[k] != '/',
            decreases start,
        {
            start = start - 1;
        }
        proof {
            lemma_segment_start_unique(s@, start as int, end as int);
        }
        let ghost segment = s@.subrange(start as int, end as int);
        if start == end {
            end = end - 1;
        } else if end - start == 1 && s[start] == '.' {
            proof {
                assert(segment =~= seq!['.']);
            }
            end = end - 1;
        } else if end - start == 2 && s[start] == '.' && s[start + 1] == '.' {
            proof {
                assert(segment =~= seq!['.', '.']);
                assert(seq!['.'].len() == 1);
            }
            return None;
        } else {
            proof {
                assert(seq!['.'].len() == 1);
                assert(seq!['.', '.'].len() == 2);
                if segment == seq!['.'] {
                    assert(segment[0] == '.');
                }
                if segment == seq!['.', '.'] {
                    assert(segment[0] == '.' && segment[1] == '.');
                }
            }
            return Some((start, end));
        }
    }
    None
}

} // verus!
