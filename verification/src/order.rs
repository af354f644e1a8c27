//! The order in which the walk enters the directories of a listing.

use vstd::prelude::*;
use crate::text::to_chars;
use crate::walker::Entry;

verus! {

/// Whether text `a` stands before text `b` in the dictionary, or is `b`:
/// the first character in which they differ decides, and a text stands
/// before those that it begins.
pub open spec fn text_le(a: Seq<char>, b: Seq<char>) -> bool
    decreases a.len(),
{
    if a.len() == 0 {
        true
    } else if b.len() == 0 {
        false
    } else if a[0] != b[0] {
        a[0] < b[0]
    } else {
        text_le(a.drop_first(), b.drop_first())
    }
}

/// Of two texts one stands before the other, or they are the same.
pub proof fn lemma_text_le_total(a: Seq<char>, b: Seq<char>)
    ensures
        text_le(a, b) || text_le(b, a),
    decreases a.len(),
{
    if a.len() > 0 && b.len() > 0 && a[0] == b[0] {
        lemma_text_le_total(a.drop_first(), b.drop_first());
    }
}

/// What stands before a text stands before all that the text stands before.
pub proof fn lemma_text_le_transitive(a: Seq<char>, b: Seq<char>, c: Seq<char>)
    requires
        text_le(a, b),
        text_le(b, c),
    ensures
        text_le(a, c),
    decreases a.len(),
{
    if a.len() > 0 && b.len() > 0 && c.len() > 0 && a[0] == b[0] && b[0] == c[0] {
        lemma_text_le_transitive(a.drop_first(), b.drop_first(), c.drop_first());
    }
}

/// Two texts that stand before each other are the same text.
pub proof fn lemma_text_le_antisymmetric(a: Seq<char>, b: Seq<char>)
    requires
        text_le(a, b),
        text_le(b, a),
    ensures
        a == b,
    decreases a.len(),
{
    if a.len() > 0 && b.len() > 0 {
        lemma_text_le_antisymmetric(a.drop_first(), b.drop_first());
        assert(a =~= seq![a[0]] + a.drop_first());
        assert(b =~= seq![b[0]] + b.drop_first());
    } else {
        assert(a =~= b);
    }
}

/// Whether text `a` stands before text `b` in the dictionary, or is `b`.
pub fn text_precedes(a: &Vec<char>, b: &Vec<char>) -> (r: bool)
    ensures
        r == text_le(a@, b@),
{
    let mut at: usize = 0;
    proof {
        assert(a@.subrange(0, a.len() as int) =~= a@);
        assert(b@.subrange(0, b.len() as int) =~= b@);
    }
    while at < a.len() && at < b.len() && a[at] == b[at]
        invariant
            at <= a.len(),
            at <= b.len(),
            text_le(a@, b@) == text_le(
                a@.subrange(at as int, a.len() as int),
                b@.subrange(at as int, b.len() as int),
            ),
        decreases a.len() - at,
    {
        proof {
            let rest_a = a@.subrange(at as int, a.len() as int);
            let rest_b = b@.subrange(at as int, b.len() as int);
            assert(rest_a.drop_first() =~= a@.subrange(at + 1, a.len() as int));
            assert(rest_b.drop_first() =~= b@.subrange(at + 1, b.len() as int));
        }
        at = at + 1;
    }
    if at == a.len() {
        true
    } else if at == b.len() {
        false
    } else {
        a[at] < b[at]
    }
}

/// The positions `order`, which are in the order of the walk, with position
/// `at` put at its place: behind every position whose path does not stand
/// after its own.
pub open spec fn place(entries: Seq<Entry>, order: Seq<int>, at: int) -> Seq<int>
    decreases order.len(),
{
    if order.len() == 0 {
        seq![at]
    } else if text_le(entries[order.last()].path(), entries[at].path()) {
        order.push(at)
    } else {
        place(entries, order.drop_last(), at).push(order.last())
    }
}

/// The positions of the directories among the first `n` entries, in the
/// order of the walk.
pub open spec fn visit_order_upto(entries: Seq<Entry>, n: int) -> Seq<int>
    decreases n,
{
    if n <= 0 {
        Seq::empty()
    } else if entries[n - 1] is Dir {
        place(entries, visit_order_upto(entries, n - 1), n - 1)
    } else {
        visit_order_upto(entries, n - 1)
    }
}

/// The positions of the directories among `entries` in the order in which
/// the walk enters them: by path, and in the order of the listing where two
/// paths are the same.
pub open spec fn visit_order(entries: Seq<Entry>) -> Seq<int> {
    visit_order_upto(entries, entries.len() as int)
}

/// Where [`place`] puts a position: behind the last position of `order`
/// whose path does not stand after its own.
pub open spec fn place_index(entries: Seq<Entry>, order: Seq<int>, at: int) -> int
    decreases order.len(),
{
    if order.len() == 0 {
        0
    } else if text_le(entries[order.last()].path(), entries[at].path()) {
        order.len() as int
    } else {
        place_index(entries, order.drop_last(), at)
    }
}

/// [`place`] inserts the position at [`place_index`]; the path of what then
/// stands directly before it does not stand after its own, and the paths of
/// all that stands behind it do.
pub proof fn lemma_place(entries: Seq<Entry>, order: Seq<int>, at: int)
    ensures
        0 <= place_index(entries, order, at) <= order.len(),
        place(entries, order, at) == order.insert(place_index(entries, order, at), at),
        place_index(entries, order, at) > 0 ==> text_le(
            entries[order[place_index(entries, order, at) - 1]].path(),
            entries[at].path(),
        ),
        forall|k: int|
            place_index(entries, order, at) <= k < order.len() ==> !text_le(
                entries[#[trigger] order[k]].path(),
                entries[at].path(),
            ),
    decreases order.len(),
{
    if order.len() == 0 {
        assert(seq![at] =~= order.insert(0, at));
    } else if text_le(entries[order.last()].path(), entries[at].path()) {
        assert(order.push(at) =~= order.insert(order.len() as int, at));
    } else {
        let head = order.drop_last();
        lemma_place(entries, head, at);
        let to = place_index(entries, head, at);
        assert(head.insert(to, at).push(order.last()) =~= order.insert(to, at));
        assert forall|k: int| to <= k < order.len() implies !text_le(
            entries[#[trigger] order[k]].path(),
            entries[at].path(),
        ) by {
            if k < order.len() - 1 {
                assert(order[k] == head[k]);
            }
        }
    }
}

/// The order of the walk holds the position of each directory once and no
/// other position. The paths at its positions do not fall, and of two
/// directories with one path the one that the listing names first comes first.
pub proof fn lemma_visit_order_upto(entries: Seq<Entry>, n: int)
    requires
        0 <= n <= entries.len(),
    ensures
        forall|k: int|
            0 <= k < visit_order_upto(entries, n).len() ==> 0 <= #[trigger] visit_order_upto(
                entries,
                n,
            )[k] < n && entries[visit_order_upto(entries, n)[k]] is Dir,
        forall|at: int|
            0 <= at < n && entries[at] is Dir ==> #[trigger] visit_order_upto(entries, n).contains(
                at,
            ),
        visit_order_upto(entries, n).no_duplicates(),
        forall|i: int, j: int|
            0 <= i < j < visit_order_upto(entries, n).len() ==> text_le(
                entries[#[trigger] visit_order_upto(entries, n)[i]].path(),
                entries[#[trigger] visit_order_upto(entries, n)[j]].path(),
            ),
        forall|i: int, j: int|
            0 <= i < j < visit_order_upto(entries, n).len() && text_le(
                entries[#[trigger] visit_order_upto(entries, n)[j]].path(),
                entries[#[trigger] visit_order_upto(entries, n)[i]].path(),
            ) ==> visit_order_upto(entries, n)[i] < visit_order_upto(entries, n)[j],
    decreases n,
{
    if n > 0 {
        lemma_visit_order_upto(entries, n - 1);
        let before = visit_order_upto(entries, n - 1);
        let order = visit_order_upto(entries, n);
        if entries[n - 1] is Dir {
            let at = n - 1;
            lemma_place(entries, before, at);
            let to = place_index(entries, before, at);
            assert(order == before.insert(to, at));
            assert forall|k: int| 0 <= k < order.len() implies 0 <= #[trigger] order[k] < n
                && entries[order[k]] is Dir by {
                if k < to {
                    assert(order[k] == before[k]);
                } else if k > to {
                    assert(order[k] == before[k - 1]);
                }
            }
            assert forall|dir: int| 0 <= dir < n && entries[dir] is Dir implies #[trigger] order.contains(
                dir,
            ) by {
                if dir == at {
                    assert(order[to] == at);
                } else {
                    assert(before.contains(dir));
                    let k = choose|k: int| 0 <= k < before.len() && before[k] == dir;
                    if k < to {
                        assert(order[k] == dir);
                    } else {
                        assert(order[k + 1] == dir);
                    }
                }
            }
            assert forall|i: int, j: int| 0 <= i < j < order.len() implies order[i] != order[j] by {
                let bi = if i < to { i } else { i - 1 };
                let bj = if j < to { j } else { j - 1 };
                if i != to {
                    assert(order[i] == before[bi]);
                }
                if j != to {
                    assert(order[j] == before[bj]);
                }
            }
            assert forall|i: int, j: int| 0 <= i < j < order.len() implies text_le(
                entries[#[trigger] order[i]].path(),
                entries[#[trigger] order[j]].path(),
            ) by {
                let bi = if i < to { i } else { i - 1 };
                let bj = if j < to { j } else { j - 1 };
                if i != to {
                    assert(order[i] == before[bi]);
                }
                if j != to {
                    assert(order[j] == before[bj]);
                }
                if j == to {
                    assert(bi <= to - 1);
                    if bi < to - 1 {
                        assert(text_le(entries[before[bi]].path(), entries[before[to - 1]].path()));
                        lemma_text_le_transitive(
                            entries[before[bi]].path(),
                            entries[before[to - 1]].path(),
                            entries[at].path(),
                        );
                    }
                } else if i == to {
                    assert(!text_le(entries[before[bj]].path(), entries[at].path()));
                    lemma_text_le_total(entries[before[bj]].path(), entries[at].path());
                } else {
                    assert(text_le(entries[before[bi]].path(), entries[before[bj]].path()));
                }
            }
            assert forall|i: int, j: int|
                0 <= i < j < order.len() && text_le(
                    entries[#[trigger] order[j]].path(),
                    entries[#[trigger] order[i]].path(),
                ) implies order[i] < order[j] by {
                let bi = if i < to { i } else { i - 1 };
                let bj = if j < to { j } else { j - 1 };
                if i != to {
                    assert(order[i] == before[bi]);
                }
                if j != to {
                    assert(order[j] == before[bj]);
                }
                if i == to {
                    assert(!text_le(entries[before[bj]].path(), entries[at].path()));
                }
            }
        } else {
            assert forall|dir: int| 0 <= dir < n && entries[dir] is Dir implies #[trigger] order.contains(
                dir,
            ) by {
                assert(before.contains(dir));
            }
        }
    }
}

/// The walk enters every directory of a listing once, and nothing else; it
/// enters them by their paths in the order of the dictionary, and two
/// directories with one path in the order of the listing.
pub proof fn lemma_visit_order(entries: Seq<Entry>)
    ensures
        forall|k: int|
            0 <= k < visit_order(entries).len() ==> 0 <= #[trigger] visit_order(entries)[k]
                < entries.len() && entries[visit_order(entries)[k]] is Dir,
        forall|at: int|
            0 <= at < entries.len() && entries[at] is Dir ==> #[trigger] visit_order(
                entries,
            ).contains(at),
        visit_order(entries).no_duplicates(),
        forall|i: int, j: int|
            0 <= i < j < visit_order(entries).len() ==> text_le(
                entries[#[trigger] visit_order(entries)[i]].path(),
                entries[#[trigger] visit_order(entries)[j]].path(),
            ),
        forall|i: int, j: int|
            0 <= i < j < visit_order(entries).len() && text_le(
                entries[#[trigger] visit_order(entries)[j]].path(),
                entries[#[trigger] visit_order(entries)[i]].path(),
            ) ==> visit_order(entries)[i] < visit_order(entries)[j],
{
    lemma_visit_order_upto(entries, entries.len() as int);
}

/// Positions as mathematical integers.
pub open spec fn positions(order: Seq<usize>) -> Seq<int> {
    order.map_values(|at: usize| at as int)
}

/// The path under which `entry` lies.
fn path_of(entry: &Entry) -> (path: &String)
    ensures
        path@ == entry.path(),
{
    match entry {
        Entry::File(path) => path,
        Entry::Dir(path, _) => path,
        Entry::Other(path) => path,
    }
}

/// The positions of the directories among `entries` in the order in which
/// the walk enters them.
pub fn order_of_visit(entries: &Vec<Entry>) -> (order: Vec<usize>)
    ensures
        positions(order@) == visit_order(entries@),
        forall|k: int|
            0 <= k < order.len() ==> #[trigger] order[k] < entries.len() && entries[order[k] as int] is Dir,
{
    let mut paths: Vec<Vec<char>> = Vec::new();
    let mut at: usize = 0;
    while at < entries.len()
        invariant
            at <= entries.len(),
            paths.len() == at,
            forall|k: int| 0 <= k < at ==> (#[trigger] paths[k])@ == entries[k].path(),
        decreases entries.len() - at,
    {
        paths.push(to_chars(path_of(&entries[at]).as_str()));
        at = at + 1;
    }
    let mut order: Vec<usize> = Vec::new();
    at = 0;
    proof {
        assert(positions(order@) =~= visit_order_upto(entries@, 0));
    }
    while at < entries.len()
        invariant
            at <= entries.len(),
            paths.len() == entries.len(),
            forall|k: int| 0 <= k < paths.len() ==> (#[trigger] paths[k])@ == entries[k].path(),
            positions(order@) == visit_order_upto(entries@, at as int),
            forall|k: int|
                0 <= k < order.len() ==> #[trigger] order[k] < at && entries[order[k] as int] is Dir,
        decreases entries.len() - at,
    {
        if let Entry::Dir(_, _) = &entries[at] {
            let ghost before = positions(order@);
            let mut to: usize = order.len();
            proof {
                assert(before.take(to as int) =~= before);
                assert(before.skip(to as int) =~= Seq::<int>::empty());
                assert(place(entries@, before, at as int) =~= place(
                    entries@,
                    before.take(to as int),
                    at as int,
                ) + before.skip(to as int));
            }
            while to > 0 && !text_precedes(&paths[order[to - 1]], &paths[at])
                invariant
                    to <= order.len(),
                    at < entries.len(),
                    paths.len() == entries.len(),
                    forall|k: int|
                        0 <= k < paths.len() ==> (#[trigger] paths[k])@ == entries[k].path(),
                    forall|k: int| 0 <= k < order.len() ==> #[trigger] order[k] < at,
                    before == positions(order@),
                    place(entries@, before, at as int) == place(
                        entries@,
                        before.take(to as int),
                        at as int,
                    ) + before.skip(to as int),
                decreases to,
            {
                proof {
                    let head = before.take(to as int);
                    assert(head.last() == order[to - 1] as int);
                    assert(head.drop_last() =~= before.take(to - 1));
                    assert(place(entries@, head, at as int) == place(
                        entries@,
                        before.take(to - 1),
                        at as int,
                    ).push(head.last()));
                    assert(place(entries@, before.take(to - 1), at as int).push(head.last())
                        + before.skip(to as int) =~= place(
                        entries@,
                        before.take(to - 1),
                        at as int,
                    ) + before.skip(to - 1));
                }
                to = to - 1;
            }
            proof {
                let head = before.take(to as int);
                if to > 0 {
                    assert(head.last() == order[to - 1] as int);
                }
                assert(place(entries@, head, at as int) == head.push(at as int));
                assert(positions(order@.insert(to as int, at)) =~= head.push(at as int)
                    + before.skip(to as int));
            }
            order.insert(to, at);
            proof {
                assert forall|k: int| 0 <= k < order.len() implies #[trigger] order[k] < at + 1
                    && entries[order[k] as int] is Dir by {
                    if k < to {
                        assert(order[k] == before[k]);
                    } else if k > to {
                        assert(order[k] == before[k - 1]);
                    }
                }
            }
        }
        at = at + 1;
    }
    order
}

} // verus!
