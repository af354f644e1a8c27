//! What holds of every walk: it reports the shows of the tree, all of them
//! and nothing else, and fails exactly where a directory could not be listed.

use vstd::prelude::*;
use crate::order::{lemma_visit_order, visit_order};
use crate::path::base_name;
use crate::show::{episode_of, lemma_observe_all_is_latest, observe_all, Show, ShowRecord};
use crate::walker::{
    failure, failure_below, file_paths, file_paths_upto, latest_episode, own_report, records,
    reported, reported_below, reported_in, reports, reports_below, walk, Entry, Listing,
};

verus! {

/// Whether a record is that of a show: an episode was found, and the name is
/// the base name of the path.
pub open spec fn is_show(record: ShowRecord) -> bool {
    record.season > 0 && record.number > 0 && base_name(record.path) == Some(record.name)
}

/// Each path among the files of the first `n` entries is that of a file
/// among them.
pub proof fn lemma_file_paths_upto(entries: Seq<Entry>, n: int)
    requires
        0 <= n <= entries.len(),
    ensures
        forall|i: int|
            0 <= i < file_paths_upto(entries, n).len() ==> exists|at: int|
                0 <= at < n && entries[at] is File && #[trigger] entries[at].path()
                    == #[trigger] file_paths_upto(entries, n)[i],
    decreases n,
{
    if n > 0 {
        lemma_file_paths_upto(entries, n - 1);
        let before = file_paths_upto(entries, n - 1);
        let paths = file_paths_upto(entries, n);
        assert forall|i: int| 0 <= i < paths.len() implies exists|at: int|
            0 <= at < n && entries[at] is File && #[trigger] entries[at].path()
                == #[trigger] paths[i] by {
            if i < before.len() {
                assert(paths[i] == before[i]);
                let at = choose|at: int|
                    0 <= at < n - 1 && entries[at] is File && #[trigger] entries[at].path()
                        == before[i];
                assert(entries[at].path() == paths[i]);
            } else {
                assert(entries[n - 1].path() == paths[i]);
            }
        }
    }
}

/// A directory in which no file carries a marker is not reported, whatever
/// else it holds.
pub proof fn lemma_no_marker_no_report(path: Seq<char>, entries: Seq<Entry>)
    requires
        forall|at: int|
            0 <= at < entries.len() && entries[at] is File ==> episode_of(
                #[trigger] entries[at].path(),
            ) is None,
    ensures
        own_report(path, entries) is None,
{
    let paths = file_paths(entries);
    lemma_file_paths_upto(entries, entries.len() as int);
    lemma_observe_all_is_latest((0, 0), paths);
    if observe_all((0, 0), paths) != (0u16, 0u8) {
        let i = choose|i: int|
            0 <= i < paths.len() && #[trigger] episode_of(paths[i]) == Some(
                observe_all((0, 0), paths),
            );
        let at = choose|at: int|
            0 <= at < entries.len() && entries[at] is File && #[trigger] entries[at].path()
                == paths[i];
        assert(episode_of(entries[at].path()) is None);
    }
}

/// A directory is a show exactly where its path has a base name and the most
/// advanced marker among its files has season and number above 0; its record
/// then holds that name, the path and that episode.
pub proof fn lemma_own_report(path: Seq<char>, entries: Seq<Entry>)
    ensures
        own_report(path, entries) is Some <==> base_name(path) is Some && latest_episode(
            entries,
        ).0 > 0 && latest_episode(entries).1 > 0,
        own_report(path, entries) is Some ==> own_report(path, entries)->0 == (ShowRecord {
            name: base_name(path)->0,
            path,
            season: latest_episode(entries).0,
            number: latest_episode(entries).1,
        }),
{
}

/// The walk reports the directory it starts from first, if it is a show, and
/// only then what lies below it.
pub proof fn lemma_reports_start(path: Seq<char>, entries: Seq<Entry>)
    ensures
        match own_report(path, entries) {
            Some(show) => reports(path, entries).len() > 0 && reports(path, entries)[0] == show
                && reports(path, entries).skip(1) == reports_below(entries, visit_order(entries)),
            None => reports(path, entries) == reports_below(entries, visit_order(entries)),
        },
{
    match own_report(path, entries) {
        Some(show) => {
            let below = reports_below(entries, visit_order(entries));
            assert((seq![show] + below).skip(1) =~= below);
        },
        None => {},
    }
}

/// What the walk reports of some directories and then of others is what it
/// reports of the first, followed by what it reports of the others.
pub proof fn lemma_reports_below_concat(entries: Seq<Entry>, first: Seq<int>, then: Seq<int>)
    ensures
        reports_below(entries, first + then) == reports_below(entries, first) + reports_below(
            entries,
            then,
        ),
    decreases then.len(),
{
    if then.len() == 0 {
        assert(first + then =~= first);
        assert(reports_below(entries, first) + reports_below(entries, then) =~= reports_below(
            entries,
            first,
        ));
    } else {
        lemma_reports_below_concat(entries, first, then.drop_last());
        assert((first + then).drop_last() =~= first + then.drop_last());
        assert((first + then).last() == then.last());
        let head = reports_below(entries, first);
        let middle = reports_below(entries, then.drop_last());
        let at = then.last();
        if 0 <= at < entries.len() {
            match entries[at] {
                Entry::Dir(path, Listing::Read(listing)) => {
                    assert((head + middle) + reports(path@, listing@) =~= head + (middle + reports(
                        path@,
                        listing@,
                    )));
                },
                _ => {},
            }
        }
    }
}

/// Every record that the walk reports below a listing is that of a show.
pub proof fn lemma_reports_below_are_shows(entries: Seq<Entry>, order: Seq<int>)
    ensures
        forall|k: int|
            0 <= k < reports_below(entries, order).len() ==> is_show(
                #[trigger] reports_below(entries, order)[k],
            ),
    decreases entries, 0nat, order.len(),
{
    if order.len() > 0 {
        let at = order.last();
        lemma_reports_below_are_shows(entries, order.drop_last());
        let before = reports_below(entries, order.drop_last());
        let all = reports_below(entries, order);
        if 0 <= at < entries.len() {
            match entries[at] {
                Entry::Dir(path, Listing::Read(listing)) => {
                    lemma_reports_are_shows(path@, listing@);
                    let last = reports(path@, listing@);
                    assert forall|k: int| 0 <= k < all.len() implies is_show(#[trigger] all[k]) by {
                        if k < before.len() {
                            assert(all[k] == before[k]);
                        } else {
                            assert(all[k] == last[k - before.len()]);
                        }
                    }
                },
                _ => {},
            }
        }
    }
}

/// Every record that the walk reports is that of a show: the walk reports no
/// directory in which it found no episode.
pub proof fn lemma_reports_are_shows(path: Seq<char>, entries: Seq<Entry>)
    ensures
        forall|k: int|
            0 <= k < reports(path, entries).len() ==> is_show(#[trigger] reports(path, entries)[k]),
    decreases entries, 1nat, 0nat,
{
    lemma_reports_below_are_shows(entries, visit_order(entries));
    let below = reports_below(entries, visit_order(entries));
    let all = reports(path, entries);
    match own_report(path, entries) {
        Some(show) => {
            assert forall|k: int| 0 <= k < all.len() implies is_show(#[trigger] all[k]) by {
                if k > 0 {
                    assert(all[k] == below[k - 1]);
                }
            }
        },
        None => {},
    }
}

/// The entry that is reached from a listing by going into the directory at
/// the first position of `chain`, from what that lists into the directory at
/// the second position, and so on up to the entry at the last position.
/// Nothing, where the chain is empty, leads out of a listing or goes through
/// something that lists nothing.
pub open spec fn entry_at(entries: Seq<Entry>, chain: Seq<int>) -> Option<Entry>
    decreases chain.len(),
{
    if chain.len() == 0 || !(0 <= chain[0] < entries.len()) {
        None
    } else if chain.len() == 1 {
        Some(entries[chain[0]])
    } else {
        match entries[chain[0]] {
            Entry::Dir(_, Listing::Read(listing)) => entry_at(listing@, chain.drop_first()),
            _ => None,
        }
    }
}

/// Whether `record` is the show of the directory that `chain` leads to.
pub open spec fn is_report_at(entries: Seq<Entry>, chain: Seq<int>, record: ShowRecord) -> bool {
    match entry_at(entries, chain) {
        Some(Entry::Dir(path, Listing::Read(listing))) => own_report(path@, listing@) == Some(record),
        _ => false,
    }
}

/// Whether `record` is the show of a directory somewhere below a listing.
pub open spec fn is_report_below(entries: Seq<Entry>, record: ShowRecord) -> bool {
    exists|chain: Seq<int>| is_report_at(entries, chain, record)
}

/// What the walk reports of the directory at one position is part of what it
/// reports of any positions that hold that one.
proof fn lemma_reports_below_holds(entries: Seq<Entry>, order: Seq<int>, k: int)
    requires
        0 <= k < order.len(),
    ensures
        reports_below(entries, order) == reports_below(entries, order.take(k)) + reports_below(
            entries,
            seq![order[k]],
        ) + reports_below(entries, order.skip(k + 1)),
{
    assert(order =~= order.take(k) + seq![order[k]] + order.skip(k + 1));
    lemma_reports_below_concat(entries, order.take(k) + seq![order[k]], order.skip(k + 1));
    lemma_reports_below_concat(entries, order.take(k), seq![order[k]]);
}

/// The walk leaves no show out: the show of every directory below the
/// listing, at any depth, is among what it reports.
pub proof fn lemma_reports_hold_every_show(
    path: Seq<char>,
    entries: Seq<Entry>,
    chain: Seq<int>,
    record: ShowRecord,
)
    requires
        is_report_at(entries, chain, record),
    ensures
        reports(path, entries).contains(record),
    decreases chain.len(),
{
    let at = chain[0];
    match entries[at] {
        Entry::Dir(below, Listing::Read(listing)) => {
            let inner = reports(below@, listing@);
            if chain.len() == 1 {
                lemma_reports_start(below@, listing@);
                assert(inner[0] == record);
            } else {
                lemma_reports_hold_every_show(below@, listing@, chain.drop_first(), record);
            }
            let found = choose|found: int| 0 <= found < inner.len() && inner[found] == record;
            lemma_visit_order(entries);
            let order = visit_order(entries);
            assert(0 <= at < entries.len() && entries[at] is Dir);
            assert(order.contains(at));
            let k = choose|k: int| 0 <= k < order.len() && order[k] == at;
            lemma_reports_below_holds(entries, order, k);
            let head = reports_below(entries, order.take(k));
            let rest = reports_below(entries, order.skip(k + 1));
            let one = seq![at];
            assert(one.drop_last() =~= Seq::<int>::empty());
            assert(reports_below(entries, one.drop_last()) =~= Seq::<ShowRecord>::empty());
            assert(reports_below(entries, one) =~= inner);
            let all = reports_below(entries, order);
            assert(all == head + inner + rest);
            assert(all[head.len() + found] == record);
            match own_report(path, entries) {
                Some(show) => {
                    assert(reports(path, entries)[1 + head.len() + found] == record);
                },
                None => {
                    assert(reports(path, entries)[head.len() + found] == record);
                },
            }
        },
        _ => {},
    }
}

/// What the walk reports of the directories at some positions are shows of
/// directories below the listing.
pub proof fn lemma_reports_below_are_found(entries: Seq<Entry>, order: Seq<int>)
    ensures
        forall|k: int|
            0 <= k < reports_below(entries, order).len() ==> is_report_below(
                entries,
                #[trigger] reports_below(entries, order)[k],
            ),
    decreases entries, 0nat, order.len(),
{
    if order.len() > 0 {
        let at = order.last();
        lemma_reports_below_are_found(entries, order.drop_last());
        let before = reports_below(entries, order.drop_last());
        let all = reports_below(entries, order);
        if 0 <= at < entries.len() {
            match entries[at] {
                Entry::Dir(path, Listing::Read(listing)) => {
                    lemma_reports_are_found(path@, listing@);
                    let last = reports(path@, listing@);
                    assert forall|k: int| 0 <= k < all.len() implies is_report_below(
                        entries,
                        #[trigger] all[k],
                    ) by {
                        if k < before.len() {
                            assert(all[k] == before[k]);
                        } else {
                            let record = last[k - before.len()];
                            assert(all[k] == record);
                            if own_report(path@, listing@) == Some(record) {
                                assert(is_report_at(entries, seq![at], record));
                            } else {
                                let chain = choose|chain: Seq<int>|
                                    is_report_at(listing@, chain, record);
                                let longer = seq![at] + chain;
                                assert(longer.drop_first() =~= chain);
                                assert(is_report_at(entries, longer, record));
                            }
                        }
                    }
                },
                _ => {},
            }
        }
    }
}

/// The walk makes no show up: each record that it reports is the show of the
/// directory it started from or of a directory below it.
pub proof fn lemma_reports_are_found(path: Seq<char>, entries: Seq<Entry>)
    ensures
        forall|k: int|
            0 <= k < reports(path, entries).len() ==> own_report(path, entries) == Some(
                #[trigger] reports(path, entries)[k],
            ) || is_report_below(entries, reports(path, entries)[k]),
    decreases entries, 1nat, 0nat,
{
    lemma_reports_below_are_found(entries, visit_order(entries));
    let below = reports_below(entries, visit_order(entries));
    let all = reports(path, entries);
    match own_report(path, entries) {
        Some(show) => {
            assert forall|k: int| 0 <= k < all.len() implies own_report(path, entries) == Some(
                #[trigger] all[k],
            ) || is_report_below(entries, all[k]) by {
                if k > 0 {
                    assert(all[k] == below[k - 1]);
                }
            }
        },
        None => {},
    }
}

/// The walk through some directories and then through others fails where it
/// fails in the first, and else where it fails in the others.
pub proof fn lemma_failure_below_concat(entries: Seq<Entry>, first: Seq<int>, then: Seq<int>)
    ensures
        failure_below(entries, first + then) == match failure_below(entries, first) {
            Some(reason) => Some(reason),
            None => failure_below(entries, then),
        },
    decreases then.len(),
{
    if then.len() == 0 {
        assert(first + then =~= first);
    } else {
        lemma_failure_below_concat(entries, first, then.drop_last());
        assert((first + then).drop_last() =~= first + then.drop_last());
        assert((first + then).last() == then.last());
    }
}

/// Whether `chain` leads to a directory that could not be listed for `reason`.
pub open spec fn is_failure_at(entries: Seq<Entry>, chain: Seq<int>, reason: Seq<char>) -> bool {
    match entry_at(entries, chain) {
        Some(Entry::Dir(_, Listing::Failed(why))) => why@ == reason,
        _ => false,
    }
}

/// Whether a directory somewhere below a listing could not be listed for
/// `reason`.
pub open spec fn is_failure_below(entries: Seq<Entry>, reason: Seq<char>) -> bool {
    exists|chain: Seq<int>| is_failure_at(entries, chain, reason)
}

/// A walk that fails in some directories gives the reason of a directory
/// below the listing that could not be listed.
pub proof fn lemma_failure_below_is_found(entries: Seq<Entry>, order: Seq<int>)
    ensures
        failure_below(entries, order) is Some ==> is_failure_below(
            entries,
            failure_below(entries, order)->0,
        ),
    decreases entries, 0nat, order.len(),
{
    if order.len() > 0 {
        let at = order.last();
        lemma_failure_below_is_found(entries, order.drop_last());
        if failure_below(entries, order.drop_last()) is Some {
            let reason = failure_below(entries, order.drop_last())->0;
            let chain = choose|chain: Seq<int>| is_failure_at(entries, chain, reason);
            assert(is_failure_at(entries, chain, failure_below(entries, order)->0));
        } else if 0 <= at < entries.len() {
            match entries[at] {
                Entry::Dir(_, Listing::Read(listing)) => {
                    lemma_failure_is_found(listing@);
                    if failure(listing@) is Some {
                        let reason = failure(listing@)->0;
                        let chain = choose|chain: Seq<int>| is_failure_at(listing@, chain, reason);
                        let longer = seq![at] + chain;
                        assert(longer.drop_first() =~= chain);
                        assert(is_failure_at(entries, longer, reason));
                    }
                },
                Entry::Dir(_, Listing::Failed(reason)) => {
                    assert(is_failure_at(entries, seq![at], reason@));
                },
                _ => {},
            }
        }
    }
}

/// A walk that fails gives the reason of a directory below the listing that
/// could not be listed.
pub proof fn lemma_failure_is_found(entries: Seq<Entry>)
    ensures
        failure(entries) is Some ==> is_failure_below(entries, failure(entries)->0),
    decreases entries, 1nat, 0nat,
{
    lemma_failure_below_is_found(entries, visit_order(entries));
}

/// Once the walk has failed in some directories it reports nothing of those
/// that would have come after them.
pub proof fn lemma_reported_below_ends(entries: Seq<Entry>, first: Seq<int>, then: Seq<int>)
    requires
        failure_below(entries, first) is Some,
    ensures
        reported_below(entries, first + then) == reported_below(entries, first),
    decreases then.len(),
{
    if then.len() == 0 {
        assert(first + then =~= first);
    } else {
        lemma_reported_below_ends(entries, first, then.drop_last());
        lemma_failure_below_concat(entries, first, then.drop_last());
        assert((first + then).drop_last() =~= first + then.drop_last());
    }
}

/// A walk that does not fail in some directories has reported of them, when
/// it ends, all that there is to report.
pub proof fn lemma_reported_below_is_reports_below(entries: Seq<Entry>, order: Seq<int>)
    requires
        failure_below(entries, order) is None,
    ensures
        reported_below(entries, order) == reports_below(entries, order),
    decreases entries, 0nat, order.len(),
{
    if order.len() > 0 {
        let at = order.last();
        lemma_reported_below_is_reports_below(entries, order.drop_last());
        if 0 <= at < entries.len() {
            match entries[at] {
                Entry::Dir(path, Listing::Read(listing)) => {
                    lemma_reported_is_reports(path@, listing@);
                },
                _ => {},
            }
        }
    }
}

/// A walk that does not fail has reported, when it ends, all that there is
/// to report.
pub proof fn lemma_reported_is_reports(path: Seq<char>, entries: Seq<Entry>)
    requires
        failure(entries) is None,
    ensures
        reported_in(path, entries) == reports(path, entries),
    decreases entries, 1nat, 0nat,
{
    lemma_reported_below_is_reports_below(entries, visit_order(entries));
}

/// What a walk has reported of some directories when it ends is the
/// beginning of what there is to report of them.
pub proof fn lemma_reported_below_begins_reports_below(entries: Seq<Entry>, order: Seq<int>)
    ensures
        reported_below(entries, order).is_prefix_of(reports_below(entries, order)),
    decreases entries, 0nat, order.len(),
{
    if order.len() > 0 {
        let at = order.last();
        lemma_reported_below_begins_reports_below(entries, order.drop_last());
        let before = reported_below(entries, order.drop_last());
        let all_before = reports_below(entries, order.drop_last());
        let all = reports_below(entries, order);
        assert(all_before.is_prefix_of(all)) by {
            if 0 <= at < entries.len() {
                match entries[at] {
                    Entry::Dir(path, Listing::Read(listing)) => {
                        assert((all_before + reports(path@, listing@)).subrange(
                            0,
                            all_before.len() as int,
                        ) =~= all_before);
                    },
                    _ => {},
                }
            }
        }
        if failure_below(entries, order.drop_last()) is None && 0 <= at < entries.len() {
            lemma_reported_below_is_reports_below(entries, order.drop_last());
            match entries[at] {
                Entry::Dir(path, Listing::Read(listing)) => {
                    lemma_reported_begins_reports(path@, listing@);
                    let part = reported_in(path@, listing@);
                    let whole = reports(path@, listing@);
                    assert((before + part).is_prefix_of(before + whole)) by {
                        assert((before + whole).subrange(0, (before + part).len() as int) =~= before
                            + whole.subrange(0, part.len() as int));
                    }
                },
                _ => {},
            }
        } else {
            let part = reported_below(entries, order);
            assert(part == before);
            assert(all.subrange(0, before.len() as int) =~= all_before.subrange(
                0,
                before.len() as int,
            ));
        }
    }
}

/// What a walk has reported when it ends, failed or not, is the beginning of
/// what there is to report: a failure cuts the report short and changes
/// nothing in what came before.
pub proof fn lemma_reported_begins_reports(path: Seq<char>, entries: Seq<Entry>)
    ensures
        reported_in(path, entries).is_prefix_of(reports(path, entries)),
    decreases entries, 1nat, 0nat,
{
    lemma_reported_below_begins_reports_below(entries, visit_order(entries));
    let part = reported_below(entries, visit_order(entries));
    let whole = reports_below(entries, visit_order(entries));
    match own_report(path, entries) {
        Some(show) => {
            assert((seq![show] + whole).subrange(0, (seq![show] + part).len() as int) =~= seq![show]
                + whole.subrange(0, part.len() as int));
        },
        None => {},
    }
}

/// The walk fails as soon as any directory below the listing, at any depth,
/// could not be listed.
pub proof fn lemma_unreadable_directory_fails_walk(
    entries: Seq<Entry>,
    chain: Seq<int>,
    reason: Seq<char>,
)
    requires
        is_failure_at(entries, chain, reason),
    ensures
        failure(entries) is Some,
    decreases chain.len(),
{
    let at = chain[0];
    lemma_visit_order(entries);
    let order = visit_order(entries);
    assert(0 <= at < entries.len());
    match entries[at] {
        Entry::Dir(_, Listing::Read(listing)) => {
            lemma_unreadable_directory_fails_walk(listing@, chain.drop_first(), reason);
        },
        _ => {},
    }
    assert(entries[at] is Dir);
    assert(order.contains(at));
    let k = choose|k: int| 0 <= k < order.len() && order[k] == at;
    assert(order =~= order.take(k) + seq![at] + order.skip(k + 1));
    lemma_failure_below_concat(entries, order.take(k) + seq![at], order.skip(k + 1));
    lemma_failure_below_concat(entries, order.take(k), seq![at]);
    let one = seq![at];
    assert(one.drop_last() =~= Seq::<int>::empty());
    assert(failure_below(entries, one.drop_last()) is None);
    assert(failure_below(entries, one) is Some);
}

/// A walk that does not fail has reported, when it ends, what it answers
/// with.
pub proof fn lemma_reported_of_walk(path: Seq<char>, listing: Listing)
    ensures
        walk(path, listing) is Ok ==> walk(path, listing) == Ok::<Seq<ShowRecord>, Seq<char>>(
            reported(path, listing),
        ),
{
    match listing {
        Listing::Read(entries) => {
            if failure(entries@) is None {
                lemma_reported_is_reports(path, entries@);
            }
        },
        Listing::Failed(_) => {},
    }
}

/// Every record that a walk has reported when it ends, failed or not, is
/// that of a show.
pub proof fn lemma_reported_are_shows(path: Seq<char>, listing: Listing)
    ensures
        forall|k: int|
            0 <= k < reported(path, listing).len() ==> is_show(#[trigger] reported(path, listing)[k]),
{
    match listing {
        Listing::Read(entries) => {
            lemma_reported_begins_reports(path, entries@);
            lemma_reports_are_shows(path, entries@);
            let part = reported_in(path, entries@);
            let whole = reports(path, entries@);
            assert forall|k: int| 0 <= k < part.len() implies is_show(#[trigger] part[k]) by {
                assert(part[k] == whole.subrange(0, part.len() as int)[k]);
                assert(part[k] == whole[k]);
            }
        },
        Listing::Failed(_) => {},
    }
}

/// The walk is determined by the tree: two walks through the same listing
/// under the same path report the same shows in the same order, whether they
/// fail or not.
pub proof fn lemma_walk_is_determined(
    path: Seq<char>,
    listing: Listing,
    once: Seq<Show>,
    again: Seq<Show>,
)
    requires
        records(once) == reported(path, listing),
        records(again) == reported(path, listing),
    ensures
        once.len() == again.len(),
        forall|k: int| 0 <= k < once.len() ==> (#[trigger] once[k])@ == again[k]@,
{
    assert(records(once).len() == once.len());
    assert(records(again).len() == again.len());
    assert forall|k: int| 0 <= k < once.len() implies (#[trigger] once[k])@ == again[k]@ by {
        assert(records(once)[k] == once[k]@);
        assert(records(again)[k] == again[k]@);
    }
}

} // verus!
