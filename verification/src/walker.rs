//! The walk through a library: which directories are shows, and in which
//! order they are reported.

use vstd::prelude::*;
use crate::error::Error;
use crate::order::{order_of_visit, positions, visit_order};
use crate::path::base_name;
use crate::show::{observe_all, Show, ShowRecord};
use crate::walk_laws::{
    lemma_failure_below_concat, lemma_reported_below_ends, lemma_reported_below_is_reports_below,
};

verus! {

/// What came of listing a directory.
#[derive(Debug)]
pub enum Listing {
    /// The entries of the directory, in the order in which they were read.
    Read(Vec<Entry>),
    /// The directory could not be listed; the payload is the reason.
    Failed(String),
}

/// One entry of a directory's listing, with the path under which it lies.
#[derive(Debug)]
pub enum Entry {
    /// A regular file.
    File(String),
    /// A directory and what came of listing it.
    Dir(String, Listing),
    /// Anything else: a link, a device. The walk passes it over.
    Other(String),
}

impl Entry {
    /// The path under which the entry lies.
    pub open spec fn path(self) -> Seq<char> {
        match self {
            Entry::File(path) => path@,
            Entry::Dir(path, _) => path@,
            Entry::Other(path) => path@,
        }
    }
}

/// The files of the first `n` entries, by their paths, in the order of the listing.
pub open spec fn file_paths_upto(entries: Seq<Entry>, n: int) -> Seq<Seq<char>>
    decreases n,
{
    if n <= 0 {
        Seq::empty()
    } else if entries[n - 1] is File {
        file_paths_upto(entries, n - 1).push(entries[n - 1].path())
    } else {
        file_paths_upto(entries, n - 1)
    }
}

/// The files among `entries`, by their paths, in the order of the listing.
pub open spec fn file_paths(entries: Seq<Entry>) -> Seq<Seq<char>> {
    file_paths_upto(entries, entries.len() as int)
}

/// The most advanced episode among the files of a listing; `(0, 0)` where
/// none carries a marker.
pub open spec fn latest_episode(entries: Seq<Entry>) -> (u16, u8) {
    observe_all((0, 0), file_paths(entries))
}

/// What the walk reports of the directory at `path` itself, which lists
/// `entries`: its show, where the path has a base name and a file of the
/// listing carried a marker with season and number above 0; else nothing.
pub open spec fn own_report(path: Seq<char>, entries: Seq<Entry>) -> Option<ShowRecord> {
    let found = latest_episode(entries);
    match base_name(path) {
        Some(name) => if found.0 > 0 && found.1 > 0 {
            Some(ShowRecord { name, path, season: found.0, number: found.1 })
        } else {
            None
        },
        None => None,
    }
}

/// What the walk reports of the directories at the positions `order` of
/// `entries`, one after the other.
pub open spec fn reports_below(entries: Seq<Entry>, order: Seq<int>) -> Seq<ShowRecord>
    decreases entries, 0nat, order.len(),
{
    if order.len() == 0 {
        Seq::empty()
    } else {
        let at = order.last();
        let before = reports_below(entries, order.drop_last());
        if 0 <= at < entries.len() {
            match entries[at] {
                Entry::Dir(path, Listing::Read(listing)) => before + reports(path@, listing@),
                _ => before,
            }
        } else {
            before
        }
    }
}

/// What the walk reports of the directory at `path`, which lists `entries`:
/// first its own show, if it is one, then what it reports of each directory
/// among the entries, in the order of [`visit_order`].
pub open spec fn reports(path: Seq<char>, entries: Seq<Entry>) -> Seq<ShowRecord>
    decreases entries, 1nat, 0nat,
{
    let below = reports_below(entries, visit_order(entries));
    match own_report(path, entries) {
        Some(show) => seq![show] + below,
        None => below,
    }
}

/// Why the walk through the directories at the positions `order` of
/// `entries` fails: the reason of the first directory it comes to that could
/// not be listed. Nothing, where it comes to none.
pub open spec fn failure_below(entries: Seq<Entry>, order: Seq<int>) -> Option<Seq<char>>
    decreases entries, 0nat, order.len(),
{
    if order.len() == 0 {
        None
    } else {
        let at = order.last();
        match failure_below(entries, order.drop_last()) {
            Some(reason) => Some(reason),
            None => if 0 <= at < entries.len() {
                match entries[at] {
                    Entry::Dir(_, Listing::Read(listing)) => failure(listing@),
                    Entry::Dir(_, Listing::Failed(reason)) => Some(reason@),
                    _ => None,
                }
            } else {
                None
            },
        }
    }
}

/// Why the walk through what a directory lists fails, if it does.
pub open spec fn failure(entries: Seq<Entry>) -> Option<Seq<char>>
    decreases entries, 1nat, 0nat,
{
    failure_below(entries, visit_order(entries))
}

/// How the walk through the directory at `path` ends: with the reason of the
/// first directory that could not be listed, where there is one, and else with
/// what it reports.
pub open spec fn walk(path: Seq<char>, listing: Listing) -> Result<
    Seq<ShowRecord>,
    Seq<char>,
> {
    match listing {
        Listing::Read(entries) => match failure(entries@) {
            Some(reason) => Err(reason),
            None => Ok(reports(path, entries@)),
        },
        Listing::Failed(reason) => Err(reason@),
    }
}

/// What the walk has reported of the directories at the positions `order` of
/// `entries` when it ends: what it reports of each of them in turn, up to and
/// with what it reported of the first one in which it fails.
pub open spec fn reported_below(entries: Seq<Entry>, order: Seq<int>) -> Seq<ShowRecord>
    decreases entries, 0nat, order.len(),
{
    if order.len() == 0 {
        Seq::empty()
    } else {
        let at = order.last();
        let before = reported_below(entries, order.drop_last());
        if failure_below(entries, order.drop_last()) is None && 0 <= at < entries.len() {
            match entries[at] {
                Entry::Dir(path, Listing::Read(listing)) => before + reported_in(path@, listing@),
                _ => before,
            }
        } else {
            before
        }
    }
}

/// What the walk has reported of the directory at `path`, which lists
/// `entries`, when it ends: first the directory's own show, if it is one,
/// then what it reported below it.
pub open spec fn reported_in(path: Seq<char>, entries: Seq<Entry>) -> Seq<ShowRecord>
    decreases entries, 1nat, 0nat,
{
    let below = reported_below(entries, visit_order(entries));
    match own_report(path, entries) {
        Some(show) => seq![show] + below,
        None => below,
    }
}

/// What the walk through the directory at `path` has reported when it ends,
/// whether it fails or not: the shows it came to before the first directory
/// that could not be listed, and all shows where there is no such directory.
/// Of a directory that could not be listed itself it reports nothing.
pub open spec fn reported(path: Seq<char>, listing: Listing) -> Seq<ShowRecord> {
    match listing {
        Listing::Read(entries) => reported_in(path, entries@),
        Listing::Failed(_) => Seq::empty(),
    }
}

/// The outcome of a walk.
#[derive(Debug)]
pub struct Walked {
    /// The shows found, in the order in which they are to be reported. Where
    /// the walk failed, these are the shows it came to before it did.
    pub shows: Vec<Show>,
    /// Why the walk ended early, if it did.
    pub failure: Option<Error>,
}

/// The shows of `shows` as plain values.
pub open spec fn records(shows: Seq<Show>) -> Seq<ShowRecord> {
    shows.map_values(|show: Show| show@)
}

/// The show of the directory at `path` itself, which lists `entries`, if it
/// is one: every file of the listing is taken note of, in the order of the
/// listing.
pub fn scan_dir(path: &str, entries: &Vec<Entry>) -> (r: Option<Show>)
    ensures
        match r {
            Some(show) => own_report(path@, entries@) == Some(show@),
            None => own_report(path@, entries@) is None,
        },
{
    let mut show = match Show::new(String::from_str(path)) {
        Ok(show) => show,
        Err(_) => {
            return None;
        },
    };
    let mut at: usize = 0;
    while at < entries.len()
        invariant
            at <= entries.len(),
            base_name(path@) == Some(show.name@),
            show.path@ == path@,
            show.episode() == observe_all((0, 0), file_paths_upto(entries@, at as int)),
        decreases entries.len() - at,
    {
        if let Entry::File(file) = &entries[at] {
            let ghost seen = file_paths_upto(entries@, at as int);
            proof {
                assert(seen.push(file@).drop_last() =~= seen);
            }
            let _ = show.update(file.as_str());
        }
        at = at + 1;
    }
    if show.is_valid() {
        Some(show)
    } else {
        None
    }
}

/// Walks through the directory at `path` and through every directory below
/// it, and returns the shows found, in the order in which they are to be
/// reported. `listing` is what the directory lists, or the reason why it
/// could not be listed.
///
/// A directory is a show where its path has a base name and at least one file
/// in it carries a marker with season and number above 0; the show then holds
/// the most advanced marker among its files. The show of a directory stands
/// before those of the directories in it, and these are entered by their
/// paths in the order of the dictionary. Entries that are neither files nor
/// directories are passed over.
///
/// The walk ends at the first directory that could not be listed: the
/// outcome then holds [`Error::Io`] with the reason, beside the shows that the
/// walk came to before. Nothing is reported of that directory, of what lies
/// in it, or of any directory that would have come after it.
pub fn walk_dir(path: &str, listing: &Listing) -> (r: Walked)
    ensures
        records(r.shows@) == reported(path@, *listing),
        match r.failure {
            None => walk(path@, *listing) == Ok::<Seq<ShowRecord>, Seq<char>>(records(r.shows@)),
            Some(e) => e matches Error::Io(reason) && walk(path@, *listing) == Err::<
                Seq<ShowRecord>,
                Seq<char>,
            >(reason@),
        },
    decreases listing,
{
    let mut shows: Vec<Show> = Vec::new();
    let entries = match listing {
        Listing::Read(entries) => entries,
        Listing::Failed(reason) => {
            proof {
                assert(records(shows@) =~= Seq::<ShowRecord>::empty());
            }
            return Walked { shows, failure: Some(Error::Io(reason.clone())) };
        },
    };
    if let Some(show) = scan_dir(path, entries) {
        shows.push(show);
    }
    let order = order_of_visit(entries);
    let ghost own = records(shows@);
    let mut next: usize = 0;
    proof {
        assert(own =~= match own_report(path@, entries@) {
            Some(show) => seq![show],
            None => Seq::empty(),
        });
        assert(positions(order@).take(0) =~= Seq::<int>::empty());
        assert(records(shows@) =~= own + reported_below(entries@, positions(order@).take(0)));
    }
    while next < order.len()
        invariant
            next <= order.len(),
            positions(order@) == visit_order(entries@),
            forall|k: int|
                0 <= k < order.len() ==> #[trigger] order[k] < entries.len() && entries[order[k] as int] is Dir,
            *listing == Listing::Read(*entries),
            own == match own_report(path@, entries@) {
                Some(show) => seq![show],
                None => Seq::<ShowRecord>::empty(),
            },
            failure_below(entries@, positions(order@).take(next as int)) is None,
            records(shows@) == own + reported_below(
                entries@,
                positions(order@).take(next as int),
            ),
        decreases order.len() - next,
    {
        let at = order[next];
        let ghost done = positions(order@).take(next as int);
        let ghost upto = positions(order@).take(next + 1);
        let ghost rest = positions(order@).skip(next + 1);
        proof {
            assert(upto.drop_last() =~= done);
            assert(upto.last() == at as int);
        }
        if let Entry::Dir(below, inner) = &entries[at] {
            let ghost so_far = shows@;
            let Walked { shows: mut found, failure } = walk_dir(below.as_str(), inner);
            shows.append(&mut found);
            proof {
                assert(records(shows@) =~= records(so_far) + reported(below@, *inner));
                assert(own + reported_below(entries@, done) + reported(below@, *inner) =~= own
                    + (reported_below(entries@, done) + reported(below@, *inner)));
                assert(records(shows@) == own + reported_below(entries@, upto));
            }
            if let Some(e) = failure {
                proof {
                    let reason = walk(below@, *inner)->Err_0;
                    assert(failure_below(entries@, upto) == Some(reason));
                    assert(positions(order@) =~= upto + rest);
                    lemma_failure_below_concat(entries@, upto, rest);
                    lemma_reported_below_ends(entries@, upto, rest);
                }
                return Walked { shows, failure: Some(e) };
            }
        }
        next = next + 1;
    }
    proof {
        assert(positions(order@).take(next as int) =~= positions(order@));
        lemma_reported_below_is_reports_below(entries@, visit_order(entries@));
    }
    Walked { shows, failure: None }
}

} // verus!
