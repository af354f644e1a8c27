//! One show of the library and the most advanced episode seen of it.

use vstd::prelude::*;
use crate::error::Error;
use crate::marker::{first_marker, parse_marker};
use crate::path::{base_name, find_base_name};
use crate::text::{slice_chars, to_chars};

verus! {

/// Whether episode `a` comes before episode `b`: by season, and within one
/// season by number.
pub open spec fn episode_before(a: (u16, u8), b: (u16, u8)) -> bool {
    a.0 < b.0 || (a.0 == b.0 && a.1 < b.1)
}

/// The later of two episodes.
pub open spec fn later_episode(a: (u16, u8), b: (u16, u8)) -> (u16, u8) {
    if episode_before(a, b) {
        b
    } else {
        a
    }
}

/// The episode that the file at `path` stands for: the marker of its base name.
pub open spec fn episode_of(path: Seq<char>) -> Option<(u16, u8)> {
    match base_name(path) {
        Some(name) => first_marker(name),
        None => None,
    }
}

/// The episode known after the file at `path` was seen, `current` being the
/// one known before.
pub open spec fn observe(current: (u16, u8), path: Seq<char>) -> (u16, u8) {
    match episode_of(path) {
        Some(found) => later_episode(current, found),
        None => current,
    }
}

/// The episode known after the files at `paths` were seen one after the other.
pub open spec fn observe_all(current: (u16, u8), paths: Seq<Seq<char>>) -> (u16, u8)
    decreases paths.len(),
{
    if paths.len() == 0 {
        current
    } else {
        observe(observe_all(current, paths.drop_last()), paths.last())
    }
}

/// The episode known after any number of files is the latest of the one known
/// before and the episodes of those files: none of them lies after it, and it is
/// one of them.
pub proof fn lemma_observe_all_is_latest(current: (u16, u8), paths: Seq<Seq<char>>)
    ensures
        !episode_before(observe_all(current, paths), current),
        forall|i: int|
            0 <= i < paths.len() && (#[trigger] episode_of(paths[i])) is Some ==> !episode_before(
                observe_all(current, paths),
                episode_of(paths[i])->0,
            ),
        observe_all(current, paths) == current || exists|i: int|
            0 <= i < paths.len() && #[trigger] episode_of(paths[i]) == Some(
                observe_all(current, paths),
            ),
    decreases paths.len(),
{
    if paths.len() > 0 {
        let before = paths.drop_last();
        lemma_observe_all_is_latest(current, before);
        let known = observe_all(current, before);
        let now = observe_all(current, paths);
        assert forall|i: int|
            0 <= i < paths.len() && (#[trigger] episode_of(paths[i])) is Some implies !episode_before(
            now,
            episode_of(paths[i])->0,
        ) by {
            if i < paths.len() - 1 {
                assert(paths[i] == before[i]);
            }
        }
        if now != current {
            if now == known {
                let i = choose|i: int|
                    0 <= i < before.len() && #[trigger] episode_of(before[i]) == Some(known);
                assert(episode_of(paths[i]) == Some(now));
            } else {
                assert(episode_of(paths[paths.len() - 1]) == Some(now));
            }
        }
    }
}

/// The order in which the files are seen does not matter: two sequences that
/// hold the same paths, each as often as the other, lead to the same episode.
pub proof fn lemma_observe_all_any_order(
    current: (u16, u8),
    paths: Seq<Seq<char>>,
    reordered: Seq<Seq<char>>,
)
    requires
        paths.to_multiset() == reordered.to_multiset(),
    ensures
        observe_all(current, paths) == observe_all(current, reordered),
{
    lemma_observe_all_is_latest(current, paths);
    lemma_observe_all_is_latest(current, reordered);
    let one = observe_all(current, paths);
    let other = observe_all(current, reordered);
    if one != current {
        let i = choose|i: int| 0 <= i < paths.len() && #[trigger] episode_of(paths[i]) == Some(one);
        vstd::seq_lib::to_multiset_contains(paths, paths[i]);
        vstd::seq_lib::to_multiset_contains(reordered, paths[i]);
        assert(paths.contains(paths[i]));
        let j = choose|j: int| 0 <= j < reordered.len() && reordered[j] == paths[i];
        assert(episode_of(reordered[j]) is Some);
        assert(!episode_before(other, one));
    }
    if other != current {
        let i = choose|i: int|
            0 <= i < reordered.len() && #[trigger] episode_of(reordered[i]) == Some(other);
        vstd::seq_lib::to_multiset_contains(paths, reordered[i]);
        vstd::seq_lib::to_multiset_contains(reordered, reordered[i]);
        assert(reordered.contains(reordered[i]));
        let j = choose|j: int| 0 <= j < paths.len() && paths[j] == reordered[i];
        assert(episode_of(paths[j]) is Some);
        assert(!episode_before(one, other));
    }
}

/// Seeing a file never takes the known episode back.
pub proof fn lemma_observe_never_goes_back(current: (u16, u8), path: Seq<char>)
    ensures
        !episode_before(observe(current, path), current),
{
}

/// A directory of the library, taken as a show, with the most advanced
/// episode found in it. Season and number are 0 until a file carried a marker.
#[derive(Debug)]
pub struct Show {
    /// The show's name: the base name of `path`.
    pub name: String,
    /// Where the directory lies.
    pub path: String,
    /// Season of the most advanced episode. Some shows count seasons by year.
    pub season: u16,
    /// Number of the most advanced episode within its season.
    pub number: u8,
}

/// What a [`Show`] holds, as plain values.
pub struct ShowRecord {
    pub name: Seq<char>,
    pub path: Seq<char>,
    pub season: u16,
    pub number: u8,
}

impl View for Show {
    type V = ShowRecord;

    open spec fn view(&self) -> ShowRecord {
        ShowRecord { name: self.name@, path: self.path@, season: self.season, number: self.number }
    }
}

impl Show {
    /// Season and number as one value.
    pub open spec fn episode(&self) -> (u16, u8) {
        (self.season, self.number)
    }

    /// Whether an episode was found: neither season nor number is 0.
    pub open spec fn valid(&self) -> bool {
        self.season > 0 && self.number > 0
    }

    /// The show of the directory at `path`, with no episode seen yet. Fails
    /// with [`Error::InvalidFile`] where the path has no base name.
    pub fn new(path: String) -> (r: Result<Show, Error>)
        ensures
            match r {
                Ok(show) => base_name(path@) == Some(show.name@) && show.path@ == path@
                    && show.season == 0 && show.number == 0,
                Err(e) => base_name(path@) is None && (e matches Error::InvalidFile(p) && p@
                    == path@),
            },
    {
        match Show::path_to_file_name(path.as_str()) {
            Ok(name) => Ok(Show { name, path, season: 0, number: 0 }),
            Err(e) => Err(e),
        }
    }

    /// Takes note of the file at `path`: where its base name carries a marker
    /// that lies after the episode known so far, that marker is the episode
    /// known from now on. Any other file changes nothing. Never fails.
    pub fn update(&mut self, path: &str) -> (r: Result<(), Error>)
        ensures
            r is Ok,
            final(self).episode() == observe(old(self).episode(), path@),
            final(self).name == old(self).name,
            final(self).path == old(self).path,
    {
        let chars = to_chars(path);
        if let Some((start, end)) = find_base_name(&chars) {
            let name = slice_chars(&chars, start, end);
            if let Some((season, number)) = parse_marker(&name) {
                if season > self.season || (season == self.season && number > self.number) {
                    self.season = season;
                    self.number = number;
                }
            }
        }
        Ok(())
    }

    /// Whether an episode was found: neither season nor number is 0.
    pub fn is_valid(&self) -> (valid: bool)
        ensures
            valid == self.valid(),
    {
        self.season > 0 && self.number > 0
    }

    /// The base name of `path`, or [`Error::InvalidFile`] where it has none:
    /// an empty path, the root, or a path that ends in `..`.
    pub fn path_to_file_name(path: &str) -> (r: Result<String, Error>)
        ensures
            match r {
                Ok(name) => base_name(path@) == Some(name@),
                Err(e) => base_name(path@) is None && (e matches Error::InvalidFile(p) && p@
                    == path@),
            },
    {
        let chars = to_chars(path);
        match find_base_name(&chars) {
            Some((start, end)) => Ok(String::from_str(path.substring_char(start, end))),
            None => Err(Error::invalid_file(path)),
        }
    }
}

} // verus!
