//! Which episodes of a remote catalog are new for a show of the library.

use vstd::prelude::*;
use vstd::string::StringSliceAdditionalSpecFns;
use crate::date::AirDate;
use crate::error::Error;
use crate::show::Show;

verus! {

/// One episode as the catalog lists it.
#[derive(Clone, Copy, Debug, PartialEq, Eq, Structural)]
pub struct Episode {
    /// The day on which the episode airs; [`AirDate::earliest`] where the
    /// catalog holds none.
    pub date: AirDate,
    /// Season of the episode. Some shows count seasons by year.
    pub season: u16,
    /// Number of the episode within its season.
    pub number: u8,
}

impl Episode {
    /// Season and number as one value.
    pub open spec fn id(self) -> (u16, u8) {
        (self.season, self.number)
    }
}

/// The air date of the first entry of `episodes` that is the episode `id`:
/// the baseline against which the others are held.
pub open spec fn baseline(episodes: Seq<Episode>, id: (u16, u8)) -> Option<AirDate>
    decreases episodes.len(),
{
    if episodes.len() == 0 {
        None
    } else if episodes.first().id() == id {
        Some(episodes.first().date)
    } else {
        baseline(episodes.drop_first(), id)
    }
}

/// There is a baseline exactly where the catalog lists the episode, and it
/// is the air date of the first entry that does.
pub proof fn lemma_baseline(episodes: Seq<Episode>, id: (u16, u8))
    ensures
        baseline(episodes, id) is None <==> forall|k: int|
            0 <= k < episodes.len() ==> (#[trigger] episodes[k]).id() != id,
        baseline(episodes, id) is Some ==> exists|at: int|
            0 <= at < episodes.len() && (#[trigger] episodes[at]).id() == id && episodes[at].date
                == baseline(episodes, id)->0 && forall|k: int|
                0 <= k < at ==> (#[trigger] episodes[k]).id() != id,
    decreases episodes.len(),
{
    if episodes.len() > 0 {
        if episodes.first().id() == id {
            assert(episodes[0].id() == id);
        } else {
            let rest = episodes.drop_first();
            lemma_baseline(rest, id);
            assert forall|k: int| 0 < k < episodes.len() implies episodes[k] == rest[k - 1] by {}
            if baseline(rest, id) is Some {
                let at = choose|at: int|
                    0 <= at < rest.len() && (#[trigger] rest[at]).id() == id && rest[at].date
                        == baseline(rest, id)->0 && forall|k: int|
                        0 <= k < at ==> (#[trigger] rest[k]).id() != id;
                assert(episodes[at + 1] == rest[at]);
                assert forall|k: int| 0 <= k < at + 1 implies (#[trigger] episodes[k]).id()
                    != id by {
                    if k > 0 {
                        assert(episodes[k] == rest[k - 1]);
                    }
                }
            } else {
                assert forall|k: int| 0 <= k < episodes.len() implies (#[trigger] episodes[k]).id()
                    != id by {
                    if k > 0 {
                        assert(episodes[k] == rest[k - 1]);
                    }
                }
            }
        }
    }
}

/// Whether `e` is new for someone who has the episode `id`, aired on
/// `baseline`: it aired after that day, before `cutoff`, and is another episode.
pub open spec fn is_new(e: Episode, id: (u16, u8), baseline: AirDate, cutoff: AirDate) -> bool {
    baseline.before(e.date) && e.date.before(cutoff) && e.id() != id
}

/// An episode without an air date on record is never new, whatever the
/// target date: it counts as aired on the earliest date, and no valid baseline
/// lies before that.
pub proof fn lemma_undated_is_never_new(
    e: Episode,
    id: (u16, u8),
    baseline: AirDate,
    cutoff: AirDate,
)
    requires
        e.date == AirDate::earliest_date(),
        baseline.valid(),
    ensures
        !is_new(e, id, baseline, cutoff),
{
}

/// Whether every air date of a catalog is [valid](AirDate::valid).
pub open spec fn dates_are_valid(episodes: Seq<Episode>) -> bool {
    forall|k: int| 0 <= k < episodes.len() ==> (#[trigger] episodes[k]).date.valid()
}

/// The baseline of a catalog with valid dates is valid.
pub proof fn lemma_baseline_is_valid(episodes: Seq<Episode>, id: (u16, u8))
    requires
        dates_are_valid(episodes),
    ensures
        baseline(episodes, id) is Some ==> baseline(episodes, id)->0.valid(),
{
    lemma_baseline(episodes, id);
}

/// [`is_new`] as a predicate on episodes.
pub open spec fn new_for(id: (u16, u8), baseline: AirDate, cutoff: AirDate) -> spec_fn(
    Episode,
) -> bool {
    |e: Episode| is_new(e, id, baseline, cutoff)
}

/// Whether `a` stands before `b` in a report, or is `b`: by air date, then
/// season, then number.
pub open spec fn reported_before(a: Episode, b: Episode) -> bool {
    a.date.before(b.date) || (a.date == b.date && (a.season < b.season || (a.season == b.season
        && a.number <= b.number)))
}

/// Whether `episodes` is in the order of a report.
pub open spec fn in_report_order(episodes: Seq<Episode>) -> bool {
    forall|i: int, j: int|
        0 <= i < j < episodes.len() ==> reported_before(
            #[trigger] episodes[i],
            #[trigger] episodes[j],
        )
}

/// The order of a report leaves no choice: two reports that hold the same
/// episodes, each as often as the other, and are both in order are the same.
/// So the catalog, the show and the target date determine the whole report.
pub proof fn lemma_report_is_determined(one: Seq<Episode>, other: Seq<Episode>)
    requires
        in_report_order(one),
        in_report_order(other),
        one.to_multiset() == other.to_multiset(),
    ensures
        one == other,
{
    let before = |a: Episode, b: Episode| reported_before(a, b);
    assert(vstd::relations::sorted_by(one, before));
    assert(vstd::relations::sorted_by(other, before));
    assert(vstd::relations::total_ordering(before)) by {
        assert forall|a: Episode| #[trigger] before(a, a) by {}
        assert forall|a: Episode, b: Episode| #[trigger] before(a, b) && #[trigger] before(
            b,
            a,
        ) implies a == b by {}
        assert forall|a: Episode, b: Episode, c: Episode| #[trigger]
            before(a, b) && #[trigger] before(b, c) implies before(a, c) by {}
        assert forall|a: Episode, b: Episode| #[trigger] before(a, b) || #[trigger] before(b, a) by {}
    }
    vstd::seq_lib::lemma_sorted_unique(one, other, before);
}

/// The air date of the first entry of `episodes` with this season and number.
pub fn find_air_date(episodes: &Vec<Episode>, season: u16, number: u8) -> (date: Option<AirDate>)
    ensures
        date == baseline(episodes@, (season, number)),
{
    let mut at: usize = 0;
    proof {
        assert(episodes@.subrange(0, episodes.len() as int) =~= episodes@);
    }
    while at < episodes.len()
        invariant
            at <= episodes.len(),
            baseline(episodes@, (season, number)) == baseline(
                episodes@.subrange(at as int, episodes.len() as int),
                (season, number),
            ),
        decreases episodes.len() - at,
    {
        let ghost rest = episodes@.subrange(at as int, episodes.len() as int);
        proof {
            assert(rest.first() == episodes@[at as int]);
            assert(rest.drop_first() =~= episodes@.subrange(at + 1, episodes.len() as int));
        }
        if episodes[at].season == season && episodes[at].number == number {
            return Some(episodes[at].date);
        }
        at = at + 1;
    }
    None
}

/// Puts `e` into `report` at its place in the order of a report.
fn insert_in_order(report: &mut Vec<Episode>, e: Episode)
    requires
        in_report_order(old(report)@),
    ensures
        in_report_order(final(report)@),
        final(report)@.to_multiset() == old(report)@.to_multiset().insert(e),
{
    let mut at: usize = 0;
    while at < report.len() && precedes(&report[at], &e)
        invariant
            at <= report.len(),
            report@ == old(report)@,
            forall|k: int| 0 <= k < at ==> reported_before(#[trigger] report@[k], e),
        decreases report.len() - at,
    {
        at = at + 1;
    }
    proof {
        vstd::seq_lib::to_multiset_insert(report@, at as int, e);
        let after = report@.insert(at as int, e);
        assert forall|i: int, j: int| 0 <= i < j < after.len() implies reported_before(
            #[trigger] after[i],
            #[trigger] after[j],
        ) by {
            if j < at {
                assert(after[i] == report@[i] && after[j] == report@[j]);
            } else if j == at {
                assert(after[i] == report@[i]);
            } else if i < at {
                assert(after[i] == report@[i] && after[j] == report@[j - 1]);
            } else if i == at {
                assert(after[j] == report@[j - 1]);
                assert(reported_before(report@[at as int], report@[j - 1]) || j - 1 == at);
            } else {
                assert(after[i] == report@[i - 1] && after[j] == report@[j - 1]);
            }
        }
    }
    report.insert(at, e);
}

/// Whether `a` stands before `b` in a report, or is `b`.
fn precedes(a: &Episode, b: &Episode) -> (r: bool)
    ensures
        r == reported_before(*a, *b),
{
    a.date.is_before(&b.date) || (a.date == b.date && (a.season < b.season || (a.season
        == b.season && a.number <= b.number)))
}

/// The episodes of the catalog that are new for `show`.
///
/// `episodes` is what the catalog lists for the show and `target_date` the
/// day before which an episode must have aired to count. The baseline is the
/// air date of the catalog's entry for the show's own episode; without such
/// an entry the answer is [`Error::NotFound`]. With it, the answer holds each
/// entry that aired after the baseline and before `target_date` and is not
/// the show's own episode, in the order of a report. It may be empty.
pub fn check_api(show: &Show, episodes: &Vec<Episode>, target_date: AirDate) -> (r: Result<
    Vec<Episode>,
    Error,
>)
    ensures
        match r {
            Ok(report) => match baseline(episodes@, show.episode()) {
                Some(day) => {
                    &&& report@.to_multiset() == episodes@.filter(
                        new_for(show.episode(), day, target_date),
                    ).to_multiset()
                    &&& in_report_order(report@)
                    &&& forall|e: Episode| #[trigger]
                        report@.contains(e) <==> episodes@.contains(e) && is_new(
                            e,
                            show.episode(),
                            day,
                            target_date,
                        )
                    &&& dates_are_valid(episodes@) ==> forall|k: int|
                        0 <= k < report.len() ==> (#[trigger] report[k]).date
                            != AirDate::earliest_date()
                },
                None => false,
            },
            Err(e) => baseline(episodes@, show.episode()) is None && e == Error::NotFound(
                show.season,
                show.number,
            ),
        },
{
    let day = match find_air_date(episodes, show.season, show.number) {
        Some(day) => day,
        None => {
            return Err(Error::NotFound(show.season, show.number));
        },
    };
    let ghost wanted = new_for(show.episode(), day, target_date);
    let mut report: Vec<Episode> = Vec::new();
    let mut at: usize = 0;
    proof {
        episodes@.take(0).lemma_filter_len(wanted);
        assert(report@ =~= episodes@.take(0).filter(wanted));
    }
    while at < episodes.len()
        invariant
            at <= episodes.len(),
            wanted == new_for(show.episode(), day, target_date),
            in_report_order(report@),
            report@.to_multiset() == episodes@.take(at as int).filter(wanted).to_multiset(),
        decreases episodes.len() - at,
    {
        let e = episodes[at];
        proof {
            assert(episodes@.take(at + 1) =~= episodes@.take(at as int).push(e));
            episodes@.take(at as int).lemma_filter_push(e, wanted);
        }
        if day.is_before(&e.date) && e.date.is_before(&target_date) && !(e.season == show.season
            && e.number == show.number) {
            insert_in_order(&mut report, e);
            proof {
                vstd::seq_lib::to_multiset_build(episodes@.take(at as int).filter(wanted), e);
            }
        }
        at = at + 1;
    }
    proof {
        assert(episodes@.take(at as int) =~= episodes@);
        let kept = episodes@.filter(wanted);
        assert forall|e: Episode| #[trigger]
            report@.contains(e) <==> episodes@.contains(e) && is_new(
                e,
                show.episode(),
                day,
                target_date,
            ) by {
            vstd::seq_lib::to_multiset_contains(report@, e);
            vstd::seq_lib::to_multiset_contains(kept, e);
            if kept.contains(e) {
                let k = choose|k: int| 0 <= k < kept.len() && kept[k] == e;
                episodes@.lemma_filter_pred(wanted, k);
                episodes@.lemma_filter_contains_rev(wanted, e);
            }
            if episodes@.contains(e) && wanted(e) {
                let k = choose|k: int| 0 <= k < episodes@.len() && episodes@[k] == e;
                episodes@.lemma_filter_contains(wanted, k);
            }
        }
        if dates_are_valid(episodes@) {
            lemma_baseline_is_valid(episodes@, show.episode());
            assert forall|k: int| 0 <= k < report.len() implies (#[trigger] report[k]).date
                != AirDate::earliest_date() by {
                assert(report@.contains(report[k]));
                if report[k].date == AirDate::earliest_date() {
                    lemma_undated_is_never_new(report[k], show.episode(), day, target_date);
                }
            }
        }
    }
    Ok(report)
}

/// Whether a byte stands for itself in a query: a letter or digit of ASCII,
/// or one of `-`, `.`, `_` and `~`.
pub open spec fn is_unreserved(byte: u8) -> bool {
    (0x30 <= byte <= 0x39) || (0x41 <= byte <= 0x5a) || (0x61 <= byte <= 0x7a) || byte == 0x2d
        || byte == 0x2e || byte == 0x5f || byte == 0x7e
}

/// The character that writes four bits in hexadecimal, with capital letters.
pub open spec fn hex_char(nibble: u8) -> char {
    if nibble < 10 {
        (0x30 + nibble) as u8 as char
    } else {
        (0x41 + nibble - 10) as u8 as char
    }
}

/// One byte as it stands in a query: itself, or `%` and its two hexadecimal
/// digits.
pub open spec fn percent_encoded_byte(byte: u8) -> Seq<char> {
    if is_unreserved(byte) {
        seq![byte as char]
    } else {
        seq!['%', hex_char(byte / 16), hex_char(byte % 16)]
    }
}

/// Bytes as they stand in a query, one after the other.
pub open spec fn percent_encoded(bytes: Seq<u8>) -> Seq<char>
    decreases bytes.len(),
{
    if bytes.len() == 0 {
        Seq::empty()
    } else {
        percent_encoded(bytes.drop_last()) + percent_encoded_byte(bytes.last())
    }
}

/// Calls `urlencoding::encode`, which goes through the bytes of the text in
/// UTF-8, keeps letters and digits of ASCII and `-`, `.`, `_`, `~` as they are
/// and writes every other byte as `%` and two hexadecimal digits in capitals.
#[verifier::external_body]
fn url_encode(text: &str) -> (encoded: String)
    ensures
        encoded@ == percent_encoded(text.spec_bytes()),
{
    urlencoding::encode(text).into_owned()
}

/// The address that a catalog query for the show `name` goes to.
pub open spec fn query_address(name: Seq<char>) -> Seq<char> {
    "https://api.tvmaze.com/singlesearch/shows?q="@ + percent_encoded(
        vstd::utf8::encode_utf8(name),
    ) + "&embed=episodes"@
}

/// The address at which the catalog answers for the show `name` with all
/// its episodes: the name goes into the query percent-encoded.
pub fn api_url(name: &str) -> (url: String)
    ensures
        url@ == query_address(name@),
{
    let mut url = String::from_str("https://api.tvmaze.com/singlesearch/shows?q=");
    let encoded = url_encode(name);
    url.append(encoded.as_str());
    url.append("&embed=episodes");
    url
}

} // verus!
