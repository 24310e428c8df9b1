//! Contests, and where they are read from and written to.

use crate::counting;
use crate::double::Double;
use crate::order::{sort_unstable, Sortable};
use crate::standings;
use crate::text;
use core::cmp::Ordering;
use vstd::prelude::*;

verus! {

/// The bits of the number one: the weight of an ordinary contest.
pub const ONE_BITS: u64 = 0x3ff0_0000_0000_0000;

/// The number of seconds in a day.
pub const DAY_SECONDS: u64 = 86_400;

/// The default weight of a contest.
pub fn one() -> (weight: Double)
    ensures
        weight.bits == ONE_BITS,
        weight.bits == 0x3ff0_0000_0000_0000,
{
    Double { bits: ONE_BITS }
}

/// Tells whether a weight is the default one. No other bit pattern stands for the
/// number one.
pub fn is_one(weight: &Double) -> (result: bool)
    ensures
        result == (weight.bits == ONE_BITS),
        result == (weight.bits == 0x3ff0_0000_0000_0000),
{
    *weight == one()
}

/// Represents the outcome of a contest.
#[derive(Clone)]
pub struct Contest {
    /// A human-readable title for the contest.
    pub name: String,
    /// The source URL, if any.
    pub url: Option<String>,
    /// The relative weight of a contest, default is 1.
    pub weight: Double,
    /// The number of seconds from the Unix Epoch to the end of the contest.
    pub time_seconds: u64,
    /// The list of standings, containing a name and the enclosing range of ties.
    pub standings: Vec<(String, usize, usize)>,
}

impl Sortable for (String, usize, usize) {
    /// Contestants are sorted by their first place.
    open spec fn precedes(self, other: Self) -> bool {
        self.1 < other.1
    }

    proof fn lemma_weak_order(a: Self, b: Self, c: Self) {
    }

    fn compare(&self, other: &Self) -> (result: Ordering) {
        if self.1 < other.1 {
            Ordering::Less
        } else if self.1 > other.1 {
            Ordering::Greater
        } else {
            Ordering::Equal
        }
    }
}

/// Everything but the standings is the same.
pub open spec fn same_header(a: Contest, b: Contest) -> bool {
    &&& a.name == b.name
    &&& a.url == b.url
    &&& a.weight == b.weight
    &&& a.time_seconds == b.time_seconds
}

/// `pos` is the first place in the list that a handle takes, if it takes one.
pub open spec fn is_position(
    s: Seq<(String, usize, usize)>,
    handle: Seq<char>,
    pos: Option<usize>,
) -> bool {
    match pos {
        Some(p) => {
            &&& p < s.len()
            &&& s[p as int].0@ == handle
            &&& forall|i: int| 0 <= i < p ==> (#[trigger] s[i]).0@ != handle
        },
        None => forall|i: int| 0 <= i < s.len() ==> (#[trigger] s[i]).0@ != handle,
    }
}

/// `after` is `before` with one more contestant, the sole holder of the last place.
pub open spec fn is_pushed(
    before: Seq<(String, usize, usize)>,
    handle: Seq<char>,
    after: Seq<(String, usize, usize)>,
) -> bool {
    &&& after.len() == before.len() + 1
    &&& after.drop_last() == before
    &&& after.last().0@ == handle
    &&& after.last().1 == before.len()
    &&& after.last().2 == before.len()
}

/// `after` is what removing the first contestant with a handle, and handing it back,
/// makes of `before`.
pub open spec fn is_removal(
    before: Seq<(String, usize, usize)>,
    handle: Seq<char>,
    removed: Option<(String, usize, usize)>,
    after: Seq<(String, usize, usize)>,
) -> bool {
    match removed {
        Some(entry) => exists|pos: usize|
            {
                &&& #[trigger] is_position(before, handle, Some(pos))
                &&& entry == before[pos as int]
                &&& after == standings::without(before, pos as int)
            },
        None => is_position(before, handle, None) && after == before,
    }
}

/// Where a part that starts at `start` ends, in a list cut every `n` items.
pub open spec fn part_end(start: int, n: int, len: int) -> int {
    if start + n <= len {
        start + n
    } else {
        len
    }
}

/// The `k`-th of the pieces of `n` items, the last one perhaps shorter, that a list is
/// cut into.
pub open spec fn piece<A>(list: Seq<A>, n: int, k: int) -> Seq<A> {
    list.subrange(k * n, part_end(k * n, n, list.len() as int))
}

/// `parts` are the contests into which a contest is split when its contestants, listed
/// in the given order, are cut into pieces of `n`.
pub open spec fn is_split(
    contest: Contest,
    order: Seq<(String, usize, usize)>,
    n: int,
    parts: Seq<Contest>,
) -> bool {
    &&& parts.len() == (order.len() + n - 1) / n
    &&& forall|k: int|
        0 <= k < parts.len() ==> {
            &&& same_header(#[trigger] parts[k], contest)
            &&& standings::is_reranking(piece(order, n, k), parts[k].standings@)
        }
}

/// The random number generator that contests are shuffled with.
#[verifier::external_type_specification]
#[verifier::external_body]
pub struct ExStdRng(rand::rngs::StdRng);

/// Shuffles with `SliceRandom::shuffle` of the crate `rand`, which swaps items of the
/// slice. What is claimed of it: the items are the same, each as often as before. The
/// order that they end up in is a matter of chance, and nothing is said of it.
#[verifier::external_body]
fn shuffle(list: &mut Vec<(String, usize, usize)>, rng: &mut rand::rngs::StdRng)
    ensures
        final(list)@.to_multiset() == old(list)@.to_multiset(),
{
    rand::seq::SliceRandom::shuffle(list.as_mut_slice(), rng);
}

impl Contest {
    /// Create a contest with empty standings, useful for testing.
    pub fn new(index: usize) -> (contest: Self)
        requires
            index * DAY_SECONDS <= u64::MAX,
        ensures
            contest.name@ == "Round #"@ + text::decimal(index as int),
            contest.url is None,
            contest.weight.bits == ONE_BITS,
            contest.time_seconds == index * DAY_SECONDS,
            contest.time_seconds == index * 86_400,
            contest.weight.bits == 0x3ff0_0000_0000_0000,
            contest.standings@.len() == 0,
    {
        let mut name = "Round #".to_owned();
        name.append(text::unsigned_text(index as u64).as_str());
        Contest {
            name,
            url: None,
            weight: one(),
            time_seconds: index as u64 * DAY_SECONDS,
            standings: Vec::new(),
        }
    }

    /// Returns the contestant's position, if they participated.
    pub fn find_contestant(&mut self, handle: &str) -> (pos: Option<usize>)
        ensures
            *final(self) == *old(self),
            is_position(old(self).standings@, handle@, pos),
            pos is Some ==> {
                &&& pos->0 < old(self).standings@.len()
                &&& old(self).standings@[pos->0 as int].0@ == handle@
                &&& forall|i: int|
                    0 <= i < pos->0 ==> (#[trigger] old(self).standings@[i]).0@ != handle@
            },
            pos is None ==> forall|i: int|
                0 <= i < old(self).standings@.len() ==> (#[trigger] old(self).standings@[i]).0@
                    != handle@,
    {
        let wanted: String = handle.to_owned();
        let mut i: usize = 0;
        while i < self.standings.len()
            invariant
                *self == *old(self),
                i <= self.standings@.len(),
                wanted@ == handle@,
                forall|j: int| 0 <= j < i ==> (#[trigger] self.standings@[j]).0@ != handle@,
            decreases self.standings@.len() - i,
        {
            if self.standings[i].0 == wanted {
                return Some(i);
            }
            i += 1;
        }
        None
    }

    /// Remove a contestant with the given handle, and return it if it exists.
    ///
    /// Whoever was tied with or placed behind the one who leaves moves up.
    pub fn remove_contestant(&mut self, handle: &str) -> (removed: Option<(String, usize, usize)>)
        requires
            old(self).standings@.len() > 0 && old(self).standings@[0].0@ == handle@ ==> (forall|
                i: int,
            |
                1 <= i < old(self).standings@.len() ==> (#[trigger] old(self).standings@[i]).2 > 0),
        ensures
            same_header(*final(self), *old(self)),
            is_removal(old(self).standings@, handle@, removed, final(self).standings@),
            final(self).name == old(self).name,
            final(self).url == old(self).url,
            final(self).weight == old(self).weight,
            final(self).time_seconds == old(self).time_seconds,
            removed is None ==> final(self).standings@ == old(self).standings@,
            removed is Some ==> (removed->0).0@ == handle@ && final(self).standings@.len() + 1
                == old(self).standings@.len(),
            removed is None <==> forall|i: int|
                0 <= i < old(self).standings@.len() ==> (#[trigger] old(self).standings@[i]).0@
                    != handle@,
    {
        let pos: usize = match self.find_contestant(handle) {
            Some(p) => p,
            None => {
                return None;
            },
        };
        let ghost before = self.standings@;
        let contestant = self.standings.remove(pos);
        let ghost rest = self.standings@;
        let mut i: usize = 0;
        while i < self.standings.len()
            invariant
                same_header(*self, *old(self)),
                i <= self.standings@.len(),
                pos < before.len(),
                rest == before.remove(pos as int),
                self.standings@.len() == rest.len(),
                forall|j: int| 1 <= j < before.len() && pos == 0 ==> (#[trigger] before[j]).2 > 0,
                forall|j: int|
                    0 <= j < i ==> #[trigger] self.standings@[j] == standings::shifted(
                        rest[j],
                        pos as int,
                    ),
                forall|j: int| i <= j < rest.len() ==> #[trigger] self.standings@[j] == rest[j],
            decreases self.standings@.len() - i,
        {
            assert(pos == 0 ==> rest[i as int] == before[i + 1]);
            if self.standings[i].2 >= pos {
                self.standings[i].2 -= 1;
                if self.standings[i].1 > pos {
                    self.standings[i].1 -= 1;
                }
            }
            i += 1;
        }
        proof {
            assert(self.standings@ =~= standings::without(before, pos as int));
            assert(is_position(before, handle@, Some(pos)));
        }
        Some(contestant)
    }

    /// Assuming `self.standings` is a subset of a valid standings list,
    /// corrects the `lo` and `hi` values to make the new list valid
    pub fn fix_lo_hi(&mut self)
        ensures
            same_header(*final(self), *old(self)),
            standings::is_reranking(old(self).standings@, final(self).standings@),
            final(self).name == old(self).name,
            final(self).url == old(self).url,
            final(self).weight == old(self).weight,
            final(self).time_seconds == old(self).time_seconds,
            final(self).standings@.len() == old(self).standings@.len(),
            forall|i: int|
                0 <= i < final(self).standings@.len() ==> {
                    &&& (#[trigger] final(self).standings@[i]).1 <= i
                    &&& i <= final(self).standings@[i].2
                    &&& final(self).standings@[i].2 < final(self).standings@.len()
                },
    {
        let ghost before = self.standings@;
        sort_unstable(&mut self.standings);
        let ghost sorted = self.standings@;
        let len: usize = self.standings.len();
        let mut lo: usize = 0;
        proof {
            assert forall|i: int, j: int| 0 <= i < j < sorted.len() implies (
            #[trigger] sorted[i]).1 <= (#[trigger] sorted[j]).1 by {
                assert(!sorted[j].precedes(sorted[i]));
            }
        }
        while lo < len
            invariant
                same_header(*self, *old(self)),
                len == sorted.len(),
                len == self.standings@.len(),
                standings::by_lo(sorted),
                lo <= len,
                0 < lo < len ==> sorted[lo - 1].1 < sorted[lo as int].1,
                forall|j: int|
                    0 <= j < lo ==> #[trigger] self.standings@[j] == standings::ranked(
                        sorted,
                        sorted[j],
                    ),
                forall|j: int| lo <= j < len ==> #[trigger] self.standings@[j] == sorted[j],
            decreases len - lo,
        {
            let mut hi: usize = lo;
            while hi + 1 < len && self.standings[lo].1 == self.standings[hi + 1].1
                invariant
                    len == self.standings@.len(),
                    len == sorted.len(),
                    lo <= hi < len,
                    forall|j: int| lo <= j < len ==> #[trigger] self.standings@[j] == sorted[j],
                    forall|j: int| lo <= j <= hi ==> (#[trigger] sorted[j]).1 == sorted[lo as int].1,
                decreases len - hi,
            {
                hi += 1;
            }
            let ghost first = sorted[lo as int].1 as int;
            proof {
                counting::lemma_count_prefix(
                    sorted,
                    lo as int,
                    |e: (String, usize, usize)| e.1 < first,
                );
                counting::lemma_count_prefix(
                    sorted,
                    hi + 1,
                    |e: (String, usize, usize)| e.1 <= first,
                );
            }
            let mut k: usize = lo;
            while k <= hi
                invariant
                    same_header(*self, *old(self)),
                    len == sorted.len(),
                    len == self.standings@.len(),
                    lo <= k <= hi + 1 <= len,
                    first == sorted[lo as int].1,
                    standings::count_before(sorted, first) == lo,
                    standings::count_through(sorted, first) == hi + 1,
                    forall|j: int| lo <= j <= hi ==> (#[trigger] sorted[j]).1 == first,
                    forall|j: int|
                        0 <= j < k ==> #[trigger] self.standings@[j] == standings::ranked(
                            sorted,
                            sorted[j],
                        ),
                    forall|j: int| k <= j < len ==> #[trigger] self.standings@[j] == sorted[j],
                decreases hi + 1 - k,
            {
                self.standings[k].1 = lo;
                self.standings[k].2 = hi;
                k += 1;
            }
            lo = hi + 1;
        }
        proof {
            standings::lemma_rank_sorted(before, sorted, self.standings@);
            counting::lemma_permutation_contains(sorted, before);
            standings::lemma_reranking_valid(before, self.standings@);
        }
    }

    /// A contest with the same header and the given contestants, ranked among
    /// themselves.
    pub fn clone_with_standings(&self, standings: Vec<(String, usize, usize)>) -> (contest: Self)
        ensures
            same_header(contest, *self),
            standings::is_reranking(standings@, contest.standings@),
            contest.name == self.name,
            contest.url == self.url,
            contest.weight == self.weight,
            contest.time_seconds == self.time_seconds,
    {
        let mut contest = Contest {
            name: self.name.clone(),
            url: self.url.clone(),
            weight: self.weight,
            time_seconds: self.time_seconds,
            standings,
        };
        contest.fix_lo_hi();
        contest
    }

    /// Split into disjoint contests, each with at most `n` participants, taking the
    /// participants in the order in which they are listed.
    pub fn split_in_order(self, n: usize) -> (parts: Vec<Contest>)
        requires
            n > 0,
        ensures
            is_split(self, self.standings@, n as int, parts@),
    {
        let ghost order = self.standings@;
        let mut header = self;
        let mut rest: Vec<(String, usize, usize)> = Vec::new();
        rest.append(&mut header.standings);
        let mut parts: Vec<Contest> = Vec::new();
        let ghost mut start: int = 0;
        proof {
            assert(rest@ =~= order);
            assert(order.skip(0) =~= order);
            assert(0 * n == 0 && (0 - 1) * n == -n) by (nonlinear_arith);
        }
        while rest.len() > 0
            invariant
                n > 0,
                same_header(header, self),
                rest@.len() > 0 ==> start == parts@.len() * n,
                0 <= start <= order.len(),
                rest@ == order.skip(start),
                start > (parts@.len() - 1) * n,
                start <= parts@.len() * n,
                forall|k: int|
                    0 <= k < parts@.len() ==> {
                        &&& same_header(#[trigger] parts@[k], self)
                        &&& standings::is_reranking(
                            piece(order, n as int, k),
                            parts@[k].standings@,
                        )
                    },
            decreases rest@.len(),
        {
            let ghost done = parts@.len() as int;
            let tail: Vec<(String, usize, usize)> = if rest.len() > n {
                rest.split_off(n)
            } else {
                Vec::new()
            };
            proof {
                assert(start == done * n);
                assert((done + 1) * n == done * n + n) by (nonlinear_arith);
                assert(rest@ =~= piece(order, n as int, done));
                assert(tail@ =~= order.skip(part_end(start, n as int, order.len() as int)));
                start = part_end(start, n as int, order.len() as int);
            }
            parts.push(header.clone_with_standings(rest));
            rest = tail;
        }
        proof {
            let m = parts@.len() as int;
            let len = order.len() as int;
            assert(start == len);
            assert((len + n - 1) / (n as int) == m) by (nonlinear_arith)
                requires
                    n > 0,
                    len > (m - 1) * n,
                    len <= m * n,
            ;
        }
        parts
    }

    /// Split into random disjoint contests, each with at most n participants
    pub fn random_split(self, n: usize, rng: &mut rand::rngs::StdRng) -> (parts: Vec<Contest>)
        requires
            n > 0,
        ensures
            exists|order: Seq<(String, usize, usize)>|
                {
                    &&& order.to_multiset() == self.standings@.to_multiset()
                    &&& #[trigger] is_split(self, order, n as int, parts@)
                },
    {
        let mut contest = self;
        shuffle(&mut contest.standings, rng);
        let ghost order = contest.standings@;
        let parts = contest.split_in_order(n);
        proof {
            assert(is_split(self, order, n as int, parts@));
        }
        parts
    }

    /// Add a contestant with the given handle in last place.
    pub fn push_contestant(&mut self, handle: &str)
        ensures
            same_header(*final(self), *old(self)),
            is_pushed(old(self).standings@, handle@, final(self).standings@),
            final(self).name == old(self).name,
            final(self).url == old(self).url,
            final(self).weight == old(self).weight,
            final(self).time_seconds == old(self).time_seconds,
            final(self).standings@.len() == old(self).standings@.len() + 1,
            forall|i: int|
                0 <= i < old(self).standings@.len() ==> #[trigger] final(self).standings@[i]
                    == old(self).standings@[i],
            final(self).standings@.last().0@ == handle@,
            final(self).standings@.last().1 == old(self).standings@.len(),
            final(self).standings@.last().2 == old(self).standings@.len(),
    {
        let place: usize = self.standings.len();
        self.standings.push((handle.to_owned(), place, place));
        proof {
            assert(self.standings@.drop_last() =~= old(self).standings@);
            assert(self.standings@ =~= old(self).standings@.push(self.standings@.last()));
        }
    }
}

/// Compressed summary of a contest
pub struct ContestSummary {
    pub name: String,
    pub url: Option<String>,
    pub weight: Double,
    pub time_seconds: u64,
    pub num_contestants: usize,
}

impl ContestSummary {
    /// Returns a summary of the given contest, stripped of detailed standings
    pub fn new(contest: &Contest) -> (summary: Self)
        ensures
            summary.name == contest.name,
            summary.url == contest.url,
            summary.weight == contest.weight,
            summary.time_seconds == contest.time_seconds,
            summary.num_contestants == contest.standings@.len(),
    {
        ContestSummary {
            name: contest.name.clone(),
            url: contest.url.clone(),
            weight: contest.weight,
            time_seconds: contest.time_seconds,
            num_contestants: contest.standings.len(),
        }
    }
}

/// The formats in which lists of records are written.
#[derive(Clone, Copy, Debug, PartialEq, Eq, Structural)]
pub enum FileFormat {
    Json,
    Csv,
}

/// The format that a file's extension asks for, or why there is none.
pub fn file_format(extension: Option<&str>) -> (format: Result<FileFormat, String>)
    ensures
        match format {
            Ok(FileFormat::Json) => extension is Some && extension->0@ == "json"@,
            Ok(FileFormat::Csv) => extension is Some && extension->0@ == "csv"@,
            Err(message) => {
                &&& extension is Some ==> extension->0@ != "json"@ && extension->0@ != "csv"@
                &&& message@ == "Invalid or missing filename extension"@
            },
        },
        extension is Some && extension->0@ == "json"@ ==> format == Ok::<_, String>(
            FileFormat::Json,
        ),
        extension is Some && extension->0@ == "csv"@ ==> format == Ok::<_, String>(FileFormat::Csv),
{
    proof {
        reveal_strlit("json");
        reveal_strlit("csv");
        assert("json"@.len() != "csv"@.len());
    }
    if let Some(suffix) = extension {
        let suffix: String = suffix.to_owned();
        if suffix == "json".to_owned() {
            return Ok(FileFormat::Json);
        }
        if suffix == "csv".to_owned() {
            return Ok(FileFormat::Csv);
        }
    }
    Err("Invalid or missing filename extension".to_owned())
}

/// Where the contests of a dataset come from.
#[derive(Debug)]
pub enum DatasetSource {
    /// From the Codeforces API, one contest for each number that a file lists, at least
    /// so many milliseconds apart, and kept in a directory once fetched.
    Codeforces { contest_id_file: String, rate_limit_millis: u64, cache_dir: String },
    /// From the files in a directory.
    Disk { dir: String },
}

/// Helper function to get any named dataset: it tells where the dataset is to be had.
pub fn get_dataset_by_name(dataset_name: &str) -> (source: Result<DatasetSource, String>)
    ensures
        match source {
            Ok(DatasetSource::Codeforces { contest_id_file, rate_limit_millis, cache_dir }) => {
                &&& dataset_name@ == "codeforces"@
                &&& contest_id_file@ == "../data/codeforces/contest_ids.json"@
                &&& rate_limit_millis == 500
                &&& cache_dir@ == "../cache/"@ + dataset_name@
            },
            Ok(DatasetSource::Disk { dir }) => {
                &&& dataset_name@ != "codeforces"@
                &&& dir@ == "../cache/"@ + dataset_name@
            },
            Err(_) => false,
        },
{
    let dataset_dir: String = "../cache/".to_owned().concat(dataset_name);
    if dataset_name.to_owned() == "codeforces".to_owned() {
        // Rate-limit API calls so we don't burden Codeforces
        Ok(
            DatasetSource::Codeforces {
                contest_id_file: "../data/codeforces/contest_ids.json".to_owned(),
                rate_limit_millis: 500,
                cache_dir: dataset_dir,
            },
        )
    } else {
        Ok(DatasetSource::Disk { dir: dataset_dir })
    }
}

/// What went wrong in a JSON text, as the crate `serde_json` reports it.
#[verifier::external_type_specification]
#[verifier::external_body]
pub struct ExJsonError(serde_json::Error);

/// The numbers that a JSON text lists, where it is a list of numbers from zero to
/// `u64::MAX`.
pub uninterp spec fn json_numbers(json: Seq<char>) -> Option<Seq<u64>>;

/// Reads a list of numbers with `serde_json::from_str`. What is claimed of it: whether
/// it succeeds, and with which numbers, is settled by the text alone.
#[verifier::external_body]
fn numbers_from_json(json: &str) -> (numbers: Result<Vec<u64>, serde_json::Error>)
    ensures
        match numbers {
            Ok(list) => json_numbers(json@) == Some(list@),
            Err(_) => json_numbers(json@) is None,
        },
{
    serde_json::from_str(json)
}

/// The contest IDs that a list of numbers gives: the numbers themselves, where there is
/// a list and each of them can be an ID.
pub open spec fn is_contest_ids(
    numbers: Option<Seq<u64>>,
    ids: Result<Vec<usize>, String>,
) -> bool {
    match ids {
        Ok(list) => {
            &&& numbers is Some
            &&& list@.len() == numbers->0.len()
            &&& forall|i: int| 0 <= i < list@.len() ==> #[trigger] list@[i] == numbers->0[i]
        },
        Err(message) => {
            &&& numbers is Some ==> exists|i: int|
                0 <= i < numbers->0.len() && #[trigger] numbers->0[i] > usize::MAX
            &&& message@ == "Failed to parse JSON contest IDs as a Vec<usize>"@
        },
    }
}

/// Turns a list of numbers, if there is one, into contest IDs.
pub fn contest_ids(numbers: Option<Vec<u64>>) -> (ids: Result<Vec<usize>, String>)
    ensures
        is_contest_ids(
            match numbers {
                Some(list) => Some(list@),
                None => None,
            },
            ids,
        ),
{
    let list: Vec<u64> = match numbers {
        Some(list) => list,
        None => {
            return Err("Failed to parse JSON contest IDs as a Vec<usize>".to_owned());
        },
    };
    let mut ids: Vec<usize> = Vec::new();
    let mut i: usize = 0;
    while i < list.len()
        invariant
            i <= list@.len(),
            ids@.len() == i,
            forall|j: int| 0 <= j < i ==> #[trigger] ids@[j] == list@[j],
            numbers == Some(list),
        decreases list@.len() - i,
    {
        if list[i] > usize::MAX as u64 {
            proof {
                let all = Some(list@);
                assert(all->0[i as int] > usize::MAX);
            }
            return Err("Failed to parse JSON contest IDs as a Vec<usize>".to_owned());
        }
        ids.push(list[i] as usize);
        i += 1;
    }
    Ok(ids)
}

/// There are contest IDs just where there is a list of numbers and each fits in a machine
/// word. They are those numbers, in their order; otherwise the error says what failed.
pub proof fn lemma_contest_ids(numbers: Option<Seq<u64>>, ids: Result<Vec<usize>, String>)
    requires
        is_contest_ids(numbers, ids),
    ensures
        ids is Ok <==> numbers is Some && forall|i: int|
            0 <= i < numbers->0.len() ==> #[trigger] numbers->0[i] <= usize::MAX,
        ids is Ok ==> ids->Ok_0@.len() == numbers->0.len() && forall|i: int|
            0 <= i < numbers->0.len() ==> ids->Ok_0@[i] == #[trigger] numbers->0[i],
        ids is Err ==> ids->Err_0@ == "Failed to parse JSON contest IDs as a Vec<usize>"@,
{
    if ids is Ok {
        assert forall|i: int| 0 <= i < numbers->0.len() implies ids->Ok_0@[i]
            == #[trigger] numbers->0[i] by {
            assert(ids->Ok_0@[i] == numbers->0[i]);
        }
    }
}

/// Reads the contest IDs from a JSON text.
pub fn contest_ids_from_json(json: &str) -> (ids: Result<Vec<usize>, String>)
    ensures
        is_contest_ids(json_numbers(json@), ids),
{
    match numbers_from_json(json) {
        Ok(list) => contest_ids(Some(list)),
        Err(_) => contest_ids(None),
    }
}

/// Valid standings meet what `Contest::remove_contestant` asks for, whoever is to
/// leave.
pub proof fn lemma_valid_removable(s: Seq<(String, usize, usize)>)
    requires
        standings::valid(s),
    ensures
        forall|i: int| 1 <= i < s.len() ==> (#[trigger] s[i]).2 > 0,
{
    assert forall|i: int| 1 <= i < s.len() implies (#[trigger] s[i]).2 > 0 by {
        assert(i <= s[i].2);
    }
}

/// Adding and removing contestants keeps standings valid, and after a removal everyone
/// who stays has the range of ties that ranking those who stay would give.
pub proof fn lemma_changes_keep_valid(
    before: Seq<(String, usize, usize)>,
    handle: Seq<char>,
    removed: Option<(String, usize, usize)>,
    after: Seq<(String, usize, usize)>,
)
    requires
        standings::valid(before),
        before.len() <= usize::MAX,
    ensures
        is_pushed(before, handle, after) ==> standings::valid(after),
        is_removal(before, handle, removed, after) ==> standings::valid(after),
        is_removal(before, handle, removed, after) && removed is Some ==> exists|pos: usize|
            {
                &&& #[trigger] is_position(before, handle, Some(pos))
                &&& standings::is_reranking(before.remove(pos as int), after)
            },
{
    if is_pushed(before, handle, after) {
        assert(after =~= before.push(
            (after.last().0, before.len() as usize, before.len() as usize),
        ));
        standings::lemma_push_valid(before, after.last().0);
    }
    if is_removal(before, handle, removed, after) && removed is Some {
        let pos = choose|pos: usize|
            {
                &&& #[trigger] is_position(before, handle, Some(pos))
                &&& removed->0 == before[pos as int]
                &&& after == standings::without(before, pos as int)
            };
        standings::lemma_without_valid(before, pos as int);
        assert(is_position(before, handle, Some(pos)));
    }
}

/// Removing a newcomer who was just added in last place hands the newcomer back and
/// restores the standings.
pub proof fn lemma_remove_undoes_push(
    before: Seq<(String, usize, usize)>,
    handle: Seq<char>,
    pushed: Seq<(String, usize, usize)>,
    removed: Option<(String, usize, usize)>,
    after: Seq<(String, usize, usize)>,
)
    requires
        standings::valid(before),
        before.len() <= usize::MAX,
        is_position(before, handle, None),
        is_pushed(before, handle, pushed),
        is_removal(pushed, handle, removed, after),
    ensures
        removed == Some(pushed.last()),
        after == before,
{
    assert forall|i: int| 0 <= i < before.len() implies pushed[i] == before[i] by {
        assert(pushed.drop_last()[i] == before[i]);
    }
    assert(pushed[pushed.len() - 1].0@ == handle);
    assert(removed is Some);
    let pos = choose|pos: usize|
        {
            &&& #[trigger] is_position(pushed, handle, Some(pos))
            &&& removed->0 == pushed[pos as int]
            &&& after == standings::without(pushed, pos as int)
        };
    assert(pos == before.len()) by {
        if pos < before.len() {
            assert(before[pos as int].0@ != handle);
        }
    }
    assert(pushed =~= before.push((pushed.last().0, before.len() as usize, before.len() as usize)));
    standings::lemma_push_without(before, pushed.last().0);
}

/// The handles of all contestants of some contests, each as often as it occurs.
pub open spec fn all_handles(parts: Seq<Contest>) -> vstd::multiset::Multiset<String>
    decreases parts.len(),
{
    if parts.len() == 0 {
        vstd::multiset::Multiset::empty()
    } else {
        all_handles(parts.drop_last()).add(handles(parts.last().standings@).to_multiset())
    }
}

/// The handles listed in standings.
pub open spec fn handles(s: Seq<(String, usize, usize)>) -> Seq<String> {
    s.map_values(|e: (String, usize, usize)| e.0)
}

/// Ranking a list anew keeps its contestants.
pub proof fn lemma_reranking_handles(
    old: Seq<(String, usize, usize)>,
    new: Seq<(String, usize, usize)>,
)
    requires
        standings::is_reranking(old, new),
    ensures
        handles(new).to_multiset() == handles(old).to_multiset(),
{
    let f = |e: (String, usize, usize)| standings::ranked(old, e);
    let h = |e: (String, usize, usize)| e.0;
    counting::lemma_map_permutation(new, old.map_values(f), h);
    assert(old.map_values(f).map_values(h) =~= handles(old));
}

/// However the contestants are shuffled, a split gives contests with valid standings,
/// none empty and none with more than `n` contestants, and everyone who took part is
/// in exactly one of them. In each, contestants keep the order they had, ties included.
pub proof fn lemma_split(
    contest: Contest,
    order: Seq<(String, usize, usize)>,
    n: int,
    parts: Seq<Contest>,
)
    requires
        n > 0,
        order.len() <= usize::MAX,
        order.to_multiset() == contest.standings@.to_multiset(),
        is_split(contest, order, n, parts),
    ensures
        forall|k: int|
            0 <= k < parts.len() ==> {
                &&& 0 < (#[trigger] parts[k]).standings@.len() <= n
                &&& standings::valid(parts[k].standings@)
            },
        all_handles(parts) == handles(contest.standings@).to_multiset(),
        forall|k: int, i: int, j: int|
            #![trigger piece(order, n, k)[i], piece(order, n, k)[j]]
            0 <= k < parts.len() && 0 <= i < piece(order, n, k).len() && 0 <= j < piece(
                order,
                n,
                k,
            ).len() ==> {
                let p = piece(order, n, k);
                &&& p[i].1 < p[j].1 <==> standings::ranked(p, p[i]).1 < standings::ranked(p, p[j]).1
                &&& p[i].1 == p[j].1 <==> standings::ranked(p, p[i]).1 == standings::ranked(
                    p,
                    p[j],
                ).1
            },
{
    assert forall|k: int| 0 <= k < parts.len() implies {
        &&& 0 <= k * n < order.len()
        &&& 0 < #[trigger] piece(order, n, k).len() <= n
    } by {
        let len = order.len() as int;
        assert(0 <= k * n < len) by (nonlinear_arith)
            requires
                n > 0,
                0 <= k < (len + n - 1) / n,
                len >= 0,
        ;
    }
    assert forall|k: int| 0 <= k < parts.len() implies {
        &&& 0 < (#[trigger] parts[k]).standings@.len() <= n
        &&& standings::valid(parts[k].standings@)
    } by {
        assert(piece(order, n, k).len() > 0);
        standings::lemma_reranking_valid(piece(order, n, k), parts[k].standings@);
    }
    assert forall|k: int, i: int, j: int|
        #![trigger piece(order, n, k)[i], piece(order, n, k)[j]]
        0 <= k < parts.len() && 0 <= i < piece(order, n, k).len() && 0 <= j < piece(
            order,
            n,
            k,
        ).len() implies {
        let p = piece(order, n, k);
        &&& p[i].1 < p[j].1 <==> standings::ranked(p, p[i]).1 < standings::ranked(p, p[j]).1
        &&& p[i].1 == p[j].1 <==> standings::ranked(p, p[i]).1 == standings::ranked(p, p[j]).1
    } by {
        standings::lemma_ranked_monotone(piece(order, n, k), i, j);
    }
    let m = parts.len() as int;
    lemma_split_handles(contest, order, n, parts, m);
    assert(parts.take(m) =~= parts);
    let len = order.len() as int;
    assert(m * n >= len) by (nonlinear_arith)
        requires
            n > 0,
            m == (len + n - 1) / n,
    ;
    assert(order.take(len) =~= order);
    counting::lemma_map_permutation(
        order,
        contest.standings@,
        |e: (String, usize, usize)| e.0,
    );
}

proof fn lemma_split_handles(
    contest: Contest,
    order: Seq<(String, usize, usize)>,
    n: int,
    parts: Seq<Contest>,
    m: int,
)
    requires
        n > 0,
        is_split(contest, order, n, parts),
        0 <= m <= parts.len(),
    ensures
        all_handles(parts.take(m)) == handles(
            order.take(if m * n <= order.len() {
                m * n
            } else {
                order.len() as int
            }),
        ).to_multiset(),
    decreases m,
{
    let len = order.len() as int;
    if m == 0 {
        assert(0 * n == 0) by (nonlinear_arith);
        let none = handles(order.take(0));
        none.to_multiset_ensures();
        assert(none =~= Seq::empty());
        assert(parts.take(0) =~= Seq::empty());
        assert(none.to_multiset() =~= vstd::multiset::Multiset::empty());
    } else {
        lemma_split_handles(contest, order, n, parts, m - 1);
        let start = (m - 1) * n;
        assert(m * n == start + n && 0 <= start < len) by (nonlinear_arith)
            requires
                n > 0,
                start == (m - 1) * n,
                1 <= m <= (len + n - 1) / n,
                len >= 0,
        ;
        let end = part_end(start, n, len);
        let part = parts[m - 1];
        lemma_reranking_handles(piece(order, n, m - 1), part.standings@);
        assert(parts.take(m).drop_last() =~= parts.take(m - 1));
        assert(parts.take(m).last() == part);
        assert(order.take(end) =~= order.take(start) + piece(order, n, m - 1));
        assert(handles(order.take(end)) =~= handles(order.take(start)) + handles(
            piece(order, n, m - 1),
        ));
        vstd::seq_lib::lemma_multiset_commutative(
            handles(order.take(start)),
            handles(piece(order, n, m - 1)),
        );
    }
}

/// What removing a contestant does to another one, in terms of the place that the first
/// contestant with the handle had.
pub proof fn lemma_removal(
    before: Seq<(String, usize, usize)>,
    handle: Seq<char>,
    removed: Option<(String, usize, usize)>,
    after: Seq<(String, usize, usize)>,
    i: int,
) -> (pos: int)
    requires
        is_removal(before, handle, removed, after),
        removed is Some,
        0 <= i < before.len(),
        before.len() > 0 && before[0].0@ == handle ==> forall|m: int|
            1 <= m < before.len() ==> (#[trigger] before[m]).2 > 0,
    ensures
        0 <= pos < before.len(),
        before[pos].0@ == handle,
        forall|m: int| 0 <= m < pos ==> (#[trigger] before[m]).0@ != handle,
        removed->0 == before[pos],
        after.len() + 1 == before.len(),
        i != pos ==> {
            let stays = after[if i < pos {
                i
            } else {
                i - 1
            }];
            &&& stays.0 == before[i].0
            &&& before[i].2 >= pos ==> stays.2 == before[i].2 - 1
            &&& before[i].2 >= pos && before[i].1 > pos ==> stays.1 == before[i].1 - 1
            &&& before[i].2 >= pos && before[i].1 <= pos ==> stays.1 == before[i].1
            &&& before[i].2 < pos ==> stays.1 == before[i].1 && stays.2 == before[i].2
        },
{
    let pos = choose|pos: usize|
        {
            &&& #[trigger] is_position(before, handle, Some(pos))
            &&& removed->0 == before[pos as int]
            &&& after == standings::without(before, pos as int)
        };
    assert(is_position(before, handle, Some(pos)));
    if i != pos {
        if pos == 0 {
            assert(before[i].2 > 0);
        }
        standings::lemma_left(before, pos as int, i);
    }
    pos as int
}

/// A split cuts the list of contestants every `n`: all parts but the last have `n`
/// contestants, the last has the rest, and the `i`-th contestant is in the part that it
/// falls into. The parts are contests with the name, source, weight and time of the whole.
pub proof fn lemma_split_sizes(
    contest: Contest,
    order: Seq<(String, usize, usize)>,
    n: int,
    parts: Seq<Contest>,
    k: int,
    i: int,
) -> (x: int)
    requires
        n > 0,
        order.len() <= usize::MAX,
        is_split(contest, order, n, parts),
        0 <= k < parts.len(),
        0 <= i < n,
        k * n + i < order.len(),
    ensures
        (parts.len() - 1) * n < order.len() <= parts.len() * n,
        k < parts.len() - 1 ==> parts[k].standings@.len() == n,
        k == parts.len() - 1 ==> parts[k].standings@.len() == order.len() - k * n,
        0 <= x < parts[k].standings@.len(),
        parts[k].standings@[x].0 == order[k * n + i].0,
        parts[k].name == contest.name,
        parts[k].url == contest.url,
        parts[k].weight == contest.weight,
        parts[k].time_seconds == contest.time_seconds,
{
    let len = order.len() as int;
    let m = parts.len() as int;
    assert((m - 1) * n < len <= m * n && 0 <= k * n && (k < m - 1 ==> k * n + n <= len)
        && (k == m - 1 ==> k * n + n >= len)) by (nonlinear_arith)
        requires
            n > 0,
            len >= 0,
            m == (len + n - 1) / n,
            0 <= k < m,
    ;
    let p = piece(order, n, k);
    assert(same_header(parts[k], contest));
    assert(p[i] == order[k * n + i]);
    standings::lemma_reranking_valid(p, parts[k].standings@);
    let (x, _) = standings::lemma_reranked_pair(p, parts[k].standings@, i, i);
    x
}

} // verus!
