//! Commit history: per-commit metrics, merge-branch lifespans, and how often
//! each file was modified, overall and per author.

use vstd::prelude::*;
use chrono::TimeZone;
use crate::paths::string_views;
use crate::table::{
    count_in, entry_views, inner_of, is_ranking, lemma_positive_ext, lemma_positive_nested_ext,
    lemma_sum_add, lemma_sum_single, lemma_sum_zero, positive, positive_nested, sum_maps,
    sum_nested, sum_over, CountTable, NestedTable,
};

verus! {

/// The earliest commit time (seconds since the Unix epoch, UTC) that has a calendar date.
pub const MIN_TIMESTAMP: i64 = -8334601228800;

/// The latest commit time (seconds since the Unix epoch, UTC) that has a calendar date.
pub const MAX_TIMESTAMP: i64 = 8210266876799;

/// The RFC 3339 form (UTC, `+00:00`) of a time given in seconds since the Unix epoch.
pub uninterp spec fn rfc3339_of(timestamp: i64) -> Seq<char>;

/// Calls chrono's `Utc.timestamp_opt(timestamp, 0)` and `DateTime::to_rfc3339`.
/// Believed, from chrono's source: there is a date exactly for the times from
/// `MIN_TIMESTAMP` to `MAX_TIMESTAMP` (years -262143 to 262142), and its text
/// is `rfc3339_of(timestamp)`.
#[verifier::external_body]
fn rfc3339_utc(timestamp: i64) -> (r: Option<String>)
    ensures
        r is Some <==> MIN_TIMESTAMP <= timestamp <= MAX_TIMESTAMP,
        r matches Some(s) ==> s@ == rfc3339_of(timestamp),
{
    match chrono::Utc.timestamp_opt(timestamp, 0) {
        chrono::MappedLocalTime::Single(d) => Some(d.to_rfc3339()),
        _ => None,
    }
}

/// One line of a commit's diff: the path of the file it belongs to (when
/// that path is valid UTF-8) and its origin mark (`+` added, `-` deleted, ...).
#[derive(Debug, Clone)]
pub struct DiffLine {
    pub path: Option<String>,
    pub origin: char,
}

/// What the history analysis reads of one commit.
#[derive(Debug, Clone)]
pub struct CommitRecord {
    pub hash: String,
    /// The author's name, when it is valid UTF-8.
    pub author: Option<String>,
    /// Commit time in seconds since the Unix epoch.
    pub timestamp: i64,
    /// Every line of the diff against the first parent (or the empty tree).
    pub diff: Vec<DiffLine>,
    /// For a merge commit whose merge base was found: the merge base's time.
    pub merge_base_timestamp: Option<i64>,
}

#[derive(Debug, Clone)]
pub struct CommitMetric {
    pub hash: String,
    pub author: String,
    pub timestamp: i64,
    pub date: String,
    pub lines_added: usize,
    pub lines_deleted: usize,
}

#[derive(Debug, Clone)]
pub struct BranchLifespan {
    pub merge_commit: String,
    pub author: String,
    pub duration_seconds: i64,
}

#[derive(Debug, Clone)]
pub struct HotspotMetric {
    pub file_path: String,
    pub modifications: usize,
}

/// One author's hotspots.
#[derive(Debug, Clone)]
pub struct AuthorHotspots {
    pub author: String,
    pub hotspots: Vec<HotspotMetric>,
}

/// The files a diff touches and its added and deleted line counts.
#[derive(Debug, Clone)]
pub struct DiffSummary {
    pub files: Vec<String>,
    pub lines_added: usize,
    pub lines_deleted: usize,
}

// ---------------------------------------------------------------------------
// Specification
// ---------------------------------------------------------------------------

pub open spec fn unknown_author() -> Seq<char> {
    seq!['U', 'n', 'k', 'n', 'o', 'w', 'n']
}

/// The name an author is listed under: the name, or `Unknown`.
pub open spec fn author_name(a: Option<String>) -> Seq<char> {
    match a {
        Some(s) => s@,
        None => unknown_author(),
    }
}

/// Number of diff lines with origin `c`.
pub open spec fn origin_count(diff: Seq<DiffLine>, c: char) -> nat
    decreases diff.len(),
{
    if diff.len() == 0 {
        0
    } else {
        origin_count(diff.drop_last(), c) + (if diff.last().origin == c {
            1nat
        } else {
            0nat
        })
    }
}

/// The path of a diff line, as a view.
pub open spec fn line_path(l: DiffLine) -> Option<Seq<char>> {
    match l.path {
        Some(p) => Some(p@),
        None => None,
    }
}

/// The files a diff touches: the paths of its lines.
pub open spec fn diff_files(diff: Seq<DiffLine>) -> Set<Seq<char>> {
    Set::new(|p: Seq<char>| exists|i: int| 0 <= i < diff.len() && line_path(diff[i]) == Some(p))
}

/// Number of the commits in `recs` that touch `path`.
pub open spec fn touches(recs: Seq<CommitRecord>, path: Seq<char>) -> nat
    decreases recs.len(),
{
    if recs.len() == 0 {
        0
    } else {
        touches(recs.drop_last(), path) + (if diff_files(recs.last().diff@).contains(path) {
            1nat
        } else {
            0nat
        })
    }
}

/// Number of the commits in `recs` by `author` that touch `path`.
pub open spec fn author_touches(recs: Seq<CommitRecord>, author: Seq<char>, path: Seq<char>) -> nat
    decreases recs.len(),
{
    if recs.len() == 0 {
        0
    } else {
        author_touches(recs.drop_last(), author, path) + (if author_name(recs.last().author)
            == author && diff_files(recs.last().diff@).contains(path) {
            1nat
        } else {
            0nat
        })
    }
}

/// For each file touched by some commit, how many commits touch it.
pub open spec fn touch_map(recs: Seq<CommitRecord>) -> Map<Seq<char>, nat> {
    Map::new(|p: Seq<char>| touches(recs, p) > 0, |p: Seq<char>| touches(recs, p))
}

/// For each file touched by `author`, how many of the author's commits touch it.
pub open spec fn author_touch_map(recs: Seq<CommitRecord>, author: Seq<char>) -> Map<
    Seq<char>,
    nat,
> {
    Map::new(
        |p: Seq<char>| author_touches(recs, author, p) > 0,
        |p: Seq<char>| author_touches(recs, author, p),
    )
}

/// For each author who touched some file, the author's `author_touch_map`.
pub open spec fn author_map(recs: Seq<CommitRecord>) -> Map<Seq<char>, Map<Seq<char>, nat>> {
    Map::new(
        |a: Seq<char>| exists|p: Seq<char>| author_touches(recs, a, p) > 0,
        |a: Seq<char>| author_touch_map(recs, a),
    )
}

/// The merge commits of `recs` (those with a merge base), in order.
pub open spec fn merge_records(recs: Seq<CommitRecord>) -> Seq<CommitRecord>
    decreases recs.len(),
{
    if recs.len() == 0 {
        Seq::empty()
    } else {
        merge_records(recs.drop_last()) + (if recs.last().merge_base_timestamp is Some {
            seq![recs.last()]
        } else {
            Seq::empty()
        })
    }
}

/// `m` is the metric of the commit `r`.
pub open spec fn commit_metric_of(m: CommitMetric, r: CommitRecord) -> bool {
    &&& m.hash@ == r.hash@
    &&& m.author@ == author_name(r.author)
    &&& m.timestamp == r.timestamp
    &&& m.date@ == rfc3339_of(r.timestamp)
    &&& m.lines_added == origin_count(r.diff@, '+')
    &&& m.lines_deleted == origin_count(r.diff@, '-')
}

/// `b` is the lifespan of the branch merged by the merge commit `r`: from
/// its merge base's time to its own.
pub open spec fn lifespan_of(b: BranchLifespan, r: CommitRecord) -> bool {
    &&& r.merge_base_timestamp is Some
    &&& b.merge_commit@ == r.hash@
    &&& b.author@ == author_name(r.author)
    &&& b.duration_seconds == r.timestamp - r.merge_base_timestamp->0
}

/// A commit whose time has a date and whose branch lifespan fits in an `i64`.
pub open spec fn record_in_range(r: CommitRecord) -> bool {
    &&& MIN_TIMESTAMP <= r.timestamp <= MAX_TIMESTAMP
    &&& (r.merge_base_timestamp matches Some(b) ==> i64::MIN <= r.timestamp - b <= i64::MAX)
}

// ---------------------------------------------------------------------------
// Diffs
// ---------------------------------------------------------------------------


/// The files a diff touches are exactly the paths its lines carry, whatever
/// their origin marks (added, deleted, context, file or hunk headers, binary).
pub proof fn law_diff_touches_every_path(diff: Seq<DiffLine>)
    ensures
        forall|i: int|
            0 <= i < diff.len() && #[trigger] diff[i].path is Some ==> diff_files(diff).contains(
                diff[i].path->0@,
            ),
        forall|p: Seq<char>|
            diff_files(diff).contains(p) ==> exists|i: int|
                0 <= i < diff.len() && #[trigger] diff[i].path is Some && diff[i].path->0@ == p,
{
    assert forall|i: int| 0 <= i < diff.len() && #[trigger] diff[i].path is Some implies diff_files(
        diff,
    ).contains(diff[i].path->0@) by {
        assert(line_path(diff[i]) == Some(diff[i].path->0@));
    }
    assert forall|p: Seq<char>| diff_files(diff).contains(p) implies exists|i: int|
        0 <= i < diff.len() && #[trigger] diff[i].path is Some && diff[i].path->0@ == p by {
        let i = choose|i: int| 0 <= i < diff.len() && line_path(diff[i]) == Some(p);
        assert(diff[i].path is Some);
    }
}

/// Whether `p` is among `files`.
fn contains_string(files: &Vec<String>, p: &String) -> (b: bool)
    ensures
        b == string_views(files@).contains(p@),
{
    let n = files.len();
    if n > 0 && files[n - 1] == *p {
        assert(string_views(files@)[n - 1] == p@);
        return true;
    }
    let mut i: usize = 0;
    while i < n
        invariant
            n == files@.len(),
            i <= n,
            forall|j: int| 0 <= j < i ==> files@[j]@ != p@,
        decreases n - i,
    {
        if files[i] == *p {
            assert(string_views(files@)[i as int] == p@);
            return true;
        }
        i += 1;
    }
    proof {
        if string_views(files@).contains(p@) {
            let j = choose|j: int| 0 <= j < string_views(files@).len() && string_views(files@)[j] == p@;
            assert(files@[j]@ == p@);
        }
    }
    false
}

/// The files a diff touches, each once, and its added and deleted line counts.
pub fn summarize_diff(diff: &Vec<DiffLine>) -> (s: DiffSummary)
    ensures
        s.lines_added == origin_count(diff@, '+'),
        s.lines_deleted == origin_count(diff@, '-'),
        string_views(s.files@).no_duplicates(),
        forall|p: Seq<char>| string_views(s.files@).contains(p) <==> diff_files(diff@).contains(p),
        forall|i: int|
            0 <= i < diff@.len() && #[trigger] diff@[i].path is Some ==> string_views(
                s.files@,
            ).contains(diff@[i].path->0@),
        forall|p: Seq<char>|
            #[trigger] string_views(s.files@).contains(p) ==> exists|i: int|
                0 <= i < diff@.len() && #[trigger] diff@[i].path is Some && diff@[i].path->0@ == p,
{
    let mut files: Vec<String> = Vec::new();
    let mut added: usize = 0;
    let mut deleted: usize = 0;
    let mut i: usize = 0;
    while i < diff.len()
        invariant
            i <= diff@.len(),
            added == origin_count(diff@.take(i as int), '+'),
            deleted == origin_count(diff@.take(i as int), '-'),
            added <= i,
            deleted <= i,
            string_views(files@).no_duplicates(),
            forall|p: Seq<char>|
                string_views(files@).contains(p) <==> exists|j: int|
                    0 <= j < i && line_path(#[trigger] diff@[j]) == Some(p),
        decreases diff@.len() - i,
    {
        let line = &diff[i];
        proof {
            assert(diff@.take(i + 1).drop_last() =~= diff@.take(i as int));
        }
        if line.origin == '+' {
            added += 1;
        } else if line.origin == '-' {
            deleted += 1;
        }
        let ghost before = files@;
        match &line.path {
            Some(p) => {
                if !contains_string(&files, p) {
                    files.push(p.clone());
                    proof {
                        assert(string_views(files@) =~= string_views(before).push(p@));
                    }
                }
            },
            None => {},
        }
        proof {
            assert forall|p: Seq<char>|
                string_views(files@).contains(p) <==> exists|j: int|
                    0 <= j < i + 1 && line_path(#[trigger] diff@[j]) == Some(p) by {
                if string_views(files@).contains(p) && !string_views(before).contains(p) {
                    assert(line_path(diff@[i as int]) == Some(p));
                }
                if exists|j: int| 0 <= j < i + 1 && line_path(#[trigger] diff@[j]) == Some(p) {
                    let j = choose|j: int| 0 <= j < i + 1 && line_path(#[trigger] diff@[j]) == Some(p);
                    if j < i {
                        assert(string_views(before).contains(p));
                    }
                    if string_views(before).contains(p) {
                        let k = choose|k: int| 0 <= k < string_views(before).len() && string_views(before)[k] == p;
                        assert(string_views(files@)[k] == p);
                    } else {
                        assert(j == i);
                        assert(string_views(files@)[before.len() as int] == p);
                    }
                }
            }
        }
        i += 1;
    }
    proof {
        assert(diff@.take(diff@.len() as int) =~= diff@);
    }
    proof {
        law_diff_touches_every_path(diff@);
        assert forall|p: Seq<char>| #[trigger] string_views(files@).contains(p) implies exists|i: int|
            0 <= i < diff@.len() && #[trigger] diff@[i].path is Some && diff@[i].path->0@ == p by {
            assert(diff_files(diff@).contains(p));
        }
    }
    DiffSummary { files, lines_added: added, lines_deleted: deleted }
}


// ---------------------------------------------------------------------------
// Lemmas
// ---------------------------------------------------------------------------

/// The tallies of `recs` equal the maps `touch_map` and `author_map`, given
/// that they are positive tallies with the same counts.
proof fn lemma_tallies_are_maps(
    recs: Seq<CommitRecord>,
    global: Map<Seq<char>, nat>,
    authors: Map<Seq<char>, Map<Seq<char>, nat>>,
)
    requires
        positive(global),
        positive_nested(authors),
        forall|k: Seq<char>| count_in(global, k) == touches(recs, k),
        forall|a: Seq<char>, k: Seq<char>|
            count_in(inner_of(authors, a), k) == author_touches(recs, a, k),
    ensures
        global == touch_map(recs),
        authors == author_map(recs),
{
    assert forall|k: Seq<char>| count_in(global, k) == count_in(touch_map(recs), k) by {}
    lemma_positive_ext(global, touch_map(recs));
    let m = author_map(recs);
    assert forall|a: Seq<char>| #[trigger] m.contains_key(a) implies positive(m[a]) && exists|
        k: Seq<char>,
    | m[a].contains_key(k) by {
        let k = choose|k: Seq<char>| author_touches(recs, a, k) > 0;
        assert(m[a].contains_key(k));
    }
    assert forall|a: Seq<char>, k: Seq<char>|
        count_in(inner_of(authors, a), k) == count_in(inner_of(m, a), k) by {
        if !m.contains_key(a) {
            assert(author_touches(recs, a, k) == 0);
        }
    }
    lemma_positive_nested_ext(authors, m);
}

// ---------------------------------------------------------------------------
// Analysis
// ---------------------------------------------------------------------------

/// The metrics of a run of commits, and how often each file was touched.
#[derive(Debug)]
pub struct HistoryChunk {
    pub commits: Vec<CommitMetric>,
    pub branch_lifespans: Vec<BranchLifespan>,
    pub global_file_mods: CountTable,
    pub author_file_mods: NestedTable,
}

/// The name an author is listed under.
pub(crate) fn listed_author(a: &Option<String>) -> (s: String)
    ensures
        s@ == author_name(*a),
{
    match a {
        Some(name) => name.clone(),
        None => {
            let s = "Unknown".to_owned();
            proof {
                reveal_strlit("Unknown");
            }
            s
        },
    }
}

/// Analyzes the commits `records`, in order: a metric for every commit, a
/// branch lifespan for every merge commit with a merge base, and for every
/// file the number of commits that touch it, overall and per author.
pub fn analyze_commits(records: &Vec<CommitRecord>) -> (chunk: HistoryChunk)
    requires
        forall|i: int| 0 <= i < records@.len() ==> record_in_range(#[trigger] records@[i]),
    ensures
        chunk.commits@.len() == records@.len(),
        forall|i: int|
            0 <= i < records@.len() ==> commit_metric_of(#[trigger] chunk.commits@[i], records@[i]),
        chunk.branch_lifespans@.len() == merge_records(records@).len(),
        forall|i: int|
            0 <= i < chunk.branch_lifespans@.len() ==> lifespan_of(
                #[trigger] chunk.branch_lifespans@[i],
                merge_records(records@)[i],
            ),
        chunk.global_file_mods.wf(),
        chunk.global_file_mods.map() == touch_map(records@),
        chunk.author_file_mods.wf(),
        chunk.author_file_mods.map() == author_map(records@),
{
    let mut commits: Vec<CommitMetric> = Vec::new();
    let mut lifespans: Vec<BranchLifespan> = Vec::new();
    let mut global = CountTable::new();
    let mut authors = NestedTable::new();
    let mut i: usize = 0;
    proof {
        assert(records@.take(0) =~= Seq::<CommitRecord>::empty());
    }
    while i < records.len()
        invariant
            i <= records@.len(),
            forall|j: int| 0 <= j < records@.len() ==> record_in_range(#[trigger] records@[j]),
            commits@.len() == i,
            forall|j: int| 0 <= j < i ==> commit_metric_of(#[trigger] commits@[j], records@[j]),
            lifespans@.len() == merge_records(records@.take(i as int)).len(),
            forall|j: int|
                0 <= j < lifespans@.len() ==> lifespan_of(
                    #[trigger] lifespans@[j],
                    merge_records(records@.take(i as int))[j],
                ),
            global.wf(),
            positive(global.map()),
            forall|k: Seq<char>| global.count(k) == touches(records@.take(i as int), k),
            authors.wf(),
            positive_nested(authors.map()),
            forall|a: Seq<char>, k: Seq<char>|
                authors.count(a, k) == author_touches(records@.take(i as int), a, k),
        decreases records@.len() - i,
    {
        let r = &records[i];
        let ghost done = records@.take(i as int);
        proof {
            assert(records@.take(i + 1).drop_last() =~= done);
            assert(records@.take(i + 1).last() == records@[i as int]);
        }
        let summary = summarize_diff(&r.diff);
        let name = listed_author(&r.author);
        let ghost fs = string_views(summary.files@);
        let mut j: usize = 0;
        proof {
            assert(fs.take(0) =~= Seq::<Seq<char>>::empty());
        }
        while j < summary.files.len()
            invariant
                i < records@.len(),
                records@.len() <= usize::MAX,
                j <= summary.files@.len(),
                fs == string_views(summary.files@),
                fs.no_duplicates(),
                global.wf(),
                positive(global.map()),
                forall|k: Seq<char>|
                    global.count(k) == touches(done, k) + (if fs.take(j as int).contains(k) {
                        1nat
                    } else {
                        0nat
                    }),
                authors.wf(),
                positive_nested(authors.map()),
                forall|a: Seq<char>, k: Seq<char>|
                    authors.count(a, k) == author_touches(done, a, k) + (if a == name@ && fs.take(
                        j as int,
                    ).contains(k) {
                        1nat
                    } else {
                        0nat
                    }),
                done.len() == i,
            decreases summary.files@.len() - j,
        {
            let f = &summary.files[j];
            let ghost k0 = f@;
            let ghost t0 = fs.take(j as int);
            let ghost t1 = fs.take(j + 1);
            proof {
                assert(fs[j as int] == k0);
                assert(!t0.contains(k0)) by {
                    if t0.contains(k0) {
                        let q = choose|q: int| 0 <= q < t0.len() && t0[q] == k0;
                        assert(fs[q] == fs[j as int]);
                    }
                }
                assert(t1 =~= t0.push(k0));
                law_author_within_global(done, name@, k0);
            }
            let ghost gm = global.map();
            proof {
                assert(global.count(k0) == touches(done, k0));
                assert forall|k: Seq<char>|
                    count_in(gm, k) == touches(done, k) + (if t0.contains(k) {
                        1nat
                    } else {
                        0nat
                    }) by {
                    assert(global.count(k) == count_in(gm, k));
                }
            }
            global.add(f, 1);
            proof {
                assert forall|k: Seq<char>| #[trigger] global.map().contains_key(k) implies global.map()[k]
                    > 0 by {
                    if k != k0 {
                        assert(gm.contains_key(k));
                    }
                }
                assert forall|k: Seq<char>|
                    global.count(k) == touches(done, k) + (if t1.contains(k) {
                        1nat
                    } else {
                        0nat
                    }) by {
                    if k != k0 {
                        assert(count_in(gm, k) == touches(done, k) + (if t0.contains(k) {
                            1nat
                        } else {
                            0nat
                        }));
                        assert(t1.contains(k) == t0.contains(k)) by {
                            if t1.contains(k) {
                                let q = choose|q: int| 0 <= q < t1.len() && t1[q] == k;
                                assert(t0[q] == k);
                            }
                            if t0.contains(k) {
                                let q = choose|q: int| 0 <= q < t0.len() && t0[q] == k;
                                assert(t1[q] == k);
                            }
                        }
                    } else {
                        assert(t1[j as int] == k0);
                    }
                }
            }
            let ghost am = authors.map();
            proof {
                assert(authors.count(name@, k0) == author_touches(done, name@, k0));
                assert forall|a: Seq<char>, k: Seq<char>|
                    count_in(inner_of(am, a), k) == author_touches(done, a, k) + (if a == name@
                        && t0.contains(k) {
                        1nat
                    } else {
                        0nat
                    }) by {
                    assert(authors.count(a, k) == count_in(inner_of(am, a), k));
                }
            }
            authors.add(&name, f, 1);
            proof {
                assert forall|a: Seq<char>| #[trigger] authors.map().contains_key(a) implies positive(
                    authors.map()[a],
                ) && exists|k: Seq<char>| authors.map()[a].contains_key(k) by {
                    if a != name@ {
                        assert(am.contains_key(a));
                    } else {
                        assert(authors.map()[a].contains_key(k0));
                        assert forall|k: Seq<char>| #[trigger]
                            authors.map()[a].contains_key(k) implies authors.map()[a][k] > 0 by {
                            if k != k0 {
                                assert(am.contains_key(a));
                            }
                        }
                    }
                }
                assert forall|a: Seq<char>, k: Seq<char>|
                    authors.count(a, k) == author_touches(done, a, k) + (if a == name@ && t1.contains(
                        k,
                    ) {
                        1nat
                    } else {
                        0nat
                    }) by {
                    assert(count_in(inner_of(am, a), k) == author_touches(done, a, k) + (if a
                        == name@ && t0.contains(k) {
                        1nat
                    } else {
                        0nat
                    }));
                    if k != k0 {
                        assert(t1.contains(k) == t0.contains(k)) by {
                            if t1.contains(k) {
                                let q = choose|q: int| 0 <= q < t1.len() && t1[q] == k;
                                assert(t0[q] == k);
                            }
                            if t0.contains(k) {
                                let q = choose|q: int| 0 <= q < t0.len() && t0[q] == k;
                                assert(t1[q] == k);
                            }
                        }
                    } else {
                        assert(t1[j as int] == k0);
                    }
                }
            }
            j += 1;
        }
        proof {
            assert(fs.take(j as int) =~= fs);
            assert forall|k: Seq<char>| global.count(k) == touches(records@.take(i + 1), k) by {}
            assert forall|a: Seq<char>, k: Seq<char>|
                authors.count(a, k) == author_touches(records@.take(i + 1), a, k) by {}
        }
        let date = rfc3339_utc(r.timestamp).unwrap();
        commits.push(
            CommitMetric {
                hash: r.hash.clone(),
                author: name.clone(),
                timestamp: r.timestamp,
                date,
                lines_added: summary.lines_added,
                lines_deleted: summary.lines_deleted,
            },
        );
        let ghost before = lifespans@;
        match r.merge_base_timestamp {
            Some(base) => {
                lifespans.push(
                    BranchLifespan {
                        merge_commit: r.hash.clone(),
                        author: name,
                        duration_seconds: r.timestamp - base,
                    },
                );
            },
            None => {},
        }
        proof {
            let mr = merge_records(records@.take(i + 1));
            assert(mr == merge_records(done) + (if records@[i as int].merge_base_timestamp is Some {
                seq![records@[i as int]]
            } else {
                Seq::empty()
            }));
            assert forall|q: int| 0 <= q < lifespans@.len() implies lifespan_of(
                #[trigger] lifespans@[q],
                mr[q],
            ) by {
                if q < before.len() {
                    assert(lifespans@[q] == before[q]);
                    assert(mr[q] == merge_records(done)[q]);
                }
            }
        }
        i += 1;
    }
    proof {
        assert(records@.take(records@.len() as int) =~= records@);
        assert forall|k: Seq<char>| count_in(global.map(), k) == touches(records@, k) by {
            assert(global.count(k) == touches(records@.take(i as int), k));
        }
        assert forall|a: Seq<char>, k: Seq<char>|
            count_in(inner_of(authors.map(), a), k) == author_touches(records@, a, k) by {
            assert(authors.count(a, k) == author_touches(records@.take(i as int), a, k));
        }
        lemma_tallies_are_maps(records@, global.map(), authors.map());
    }
    HistoryChunk {
        commits,
        branch_lifespans: lifespans,
        global_file_mods: global,
        author_file_mods: authors,
    }
}


impl HistoryChunk {
    /// The analysis of no commits.
    pub fn new() -> (chunk: HistoryChunk)
        ensures
            chunk.commits@.len() == 0,
            chunk.branch_lifespans@.len() == 0,
            chunk.global_file_mods.wf(),
            chunk.global_file_mods.map() == touch_map(Seq::empty()),
            chunk.author_file_mods.wf(),
            chunk.author_file_mods.map() == author_map(Seq::empty()),
    {
        let chunk = HistoryChunk {
            commits: Vec::new(),
            branch_lifespans: Vec::new(),
            global_file_mods: CountTable::new(),
            author_file_mods: NestedTable::new(),
        };
        proof {
            assert(chunk.global_file_mods.map() =~= touch_map(Seq::empty()));
            assert(chunk.author_file_mods.map() =~= author_map(Seq::empty()));
        }
        chunk
    }

    /// Whether `merge(other)` may be called: no summed count exceeds `usize::MAX`.
    pub fn can_merge(&self, other: &HistoryChunk) -> (b: bool)
        requires
            self.global_file_mods.wf(),
            self.author_file_mods.wf(),
            other.global_file_mods.wf(),
            other.author_file_mods.wf(),
        ensures
            b == ((forall|k: Seq<char>|
                self.global_file_mods.count(k) + other.global_file_mods.count(k) <= usize::MAX)
                && (forall|a: Seq<char>, k: Seq<char>|
                self.author_file_mods.count(a, k) + other.author_file_mods.count(a, k)
                    <= usize::MAX)),
    {
        self.global_file_mods.can_merge(&other.global_file_mods)
            && self.author_file_mods.can_merge(&other.author_file_mods)
    }

    /// Appends the analysis `other` of later commits to this one.
    pub fn merge(&mut self, other: HistoryChunk)
        requires
            old(self).global_file_mods.wf(),
            old(self).author_file_mods.wf(),
            other.global_file_mods.wf(),
            other.author_file_mods.wf(),
            forall|k: Seq<char>|
                old(self).global_file_mods.count(k) + other.global_file_mods.count(k) <= usize::MAX,
            forall|a: Seq<char>, k: Seq<char>|
                old(self).author_file_mods.count(a, k) + other.author_file_mods.count(a, k)
                    <= usize::MAX,
        ensures
            final(self).commits@ == old(self).commits@ + other.commits@,
            final(self).branch_lifespans@ == old(self).branch_lifespans@ + other.branch_lifespans@,
            final(self).global_file_mods.wf(),
            final(self).global_file_mods.map() == sum_maps(
                old(self).global_file_mods.map(),
                other.global_file_mods.map(),
            ),
            final(self).author_file_mods.wf(),
            final(self).author_file_mods.map() == sum_nested(
                old(self).author_file_mods.map(),
                other.author_file_mods.map(),
            ),
    {
        let mut other = other;
        self.commits.append(&mut other.commits);
        self.branch_lifespans.append(&mut other.branch_lifespans);
        self.global_file_mods.merge(&other.global_file_mods);
        self.author_file_mods.merge(&other.author_file_mods);
    }
}

/// The views of hotspots as path/count pairs.
pub open spec fn hotspot_views(v: Seq<HotspotMetric>) -> Seq<(Seq<char>, nat)> {
    v.map_values(|h: HotspotMetric| (h.file_path@, h.modifications as nat))
}

/// The files of a tally with their counts, most modified first.
pub fn hotspots(table: &CountTable) -> (r: Vec<HotspotMetric>)
    requires
        table.wf(),
    ensures
        is_ranking(hotspot_views(r@), table.map()),
{
    let ranked = table.ranked();
    let mut r: Vec<HotspotMetric> = Vec::new();
    let mut i: usize = 0;
    while i < ranked.len()
        invariant
            i <= ranked@.len(),
            r@.len() == i,
            forall|j: int| 0 <= j < i ==> #[trigger] hotspot_views(r@)[j] == entry_views(ranked@)[j],
        decreases ranked@.len() - i,
    {
        let ghost before = r@;
        r.push(HotspotMetric { file_path: ranked[i].0.clone(), modifications: ranked[i].1 });
        proof {
            assert forall|j: int| 0 <= j < i + 1 implies #[trigger] hotspot_views(r@)[j]
                == entry_views(ranked@)[j] by {
                if j < i {
                    assert(r@[j] == before[j]);
                    assert(hotspot_views(before)[j] == entry_views(ranked@)[j]);
                }
            }
        }
        i += 1;
    }
    assert(hotspot_views(r@) =~= entry_views(ranked@));
    r
}

/// Every author's hotspots, one entry per author.
pub fn author_hotspots(table: &NestedTable) -> (r: Vec<AuthorHotspots>)
    requires
        table.wf(),
    ensures
        r@.len() == table.size(),
        forall|i: int|
            0 <= i < r@.len() ==> table.map().contains_key(#[trigger] r@[i].author@)
                && is_ranking(hotspot_views(r@[i].hotspots@), table.map()[r@[i].author@]),
        forall|a: Seq<char>| #[trigger]
            table.map().contains_key(a) ==> exists|i: int| 0 <= i < r@.len() && r@[i].author@ == a,
        forall|i: int, j: int| 0 <= i < j < r@.len() ==> r@[i].author@ != r@[j].author@,
{
    let mut r: Vec<AuthorHotspots> = Vec::new();
    let mut i: usize = 0;
    while i < table.len()
        invariant
            table.wf(),
            i <= table.size(),
            r@.len() == i,
            forall|j: int|
                0 <= j < i ==> #[trigger] r@[j].author@ == table.key_at(j) && is_ranking(
                    hotspot_views(r@[j].hotspots@),
                    table.table_at(j).map(),
                ),
        decreases table.size() - i,
    {
        proof {
            table.lemma_entry(i as int);
        }
        let h = hotspots(table.table(i));
        r.push(AuthorHotspots { author: table.key(i).clone(), hotspots: h });
        i += 1;
    }
    proof {
        table.lemma_keys();
        assert forall|j: int|
            0 <= j < r@.len() implies table.map().contains_key(#[trigger] r@[j].author@)
            && is_ranking(hotspot_views(r@[j].hotspots@), table.map()[r@[j].author@]) by {
            table.lemma_entry(j);
        }
        assert forall|a: Seq<char>| #[trigger] table.map().contains_key(a) implies exists|j: int|
            0 <= j < r@.len() && r@[j].author@ == a by {
            let j = choose|j: int| 0 <= j < table.size() && table.key_at(j) == a;
            assert(r@[j].author@ == a);
        }
        assert forall|x: int, y: int| 0 <= x < y < r@.len() implies r@[x].author@ != r@[y].author@ by {
            assert(r@[x].author@ == table.key_at(x));
            assert(r@[y].author@ == table.key_at(y));
        }
    }
    r
}

// ---------------------------------------------------------------------------
// Laws
// ---------------------------------------------------------------------------

/// Tallies add up over consecutive runs of commits.
pub proof fn lemma_touches_append(a: Seq<CommitRecord>, b: Seq<CommitRecord>, author: Seq<char>, path: Seq<char>)
    ensures
        touches(a + b, path) == touches(a, path) + touches(b, path),
        author_touches(a + b, author, path) == author_touches(a, author, path) + author_touches(
            b,
            author,
            path,
        ),
        merge_records(a + b) == merge_records(a) + merge_records(b),
    decreases b.len(),
{
    if b.len() == 0 {
        assert(a + b =~= a);
        assert(merge_records(a) + merge_records(b) =~= merge_records(a));
    } else {
        lemma_touches_append(a, b.drop_last(), author, path);
        assert((a + b).drop_last() =~= a + b.drop_last());
        assert((a + b).last() == b.last());
        assert(merge_records(a + b) =~= merge_records(a) + merge_records(b));
    }
}

/// Analyzing a run of commits piecewise and adding up the pieces gives the
/// analysis of the whole run: the per-file and per-author tallies of `a + b`
/// are the sums of those of `a` and of `b`, and the merge commits of `a + b`
/// are those of `a` followed by those of `b`.
pub proof fn law_history_splits(a: Seq<CommitRecord>, b: Seq<CommitRecord>)
    ensures
        touch_map(a + b) == sum_maps(touch_map(a), touch_map(b)),
        author_map(a + b) == sum_nested(author_map(a), author_map(b)),
        merge_records(a + b) == merge_records(a) + merge_records(b),
{
    lemma_touches_append(a, b, Seq::empty(), Seq::empty());
    assert forall|p: Seq<char>| touches(a + b, p) == touches(a, p) + touches(b, p) by {
        lemma_touches_append(a, b, Seq::empty(), p);
    }
    assert(touch_map(a + b) =~= sum_maps(touch_map(a), touch_map(b)));
    assert forall|x: Seq<char>, p: Seq<char>|
        author_touches(a + b, x, p) == author_touches(a, x, p) + author_touches(b, x, p) by {
        lemma_touches_append(a, b, x, p);
    }
    let lhs = author_map(a + b);
    let rhs = sum_nested(author_map(a), author_map(b));
    assert forall|x: Seq<char>| lhs.contains_key(x) <==> rhs.contains_key(x) by {
        if lhs.contains_key(x) {
            let p = choose|p: Seq<char>| author_touches(a + b, x, p) > 0;
            if author_touches(a, x, p) > 0 {
                assert(author_map(a).contains_key(x));
            } else {
                assert(author_map(b).contains_key(x));
            }
        }
        if author_map(a).contains_key(x) {
            let p = choose|p: Seq<char>| author_touches(a, x, p) > 0;
            assert(author_touches(a + b, x, p) > 0);
        }
        if author_map(b).contains_key(x) {
            let p = choose|p: Seq<char>| author_touches(b, x, p) > 0;
            assert(author_touches(a + b, x, p) > 0);
        }
    }
    assert forall|x: Seq<char>| lhs.contains_key(x) implies lhs[x] == rhs[x] by {
        assert(lhs[x] =~= rhs[x]);
    }
    assert(lhs =~= rhs);
}


/// A file's count in an author's hotspots never exceeds its count in the
/// global hotspots, which never exceeds the number of commits.
pub proof fn law_author_within_global(recs: Seq<CommitRecord>, author: Seq<char>, path: Seq<char>)
    ensures
        author_touches(recs, author, path) <= touches(recs, path),
        touches(recs, path) <= recs.len(),
    decreases recs.len(),
{
    if recs.len() > 0 {
        law_author_within_global(recs.drop_last(), author, path);
    }
}


/// The per-author counts of a file add up to its global count, summed over
/// any list of authors without repeats that holds every author who touched it.
pub proof fn law_authors_add_up(recs: Seq<CommitRecord>, path: Seq<char>, authors: Seq<Seq<char>>)
    requires
        authors.no_duplicates(),
        forall|i: int|
            0 <= i < recs.len() && diff_files(recs[i].diff@).contains(path) ==> authors.contains(
                author_name(#[trigger] recs[i].author),
            ),
    ensures
        sum_over(authors, |a: Seq<char>| author_touches(recs, a, path)) == touches(recs, path),
    decreases recs.len(),
{
    let f = |a: Seq<char>| author_touches(recs, a, path);
    if recs.len() == 0 {
        lemma_sum_zero(authors, f);
    } else {
        let rest = recs.drop_last();
        let last = recs.last();
        assert forall|i: int|
            0 <= i < rest.len() && diff_files(rest[i].diff@).contains(path) implies authors.contains(
            author_name(#[trigger] rest[i].author),
        ) by {
            assert(rest[i] == recs[i]);
        }
        law_authors_add_up(rest, path, authors);
        let n = author_name(last.author);
        let touched = diff_files(last.diff@).contains(path);
        let fp = |a: Seq<char>| author_touches(rest, a, path);
        let g = |a: Seq<char>| if a == n && touched {
            1nat
        } else {
            0nat
        };
        lemma_sum_add(authors, fp, g, f);
        if touched {
            assert(recs[recs.len() - 1] == last);
            lemma_sum_single(authors, g, n);
        } else {
            assert forall|i: int| 0 <= i < authors.len() implies g(#[trigger] authors[i]) == 0 by {}
            lemma_sum_zero(authors, g);
        }
    }
}

} // verus!
