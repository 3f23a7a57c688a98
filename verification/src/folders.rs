//! Per-folder statistics: complexity scores of the source files under each
//! folder, and the lines each author owns under each folder.

use vstd::prelude::*;
use crate::complexity::{calculate_heuristic_complexity, heuristic_complexity};
use crate::paths::{
    containing_dir, dot_start, ends_at_root, extension_of, folder_key, folder_keys, folder_keys_of,
    follows_parent, is_excluded, is_excluded_path, is_source_extension, is_source_file,
    relative_plain, root_once, string_views,
};
use crate::history::{author_name, listed_author};
use crate::table::{
    count_in, entry_views, inner_of, is_ranking, lemma_positive_ext, lemma_sum_add, lemma_sum_single,
    lemma_sum_zero, positive, sum_maps, sum_over, CountTable, NestedTable,
};

verus! {

/// A source file: its path relative to the repository, and its text.
#[derive(Debug, Clone)]
pub struct SourceFile {
    pub path: String,
    pub content: String,
}

#[derive(Debug, Clone)]
pub struct FolderComplexity {
    pub folder_path: String,
    pub complexity_score: usize,
}

/// `amount` once for every time `k` occurs in `keys`.
pub open spec fn keyed_amount(keys: Seq<Seq<char>>, k: Seq<char>, amount: nat) -> nat
    decreases keys.len(),
{
    if keys.len() == 0 {
        0
    } else {
        keyed_amount(keys.drop_last(), k, amount) + (if keys.last() == k {
            amount
        } else {
            0nat
        })
    }
}

/// The complexity score of a folder: the sum, over the files under it, of
/// each file's score (counted once per time the folder is listed above the file).
pub open spec fn folder_score(files: Seq<SourceFile>, k: Seq<char>) -> nat
    decreases files.len(),
{
    if files.len() == 0 {
        0
    } else {
        folder_score(files.drop_last(), k) + keyed_amount(
            folder_keys(files.last().path@),
            k,
            heuristic_complexity(files.last().content@),
        )
    }
}

/// The folders with a positive score, with their scores.
pub open spec fn score_map(files: Seq<SourceFile>) -> Map<Seq<char>, nat> {
    Map::new(|k: Seq<char>| folder_score(files, k) > 0, |k: Seq<char>| folder_score(files, k))
}

/// The views of folder scores as path/score pairs.
pub open spec fn complexity_views(v: Seq<FolderComplexity>) -> Seq<(Seq<char>, nat)> {
    v.map_values(|c: FolderComplexity| (c.folder_path@, c.complexity_score as nat))
}

pub proof fn lemma_keyed_amount_prefix(keys: Seq<Seq<char>>, k: Seq<char>, amount: nat, j: int)
    requires
        0 <= j <= keys.len(),
    ensures
        keyed_amount(keys.take(j), k, amount) <= keyed_amount(keys, k, amount),
    decreases keys.len(),
{
    if j < keys.len() {
        assert(keys.drop_last().take(j) =~= keys.take(j));
        lemma_keyed_amount_prefix(keys.drop_last(), k, amount, j);
    } else {
        assert(keys.take(j) =~= keys);
    }
}

pub proof fn lemma_keyed_amount_zero(keys: Seq<Seq<char>>, k: Seq<char>)
    ensures
        keyed_amount(keys, k, 0) == 0,
    decreases keys.len(),
{
    if keys.len() > 0 {
        lemma_keyed_amount_zero(keys.drop_last(), k);
    }
}

pub proof fn lemma_folder_score_prefix(files: Seq<SourceFile>, k: Seq<char>, i: int)
    requires
        0 <= i <= files.len(),
    ensures
        folder_score(files.take(i), k) <= folder_score(files, k),
    decreases files.len(),
{
    if i < files.len() {
        assert(files.drop_last().take(i) =~= files.take(i));
        lemma_folder_score_prefix(files.drop_last(), k, i);
    } else {
        assert(files.take(i) =~= files);
    }
}

/// The sum of the scores of `files`.
pub open spec fn total_score(files: Seq<SourceFile>) -> nat
    decreases files.len(),
{
    if files.len() == 0 {
        0
    } else {
        total_score(files.drop_last()) + heuristic_complexity(files.last().content@)
    }
}

/// What the folder keys of a scoring file are known to be: for a relative
/// path they run up to `.`, each followed by its parent's key, with `.` once
/// unless the path starts with `./`.
spec fn chain_facts(f: SourceFile) -> bool {
    heuristic_complexity(f.content@) > 0 ==> {
        &&& relative_plain(f.path@) ==> follows_parent(folder_keys(f.path@)) && ends_at_root(
            folder_keys(f.path@),
        )
        &&& relative_plain(f.path@) && !dot_start(f.path@) ==> root_once(folder_keys(f.path@))
    }
}

proof fn lemma_keyed_follow(ks: Seq<Seq<char>>, k: Seq<char>, pk: Seq<char>, a: nat)
    requires
        forall|i: int| 0 <= i < ks.len() - 1 && #[trigger] ks[i] == k ==> ks[i + 1] == pk,
    ensures
        keyed_amount(ks, k, a) <= keyed_amount(ks, pk, a) + (if ks.len() > 0 && ks.last() == k {
            a
        } else {
            0
        }),
    decreases ks.len(),
{
    if ks.len() > 0 {
        let s = ks.drop_last();
        assert forall|i: int| 0 <= i < s.len() - 1 && #[trigger] s[i] == k implies s[i + 1] == pk by {
            assert(s[i] == ks[i] && s[i + 1] == ks[i + 1]);
        }
        lemma_keyed_follow(s, k, pk, a);
        if s.len() > 0 && s.last() == k {
            assert(ks[s.len() - 1] == k);
        }
    }
}

proof fn lemma_keyed_absent(ks: Seq<Seq<char>>, k: Seq<char>, a: nat)
    requires
        forall|i: int| 0 <= i < ks.len() ==> #[trigger] ks[i] != k,
    ensures
        keyed_amount(ks, k, a) == 0,
    decreases ks.len(),
{
    if ks.len() > 0 {
        assert(ks.last() == ks[ks.len() - 1]);
        assert forall|i: int| 0 <= i < ks.drop_last().len() implies #[trigger] ks.drop_last()[i] != k by {
            assert(ks.drop_last()[i] == ks[i]);
        }
        lemma_keyed_absent(ks.drop_last(), k, a);
    }
}

/// A folder's score is at least that of each of its subfolders.
proof fn lemma_score_parent(files: Seq<SourceFile>, k: Seq<char>)
    requires
        forall|j: int| 0 <= j < files.len() ==> #[trigger] chain_facts(files[j]),
        forall|j: int| 0 <= j < files.len() ==> relative_plain(#[trigger] files[j].path@),
        k != seq!['.'],
    ensures
        folder_score(files, folder_key(containing_dir(k))) >= folder_score(files, k),
    decreases files.len(),
{
    if files.len() > 0 {
        let s = files.drop_last();
        assert forall|j: int| 0 <= j < s.len() implies #[trigger] chain_facts(s[j]) by {
            assert(s[j] == files[j]);
        }
        assert forall|j: int| 0 <= j < s.len() implies relative_plain(#[trigger] s[j].path@) by {
            assert(s[j] == files[j]);
        }
        lemma_score_parent(s, k);
        let f = files.last();
        assert(f == files[files.len() - 1]);
        let ks = folder_keys(f.path@);
        let a = heuristic_complexity(f.content@);
        let pk = folder_key(containing_dir(k));
        if a > 0 {
            assert(chain_facts(files[files.len() - 1]));
            assert forall|i: int| 0 <= i < ks.len() - 1 && #[trigger] ks[i] == k implies ks[i + 1]
                == pk by {}
            lemma_keyed_follow(ks, k, pk, a);
            if ks.len() > 0 && ks.last() == k {
                assert(ks[ks.len() - 1] != seq!['.']);
            }
        } else {
            lemma_keyed_amount_zero(ks, k);
            lemma_keyed_amount_zero(ks, pk);
        }
    }
}

/// The top folder's score is the sum of the scores of all files.
proof fn lemma_score_root(files: Seq<SourceFile>)
    requires
        forall|j: int| 0 <= j < files.len() ==> #[trigger] chain_facts(files[j]),
        forall|j: int|
            0 <= j < files.len() ==> relative_plain(#[trigger] files[j].path@) && !dot_start(
                files[j].path@,
            ),
    ensures
        folder_score(files, seq!['.']) == total_score(files),
    decreases files.len(),
{
    if files.len() > 0 {
        let s = files.drop_last();
        assert forall|j: int| 0 <= j < s.len() implies #[trigger] chain_facts(s[j]) by {
            assert(s[j] == files[j]);
        }
        assert forall|j: int|
            0 <= j < s.len() implies relative_plain(#[trigger] s[j].path@) && !dot_start(
                s[j].path@,
            ) by {
            assert(s[j] == files[j]);
        }
        lemma_score_root(s);
        let f = files.last();
        assert(f == files[files.len() - 1]);
        let ks = folder_keys(f.path@);
        let a = heuristic_complexity(f.content@);
        if a > 0 {
            assert(chain_facts(files[files.len() - 1]));
            assert(root_once(ks));
            assert forall|i: int| 0 <= i < ks.drop_last().len() implies #[trigger] ks.drop_last()[i]
                != seq!['.'] by {
                assert(ks.drop_last()[i] == ks[i]);
            }
            lemma_keyed_absent(ks.drop_last(), seq!['.'], a);
        } else {
            lemma_keyed_amount_zero(ks, seq!['.']);
        }
    }
}

/// The complexity score of every folder that holds source files with a
/// positive score, highest first; `None` when some folder's score exceeds
/// `usize::MAX`.
pub fn folder_complexities(files: &Vec<SourceFile>) -> (r: Option<Vec<FolderComplexity>>)
    ensures
        r is None <==> exists|k: Seq<char>| folder_score(files@, k) > usize::MAX,
        r matches Some(v) ==> is_ranking(complexity_views(v@), score_map(files@)),
        r is Some && (forall|j: int|
            0 <= j < files@.len() ==> relative_plain(#[trigger] files@[j].path@)) ==> forall|
            k: Seq<char>,
        |
            k != seq!['.'] ==> folder_score(files@, folder_key(containing_dir(k))) >= folder_score(
                files@,
                k,
            ),
        r is Some && (forall|j: int|
            0 <= j < files@.len() ==> relative_plain(#[trigger] files@[j].path@) && !dot_start(
                files@[j].path@,
            )) ==> folder_score(files@, seq!['.']) == total_score(files@),
{
    let mut table = CountTable::new();
    let mut i: usize = 0;
    proof {
        assert(files@.take(0) =~= Seq::<SourceFile>::empty());
    }
    while i < files.len()
        invariant
            i <= files@.len(),
            table.wf(),
            positive(table.map()),
            forall|k: Seq<char>| table.count(k) == folder_score(files@.take(i as int), k),
            forall|m: int| 0 <= m < i ==> #[trigger] chain_facts(files@[m]),
        decreases files@.len() - i,
    {
        let f = &files[i];
        let ghost done = files@.take(i as int);
        proof {
            assert(files@.take(i + 1).drop_last() =~= done);
            assert(files@.take(i + 1).last() == files@[i as int]);
        }
        let score = calculate_heuristic_complexity(f.content.as_str());
        if score > 0 {
            let keys = folder_keys_of(f.path.as_str());
            let ghost ks = string_views(keys@);
            assert(chain_facts(files@[i as int]));
            let mut j: usize = 0;
            proof {
                assert(ks.take(0) =~= Seq::<Seq<char>>::empty());
            }
            while j < keys.len()
                invariant
                    i < files@.len(),
                    score as nat == heuristic_complexity(files@[i as int].content@),
                    score > 0,
                    ks == string_views(keys@),
                    ks == folder_keys(files@[i as int].path@),
                    forall|m: int| 0 <= m <= i ==> #[trigger] chain_facts(files@[m]),
                    j <= keys@.len(),
                    table.wf(),
                    positive(table.map()),
                    forall|k: Seq<char>|
                        table.count(k) == folder_score(done, k) + keyed_amount(
                            ks.take(j as int),
                            k,
                            score as nat,
                        ),
                    done == files@.take(i as int),
                decreases keys@.len() - j,
            {
                let key = &keys[j];
                let ghost k0 = key@;
                proof {
                    assert(ks[j as int] == k0);
                    assert(ks.take(j + 1).drop_last() =~= ks.take(j as int));
                }
                let c = table.get(key);
                if c > usize::MAX - score {
                    proof {
                        lemma_keyed_amount_prefix(ks, k0, score as nat, j + 1);
                        lemma_folder_score_prefix(files@, k0, i + 1);
                        assert(files@.take(i + 1).drop_last() =~= done);
                        assert(files@.take(i + 1).last() == files@[i as int]);
                        assert(folder_score(files@.take(i + 1), k0) == folder_score(done, k0)
                            + keyed_amount(ks, k0, score as nat));
                        assert(folder_score(files@, k0) > usize::MAX);
                    }
                    return None;
                }
                let ghost tm = table.map();
                proof {
                    assert forall|k: Seq<char>|
                        count_in(tm, k) == folder_score(done, k) + keyed_amount(
                            ks.take(j as int),
                            k,
                            score as nat,
                        ) by {
                        assert(table.count(k) == count_in(tm, k));
                    }
                }
                table.add(key, score);
                proof {
                    assert forall|k: Seq<char>| #[trigger] table.map().contains_key(k) implies table.map()[k]
                        > 0 by {
                        if k != k0 {
                            assert(tm.contains_key(k));
                        }
                    }
                    assert forall|k: Seq<char>|
                        table.count(k) == folder_score(done, k) + keyed_amount(
                            ks.take(j + 1),
                            k,
                            score as nat,
                        ) by {
                        assert(count_in(tm, k) == folder_score(done, k) + keyed_amount(
                            ks.take(j as int),
                            k,
                            score as nat,
                        ));
                    }
                }
                j += 1;
            }
            proof {
                assert(ks.take(j as int) =~= ks);
                assert forall|k: Seq<char>| table.count(k) == folder_score(files@.take(i + 1), k) by {
                    assert(files@.take(i + 1).drop_last() =~= done);
                    assert(files@.take(i + 1).last() == files@[i as int]);
                }
            }
        } else {
            proof {
                assert forall|k: Seq<char>| table.count(k) == folder_score(files@.take(i + 1), k) by {
                    lemma_keyed_amount_zero(folder_keys(files@[i as int].path@), k);
                }
                assert(chain_facts(files@[i as int]));
            }
        }
        i += 1;
    }
    proof {
        if forall|j: int| 0 <= j < files@.len() ==> relative_plain(#[trigger] files@[j].path@) {
            assert forall|k: Seq<char>| k != seq!['.'] implies folder_score(
                files@,
                folder_key(containing_dir(k)),
            ) >= folder_score(files@, k) by {
                lemma_score_parent(files@, k);
            }
        }
        if forall|j: int|
            0 <= j < files@.len() ==> relative_plain(#[trigger] files@[j].path@) && !dot_start(
                files@[j].path@,
            ) {
            lemma_score_root(files@);
        }
    }
    proof {
        assert(files@.take(files@.len() as int) =~= files@);
        assert forall|k: Seq<char>| count_in(table.map(), k) == count_in(score_map(files@), k) by {
            assert(table.count(k) == folder_score(files@.take(i as int), k));
        }
        lemma_positive_ext(table.map(), score_map(files@));
        assert forall|k: Seq<char>| folder_score(files@, k) <= usize::MAX by {
            table.lemma_count_bounded(k);
            assert(table.count(k) == folder_score(files@.take(i as int), k));
        }
    }
    let ranked = table.ranked();
    let mut v: Vec<FolderComplexity> = Vec::new();
    let mut q: usize = 0;
    while q < ranked.len()
        invariant
            q <= ranked@.len(),
            v@.len() == q,
            forall|j: int| 0 <= j < q ==> #[trigger] complexity_views(v@)[j] == entry_views(ranked@)[j],
        decreases ranked@.len() - q,
    {
        let ghost before = v@;
        v.push(FolderComplexity { folder_path: ranked[q].0.clone(), complexity_score: ranked[q].1 });
        proof {
            assert forall|j: int| 0 <= j < q + 1 implies #[trigger] complexity_views(v@)[j]
                == entry_views(ranked@)[j] by {
                if j < q {
                    assert(v@[j] == before[j]);
                    assert(complexity_views(before)[j] == entry_views(ranked@)[j]);
                }
            }
        }
        q += 1;
    }
    assert(complexity_views(v@) =~= entry_views(ranked@));
    Some(v)
}


// ---------------------------------------------------------------------------
// Ownership
// ---------------------------------------------------------------------------

/// A file met while walking the repository: its path as walked (which
/// decides whether it is skipped and whether it is source code), its path
/// relative to the repository (which decides its folders), and its text,
/// when it was read and is valid UTF-8.
#[derive(Debug, Clone)]
pub struct WalkedFile {
    pub path: String,
    pub relative_path: String,
    pub content: Option<String>,
}

/// Whether a walked path is read as source code: it does not hold `.git`,
/// and its extension marks a source file.
pub open spec fn wanted(path: Seq<char>) -> bool {
    &&& !is_excluded(path)
    &&& match extension_of(path) {
        Some(e) => is_source_extension(e),
        None => false,
    }
}

/// Whether the walked file at `path` is to be read as source code.
pub fn wanted_source(path: &str) -> (b: bool)
    ensures
        b == wanted(path@),
{
    !is_excluded_path(path) && is_source_file(path)
}

/// The score a walked file contributes: that of its text when it is wanted
/// and was read, else 0.
pub open spec fn walked_score(f: WalkedFile) -> nat {
    match f.content {
        Some(c) => if wanted(f.path@) {
            heuristic_complexity(c@)
        } else {
            0
        },
        None => 0,
    }
}

/// The complexity score of folder `k` over a walk: each walked file's score,
/// once for every time `k` is listed above the file.
pub open spec fn walk_score(files: Seq<WalkedFile>, k: Seq<char>) -> nat
    decreases files.len(),
{
    if files.len() == 0 {
        0
    } else {
        walk_score(files.drop_last(), k) + keyed_amount(
            folder_keys(files.last().relative_path@),
            k,
            walked_score(files.last()),
        )
    }
}

/// The sum of the scores of the files of a walk.
pub open spec fn walk_total(files: Seq<WalkedFile>) -> nat
    decreases files.len(),
{
    if files.len() == 0 {
        0
    } else {
        walk_total(files.drop_last()) + walked_score(files.last())
    }
}

/// The folders with a positive score over a walk, with their scores.
pub open spec fn walk_score_map(files: Seq<WalkedFile>) -> Map<Seq<char>, nat> {
    Map::new(|k: Seq<char>| walk_score(files, k) > 0, |k: Seq<char>| walk_score(files, k))
}

/// The complexity score of every folder of a walk that holds wanted, read
/// source files with a positive score, highest first; `None` when some
/// folder's score exceeds `usize::MAX`.
pub fn walk_folder_complexities(files: &Vec<WalkedFile>) -> (r: Option<Vec<FolderComplexity>>)
    ensures
        r is None <==> exists|k: Seq<char>| walk_score(files@, k) > usize::MAX,
        r matches Some(v) ==> is_ranking(complexity_views(v@), walk_score_map(files@)),
        r is Some && (forall|j: int|
            0 <= j < files@.len() ==> relative_plain(#[trigger] files@[j].relative_path@))
            ==> forall|k: Seq<char>|
            k != seq!['.'] ==> walk_score(files@, folder_key(containing_dir(k))) >= walk_score(
                files@,
                k,
            ),
        r is Some && (forall|j: int|
            0 <= j < files@.len() ==> relative_plain(#[trigger] files@[j].relative_path@)
                && !dot_start(files@[j].relative_path@)) ==> walk_score(files@, seq!['.'])
            == walk_total(files@),
{
    let mut sources: Vec<SourceFile> = Vec::new();
    let mut i: usize = 0;
    while i < files.len()
        invariant
            i <= files@.len(),
            forall|k: Seq<char>| folder_score(sources@, k) == walk_score(files@.take(i as int), k),
            total_score(sources@) == walk_total(files@.take(i as int)),
            forall|m: int|
                0 <= m < sources@.len() ==> exists|j: int|
                    0 <= j < i && #[trigger] sources@[m].path@ == files@[j].relative_path@,
        decreases files@.len() - i,
    {
        let f = &files[i];
        let ghost before = sources@;
        let ghost done = files@.take(i as int);
        let ghost next = files@.take(i + 1);
        proof {
            assert(next.drop_last() =~= done);
            assert(next.last() == files@[i as int]);
            assert forall|k: Seq<char>|
                walk_score(next, k) == walk_score(done, k) + keyed_amount(
                    folder_keys(f.relative_path@),
                    k,
                    walked_score(*f),
                ) by {}
        }
        let mut taken = false;
        match &f.content {
            Some(c) => {
                if wanted_source(f.path.as_str()) {
                    sources.push(SourceFile { path: f.relative_path.clone(), content: c.clone() });
                    taken = true;
                    proof {
                        assert(sources@.drop_last() =~= before);
                        assert(walked_score(*f) == heuristic_complexity(c@));
                        assert(total_score(sources@) == total_score(before) + heuristic_complexity(
                            c@,
                        ));
                        assert(walk_total(next) == walk_total(done) + walked_score(*f));
                        assert forall|m: int| 0 <= m < sources@.len() implies exists|j: int|
                            0 <= j < i + 1 && #[trigger] sources@[m].path@
                                == files@[j].relative_path@ by {
                            if m < before.len() {
                                assert(sources@[m] == before[m]);
                            } else {
                                assert(sources@[m].path@ == files@[i as int].relative_path@);
                            }
                        }
                        assert forall|k: Seq<char>|
                            folder_score(sources@, k) == walk_score(next, k) by {
                            assert(folder_score(sources@, k) == folder_score(before, k)
                                + keyed_amount(
                                folder_keys(sources@.last().path@),
                                k,
                                heuristic_complexity(sources@.last().content@),
                            ));
                        }
                    }
                }
            },
            None => {},
        }
        proof {
            if !taken {
                assert(walked_score(*f) == 0);
                assert(walk_total(next) == walk_total(done) + walked_score(*f));
                assert forall|k: Seq<char>| folder_score(sources@, k) == walk_score(next, k) by {
                    lemma_keyed_amount_zero(folder_keys(f.relative_path@), k);
                }
            }
        }
        i += 1;
    }
    proof {
        assert(files@.take(i as int) =~= files@);
        assert(score_map(sources@) =~= walk_score_map(files@));
    }
    let r = folder_complexities(&sources);
    proof {
        if forall|j: int| 0 <= j < files@.len() ==> relative_plain(#[trigger] files@[j].relative_path@) {
            assert forall|m: int| 0 <= m < sources@.len() implies relative_plain(
                #[trigger] sources@[m].path@,
            ) by {
                let j = choose|j: int| 0 <= j < i && sources@[m].path@ == files@[j].relative_path@;
                assert(relative_plain(files@[j].relative_path@));
            }
        }
        if forall|j: int|
            0 <= j < files@.len() ==> relative_plain(#[trigger] files@[j].relative_path@)
                && !dot_start(files@[j].relative_path@) {
            assert forall|m: int| 0 <= m < sources@.len() implies relative_plain(
                #[trigger] sources@[m].path@,
            ) && !dot_start(sources@[m].path@) by {
                let j = choose|j: int| 0 <= j < i && sources@[m].path@ == files@[j].relative_path@;
                assert(relative_plain(files@[j].relative_path@));
            }
        }
        if r is None {
            let k = choose|k: Seq<char>| folder_score(sources@, k) > usize::MAX;
            assert(walk_score(files@, k) > usize::MAX);
        } else if exists|k: Seq<char>| walk_score(files@, k) > usize::MAX {
            let k = choose|k: Seq<char>| walk_score(files@, k) > usize::MAX;
            assert(folder_score(sources@, k) > usize::MAX);
        }
    }
    r
}

/// Walk scores add up over consecutive runs of files.
pub proof fn lemma_walk_score_splits(a: Seq<WalkedFile>, b: Seq<WalkedFile>, k: Seq<char>)
    ensures
        walk_score(a + b, k) == walk_score(a, k) + walk_score(b, k),
    decreases b.len(),
{
    if b.len() > 0 {
        lemma_walk_score_splits(a, b.drop_last(), k);
        assert((a + b).drop_last() =~= a + b.drop_last());
        assert((a + b).last() == b.last());
    } else {
        assert(a + b =~= a);
    }
}

/// A walked file that is skipped (its walked path holds `.git`, or its
/// extension is not one of the source extensions), that could not be read,
/// or whose text scores 0, changes no folder's score: wherever it stands in
/// the walk, the scores are those of the walk without it.
pub proof fn law_walk_ignores_unscored(a: Seq<WalkedFile>, f: WalkedFile, b: Seq<WalkedFile>)
    requires
        !wanted(f.path@) || f.content is None || heuristic_complexity(f.content->0@) == 0,
    ensures
        walk_score_map(a + seq![f] + b) == walk_score_map(a + b),
        forall|k: Seq<char>| walk_score(a + seq![f] + b, k) == walk_score(a + b, k),
{
    assert forall|k: Seq<char>| walk_score(a + seq![f] + b, k) == walk_score(a + b, k) by {
        lemma_walk_score_splits(a + seq![f], b, k);
        lemma_walk_score_splits(a, seq![f], k);
        lemma_walk_score_splits(a, b, k);
        assert(seq![f].drop_last() =~= Seq::<WalkedFile>::empty());
        assert(seq![f].last() == f);
        assert(walked_score(f) == 0);
        lemma_keyed_amount_zero(folder_keys(f.relative_path@), k);
        assert(walk_score(Seq::<WalkedFile>::empty(), k) == 0);
        assert(walk_score(seq![f], k) == 0);
    }
    assert(walk_score_map(a + seq![f] + b) =~= walk_score_map(a + b));
}

/// A run of lines that blame attributes to one commit's author.
#[derive(Debug, Clone)]
pub struct BlameHunk {
    /// The author's name, when it is valid UTF-8.
    pub author: Option<String>,
    pub lines: usize,
}

/// The blame of one file: its path in the repository and its hunks.
#[derive(Debug, Clone)]
pub struct FileBlame {
    pub path: String,
    pub hunks: Vec<BlameHunk>,
}

/// The lines under one folder, in all and per author (authors with the
/// most lines first).
#[derive(Debug, Clone)]
pub struct FolderOwnership {
    pub folder_path: String,
    pub total_lines: usize,
    pub author_lines: Vec<(String, usize)>,
}

/// The number of lines of a file's hunks.
pub open spec fn hunk_total(h: Seq<BlameHunk>) -> nat
    decreases h.len(),
{
    if h.len() == 0 {
        0
    } else {
        hunk_total(h.drop_last()) + h.last().lines as nat
    }
}

/// The number of lines of a file's hunks by `a`.
pub open spec fn hunk_lines_of(h: Seq<BlameHunk>, a: Seq<char>) -> nat
    decreases h.len(),
{
    if h.len() == 0 {
        0
    } else {
        hunk_lines_of(h.drop_last(), a) + (if author_name(h.last().author) == a {
            h.last().lines as nat
        } else {
            0nat
        })
    }
}

/// Whether some hunk is by `a`.
pub open spec fn hunk_has_author(h: Seq<BlameHunk>, a: Seq<char>) -> bool
    decreases h.len(),
{
    if h.len() == 0 {
        false
    } else {
        hunk_has_author(h.drop_last(), a) || author_name(h.last().author) == a
    }
}

/// The lines of the files under folder `k` (each file counted once per time
/// the folder is listed above it).
pub open spec fn owned_total(files: Seq<FileBlame>, k: Seq<char>) -> nat
    decreases files.len(),
{
    if files.len() == 0 {
        0
    } else {
        owned_total(files.drop_last(), k) + keyed_amount(
            folder_keys(files.last().path@),
            k,
            hunk_total(files.last().hunks@),
        )
    }
}

/// The lines by `a` of the files under folder `k` that have lines.
pub open spec fn owned_lines(files: Seq<FileBlame>, k: Seq<char>, a: Seq<char>) -> nat
    decreases files.len(),
{
    if files.len() == 0 {
        0
    } else {
        owned_lines(files.drop_last(), k, a) + (if hunk_total(files.last().hunks@) > 0 {
            keyed_amount(folder_keys(files.last().path@), k, hunk_lines_of(files.last().hunks@, a))
        } else {
            0nat
        })
    }
}

/// Whether `a` has a hunk in a file with lines under folder `k`.
pub open spec fn owner_present(files: Seq<FileBlame>, k: Seq<char>, a: Seq<char>) -> bool
    decreases files.len(),
{
    if files.len() == 0 {
        false
    } else {
        owner_present(files.drop_last(), k, a) || (hunk_total(files.last().hunks@) > 0
            && folder_keys(files.last().path@).contains(k) && hunk_has_author(
            files.last().hunks@,
            a,
        ))
    }
}

/// The authors of the files under folder `k`, with their lines.
pub open spec fn owner_map(files: Seq<FileBlame>, k: Seq<char>) -> Map<Seq<char>, nat> {
    Map::new(|a: Seq<char>| owner_present(files, k, a), |a: Seq<char>| owned_lines(files, k, a))
}

/// Some file's lines, or some folder's lines, exceed `usize::MAX`.
pub open spec fn ownership_overflows(files: Seq<FileBlame>) -> bool {
    ||| exists|i: int| 0 <= i < files.len() && hunk_total(#[trigger] files[i].hunks@) > usize::MAX
    ||| exists|k: Seq<char>| owned_total(files, k) > usize::MAX
}

pub proof fn lemma_hunk_prefix(h: Seq<BlameHunk>, j: int, a: Seq<char>)
    requires
        0 <= j <= h.len(),
    ensures
        hunk_total(h.take(j)) <= hunk_total(h),
        hunk_lines_of(h, a) <= hunk_total(h),
        hunk_has_author(h, a) <==> exists|q: int| 0 <= q < h.len() && author_name(h[q].author) == a,
    decreases h.len(),
{
    if h.len() > 0 {
        if j < h.len() {
            assert(h.drop_last().take(j) =~= h.take(j));
            lemma_hunk_prefix(h.drop_last(), j, a);
        } else {
            assert(h.take(j) =~= h);
            lemma_hunk_prefix(h.drop_last(), 0, a);
        }
        if exists|q: int| 0 <= q < h.len() && author_name(h[q].author) == a {
            let q = choose|q: int| 0 <= q < h.len() && author_name(h[q].author) == a;
            if q < h.len() - 1 {
                assert(h.drop_last()[q] == h[q]);
            }
        }
        if hunk_has_author(h.drop_last(), a) {
            let q = choose|q: int| 0 <= q < h.drop_last().len() && author_name(h.drop_last()[q].author) == a;
            assert(h[q] == h.drop_last()[q]);
        }
    } else {
        assert(h.take(j) =~= h);
    }
}

pub proof fn lemma_keyed_amount_mono(keys: Seq<Seq<char>>, k: Seq<char>, x: nat, y: nat)
    requires
        x <= y,
    ensures
        keyed_amount(keys, k, x) <= keyed_amount(keys, k, y),
        keyed_amount(keys, k, x) > 0 ==> keys.contains(k),
        keys.contains(k) && y > 0 ==> keyed_amount(keys, k, y) > 0,
    decreases keys.len(),
{
    if keys.len() > 0 {
        lemma_keyed_amount_mono(keys.drop_last(), k, x, y);
        if keys.drop_last().contains(k) {
            let q = choose|q: int| 0 <= q < keys.drop_last().len() && keys.drop_last()[q] == k;
            assert(keys[q] == k);
        }
        if keys.contains(k) && keys.last() != k {
            let q = choose|q: int| 0 <= q < keys.len() && keys[q] == k;
            assert(keys.drop_last()[q] == k);
        }
    }
}

pub proof fn lemma_owner_present_total(files: Seq<FileBlame>, k: Seq<char>, a: Seq<char>)
    ensures
        owner_present(files, k, a) ==> owned_total(files, k) > 0,
    decreases files.len(),
{
    if files.len() > 0 {
        lemma_owner_present_total(files.drop_last(), k, a);
        lemma_keyed_amount_mono(
            folder_keys(files.last().path@),
            k,
            0,
            hunk_total(files.last().hunks@),
        );
    }
}

pub proof fn lemma_owned_prefix(files: Seq<FileBlame>, k: Seq<char>, i: int)
    requires
        0 <= i <= files.len(),
    ensures
        owned_total(files.take(i), k) <= owned_total(files, k),
    decreases files.len(),
{
    if i < files.len() {
        assert(files.drop_last().take(i) =~= files.take(i));
        lemma_owned_prefix(files.drop_last(), k, i);
    } else {
        assert(files.take(i) =~= files);
    }
}

/// For every folder with lines: its lines and each author's lines under it;
/// `None` when some file's lines, or some folder's lines, exceed `usize::MAX`.
pub fn folder_ownership(files: &Vec<FileBlame>) -> (r: Option<Vec<FolderOwnership>>)
    ensures
        r is None <==> ownership_overflows(files@),
        r matches Some(v) ==> {
            &&& forall|i: int|
                0 <= i < v@.len() ==> owned_total(files@, #[trigger] v@[i].folder_path@) > 0
                    && v@[i].total_lines == owned_total(files@, v@[i].folder_path@)
                    && is_ranking(
                    entry_views(v@[i].author_lines@),
                    owner_map(files@, v@[i].folder_path@),
                ) && pair_sum(entry_views(v@[i].author_lines@)) == v@[i].total_lines
            &&& forall|k: Seq<char>|
                owned_total(files@, k) > 0 ==> exists|i: int|
                    0 <= i < v@.len() && #[trigger] v@[i].folder_path@ == k
            &&& forall|i: int, j: int|
                0 <= i < j < v@.len() ==> v@[i].folder_path@ != v@[j].folder_path@
        },
{
    let mut totals = CountTable::new();
    let mut owners = NestedTable::new();
    let mut i: usize = 0;
    proof {
        assert(files@.take(0) =~= Seq::<FileBlame>::empty());
    }
    while i < files.len()
        invariant
            i <= files@.len(),
            forall|q: int| 0 <= q < i ==> hunk_total(#[trigger] files@[q].hunks@) <= usize::MAX,
            totals.wf(),
            positive(totals.map()),
            forall|k: Seq<char>| totals.count(k) == owned_total(files@.take(i as int), k),
            owners.wf(),
            forall|k: Seq<char>, a: Seq<char>|
                owners.count(k, a) == owned_lines(files@.take(i as int), k, a),
            forall|k: Seq<char>, a: Seq<char>| owners.count(k, a) <= totals.count(k),
            forall|k: Seq<char>| owners.map().contains_key(k) <==> totals.map().contains_key(k),
            forall|k: Seq<char>, a: Seq<char>|
                owners.map().contains_key(k) ==> (owners.map()[k].contains_key(a)
                    <==> owner_present(files@.take(i as int), k, a)),
        decreases files@.len() - i,
    {
        let f = &files[i];
        let ghost done = files@.take(i as int);
        let ghost hs = f.hunks@;
        proof {
            assert(files@.take(i + 1).drop_last() =~= done);
            assert(files@.take(i + 1).last() == files@[i as int]);
        }
        // The file's lines, in all and per author.
        let mut total: usize = 0;
        let mut per_author = CountTable::new();
        let mut j: usize = 0;
        proof {
            assert(hs.take(0) =~= Seq::<BlameHunk>::empty());
        }
        while j < f.hunks.len()
            invariant
                i < files@.len(),
                f == &files@[i as int],
                hs == f.hunks@,
                j <= hs.len(),
                total == hunk_total(hs.take(j as int)),
                per_author.wf(),
                forall|a: Seq<char>| per_author.count(a) == hunk_lines_of(hs.take(j as int), a),
                forall|a: Seq<char>|
                    per_author.map().contains_key(a) <==> hunk_has_author(hs.take(j as int), a),
            decreases hs.len() - j,
        {
            let h = &f.hunks[j];
            proof {
                assert(hs.take(j + 1).drop_last() =~= hs.take(j as int));
                assert(hs.take(j + 1).last() == hs[j as int]);
            }
            if total > usize::MAX - h.lines {
                proof {
                    lemma_hunk_prefix(hs, j + 1, Seq::empty());
                    assert(hunk_total(files@[i as int].hunks@) > usize::MAX);
                }
                return None;
            }
            let name = listed_author(&h.author);
            proof {
                lemma_hunk_prefix(hs.take(j as int), 0, name@);
            }
            let ghost pm = per_author.map();
            proof {
                assert forall|a: Seq<char>| count_in(pm, a) == hunk_lines_of(hs.take(j as int), a) by {
                    assert(per_author.count(a) == count_in(pm, a));
                }
                assert forall|a: Seq<char>| pm.contains_key(a) <==> hunk_has_author(hs.take(j as int), a) by {
                    assert(per_author.map().contains_key(a) <==> hunk_has_author(hs.take(j as int), a));
                }
                assert(per_author.count(name@) <= total);
            }
            per_author.add(&name, h.lines);
            total = total + h.lines;
            proof {
                assert(hs[j as int] == *h);
                assert(author_name(hs[j as int].author) == name@);
                assert forall|a: Seq<char>| per_author.count(a) == hunk_lines_of(hs.take(j + 1), a) by {
                    assert(count_in(pm, a) == hunk_lines_of(hs.take(j as int), a));
                }
                assert forall|a: Seq<char>|
                    per_author.map().contains_key(a) <==> hunk_has_author(hs.take(j + 1), a) by {
                    assert(pm.contains_key(a) <==> hunk_has_author(hs.take(j as int), a));
                }
            }
            j += 1;
        }
        proof {
            assert(hs.take(j as int) =~= hs);
        }
        if total > 0 {
            let keys = folder_keys_of(f.path.as_str());
            let ghost ks = string_views(keys@);
            let mut q: usize = 0;
            proof {
                assert(ks.take(0) =~= Seq::<Seq<char>>::empty());
                assert forall|a: Seq<char>| per_author.count(a) <= total by {
                    lemma_hunk_prefix(hs, 0, a);
                }
            }
            while q < keys.len()
                invariant
                    i < files@.len(),
                    hs == files@[i as int].hunks@,
                    total == hunk_total(hs),
                    total > 0,
                    per_author.wf(),
                    forall|a: Seq<char>| per_author.count(a) == hunk_lines_of(hs, a),
                    forall|a: Seq<char>| per_author.count(a) <= total,
                    forall|a: Seq<char>| per_author.map().contains_key(a) <==> hunk_has_author(hs, a),
                    ks == string_views(keys@),
                    ks == folder_keys(files@[i as int].path@),
                    q <= keys@.len(),
                    done == files@.take(i as int),
                    totals.wf(),
                    positive(totals.map()),
                    forall|k: Seq<char>|
                        totals.count(k) == owned_total(done, k) + keyed_amount(
                            ks.take(q as int),
                            k,
                            total as nat,
                        ),
                    owners.wf(),
                    forall|k: Seq<char>, a: Seq<char>|
                        owners.count(k, a) == owned_lines(done, k, a) + keyed_amount(
                            ks.take(q as int),
                            k,
                            hunk_lines_of(hs, a),
                        ),
                    forall|k: Seq<char>, a: Seq<char>| owners.count(k, a) <= totals.count(k),
                    forall|k: Seq<char>|
                        owners.map().contains_key(k) <==> totals.map().contains_key(k),
                    forall|k: Seq<char>, a: Seq<char>|
                        owners.map().contains_key(k) ==> (owners.map()[k].contains_key(a) <==> (
                        owner_present(done, k, a) || (ks.take(q as int).contains(k)
                            && hunk_has_author(hs, a)))),
                decreases keys@.len() - q,
            {
                let key = &keys[q];
                let ghost k0 = key@;
                let ghost t0 = ks.take(q as int);
                let ghost t1 = ks.take(q + 1);
                proof {
                    assert(ks[q as int] == k0);
                    assert(t1.drop_last() =~= t0);
                    assert(t1.last() == k0);
                }
                let c = totals.get(key);
                if c > usize::MAX - total {
                    proof {
                        lemma_keyed_amount_prefix(ks, k0, total as nat, q + 1);
                        lemma_owned_prefix(files@, k0, i + 1);
                        assert(files@.take(i + 1).drop_last() =~= done);
                        assert(files@.take(i + 1).last() == files@[i as int]);
                        assert(owned_total(files@.take(i + 1), k0) == owned_total(done, k0)
                            + keyed_amount(ks, k0, total as nat));
                        assert(owned_total(files@, k0) > usize::MAX);
                    }
                    return None;
                }
                let ghost tm = totals.map();
                let ghost om = owners.map();
                proof {
                    assert forall|k: Seq<char>|
                        count_in(tm, k) == owned_total(done, k) + keyed_amount(t0, k, total as nat) by {
                        assert(totals.count(k) == count_in(tm, k));
                    }
                    assert forall|k: Seq<char>, a: Seq<char>|
                        #[trigger] count_in(inner_of(om, k), a) == owned_lines(done, k, a) + keyed_amount(
                            t0,
                            k,
                            hunk_lines_of(hs, a),
                        ) by {
                        assert(owners.count(k, a) == count_in(inner_of(om, k), a));
                    }
                    assert forall|k: Seq<char>, a: Seq<char>|
                        #[trigger] count_in(inner_of(om, k), a) <= count_in(tm, k) by {
                        assert(owners.count(k, a) == count_in(inner_of(om, k), a));
                        assert(totals.count(k) == count_in(tm, k));
                        assert(owners.count(k, a) <= totals.count(k));
                    }
                    assert forall|k: Seq<char>| om.contains_key(k) <==> tm.contains_key(k) by {
                        assert(owners.map().contains_key(k) <==> totals.map().contains_key(k));
                    }
                    assert forall|k: Seq<char>, a: Seq<char>|
                        om.contains_key(k) implies (#[trigger] om[k].contains_key(a) <==> (
                        owner_present(done, k, a) || (t0.contains(k) && hunk_has_author(hs, a)))) by {
                        assert(owners.map().contains_key(k));
                    }
                    assert forall|a: Seq<char>| owners.count(k0, a) + per_author.count(a) <= usize::MAX by {
                        assert(owners.count(k0, a) <= totals.count(k0));
                    }
                }
                totals.add(key, total);
                owners.merge_into(key, &per_author);
                proof {
                    assert forall|k: Seq<char>| #[trigger] totals.map().contains_key(k) implies totals.map()[k]
                        > 0 by {
                        if k != k0 {
                            assert(tm.contains_key(k));
                        }
                    }
                    assert forall|k: Seq<char>|
                        totals.count(k) == owned_total(done, k) + keyed_amount(t1, k, total as nat) by {
                        assert(count_in(tm, k) == owned_total(done, k) + keyed_amount(t0, k, total as nat));
                    }
                    assert forall|k: Seq<char>, a: Seq<char>|
                        owners.count(k, a) == owned_lines(done, k, a) + keyed_amount(
                            t1,
                            k,
                            hunk_lines_of(hs, a),
                        ) by {
                        assert(count_in(inner_of(om, k), a) == owned_lines(done, k, a) + keyed_amount(
                            t0,
                            k,
                            hunk_lines_of(hs, a),
                        ));
                    }
                    assert forall|k: Seq<char>, a: Seq<char>| owners.count(k, a) <= totals.count(k) by {
                        assert(count_in(inner_of(om, k), a) <= count_in(tm, k));
                        assert(per_author.count(a) <= total);
                    }
                    assert forall|k: Seq<char>|
                        owners.map().contains_key(k) <==> totals.map().contains_key(k) by {
                        assert(om.contains_key(k) <==> tm.contains_key(k)) by {
                            assert(owners.map() == om.insert(k0, sum_maps(inner_of(om, k0), per_author.map())));
                            assert(totals.map() == tm.insert(k0, (count_in(tm, k0) + total) as nat));
                        }
                    }
                    assert forall|k: Seq<char>, a: Seq<char>|
                        owners.map().contains_key(k) implies (owners.map()[k].contains_key(a) <==> (
                        owner_present(done, k, a) || (t1.contains(k) && hunk_has_author(hs, a)))) by {
                        assert(t1.contains(k) <==> (t0.contains(k) || k == k0)) by {
                            if t1.contains(k) {
                                let x = choose|x: int| 0 <= x < t1.len() && t1[x] == k;
                                if x < t0.len() {
                                    assert(t0[x] == k);
                                }
                            }
                            if t0.contains(k) {
                                let x = choose|x: int| 0 <= x < t0.len() && t0[x] == k;
                                assert(t1[x] == k);
                            }
                            if k == k0 {
                                assert(t1[q as int] == k);
                            }
                        }
                        if k != k0 {
                            assert(om.contains_key(k));
                        } else if om.contains_key(k) {
                            assert(om[k].contains_key(a) <==> (owner_present(done, k, a) || (
                            t0.contains(k) && hunk_has_author(hs, a))));
                        } else {
                            assert(!tm.contains_key(k));
                            assert(count_in(tm, k) == 0);
                            lemma_owner_present_total(done, k, a);
                            lemma_keyed_amount_mono(t0, k, 0, total as nat);
                            assert(!owner_present(done, k, a));
                            assert(!t0.contains(k));
                        }
                    }
                }
                q += 1;
            }
            proof {
                assert(ks.take(q as int) =~= ks);
                assert forall|k: Seq<char>| totals.count(k) == owned_total(files@.take(i + 1), k) by {
                    assert(files@.take(i + 1).drop_last() =~= done);
                    assert(files@.take(i + 1).last() == files@[i as int]);
                }
                assert forall|k: Seq<char>, a: Seq<char>|
                    owners.count(k, a) == owned_lines(files@.take(i + 1), k, a) by {
                    assert(files@.take(i + 1).drop_last() =~= done);
                    assert(files@.take(i + 1).last() == files@[i as int]);
                }
                assert forall|k: Seq<char>, a: Seq<char>|
                    owners.map().contains_key(k) implies (owners.map()[k].contains_key(a)
                    <==> owner_present(files@.take(i + 1), k, a)) by {
                    assert(files@.take(i + 1).drop_last() =~= done);
                    assert(files@.take(i + 1).last() == files@[i as int]);
                    assert(owners.map()[k].contains_key(a) <==> (owner_present(done, k, a) || (
                    ks.take(q as int).contains(k) && hunk_has_author(hs, a))));
                }
            }
        } else {
            proof {
                assert(files@.take(i + 1).drop_last() =~= done);
                assert(files@.take(i + 1).last() == files@[i as int]);
                assert(hunk_total(files@[i as int].hunks@) == 0);
                assert forall|k: Seq<char>| totals.count(k) == owned_total(files@.take(i + 1), k) by {
                    lemma_keyed_amount_zero(folder_keys(files@[i as int].path@), k);
                }
                assert forall|k: Seq<char>, a: Seq<char>|
                    owners.count(k, a) == owned_lines(files@.take(i + 1), k, a) by {}
                assert forall|k: Seq<char>, a: Seq<char>|
                    owners.map().contains_key(k) implies (owners.map()[k].contains_key(a)
                    <==> owner_present(files@.take(i + 1), k, a)) by {
                    assert(owners.map()[k].contains_key(a) <==> owner_present(done, k, a));
                }
            }
        }
        i += 1;
    }
    proof {
        assert(files@.take(files@.len() as int) =~= files@);
        assert forall|k: Seq<char>| totals.count(k) == owned_total(files@, k) by {
            assert(totals.count(k) == owned_total(files@.take(i as int), k));
        }
        assert forall|k: Seq<char>| owners.map().contains_key(k) implies #[trigger] owners.map()[k]
            == owner_map(files@, k) by {
            assert forall|a: Seq<char>| owners.map()[k].contains_key(a) implies owners.map()[k][a]
                == owned_lines(files@, k, a) by {
                assert(owners.count(k, a) == owned_lines(files@.take(i as int), k, a));
            }
            assert forall|a: Seq<char>| owners.map()[k].contains_key(a) <==> owner_present(
                files@,
                k,
                a,
            ) by {
                assert(owners.map()[k].contains_key(a) <==> owner_present(
                    files@.take(i as int),
                    k,
                    a,
                ));
            }
            assert(owners.map()[k] =~= owner_map(files@, k));
        }
        assert forall|k: Seq<char>| owners.map().contains_key(k) <==> owned_total(files@, k) > 0 by {
            assert(owners.map().contains_key(k) <==> totals.map().contains_key(k));
            assert(totals.count(k) == owned_total(files@, k));
        }
    }
    let mut v: Vec<FolderOwnership> = Vec::new();
    let mut x: usize = 0;
    while x < owners.len()
        invariant
            x <= owners.size(),
            v@.len() == x,
            owners.wf(),
            totals.wf(),
            forall|k: Seq<char>| owners.map().contains_key(k) <==> totals.map().contains_key(k),
            forall|k: Seq<char>| totals.count(k) == owned_total(files@, k),
            forall|k: Seq<char>| owners.map().contains_key(k) ==> #[trigger] owners.map()[k] == owner_map(files@, k),
            forall|k: Seq<char>| owners.map().contains_key(k) <==> owned_total(files@, k) > 0,
            forall|q: int| 0 <= q < files@.len() ==> hunk_total(#[trigger] files@[q].hunks@) <= usize::MAX,
            forall|j: int|
                0 <= j < x ==> #[trigger] v@[j].folder_path@ == owners.key_at(j)
                    && v@[j].total_lines == owned_total(files@, owners.key_at(j))
                    && is_ranking(entry_views(v@[j].author_lines@), owners.table_at(j).map()),
        decreases owners.size() - x,
    {
        proof {
            owners.lemma_entry(x as int);
        }
        let folder = owners.key(x);
        let authors = owners.table(x).ranked();
        let total = totals.get(folder);
        v.push(FolderOwnership { folder_path: folder.clone(), total_lines: total, author_lines: authors });
        x += 1;
    }
    proof {
        owners.lemma_keys();
        assert forall|k: Seq<char>| owned_total(files@, k) <= usize::MAX by {
            totals.lemma_count_bounded(k);
        }
        assert forall|q: int|
            0 <= q < files@.len() implies hunk_total(#[trigger] files@[q].hunks@) <= usize::MAX by {}
        assert forall|j: int|
            0 <= j < v@.len() implies owned_total(files@, #[trigger] v@[j].folder_path@) > 0
            && v@[j].total_lines == owned_total(files@, v@[j].folder_path@) && is_ranking(
            entry_views(v@[j].author_lines@),
            owner_map(files@, v@[j].folder_path@),
        ) && pair_sum(entry_views(v@[j].author_lines@)) == v@[j].total_lines by {
            owners.lemma_entry(j);
            let k = owners.key_at(j);
            assert(owners.map()[k] == owner_map(files@, k));
            assert(v@[j].folder_path@ == k);
            assert(is_ranking(entry_views(v@[j].author_lines@), owners.table_at(j).map()));
            assert(is_ranking(entry_views(v@[j].author_lines@), owner_map(files@, k)));
            law_ownership_adds_up(files@, k, entry_views(v@[j].author_lines@));
        }
        assert forall|k: Seq<char>| owned_total(files@, k) > 0 implies exists|j: int|
            0 <= j < v@.len() && #[trigger] v@[j].folder_path@ == k by {
            assert(totals.count(k) > 0);
            assert(owners.map().contains_key(k));
            let j = choose|j: int| 0 <= j < owners.size() && owners.key_at(j) == k;
            assert(v@[j].folder_path@ == k);
        }
        assert forall|a: int, b: int| 0 <= a < b < v@.len() implies v@[a].folder_path@ != v@[b].folder_path@ by {
            assert(v@[a].folder_path@ == owners.key_at(a));
            assert(v@[b].folder_path@ == owners.key_at(b));
        }
    }
    Some(v)
}


// ---------------------------------------------------------------------------
// Laws
// ---------------------------------------------------------------------------

proof fn lemma_hunk_shares(h: Seq<BlameHunk>, a: Seq<char>, b: Seq<char>)
    requires
        a != b,
    ensures
        hunk_lines_of(h, a) + hunk_lines_of(h, b) <= hunk_total(h),
    decreases h.len(),
{
    if h.len() > 0 {
        lemma_hunk_shares(h.drop_last(), a, b);
    }
}

proof fn lemma_keyed_amount_add(keys: Seq<Seq<char>>, k: Seq<char>, x: nat, y: nat)
    ensures
        keyed_amount(keys, k, x) + keyed_amount(keys, k, y) == keyed_amount(keys, k, x + y),
    decreases keys.len(),
{
    if keys.len() > 0 {
        lemma_keyed_amount_add(keys.drop_last(), k, x, y);
    }
}

/// Within a folder, the lines of two different authors together never
/// exceed the folder's lines; so each author owns at most all of them, and
/// at most one author can own more than half of them.
pub proof fn law_ownership_shares(files: Seq<FileBlame>, k: Seq<char>, a: Seq<char>, b: Seq<char>)
    requires
        a != b,
    ensures
        owned_lines(files, k, a) + owned_lines(files, k, b) <= owned_total(files, k),
        owned_lines(files, k, a) <= owned_total(files, k),
    decreases files.len(),
{
    if files.len() > 0 {
        law_ownership_shares(files.drop_last(), k, a, b);
        let f = files.last();
        let keys = folder_keys(f.path@);
        if hunk_total(f.hunks@) > 0 {
            lemma_hunk_shares(f.hunks@, a, b);
            lemma_keyed_amount_add(keys, k, hunk_lines_of(f.hunks@, a), hunk_lines_of(f.hunks@, b));
            lemma_keyed_amount_mono(
                keys,
                k,
                hunk_lines_of(f.hunks@, a) + hunk_lines_of(f.hunks@, b),
                hunk_total(f.hunks@),
            );
        }
    }
}


/// The sum of the counts of a list of key/count pairs.
pub open spec fn pair_sum(r: Seq<(Seq<char>, nat)>) -> nat
    decreases r.len(),
{
    if r.len() == 0 {
        0
    } else {
        pair_sum(r.drop_last()) + r.last().1
    }
}

/// `keyed_amount` distributes over sums.
proof fn lemma_sum_keyed(
    l: Seq<Seq<char>>,
    keys: Seq<Seq<char>>,
    k: Seq<char>,
    f: spec_fn(Seq<char>) -> nat,
    g: spec_fn(Seq<char>) -> nat,
)
    requires
        forall|a: Seq<char>| #[trigger] g(a) == keyed_amount(keys, k, f(a)),
    ensures
        sum_over(l, g) == keyed_amount(keys, k, sum_over(l, f)),
    decreases l.len(),
{
    if l.len() == 0 {
        lemma_keyed_amount_zero(keys, k);
    } else {
        lemma_sum_keyed(l.drop_last(), keys, k, f, g);
        lemma_keyed_amount_add(keys, k, sum_over(l.drop_last(), f), f(l.last()));
    }
}

/// The authors' lines of a file add up to its lines.
proof fn lemma_hunk_sum(h: Seq<BlameHunk>, l: Seq<Seq<char>>)
    requires
        l.no_duplicates(),
        forall|a: Seq<char>| hunk_has_author(h, a) ==> l.contains(a),
    ensures
        sum_over(l, |a: Seq<char>| hunk_lines_of(h, a)) == hunk_total(h),
    decreases h.len(),
{
    let f = |a: Seq<char>| hunk_lines_of(h, a);
    if h.len() == 0 {
        lemma_sum_zero(l, f);
    } else {
        let hp = h.drop_last();
        let n = author_name(h.last().author);
        let fp = |a: Seq<char>| hunk_lines_of(hp, a);
        let g = |a: Seq<char>| if a == n {
            h.last().lines as nat
        } else {
            0nat
        };
        assert forall|a: Seq<char>| hunk_has_author(hp, a) implies l.contains(a) by {
            assert(hunk_has_author(h, a));
        }
        lemma_hunk_sum(hp, l);
        assert(hunk_has_author(h, n));
        lemma_sum_single(l, g, n);
        lemma_sum_add(l, fp, g, f);
    }
}

/// The authors' lines under folder `k` add up to the folder's lines, for any
/// list of authors without repeats that holds every author present there.
proof fn lemma_owned_sum(files: Seq<FileBlame>, k: Seq<char>, l: Seq<Seq<char>>)
    requires
        l.no_duplicates(),
        forall|a: Seq<char>| owner_present(files, k, a) ==> l.contains(a),
    ensures
        sum_over(l, |a: Seq<char>| owned_lines(files, k, a)) == owned_total(files, k),
    decreases files.len(),
{
    let f = |a: Seq<char>| owned_lines(files, k, a);
    if files.len() == 0 {
        lemma_sum_zero(l, f);
    } else {
        let fs = files.drop_last();
        let last = files.last();
        let keys = folder_keys(last.path@);
        let t = hunk_total(last.hunks@);
        assert forall|a: Seq<char>| owner_present(fs, k, a) implies l.contains(a) by {
            assert(owner_present(files, k, a));
        }
        lemma_owned_sum(fs, k, l);
        let fp = |a: Seq<char>| owned_lines(fs, k, a);
        let lines = |a: Seq<char>| hunk_lines_of(last.hunks@, a);
        let g = |a: Seq<char>| if t > 0 {
            keyed_amount(keys, k, hunk_lines_of(last.hunks@, a))
        } else {
            0nat
        };
        lemma_sum_add(l, fp, g, f);
        if t > 0 {
            lemma_sum_keyed(l, keys, k, lines, g);
            if keys.contains(k) {
                assert forall|a: Seq<char>| hunk_has_author(last.hunks@, a) implies l.contains(a) by {
                    assert(owner_present(files, k, a));
                }
                lemma_hunk_sum(last.hunks@, l);
                assert(sum_over(l, lines) == t);
            } else {
                lemma_keyed_amount_mono(keys, k, sum_over(l, lines), sum_over(l, lines));
                lemma_keyed_amount_mono(keys, k, t, t);
            }
        } else {
            lemma_sum_zero(l, g);
            lemma_keyed_amount_zero(keys, k);
        }
    }
}

/// A ranking's counts add up along the names it lists.
proof fn lemma_pair_sum(r: Seq<(Seq<char>, nat)>, f: spec_fn(Seq<char>) -> nat)
    requires
        forall|i: int| 0 <= i < r.len() ==> r[i].1 == f(#[trigger] r[i].0),
    ensures
        pair_sum(r) == sum_over(r.map_values(|e: (Seq<char>, nat)| e.0), f),
    decreases r.len(),
{
    let names = r.map_values(|e: (Seq<char>, nat)| e.0);
    if r.len() > 0 {
        assert forall|i: int| 0 <= i < r.drop_last().len() implies r.drop_last()[i].1 == f(
            #[trigger] r.drop_last()[i].0,
        ) by {
            assert(r.drop_last()[i] == r[i]);
        }
        lemma_pair_sum(r.drop_last(), f);
        assert(names.drop_last() =~= r.drop_last().map_values(|e: (Seq<char>, nat)| e.0));
        assert(r[r.len() - 1].1 == f(r[r.len() - 1].0));
    }
}

/// Within a folder, the lines listed for its authors add up to the folder's
/// lines: the authors' shares sum to the whole.
pub proof fn law_ownership_adds_up(files: Seq<FileBlame>, k: Seq<char>, r: Seq<(Seq<char>, nat)>)
    requires
        is_ranking(r, owner_map(files, k)),
    ensures
        pair_sum(r) == owned_total(files, k),
{
    let m = owner_map(files, k);
    let f = |a: Seq<char>| owned_lines(files, k, a);
    let names = r.map_values(|e: (Seq<char>, nat)| e.0);
    assert forall|i: int| 0 <= i < r.len() implies r[i].1 == f(#[trigger] r[i].0) by {
        assert(m.contains_key(r[i].0));
    }
    lemma_pair_sum(r, f);
    assert forall|i: int, j: int| 0 <= i < names.len() && 0 <= j < names.len() && i != j implies names[i]
        != names[j] by {
        if i < j {
            assert(r[i].0 != r[j].0);
        } else {
            assert(r[j].0 != r[i].0);
        }
    }
    assert forall|a: Seq<char>| owner_present(files, k, a) implies names.contains(a) by {
        assert(m.contains_key(a));
        let i = choose|i: int| 0 <= i < r.len() && r[i].0 == a;
        assert(names[i] == a);
    }
    lemma_owned_sum(files, k, names);
}


/// Folder scores add up over consecutive runs of files: the scores of
/// `a + b` are those of `a` plus those of `b`.
pub proof fn law_folder_score_splits(a: Seq<SourceFile>, b: Seq<SourceFile>, k: Seq<char>)
    ensures
        folder_score(a + b, k) == folder_score(a, k) + folder_score(b, k),
    decreases b.len(),
{
    if b.len() > 0 {
        law_folder_score_splits(a, b.drop_last(), k);
        assert((a + b).drop_last() =~= a + b.drop_last());
        assert((a + b).last() == b.last());
    } else {
        assert(a + b =~= a);
    }
}

/// Folder lines add up over consecutive runs of files: the lines (in all and
/// per author) of `a + b` are those of `a` plus those of `b`, and an author
/// is present in `a + b` when present in either.
pub proof fn law_folder_lines_split(
    a: Seq<FileBlame>,
    b: Seq<FileBlame>,
    k: Seq<char>,
    author: Seq<char>,
)
    ensures
        owned_total(a + b, k) == owned_total(a, k) + owned_total(b, k),
        owned_lines(a + b, k, author) == owned_lines(a, k, author) + owned_lines(b, k, author),
        owner_present(a + b, k, author) == (owner_present(a, k, author) || owner_present(
            b,
            k,
            author,
        )),
    decreases b.len(),
{
    if b.len() > 0 {
        law_folder_lines_split(a, b.drop_last(), k, author);
        assert((a + b).drop_last() =~= a + b.drop_last());
        assert((a + b).last() == b.last());
    } else {
        assert(a + b =~= a);
    }
}

} // verus!
