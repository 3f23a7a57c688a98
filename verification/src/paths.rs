//! Paths: the folders above a file, which files are skipped, and which
//! count as source code.

use vstd::prelude::*;
use crate::complexity::{
    chars_of, find_pat, find_pat_in, occurs_at, lemma_find_pat_bounds, lemma_find_pat_none, matches_at,
};

verus! {

/// What `std::path::Path::parent` returns for `path`.
pub uninterp spec fn parent_of(path: Seq<char>) -> Option<Seq<char>>;

/// What `std::path::Path::extension` returns for `path`.
pub uninterp spec fn extension_of(path: Seq<char>) -> Option<Seq<char>>;

/// A path separator: `/`, or `\\` where the platform takes it as one.
pub open spec fn is_path_separator(c: char) -> bool {
    c == '/' || c == '\\'
}

/// A relative path with no root and no drive or other prefix: it does not
/// start with a separator and holds no `:`.
pub open spec fn relative_plain(p: Seq<char>) -> bool {
    &&& (p.len() == 0 || !is_path_separator(p[0]))
    &&& forall|i: int| 0 <= i < p.len() ==> #[trigger] p[i] != ':'
}

/// A path that starts with the current folder written out, as in `./a`.
pub open spec fn dot_start(p: Seq<char>) -> bool {
    p.len() >= 2 && p[0] == '.' && is_path_separator(p[1])
}

/// Calls `std::path::Path::parent`. Believed: the result is `parent_of(path)`;
/// the empty path has no parent, and a non-empty path that is not a root or a
/// prefix has one (as the documentation says); a parent is the path without
/// its final component, hence a strictly shorter prefix, and when that prefix
/// is not empty (and the path is relative) a separator follows it.
#[verifier::external_body]
fn path_parent(path: &str) -> (r: Option<String>)
    ensures
        r matches Some(p) ==> parent_of(path@) == Some(p@),
        r is None ==> parent_of(path@) is None,
        path@.len() == 0 ==> r is None,
        path@.len() > 0 && relative_plain(path@) ==> r is Some,
        r matches Some(p) ==> p@.len() < path@.len() && p@ == path@.take(p@.len() as int),
        r matches Some(p) ==> (p@.len() > 0 && relative_plain(path@) ==> is_path_separator(
            path@[p@.len() as int],
        )),
{
    match std::path::Path::new(path).parent() {
        Some(p) => Some(p.to_str().unwrap_or("").to_string()),
        None => None,
    }
}

/// Calls `std::path::Path::extension`; the result is believed to be `extension_of(path)`.
#[verifier::external_body]
fn path_extension(path: &str) -> (r: Option<String>)
    ensures
        r matches Some(e) ==> extension_of(path@) == Some(e@),
        r is None ==> extension_of(path@) is None,
{
    match std::path::Path::new(path).extension() {
        Some(e) => Some(e.to_string_lossy().to_string()),
        None => None,
    }
}

/// What `std::path::Path::strip_prefix` gives for `path` and `root`: the path
/// below `root`, or nothing when `root` is not a prefix of its components.
pub uninterp spec fn stripped_of(path: Seq<char>, root: Seq<char>) -> Option<Seq<char>>;

/// Calls `std::path::Path::strip_prefix`; its result is believed to be
/// `stripped_of(path, root)` (`None` for its error).
#[verifier::external_body]
fn strip_root(path: &str, root: &str) -> (r: Option<String>)
    ensures
        r matches Some(s) ==> stripped_of(path@, root@) == Some(s@),
        r is None ==> stripped_of(path@, root@) is None,
{
    match std::path::Path::new(path).strip_prefix(root) {
        Ok(p) => Some(p.to_string_lossy().to_string()),
        Err(_) => None,
    }
}

/// The path of a walked file relative to the folder walked from: the part
/// below `root`, or the whole path when it does not lie below `root`.
pub fn relative_path(path: &str, root: &str) -> (r: String)
    ensures
        r@ == match stripped_of(path@, root@) {
            Some(s) => s,
            None => path@,
        },
{
    match strip_root(path, root) {
        Some(s) => s,
        None => path.to_owned(),
    }
}

/// The key under which a folder is tallied: the folder itself, or `.` for
/// the top folder (the empty path).
pub open spec fn folder_key(dir: Seq<char>) -> Seq<char> {
    if dir.len() == 0 {
        seq!['.']
    } else {
        dir
    }
}

/// The keys of `dir` and of each of its parents in turn, up to the top.
pub open spec fn ancestor_keys(dir: Seq<char>) -> Seq<Seq<char>>
    decreases dir.len(),
{
    seq![folder_key(dir)] + match parent_of(dir) {
        Some(p) => if dir.len() > 0 && p.len() < dir.len() {
            ancestor_keys(p)
        } else {
            Seq::empty()
        },
        None => Seq::empty(),
    }
}

/// The folder that holds the file at `path` (the empty path when it has none).
pub open spec fn containing_dir(path: Seq<char>) -> Seq<char> {
    match parent_of(path) {
        Some(p) => p,
        None => Seq::empty(),
    }
}

/// The keys of every folder that holds the file at `path`, innermost first.
pub open spec fn folder_keys(path: Seq<char>) -> Seq<Seq<char>> {
    ancestor_keys(containing_dir(path))
}

/// The views of a vector of strings.
pub open spec fn string_views(v: Seq<String>) -> Seq<Seq<char>> {
    v.map_values(|s: String| s@)
}

/// Every key but `.` is followed by the key of its parent folder.
pub open spec fn follows_parent(ks: Seq<Seq<char>>) -> bool {
    forall|i: int|
        0 <= i < ks.len() && #[trigger] ks[i] != seq!['.'] ==> i + 1 < ks.len() && ks[i + 1]
            == folder_key(containing_dir(ks[i]))
}

/// The keys end with the top folder, `.`.
pub open spec fn ends_at_root(ks: Seq<Seq<char>>) -> bool {
    ks.len() > 0 && ks.last() == seq!['.']
}

/// The keys end with `.`, and hold it only there.
pub open spec fn root_once(ks: Seq<Seq<char>>) -> bool {
    &&& ends_at_root(ks)
    &&& forall|i: int| 0 <= i < ks.len() - 1 ==> #[trigger] ks[i] != seq!['.']
}

/// The keys of every folder that holds the file at `path`, innermost first:
/// the file's parent folder, then its parent, and so on; a folder with an
/// empty path is tallied as `.`. For a relative path the keys run up to `.`,
/// each key followed by that of its parent folder, and `.` comes once unless
/// the path starts with `./`.
pub fn folder_keys_of(path: &str) -> (keys: Vec<String>)
    ensures
        string_views(keys@) == folder_keys(path@),
        keys@.len() > 0,
        keys@[0]@ == match parent_of(path@) {
            Some(d) => if d.len() > 0 {
                d
            } else {
                seq!['.']
            },
            None => seq!['.'],
        },
        relative_plain(path@) ==> follows_parent(folder_keys(path@)) && ends_at_root(
            folder_keys(path@),
        ),
        relative_plain(path@) && !dot_start(path@) ==> root_once(folder_keys(path@)),
{
    let ghost rp = relative_plain(path@);
    let ghost nd = !dot_start(path@);
    let mut cur: String = match path_parent(path) {
        Some(p) => p,
        None => String::new(),
    };
    let mut keys: Vec<String> = Vec::new();
    let dot = ".".to_owned();
    proof {
        reveal_strlit(".");
        assert(dot@ == seq!['.']);
        assert(string_views(keys@) =~= Seq::<Seq<char>>::empty());
        if cur@.len() > 0 {
            assert(cur@ == path@.take(cur@.len() as int));
        }
    }
    loop
        invariant_except_break
            folder_keys(path@) == string_views(keys@) + ancestor_keys(cur@),
            rp == relative_plain(path@),
            nd == !dot_start(path@),
            cur@.len() > 0 ==> cur@.len() < path@.len() && cur@ == path@.take(cur@.len() as int),
            rp && cur@.len() > 0 ==> is_path_separator(path@[cur@.len() as int]),
            rp ==> forall|i: int|
                0 <= i < string_views(keys@).len() - 1 && #[trigger] string_views(keys@)[i]
                    != seq!['.'] ==> string_views(keys@)[i + 1] == folder_key(
                    containing_dir(string_views(keys@)[i]),
                ),
            rp && keys@.len() > 0 && string_views(keys@).last() != seq!['.'] ==> containing_dir(
                string_views(keys@).last(),
            ) == cur@,
            rp && nd ==> forall|i: int|
                0 <= i < string_views(keys@).len() ==> #[trigger] string_views(keys@)[i]
                    != seq!['.'],
        invariant
            dot@ == seq!['.'],
        ensures
            folder_keys(path@) == string_views(keys@),
            rp ==> follows_parent(string_views(keys@)) && ends_at_root(string_views(keys@)),
            rp && nd ==> root_once(string_views(keys@)),
        decreases cur@.len(),
    {
        let ghost before = keys@;
        let ghost bv = string_views(before);
        let ghost dir = cur@;
        let is_top = cur.as_str().is_empty();
        if is_top {
            keys.push(dot.clone());
        } else {
            keys.push(cur.clone());
        }
        let ghost sv = string_views(keys@);
        proof {
            assert(sv =~= bv.push(folder_key(dir)));
            if rp && dir.len() > 0 {
                assert(relative_plain(dir)) by {
                    assert forall|i: int| 0 <= i < dir.len() implies #[trigger] dir[i] != ':' by {
                        assert(dir[i] == path@[i]);
                    }
                    assert(dir[0] == path@[0]);
                }
            }
            if rp && nd && dir.len() > 0 {
                assert(dir != seq!['.']) by {
                    if dir == seq!['.'] {
                        assert(path@[0] == '.');
                        assert(dot_start(path@));
                    }
                }
            }
            assert forall|i: int|
                rp && 0 <= i < sv.len() - 1 && #[trigger] sv[i] != seq!['.'] implies sv[i + 1]
                == folder_key(containing_dir(sv[i])) by {
                if i < bv.len() - 1 {
                    assert(sv[i] == bv[i] && sv[i + 1] == bv[i + 1]);
                } else {
                    assert(sv[i] == bv.last());
                }
            }
        }
        match path_parent(cur.as_str()) {
            Some(p) => {
                if is_top {
                    proof {
                        assert(ancestor_keys(dir) =~= seq![folder_key(dir)]);
                        assert(string_views(keys@) =~= string_views(before) + seq![folder_key(dir)]);
                    }
                    break;
                }
                proof {
                    assert(ancestor_keys(dir) =~= seq![folder_key(dir)] + ancestor_keys(p@));
                    assert(string_views(keys@) + ancestor_keys(p@) =~= string_views(before)
                        + ancestor_keys(dir));
                    assert(sv.last() == dir);
                    assert(containing_dir(dir) == p@);
                    if p@.len() > 0 {
                        assert(p@ == path@.take(p@.len() as int)) by {
                            assert(dir.take(p@.len() as int) =~= path@.take(p@.len() as int));
                        }
                        if rp {
                            assert(path@[p@.len() as int] == dir[p@.len() as int]);
                        }
                    }
                }
                cur = p;
            },
            None => {
                proof {
                    assert(ancestor_keys(dir) =~= seq![folder_key(dir)]);
                    assert(string_views(keys@) =~= string_views(before) + seq![folder_key(dir)]);
                    if rp {
                        assert(dir.len() == 0);
                        assert(sv.last() == seq!['.']);
                    }
                }
                break;
            },
        }
    }
    proof {
        law_folder_keys_start_at_parent(path@);
        assert(string_views(keys@).len() == keys@.len());
        assert(string_views(keys@)[0] == keys@[0]@);
    }
    keys
}

/// Whether `p` occurs in `s`.
pub open spec fn contains_seq(s: Seq<char>, p: Seq<char>) -> bool {
    exists|i: int| occurs_at(s, p, i)
}

/// Whether a path is left out of the source walk: it holds `.git`.
pub open spec fn is_excluded(path: Seq<char>) -> bool {
    contains_seq(path, seq!['.', 'g', 'i', 't'])
}

/// Whether a path is left out of the source walk: it holds `.git`
/// anywhere (the repository's own folder, and also `.github`, `.gitignore`).
pub fn is_excluded_path(path: &str) -> (b: bool)
    ensures
        b == is_excluded(path@),
        b <==> exists|i: int|
            #![trigger path@[i]]
            0 <= i && i + 3 < path@.len() && path@[i] == '.' && path@[i + 1] == 'g' && path@[i + 2]
                == 'i' && path@[i + 3] == 't',
{
    let v = chars_of(path);
    let git = vec!['.', 'g', 'i', 't'];
    let r = find_pat_in(&v, 0, v.len(), &git);
    proof {
        assert(v@.subrange(0, v@.len() as int) =~= v@);
        lemma_find_pat_bounds(v@, git@);
        if r is Some {
            assert(occurs_at(v@, git@, find_pat(v@, git@)));
        }
        if r is None {
            lemma_find_pat_none(v@, git@);
        }
    }
    proof {
        law_excluded_exactly_dot_git(path@);
    }
    r.is_some()
}

/// Whether an extension marks a source file: `cs`, `js`, `ts`, `jsx`, `tsx` or `rs`.
pub open spec fn is_source_extension(e: Seq<char>) -> bool {
    ||| e == seq!['c', 's']
    ||| e == seq!['j', 's']
    ||| e == seq!['t', 's']
    ||| e == seq!['j', 's', 'x']
    ||| e == seq!['t', 's', 'x']
    ||| e == seq!['r', 's']
}

/// Whether `v` holds exactly `w`.
fn chars_equal(v: &Vec<char>, w: &Vec<char>) -> (b: bool)
    ensures
        b == (v@ == w@),
{
    let r = v.len() == w.len() && matches_at(v, 0, v.len(), w);
    proof {
        assert(v@.subrange(0, w@.len() as int) =~= v@ || v.len() != w.len());
    }
    r
}

/// Whether the file at `path` is a source file by its extension.
pub fn is_source_file(path: &str) -> (b: bool)
    ensures
        b == (match extension_of(path@) {
            Some(e) => is_source_extension(e),
            None => false,
        }),
        b == (match extension_of(path@) {
            Some(e) => e == seq!['c', 's'] || e == seq!['j', 's'] || e == seq!['t', 's'] || e
                == seq!['j', 's', 'x'] || e == seq!['t', 's', 'x'] || e == seq!['r', 's'],
            None => false,
        }),
{
    match path_extension(path) {
        Some(e) => {
            let v = chars_of(e.as_str());
            chars_equal(&v, &vec!['c', 's']) || chars_equal(&v, &vec!['j', 's']) || chars_equal(
                &v,
                &vec!['t', 's'],
            ) || chars_equal(&v, &vec!['j', 's', 'x']) || chars_equal(&v, &vec!['t', 's', 'x'])
                || chars_equal(&v, &vec!['r', 's'])
        },
        None => false,
    }
}

// ---------------------------------------------------------------------------
// Laws
// ---------------------------------------------------------------------------

/// A path is left out of the source walk exactly when the four characters
/// `.git` occur in it, one after the other.
pub proof fn law_excluded_exactly_dot_git(path: Seq<char>)
    ensures
        is_excluded(path) <==> exists|i: int|
            #![trigger path[i]]
            0 <= i && i + 3 < path.len() && path[i] == '.' && path[i + 1] == 'g' && path[i + 2]
                == 'i' && path[i + 3] == 't',
{
    let g = seq!['.', 'g', 'i', 't'];
    if is_excluded(path) {
        let i = choose|i: int| occurs_at(path, g, i);
        assert(path[i] == path.subrange(i, i + 4)[0]);
        assert(path[i + 1] == path.subrange(i, i + 4)[1]);
        assert(path[i + 2] == path.subrange(i, i + 4)[2]);
        assert(path[i + 3] == path.subrange(i, i + 4)[3]);
    }
    if exists|i: int|
        #![trigger path[i]]
        0 <= i && i + 3 < path.len() && path[i] == '.' && path[i + 1] == 'g' && path[i + 2] == 'i'
            && path[i + 3] == 't' {
        let i = choose|i: int|
            #![trigger path[i]]
            0 <= i && i + 3 < path.len() && path[i] == '.' && path[i + 1] == 'g' && path[i + 2]
                == 'i' && path[i + 3] == 't';
        assert(path.subrange(i, i + 4) =~= g);
        assert(occurs_at(path, g, i));
    }
}

/// The source extensions are exactly `cs`, `js`, `ts`, `jsx`, `tsx` and `rs`.
pub proof fn law_source_extensions(e: Seq<char>)
    ensures
        is_source_extension(e) <==> (e == seq!['c', 's'] || e == seq!['j', 's'] || e == seq![
            't',
            's',
        ] || e == seq!['j', 's', 'x'] || e == seq!['t', 's', 'x'] || e == seq!['r', 's']),
{
}

/// The folder keys of a file start with the folder that holds it: its
/// parent, or `.` when the parent is empty or missing.
pub proof fn law_folder_keys_start_at_parent(path: Seq<char>)
    ensures
        folder_keys(path).len() > 0,
        folder_keys(path)[0] == match parent_of(path) {
            Some(d) => if d.len() > 0 {
                d
            } else {
                seq!['.']
            },
            None => seq!['.'],
        },
{
    let d = containing_dir(path);
    assert(folder_keys(path) == ancestor_keys(d));
    assert(ancestor_keys(d)[0] == folder_key(d));
}

} // verus!
