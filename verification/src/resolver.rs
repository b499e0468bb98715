//! Module path resolution: mapping the string written in an import or
//! forward clause to the absolute path of an existing module file.
//!
//! The filesystem is represented by the list of existing module file paths,
//! so resolution is a pure function of the import string, the importing
//! module's path, and that list. A `.`-prefixed import resolves against the
//! importing module's directory; any other import is a package import,
//! searched in a `packages/` subdirectory of the importing module's
//! directory and of each ancestor directory in turn.

use vstd::prelude::*;

verus! {

/// Index of the last `'/'` in `s`, or `-1` if there is none.
pub open spec fn last_slash(s: Seq<char>) -> int
    decreases s.len(),
{
    if s.len() == 0 {
        -1
    } else if s.last() == '/' {
        s.len() - 1
    } else {
        last_slash(s.drop_last())
    }
}

pub proof fn lemma_last_slash_bounds(s: Seq<char>)
    ensures
        -1 <= last_slash(s) < s.len(),
    decreases s.len(),
{
    if s.len() > 0 && s.last() != '/' {
        lemma_last_slash_bounds(s.drop_last());
    }
}

/// The directory portion of a path: everything before the last `'/'`, or the
/// empty sequence if the path has no separator.
pub open spec fn spec_parent(s: Seq<char>) -> Seq<char> {
    let k = last_slash(s);
    if k <= 0 {
        Seq::empty()
    } else {
        s.subrange(0, k)
    }
}

pub proof fn lemma_parent_shorter(s: Seq<char>)
    requires
        s.len() > 0,
    ensures
        spec_parent(s).len() < s.len(),
{
    lemma_last_slash_bounds(s);
}

/// Whether `files` holds the path `p`.
pub open spec fn file_exists(files: Seq<Seq<char>>, p: Seq<char>) -> bool {
    exists|i: int| 0 <= i < files.len() && files[i] == p
}

/// Resolution of one directly-named candidate path, following the module
/// system's rules in order: the literal path itself, the path taken as a
/// directory holding an `index.ren` file, and the path with the `.ren`
/// extension added.
pub open spec fn spec_direct(p: Seq<char>, files: Seq<Seq<char>>) -> Option<Seq<char>> {
    if file_exists(files, p) {
        Some(p)
    } else if file_exists(files, p + "/index.ren"@) {
        Some(p + "/index.ren"@)
    } else if file_exists(files, p + ".ren"@) {
        Some(p + ".ren"@)
    } else {
        None
    }
}

/// The path a relative import resolves against: the importing module's
/// directory joined with the import string, one leading `./` removed.
pub open spec fn spec_relative_candidate(from: Seq<char>, path: Seq<char>) -> Seq<char> {
    let rel = if path.len() >= 2 && path[0] == '.' && path[1] == '/' {
        path.subrange(2, path.len() as int)
    } else {
        path
    };
    spec_parent(from) + "/"@ + rel
}

/// Package-import search: try `dir/packages/path`, then the same in each
/// ancestor directory of `dir`, up to the root.
pub open spec fn spec_package(dir: Seq<char>, path: Seq<char>, files: Seq<Seq<char>>) -> Option<
    Seq<char>,
>
    decreases dir.len(),
    via spec_package_decreases
{
    let candidate = spec_direct(dir + "/packages/"@ + path, files);
    if candidate is Some {
        candidate
    } else if dir.len() == 0 {
        None
    } else {
        spec_package(spec_parent(dir), path, files)
    }
}

#[via_fn]
proof fn spec_package_decreases(dir: Seq<char>, path: Seq<char>, files: Seq<Seq<char>>) {
    if dir.len() > 0 {
        lemma_parent_shorter(dir);
    }
}

/// What `resolve_module` returns: the resolved absolute path of the imported
/// module, or `None` if no candidate exists among the module files.
pub open spec fn spec_resolve_module(
    from: Seq<char>,
    path: Seq<char>,
    files: Seq<Seq<char>>,
) -> Option<Seq<char>> {
    if path.len() > 0 && path[0] == '.' {
        spec_direct(spec_relative_candidate(from, path), files)
    } else {
        spec_package(spec_parent(from), path, files)
    }
}

/// A resolved module path always names an existing file.
pub proof fn lemma_package_in_files(
    dir: Seq<char>,
    path: Seq<char>,
    files: Seq<Seq<char>>,
    p: Seq<char>,
)
    requires
        spec_package(dir, path, files) == Some(p),
    ensures
        file_exists(files, p),
    decreases dir.len(),
{
    let candidate = spec_direct(dir + "/packages/"@ + path, files);
    if candidate is Some {
    } else if dir.len() == 0 {
    } else {
        lemma_parent_shorter(dir);
        lemma_package_in_files(spec_parent(dir), path, files, p);
    }
}

/// A resolved module path always names an existing file.
pub proof fn lemma_resolve_in_files(
    from: Seq<char>,
    path: Seq<char>,
    files: Seq<Seq<char>>,
    p: Seq<char>,
)
    requires
        spec_resolve_module(from, path, files) == Some(p),
    ensures
        file_exists(files, p),
{
    if !(path.len() > 0 && path[0] == '.') {
        lemma_package_in_files(spec_parent(from), path, files, p);
    }
}

/// The path an import string would denote if it existed: the base candidate
/// for a relative import, or the string itself for a package import. Used to
/// key the registry entry of a module that could not be resolved.
pub open spec fn spec_unresolved_path(from: Seq<char>, path: Seq<char>) -> Seq<char> {
    if path.len() > 0 && path[0] == '.' {
        spec_relative_candidate(from, path)
    } else {
        path
    }
}

/// The would-be path of a module that could not be resolved.
pub fn unresolved_module_path(from: &String, path: &String) -> (r: String)
    ensures
        r@ == spec_unresolved_path(from@, path@),
{
    let len = path.as_str().unicode_len();
    if len > 0 && path.as_str().get_char(0) == '.' {
        let rel: &str = if len >= 2 && path.as_str().get_char(1) == '/' {
            path.as_str().substring_char(2, len)
        } else {
            path.as_str()
        };
        let parent = parent_dir(from);
        let mut candidate = concat_str(&parent, "/");
        candidate.append(rel);
        proof {
            assert(candidate@ == spec_relative_candidate(from@, path@));
        }
        candidate
    } else {
        path.clone()
    }
}

fn exists_in(files: &Vec<String>, p: &String) -> (r: bool)
    ensures
        r == file_exists(files.deep_view(), p@),
{
    let mut i: usize = 0;
    while i < files.len()
        invariant
            i <= files@.len(),
            forall|j: int| 0 <= j < i ==> files.deep_view()[j] != p@,
        decreases files@.len() - i,
    {
        if files[i].eq(p) {
            proof {
                assert(files.deep_view()[i as int] == p@);
            }
            return true;
        }
        proof {
            assert(files.deep_view()[i as int] == files@[i as int]@);
        }
        i = i + 1;
    }
    false
}

fn concat_str(a: &String, b: &str) -> (r: String)
    ensures
        r@ == a@ + b@,
{
    let mut r = a.clone();
    r.append(b);
    r
}

/// Try one candidate path: the literal path, its `index.ren` directory form,
/// and its `.ren` extension form, in that order.
fn resolve_direct_path(path: String, files: &Vec<String>) -> (r: Option<String>)
    ensures
        match r {
            Some(p) => spec_direct(path@, files.deep_view()) == Some(p@),
            None => spec_direct(path@, files.deep_view()) is None,
        },
{
    if exists_in(files, &path) {
        return Some(path);
    }
    let index_form = concat_str(&path, "/index.ren");
    if exists_in(files, &index_form) {
        return Some(index_form);
    }
    let ext_form = concat_str(&path, ".ren");
    if exists_in(files, &ext_form) {
        return Some(ext_form);
    }
    None
}

/// The directory portion of `path`: everything before the last `'/'`.
fn parent_dir(path: &String) -> (r: String)
    ensures
        r@ == spec_parent(path@),
{
    let ghost s = path@;
    let len = path.as_str().unicode_len();
    let mut k: usize = 0;
    let mut found: bool = false;
    let mut i: usize = 0;
    while i < len
        invariant
            i <= len,
            len == s.len(),
            s == path@,
            found <==> last_slash(s.subrange(0, i as int)) >= 0,
            found ==> k == last_slash(s.subrange(0, i as int)),
            found ==> k < i,
        decreases len - i,
    {
        proof {
            assert(s.subrange(0, i + 1).drop_last() == s.subrange(0, i as int));
            assert(s.subrange(0, i + 1).last() == s[i as int]);
        }
        if path.as_str().get_char(i) == '/' {
            k = i;
            found = true;
        }
        i = i + 1;
    }
    proof {
        assert(s.subrange(0, s.len() as int) == s);
    }
    if !found || k == 0 {
        proof {
            assert(spec_parent(s) =~= Seq::<char>::empty());
        }
        String::new()
    } else {
        let r = path.as_str().substring_char(0, k).to_owned();
        r
    }
}

/// Given the path of the importing module and the raw string written in an
/// import, export-from, or forward clause, resolve the absolute path of the
/// target module against the list of existing module files: `.`-prefixed
/// strings resolve relative to the importing module's directory; all other
/// strings are package imports searched under `packages/` in each ancestor
/// directory. Returns `None` when no candidate exists.
pub fn resolve_module(from: &String, path: &String, files: &Vec<String>) -> (r: Option<String>)
    ensures
        match r {
            Some(p) => spec_resolve_module(from@, path@, files.deep_view()) == Some(p@),
            None => spec_resolve_module(from@, path@, files.deep_view()) is None,
        },
{
    let len = path.as_str().unicode_len();
    if len > 0 && path.as_str().get_char(0) == '.' {
        // a relative import: resolve against the importing module's directory
        let rel: &str = if len >= 2 && path.as_str().get_char(1) == '/' {
            path.as_str().substring_char(2, len)
        } else {
            path.as_str()
        };
        let parent = parent_dir(from);
        let mut candidate = concat_str(&parent, "/");
        candidate.append(rel);
        proof {
            assert(candidate@ == spec_relative_candidate(from@, path@));
        }
        resolve_direct_path(candidate, files)
    } else {
        // a package import: search ancestor directories for packages/<path>
        let mut dir = parent_dir(from);
        loop
            invariant
                spec_package(dir@, path@, files.deep_view()) == spec_resolve_module(
                    from@,
                    path@,
                    files.deep_view(),
                ),
            decreases dir@.len(),
        {
            let mut candidate = concat_str(&dir, "/packages/");
            candidate.append(path.as_str());
            let resolved = resolve_direct_path(candidate, files);
            if resolved.is_some() {
                return resolved;
            }
            if dir.as_str().unicode_len() == 0 {
                return None;
            }
            proof {
                lemma_parent_shorter(dir@);
            }
            dir = parent_dir(&dir);
        }
    }
}

} // verus!
