//! The directory-walking collaborator: lists the files under a directory,
//! following symlinks. Only the selection of file entries from what the
//! walk yields is the library's own logic; existence checks and the walk
//! itself depend on the file system and are trusted calls.

use vstd::prelude::*;

verus! {

#[verifier::external_type_specification]
#[verifier::external_body]
pub struct ExIoError(std::io::Error);

/// Relies on `std::path::Path::exists`. The result depends on the state of
/// the file system, so nothing is promised of it.
#[verifier::external_body]
fn path_exists(p: &str) -> bool {
    std::path::Path::new(p).exists()
}

/// Relies on `std::path::Path::is_dir`. File-system dependent; nothing is
/// promised of the result.
#[verifier::external_body]
fn path_is_dir(p: &str) -> bool {
    std::path::Path::new(p).is_dir()
}

/// Relies on `std::io::Error::new` to build the not-found error.
#[verifier::external_body]
fn err_not_found() -> std::io::Error {
    std::io::Error::new(std::io::ErrorKind::NotFound, "Directory not found")
}

/// Relies on `std::io::Error::new` to build the invalid-input error.
#[verifier::external_body]
fn err_not_a_directory() -> std::io::Error {
    std::io::Error::new(std::io::ErrorKind::InvalidInput, "Path is not a directory")
}

/// Relies on `walkdir::WalkDir`: walks the tree under `dir` following
/// symlinks, yielding each entry's path and whether it is a file, and
/// skipping entries that errored. File-system dependent; nothing is
/// promised of the result.
#[verifier::external_body]
fn walk_entries(dir: &str) -> Vec<(String, bool)> {
    walkdir::WalkDir::new(dir)
        .follow_links(true)
        .into_iter()
        .filter_map(|e| e.ok())
        .map(|e| (e.path().to_string_lossy().into_owned(), e.file_type().is_file()))
        .collect()
}

/// The paths of the entries marked as files, in order.
pub open spec fn spec_file_paths(entries: Seq<(String, bool)>) -> Seq<Seq<char>>
    decreases entries.len(),
{
    if entries.len() == 0 {
        Seq::empty()
    } else {
        (if entries[0].1 {
            seq![entries[0].0@]
        } else {
            Seq::<Seq<char>>::empty()
        }) + spec_file_paths(entries.drop_first())
    }
}

proof fn lemma_file_paths_push(entries: Seq<(String, bool)>, e: (String, bool))
    ensures
        spec_file_paths(entries.push(e)) == spec_file_paths(entries) + (if e.1 {
            seq![e.0@]
        } else {
            Seq::<Seq<char>>::empty()
        }),
    decreases entries.len(),
{
    if entries.len() == 0 {
        assert(entries.push(e)[0] == e);
        assert(entries.push(e).drop_first() =~= Seq::<(String, bool)>::empty());
        assert(spec_file_paths(Seq::<(String, bool)>::empty()) =~= Seq::<Seq<char>>::empty());
        assert(spec_file_paths(entries.push(e)) =~= spec_file_paths(entries) + (if e.1 {
            seq![e.0@]
        } else {
            Seq::<Seq<char>>::empty()
        }));
    } else {
        assert(entries.push(e).drop_first() =~= entries.drop_first().push(e));
        lemma_file_paths_push(entries.drop_first(), e);
        let h = if entries[0].1 {
            seq![entries[0].0@]
        } else {
            Seq::<Seq<char>>::empty()
        };
        let t = if e.1 {
            seq![e.0@]
        } else {
            Seq::<Seq<char>>::empty()
        };
        assert(h + (spec_file_paths(entries.drop_first()) + t) =~= (h + spec_file_paths(
            entries.drop_first(),
        )) + t);
    }
}

/// Keeps, in order, the paths of the walked entries that are files.
pub fn keep_file_paths(entries: &Vec<(String, bool)>) -> (r: Vec<String>)
    ensures
        r.deep_view() == spec_file_paths(entries@),
{
    let mut r: Vec<String> = Vec::new();
    let mut i: usize = 0;
    proof {
        assert(spec_file_paths(entries@.subrange(0, 0)) =~= Seq::<Seq<char>>::empty());
        assert(r.deep_view() =~= Seq::<Seq<char>>::empty());
    }
    while i < entries.len()
        invariant
            i <= entries.len(),
            r.deep_view() == spec_file_paths(entries@.subrange(0, i as int)),
        decreases entries.len() - i,
    {
        let ghost r0 = r.deep_view();
        if entries[i].1 {
            let p = entries[i].0.clone();
            r.push(p);
            proof {
                assert(r.deep_view() =~= r0.push(entries@[i as int].0@));
            }
        }
        proof {
            assert(entries@.subrange(0, i as int).push(entries@[i as int]) =~= entries@.subrange(
                0,
                i as int + 1,
            ));
            lemma_file_paths_push(entries@.subrange(0, i as int), entries@[i as int]);
            assert(r.deep_view() =~= spec_file_paths(entries@.subrange(0, i as int + 1)));
        }
        i = i + 1;
    }
    proof {
        assert(entries@.subrange(0, entries@.len() as int) =~= entries@);
    }
    r
}

/// Lists the files under `target_dir`, following symlinks. A missing path
/// is a not-found error and a non-directory an invalid-input error; what
/// the walk itself yields depends on the file system, so nothing further is
/// promised of the listed paths.
pub fn scan_directory(target_dir: &str) -> Result<Vec<String>, std::io::Error> {
    if !path_exists(target_dir) {
        return Err(err_not_found());
    }
    if !path_is_dir(target_dir) {
        return Err(err_not_a_directory());
    }
    let entries = walk_entries(target_dir);
    Ok(keep_file_paths(&entries))
}

} // verus!
