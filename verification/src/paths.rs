//! Paths relative to the directory of the projects.
//!
//! Paths are texts whose parts are separated by `/`. They are expected to be
//! given in a canonical form, absolute and without `.` and `..`.

use crate::lexing::chars::{slice};
use crate::output::{
    Location, LocationView, Match, MatchView, Output, ProjectPair, ProjectPairView, Warning,
    WarningView,
};
use vstd::prelude::*;
use vstd::string::StringSliceAdditionalSpecFns;
use vstd::utf8::encode_utf8;

verus! {

/// A path that does not lie below the directory that it was to be made
/// relative to.
#[derive(Debug, PartialEq, Eq)]
pub struct PathError {
    pub path: String,
    pub root: String,
}

/// The length of a path without the slashes at its end.
pub open spec fn trimmed_len(root: Seq<u8>) -> int
    decreases root.len(),
{
    if root.len() > 0 && root.last() == 0x2f {
        trimmed_len(root.drop_last())
    } else {
        root.len() as int
    }
}

/// What is left of `path` once the directory `root` is taken from its start,
/// if `path` is `root` or lies below it. The directory itself leaves
/// nothing.
pub open spec fn relative_to(path: Seq<u8>, root: Seq<u8>) -> Option<Seq<u8>> {
    let n = trimmed_len(root);
    if path.len() >= n && path.subrange(0, n) == root.subrange(0, n) {
        if path.len() == n {
            Some(Seq::empty())
        } else if path[n] == 0x2f {
            Some(path.subrange(n + 1, path.len() as int))
        } else {
            None
        }
    } else {
        None
    }
}

/// Whether `after` is `before`, made relative to `root`.
pub open spec fn is_relative_path(after: Seq<char>, before: Seq<char>, root: Seq<u8>) -> bool {
    relative_to(encode_utf8(before), root) == Some(encode_utf8(after))
}

/// Whether a path lies in or below `root`.
pub open spec fn is_below(path: Seq<char>, root: Seq<u8>) -> bool {
    relative_to(encode_utf8(path), root) is Some
}

/// Makes a path relative to a directory.
pub fn make_path_relative_to(path: &str, root: &str) -> (result: Result<String, PathError>)
    ensures
        match result {
            Ok(relative) => relative_to(path.spec_bytes(), root.spec_bytes()) == Some(
                encode_utf8(relative@),
            ),
            Err(e) => relative_to(path.spec_bytes(), root.spec_bytes()) is None && e.path@
                == path@ && e.root@ == root@,
        },
{
    let p = path.as_bytes();
    let r = root.as_bytes();
    let mut n: usize = r.len();
    proof {
        assert(r@.take(n as int) =~= r@);
    }
    while n > 0 && r[n - 1] == 0x2f
        invariant
            n <= r@.len(),
            trimmed_len(r@) == trimmed_len(r@.take(n as int)),
        decreases n,
    {
        proof {
            assert(r@.take(n as int).drop_last() =~= r@.take(n - 1));
        }
        n -= 1;
    }
    proof {
        if n > 0 {
            assert(r@.take(n as int).last() == r@[n - 1]);
        }
        assert(trimmed_len(r@) == n);
    }
    if p.len() < n {
        return Err(PathError { path: path.to_owned(), root: root.to_owned() });
    }
    let mut i: usize = 0;
    while i < n
        invariant
            i <= n <= r@.len(),
            n <= p@.len(),
            p@ == path.spec_bytes(),
            r@ == root.spec_bytes(),
            n == trimmed_len(r@),
            forall|j: int| 0 <= j < i ==> p@[j] == r@[j],
        decreases n - i,
    {
        if p[i] != r[i] {
            proof {
                assert(p@.subrange(0, n as int)[i as int] != r@.subrange(0, n as int)[i as int]);
            }
            return Err(PathError { path: path.to_owned(), root: root.to_owned() });
        }
        i += 1;
    }
    proof {
        assert(p@.subrange(0, n as int) =~= r@.subrange(0, n as int));
    }
    if p.len() == n {
        let empty = String::new();
        proof {
            assert(encode_utf8(empty@) =~= Seq::<u8>::empty()) by {
                reveal_with_fuel(vstd::utf8::encode_utf8, 1);
            }
        }
        return Ok(empty);
    }
    if p[n] != 0x2f {
        return Err(PathError { path: path.to_owned(), root: root.to_owned() });
    }
    Ok(slice(path, n + 1, p.len()).to_owned())
}

/// Whether a location is another one with its file made relative.
pub open spec fn is_relative_location(after: LocationView, before: LocationView, root: Seq<u8>) -> bool {
    is_relative_path(after.file, before.file, root) && after.span == before.span
}

/// Whether a match is another one with its files made relative.
pub open spec fn is_relative_match(after: MatchView, before: MatchView, root: Seq<u8>) -> bool {
    is_relative_location(after.project_1_location, before.project_1_location, root)
        && is_relative_location(after.project_2_location, before.project_2_location, root)
}

/// Whether the files of a match lie in or below `root`.
pub open spec fn match_is_below(found: MatchView, root: Seq<u8>) -> bool {
    is_below(found.project_1_location.file, root) && is_below(found.project_2_location.file, root)
}

/// Whether a pair of projects is another one with all its paths made
/// relative.
pub open spec fn is_relative_pair(after: ProjectPairView, before: ProjectPairView, root: Seq<u8>) -> bool {
    &&& is_relative_path(after.project1, before.project1, root)
    &&& is_relative_path(after.project2, before.project2, root)
    &&& after.matches.len() == before.matches.len()
    &&& forall|i: int|
        0 <= i < before.matches.len() ==> is_relative_match(
            #[trigger] after.matches[i],
            before.matches[i],
            root,
        )
}

/// Whether all paths of a pair of projects lie in or below `root`.
pub open spec fn pair_is_below(pair: ProjectPairView, root: Seq<u8>) -> bool {
    &&& is_below(pair.project1, root)
    &&& is_below(pair.project2, root)
    &&& forall|i: int| 0 <= i < pair.matches.len() ==> match_is_below(#[trigger] pair.matches[i], root)
}

/// Whether a warning is another one with its file, if it has one, made
/// relative.
pub open spec fn is_relative_warning(after: WarningView, before: WarningView, root: Seq<u8>) -> bool {
    &&& after.message == before.message
    &&& after.warn_type == before.warn_type
    &&& match before.file {
        Some(file) => after.file is Some && is_relative_path(after.file->0, file, root),
        None => after.file is None,
    }
}

/// Whether the file of a warning, if it has one, lies in or below `root`.
pub open spec fn warning_is_below(warning: WarningView, root: Seq<u8>) -> bool {
    warning.file is Some ==> is_below(warning.file->0, root)
}

impl Location {
    /// Makes the file of this location relative to `root`. If the file does
    /// not lie below `root` the location is left as it is.
    pub fn make_paths_relative_to(&mut self, root: &str) -> (result: Result<(), PathError>)
        ensures
            match result {
                Ok(_) => is_relative_location(final(self)@, old(self)@, root.spec_bytes()),
                Err(_) => !is_below(old(self).file@, root.spec_bytes()) && *final(self) == *old(
                    self,
                ),
            },
    {
        match make_path_relative_to(self.file.as_str(), root) {
            Ok(relative) => {
                self.file = relative;
                Ok(())
            },
            Err(e) => Err(e),
        }
    }
}

impl Match {
    /// Makes the files of this match relative to `root`.
    pub fn make_paths_relative_to(&mut self, root: &str) -> (result: Result<(), PathError>)
        ensures
            result is Ok <==> match_is_below(old(self)@, root.spec_bytes()),
            result is Ok ==> is_relative_match(final(self)@, old(self)@, root.spec_bytes()),
    {
        match self.project_1_location.make_paths_relative_to(root) {
            Ok(_) => {},
            Err(e) => {
                return Err(e);
            },
        }
        self.project_2_location.make_paths_relative_to(root)
    }
}

impl ProjectPair {
    /// Makes the projects and the files of this pair relative to `root`.
    pub fn make_paths_relative_to(&mut self, root: &str) -> (result: Result<(), PathError>)
        ensures
            result is Ok <==> pair_is_below(old(self)@, root.spec_bytes()),
            result is Ok ==> is_relative_pair(final(self)@, old(self)@, root.spec_bytes()),
    {
        let ghost before = self@;
        match make_path_relative_to(self.project1.as_str(), root) {
            Ok(relative) => {
                self.project1 = relative;
            },
            Err(e) => {
                return Err(e);
            },
        }
        match make_path_relative_to(self.project2.as_str(), root) {
            Ok(relative) => {
                self.project2 = relative;
            },
            Err(e) => {
                return Err(e);
            },
        }
        let n: usize = self.matches.len();
        let mut i: usize = 0;
        while i < n
            invariant
                n == self.matches@.len(),
                n == before.matches.len(),
                i <= n,
                before == old(self)@,
                is_relative_path(self.project1@, before.project1, root.spec_bytes()),
                is_relative_path(self.project2@, before.project2, root.spec_bytes()),
                forall|j: int|
                    0 <= j < i ==> is_relative_match(
                        (#[trigger] self.matches@[j])@,
                        before.matches[j],
                        root.spec_bytes(),
                    ),
                forall|j: int| 0 <= j < i ==> match_is_below(#[trigger] before.matches[j], root.spec_bytes()),
                forall|j: int| i <= j < n ==> (#[trigger] self.matches@[j])@ == before.matches[j],
            decreases n - i,
        {
            let ghost current = self.matches@;
            match self.matches[i].make_paths_relative_to(root) {
                Ok(_) => {},
                Err(e) => {
                    proof {
                        assert(!match_is_below(before.matches[i as int], root.spec_bytes()));
                    }
                    return Err(e);
                },
            }
            proof {
                assert forall|j: int| 0 <= j < n && j != i implies self.matches@[j] == current[j] by {}
            }
            i += 1;
        }
        proof {
            assert forall|j: int| 0 <= j < before.matches.len() implies is_relative_match(
                #[trigger] self@.matches[j],
                before.matches[j],
                root.spec_bytes(),
            ) by {
                assert(self@.matches[j] == self.matches@[j]@);
            }
        }
        Ok(())
    }
}

impl Warning {
    /// Makes the file of this warning, if it has one, relative to `root`.
    pub fn make_paths_relative_to(&mut self, root: &str) -> (result: Result<(), PathError>)
        ensures
            result is Ok <==> warning_is_below(old(self)@, root.spec_bytes()),
            result is Ok ==> is_relative_warning(final(self)@, old(self)@, root.spec_bytes()),
    {
        let relative = match &self.file {
            Some(f) => {
                match make_path_relative_to(f.as_str(), root) {
                    Ok(relative) => relative,
                    Err(e) => {
                        return Err(e);
                    },
                }
            },
            None => {
                return Ok(());
            },
        };
        self.file = Some(relative);
        Ok(())
    }
}

/// Whether all paths of the warnings and of the pairs lie in or below
/// `root`.
pub open spec fn output_is_below(
    warnings: Seq<WarningView>,
    pairs: Seq<ProjectPairView>,
    root: Seq<u8>,
) -> bool {
    &&& forall|i: int| 0 <= i < warnings.len() ==> warning_is_below(#[trigger] warnings[i], root)
    &&& forall|i: int| 0 <= i < pairs.len() ==> pair_is_below(#[trigger] pairs[i], root)
}

impl Output {
    /// Makes every path of the warnings and of the pairs of projects
    /// relative to `root`. Fails if one of the paths does not lie in or
    /// below `root`.
    pub fn make_paths_relative_to(&mut self, root: &str) -> (result: Result<(), PathError>)
        ensures
            result is Ok <==> output_is_below(
                crate::output::views(old(self).warnings@),
                crate::output::views(old(self).project_pairs@),
                root.spec_bytes(),
            ),
            result is Ok ==> {
                &&& final(self).warnings@.len() == old(self).warnings@.len()
                &&& final(self).project_pairs@.len() == old(self).project_pairs@.len()
                &&& forall|i: int|
                    0 <= i < old(self).warnings@.len() ==> is_relative_warning(
                        (#[trigger] final(self).warnings@[i])@,
                        old(self).warnings@[i]@,
                        root.spec_bytes(),
                    )
                &&& forall|i: int|
                    0 <= i < old(self).project_pairs@.len() ==> is_relative_pair(
                        (#[trigger] final(self).project_pairs@[i])@,
                        old(self).project_pairs@[i]@,
                        root.spec_bytes(),
                    )
            },
    {
        let ghost warnings_before = self.warnings@;
        let ghost pairs_before = self.project_pairs@;
        let n: usize = self.warnings.len();
        let mut i: usize = 0;
        while i < n
            invariant
                n == self.warnings@.len(),
                n == warnings_before.len(),
                i <= n,
                warnings_before == old(self).warnings@,
                pairs_before == old(self).project_pairs@,
                self.project_pairs@ == pairs_before,
                forall|j: int|
                    0 <= j < i ==> is_relative_warning(
                        (#[trigger] self.warnings@[j])@,
                        warnings_before[j]@,
                        root.spec_bytes(),
                    ),
                forall|j: int|
                    0 <= j < i ==> warning_is_below((#[trigger] warnings_before[j])@, root.spec_bytes()),
                forall|j: int| i <= j < n ==> (#[trigger] self.warnings@[j]) == warnings_before[j],
            decreases n - i,
        {
            let ghost current = self.warnings@;
            match self.warnings[i].make_paths_relative_to(root) {
                Ok(_) => {},
                Err(e) => {
                    proof {
                        assert(crate::output::views(warnings_before)[i as int]
                            == warnings_before[i as int]@);
                    }
                    return Err(e);
                },
            }
            proof {
                assert forall|j: int| 0 <= j < n && j != i implies self.warnings@[j] == current[j] by {}
            }
            i += 1;
        }
        let m: usize = self.project_pairs.len();
        let mut k: usize = 0;
        while k < m
            invariant
                m == self.project_pairs@.len(),
                m == pairs_before.len(),
                k <= m,
                n == self.warnings@.len(),
                n == warnings_before.len(),
                warnings_before == old(self).warnings@,
                pairs_before == old(self).project_pairs@,
                forall|j: int|
                    0 <= j < n ==> is_relative_warning(
                        (#[trigger] self.warnings@[j])@,
                        warnings_before[j]@,
                        root.spec_bytes(),
                    ),
                forall|j: int|
                    0 <= j < n ==> warning_is_below((#[trigger] warnings_before[j])@, root.spec_bytes()),
                forall|j: int|
                    0 <= j < k ==> is_relative_pair(
                        (#[trigger] self.project_pairs@[j])@,
                        pairs_before[j]@,
                        root.spec_bytes(),
                    ),
                forall|j: int|
                    0 <= j < k ==> pair_is_below((#[trigger] pairs_before[j])@, root.spec_bytes()),
                forall|j: int| k <= j < m ==> (#[trigger] self.project_pairs@[j]) == pairs_before[j],
            decreases m - k,
        {
            let ghost current = self.project_pairs@;
            match self.project_pairs[k].make_paths_relative_to(root) {
                Ok(_) => {},
                Err(e) => {
                    proof {
                        assert(crate::output::views(pairs_before)[k as int] == pairs_before[k as int]@);
                    }
                    return Err(e);
                },
            }
            proof {
                assert forall|j: int| 0 <= j < m && j != k implies self.project_pairs@[j]
                    == current[j] by {}
            }
            k += 1;
        }
        proof {
            assert forall|j: int|
                0 <= j < crate::output::views(warnings_before).len() implies warning_is_below(
                #[trigger] crate::output::views(warnings_before)[j],
                root.spec_bytes(),
            ) by {
                assert(warning_is_below(warnings_before[j]@, root.spec_bytes()));
            }
            assert forall|j: int|
                0 <= j < crate::output::views(pairs_before).len() implies pair_is_below(
                #[trigger] crate::output::views(pairs_before)[j],
                root.spec_bytes(),
            ) by {
                assert(pair_is_below(pairs_before[j]@, root.spec_bytes()));
            }
        }
        Ok(())
    }
}

} // verus!
