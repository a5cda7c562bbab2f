//! Relative paths that stay below the directory they are taken from.
//!
//! A path is split at slashes. Repeated and trailing slashes count for nothing, and so
//! does a dot that does not stand first.
use crate::text_scan::{characters, characters_are, split};
#[allow(unused_imports)]
use crate::text_scan::{lemma_some_piece, pieces, texts};
use vstd::prelude::*;
use vstd::string::*;

verus! {

/// Whether a piece of a path names an entry of a directory.
pub open spec fn names_entry(piece: Seq<char>) -> bool {
    piece.len() > 0 && piece != "."@ && piece != ".."@
}

/// Whether a path names one entry, and nothing above or below it.
pub open spec fn single_component(path: Seq<char>) -> bool {
    let p = pieces(path, '/');
    &&& names_entry(p[0])
    &&& forall|i: int| 1 <= i < p.len() ==> (#[trigger] p[i]).len() == 0 || p[i] == "."@
}

/// Whether a path starts with an entry and never goes up again.
pub open spec fn safe_relative(path: Seq<char>) -> bool {
    let p = pieces(path, '/');
    &&& names_entry(p[0])
    &&& forall|i: int| 1 <= i < p.len() ==> #[trigger] p[i] != ".."@
}

fn piece_names_entry(piece: &Vec<char>) -> (yes: bool)
    ensures
        yes == names_entry(piece@),
{
    piece.len() > 0 && !characters_are(piece.as_slice(), ".") && !characters_are(
        piece.as_slice(),
        "..",
    )
}

/// Whether `path` names one entry, and nothing above or below it.
pub fn is_single_component(path: &str) -> (yes: bool)
    ensures
        yes == single_component(path@),
{
    let parts = split(characters(path).as_slice(), '/');
    let ghost p = pieces(path@, '/');
    assert(forall|i: int| 0 <= i < p.len() ==> #[trigger] p[i] == parts@[i]@) by {
        assert(forall|i: int| 0 <= i < p.len() ==> #[trigger] p[i] == texts(parts@)[i]);
    }
    if !piece_names_entry(&parts[0]) {
        return false;
    }
    let mut i: usize = 1;
    while i < parts.len()
        invariant
            1 <= i <= parts@.len(),
            p.len() == parts@.len(),
            forall|j: int| 0 <= j < p.len() ==> #[trigger] p[j] == parts@[j]@,
            forall|j: int| 1 <= j < i ==> (#[trigger] p[j]).len() == 0 || p[j] == "."@,
            p == pieces(path@, '/'),
        decreases parts@.len() - i,
    {
        assert(p[i as int] == parts@[i as int]@);
        if parts[i].len() > 0 && !characters_are(parts[i].as_slice(), ".") {
            return false;
        }
        i = i + 1;
    }
    true
}

/// Whether `path` starts with an entry and never goes up again.
pub fn is_safe_relative(path: &str) -> (yes: bool)
    ensures
        yes == safe_relative(path@),
{
    let parts = split(characters(path).as_slice(), '/');
    let ghost p = pieces(path@, '/');
    assert(forall|i: int| 0 <= i < p.len() ==> #[trigger] p[i] == parts@[i]@) by {
        assert(forall|i: int| 0 <= i < p.len() ==> #[trigger] p[i] == texts(parts@)[i]);
    }
    if !piece_names_entry(&parts[0]) {
        return false;
    }
    let mut i: usize = 1;
    while i < parts.len()
        invariant
            1 <= i <= parts@.len(),
            p.len() == parts@.len(),
            forall|j: int| 0 <= j < p.len() ==> #[trigger] p[j] == parts@[j]@,
            forall|j: int| 1 <= j < i ==> #[trigger] p[j] != ".."@,
            p == pieces(path@, '/'),
        decreases parts@.len() - i,
    {
        assert(p[i as int] == parts@[i as int]@);
        if characters_are(parts[i].as_slice(), "..") {
            return false;
        }
        i = i + 1;
    }
    true
}

/// A path of one component is a safe relative path.
pub proof fn single_components_are_safe(path: Seq<char>)
    requires
        single_component(path),
    ensures
        safe_relative(path),
{
    reveal_strlit(".");
    reveal_strlit("..");
    let p = pieces(path, '/');
    assert forall|i: int| 1 <= i < p.len() implies #[trigger] p[i] != ".."@ by {
        assert("."@.len() == 1 && ".."@.len() == 2);
    }
}

} // verus!
