//! The OOXML package on disk, and what a byte-preserving rewrite does with
//! each of its entries.
//!
//! A repair changes a handful of attributes in one or two parts; every other
//! part must come out exactly as it went in. So a rewrite copies every entry
//! it was not asked to replace raw — compressed bytes, CRC, sizes, method,
//! timestamp and permissions — and only an entry carrying an edit is written
//! anew. Which entries those are, how many edits land, and when a rewrite is
//! refused, is decided here; the ZIP reading and writing is the caller's.
use vstd::prelude::*;
use std::path::{Path, PathBuf};
use crate::strs::{chars_eq, chars_of};

verus! {

#[verifier::external_type_specification]
#[verifier::external_body]
pub struct ExPathBuf(PathBuf);

#[verifier::external_type_specification]
#[verifier::external_body]
pub struct ExPath(Path);

/// Borrow a path buffer as a path (`PathBuf::as_path`). A path is opaque
/// here, so nothing is stated of the result.
pub assume_specification[ PathBuf::as_path ](p: &PathBuf) -> &Path;

/// An OOXML package on disk.
///
/// Holds the path rather than the archive: an audit reads the package once
/// and a repair reads it again while writing.
pub struct Package {
    path: PathBuf,
}

impl Package {
    /// A package at a path the caller has already checked is a readable
    /// OOXML container.
    pub fn at(path: PathBuf) -> Self {
        Package { path }
    }

    /// The path this package was opened from.
    pub fn path(&self) -> &Path {
        self.path.as_path()
    }
}

/// Why a rewrite plan was refused: an edit names a part the package does not
/// contain, which means the caller's idea of the document and the document
/// itself disagree.
pub open spec fn first_missing(entries: Seq<Seq<char>>, edits: Seq<Seq<char>>) -> Option<Seq<char>>
    decreases edits.len(),
{
    if edits.len() == 0 {
        None
    } else if !entries.contains(edits[0]) {
        Some(edits[0])
    } else {
        first_missing(entries, edits.drop_first())
    }
}

pub open spec fn names(v: Seq<String>) -> Seq<Seq<char>> {
    v.map_values(|s: String| s@)
}

fn contains(names_list: &[String], name: &str) -> (r: bool)
    ensures
        r == names(names_list@).contains(name@),
{
    let want = chars_of(name);
    let mut i: usize = 0;
    while i < names_list.len()
        invariant
            i <= names_list@.len(),
            want@ == name@,
            forall|j: int| 0 <= j < i ==> names_list@[j]@ != name@,
        decreases names_list@.len() - i,
    {
        if chars_eq(&chars_of(names_list[i].as_str()), &want) {
            assert(names(names_list@)[i as int] == name@);
            return true;
        }
        i += 1;
    }
    proof {
        if names(names_list@).contains(name@) {
            let j = choose|j: int| 0 <= j < names(names_list@).len() && names(names_list@)[j] == name@;
            assert(names_list@[j]@ == name@);
        }
    }
    false
}

/// For each entry, in package order, whether a rewrite replaces it.
pub open spec fn replaced(entries: Seq<Seq<char>>, edits: Seq<Seq<char>>) -> Seq<bool> {
    entries.map_values(|e: Seq<char>| edits.contains(e))
}

/// How many of `flags` are set.
pub open spec fn count_set(flags: Seq<bool>) -> nat
    decreases flags.len(),
{
    if flags.len() == 0 {
        0
    } else {
        count_set(flags.drop_last()) + if flags.last() { 1nat } else { 0nat }
    }
}

/// What a rewrite of a package storing `entries` does when asked to replace
/// the parts named in `edits` (in the order the edits are keyed): the edit
/// naming a part the package lacks, if any — the whole rewrite is then
/// refused — or, for each entry in package order, whether it is written anew
/// rather than copied raw, with the number of parts replaced.
pub fn plan_rewrite(entries: &[String], edits: &[String]) -> (r: Result<(Vec<bool>, usize), String>)
    ensures
        r matches Err(missing) ==> first_missing(names(entries@), names(edits@)) == Some(missing@),
        r matches Ok(plan) ==> first_missing(names(entries@), names(edits@)) is None
            && plan.0@ == replaced(names(entries@), names(edits@))
            && plan.1 as nat == count_set(plan.0@),
{
    let mut k: usize = 0;
    assert(names(edits@).skip(0) =~= names(edits@));
    while k < edits.len()
        invariant
            k <= edits@.len(),
            first_missing(names(entries@), names(edits@)) == first_missing(names(entries@), names(edits@).skip(k as int)),
        decreases edits@.len() - k,
    {
        let ghost rest = names(edits@).skip(k as int);
        assert(rest[0] == edits@[k as int]@);
        assert(rest.drop_first() =~= names(edits@).skip(k + 1));
        if !contains(entries, edits[k].as_str()) {
            return Err(edits[k].clone());
        }
        k += 1;
    }
    let mut flags: Vec<bool> = Vec::new();
    let mut applied: usize = 0;
    let mut i: usize = 0;
    while i < entries.len()
        invariant
            i <= entries@.len(),
            flags@ == replaced(names(entries@), names(edits@)).take(i as int),
            applied as nat == count_set(flags@),
            applied <= i,
        decreases entries@.len() - i,
    {
        let hit = contains(edits, entries[i].as_str());
        assert(names(entries@)[i as int] == entries@[i as int]@);
        let ghost before = flags@;
        flags.push(hit);
        assert(flags@ =~= replaced(names(entries@), names(edits@)).take(i + 1));
        assert(flags@.drop_last() =~= before);
        if hit {
            applied += 1;
        }
        i += 1;
    }
    assert(replaced(names(entries@), names(edits@)).take(i as int) =~= replaced(names(entries@), names(edits@)));
    Ok((flags, applied))
}

} // verus!
