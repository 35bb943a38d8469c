//! Character-level operations: composing a pair, fully decomposing one
//! character, and its combining class.
use vstd::prelude::*;
use crate::tables::CharacterDatabase;
use crate::decompose::{expand, expand_char, DECOMPOSITION_DEPTH};

verus! {

/// The composite of `a` and `b`, if the standard composes them.
pub fn compose(db: &CharacterDatabase, a: char, b: char) -> (r: Option<char>)
    requires
        db.well_formed(),
    ensures
        r == db.composite_of(a, b),
{
    db.compose(a, b)
}

/// The full canonical decomposition of `c`.
pub fn decompose_canonical(db: &CharacterDatabase, c: char) -> (r: Vec<char>)
    requires
        db.well_formed(),
    ensures
        r@ == expand(db, c, false, false, DECOMPOSITION_DEPTH as nat),
{
    expand_char(db, c, false, false, DECOMPOSITION_DEPTH)
}

/// The full compatibility decomposition of `c`.
pub fn decompose_compatible(db: &CharacterDatabase, c: char) -> (r: Vec<char>)
    requires
        db.well_formed(),
    ensures
        r@ == expand(db, c, true, false, DECOMPOSITION_DEPTH as nat),
{
    expand_char(db, c, true, false, DECOMPOSITION_DEPTH)
}

/// The full canonical decomposition of `c`, with the extensions.
pub fn decompose_canonical_ext(db: &CharacterDatabase, c: char) -> (r: Vec<char>)
    requires
        db.well_formed(),
    ensures
        r@ == expand(db, c, false, true, DECOMPOSITION_DEPTH as nat),
{
    expand_char(db, c, false, true, DECOMPOSITION_DEPTH)
}

/// The full compatibility decomposition of `c`, with the extensions.
pub fn decompose_compatible_ext(db: &CharacterDatabase, c: char) -> (r: Vec<char>)
    requires
        db.well_formed(),
    ensures
        r@ == expand(db, c, true, true, DECOMPOSITION_DEPTH as nat),
{
    expand_char(db, c, true, true, DECOMPOSITION_DEPTH)
}

/// The canonical combining class of `c`.
pub fn canonical_combining_class(db: &CharacterDatabase, c: char) -> (r: u8)
    requires
        db.well_formed(),
    ensures
        r == db.class_of(c),
{
    db.combining_class(c)
}

/// Whether `c` is a mark (general category Mn, Mc or Me).
pub fn is_combining_mark(db: &CharacterDatabase, c: char) -> (r: bool)
    requires
        db.well_formed(),
    ensures
        r == db.is_mark(c),
{
    db.is_combining_mark(c)
}

} // verus!
