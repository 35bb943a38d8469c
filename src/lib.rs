//! Unicode normalization (canonical and compatibility decomposition,
//! canonical composition, quick checks and the stream-safe text process)
//! over a read-only character database.
//!
//! The database (`tables::CharacterDatabase`) is supplied by the caller as
//! sorted tables generated from a Unicode release; `is_well_formed` checks
//! the sorting that every lookup relies on. Hangul syllables need no table:
//! they are decomposed and composed by arithmetic.
//!
//! Every transform is stated over a spec function (`decomposed`,
//! `recomposed`, `stream_safe_of`, `quick_check_of`), and the laws that relate
//! them are proved in the module of each: idempotence, canonical
//! equivalence, decomposition stability, quick-check soundness, stream
//! safety and the Hangul round trip. Where a law depends on the data, its
//! proof function names the property of the database that it needs.
use vstd::prelude::*;

pub mod tables;
pub mod decompose;
pub mod recompose;
pub mod stream_safe;
pub mod quick_check;
pub mod normalize;

use crate::tables::CharacterDatabase;
use crate::decompose::{decompose_sequence, decomposed};
use crate::recompose::{recompose_sequence, recomposed};
use crate::stream_safe::{stream_safe, stream_safe_of};

verus! {

/// The normalization transforms, on any text that can be read as a sequence
/// of characters.
pub trait UnicodeNormalization {
    /// The characters of the text.
    spec fn chars_of(&self) -> Seq<char>;

    /// Normalization Form D (canonical decomposition).
    fn nfd(&self, db: &CharacterDatabase) -> (r: Vec<char>)
        requires
            db.well_formed(),
        ensures
            r@ == decomposed(db, self.chars_of(), false, false),
    ;

    /// Normalization Form KD (compatibility decomposition).
    fn nfkd(&self, db: &CharacterDatabase) -> (r: Vec<char>)
        requires
            db.well_formed(),
        ensures
            r@ == decomposed(db, self.chars_of(), true, false),
    ;

    /// Normalization Form C (canonical decomposition, then composition).
    fn nfc(&self, db: &CharacterDatabase) -> (r: Vec<char>)
        requires
            db.well_formed(),
        ensures
            r@ == recomposed(db, self.chars_of(), false, false),
    ;

    /// Normalization Form KC (compatibility decomposition, then canonical
    /// composition).
    fn nfkc(&self, db: &CharacterDatabase) -> (r: Vec<char>)
        requires
            db.well_formed(),
        ensures
            r@ == recomposed(db, self.chars_of(), true, false),
    ;

    /// Like `nfd`, but CJK compatibility ideographs keep their distinction
    /// as standardized variation sequences. The result is valid NFD, without
    /// the standard form's stability guarantee.
    fn nfd_ext(&self, db: &CharacterDatabase) -> (r: Vec<char>)
        requires
            db.well_formed(),
        ensures
            r@ == decomposed(db, self.chars_of(), false, true),
    ;

    /// Like `nfkd`, with the extensions of `nfd_ext`.
    fn nfkd_ext(&self, db: &CharacterDatabase) -> (r: Vec<char>)
        requires
            db.well_formed(),
        ensures
            r@ == decomposed(db, self.chars_of(), true, true),
    ;

    /// Like `nfc`, with the extensions of `nfd_ext`.
    fn nfc_ext(&self, db: &CharacterDatabase) -> (r: Vec<char>)
        requires
            db.well_formed(),
        ensures
            r@ == recomposed(db, self.chars_of(), false, true),
    ;

    /// Like `nfkc`, with the extensions of `nfd_ext`.
    fn nfkc_ext(&self, db: &CharacterDatabase) -> (r: Vec<char>)
        requires
            db.well_formed(),
        ensures
            r@ == recomposed(db, self.chars_of(), true, true),
    ;

    /// The text with combining grapheme joiners inserted by the stream-safe
    /// text process (UAX15-D4).
    fn stream_safe(&self, db: &CharacterDatabase) -> (r: Vec<char>)
        requires
            db.well_formed(),
        ensures
            r@ == stream_safe_of(db, self.chars_of()),
    ;
}

impl UnicodeNormalization for Vec<char> {
    open spec fn chars_of(&self) -> Seq<char> {
        self@
    }

    fn nfd(&self, db: &CharacterDatabase) -> (r: Vec<char>) {
        decompose_sequence(db, self, false, false)
    }

    fn nfkd(&self, db: &CharacterDatabase) -> (r: Vec<char>) {
        decompose_sequence(db, self, true, false)
    }

    fn nfc(&self, db: &CharacterDatabase) -> (r: Vec<char>) {
        recompose_sequence(db, self, false, false)
    }

    fn nfkc(&self, db: &CharacterDatabase) -> (r: Vec<char>) {
        recompose_sequence(db, self, true, false)
    }

    fn nfd_ext(&self, db: &CharacterDatabase) -> (r: Vec<char>) {
        decompose_sequence(db, self, false, true)
    }

    fn nfkd_ext(&self, db: &CharacterDatabase) -> (r: Vec<char>) {
        decompose_sequence(db, self, true, true)
    }

    fn nfc_ext(&self, db: &CharacterDatabase) -> (r: Vec<char>) {
        recompose_sequence(db, self, false, true)
    }

    fn nfkc_ext(&self, db: &CharacterDatabase) -> (r: Vec<char>) {
        recompose_sequence(db, self, true, true)
    }

    fn stream_safe(&self, db: &CharacterDatabase) -> (r: Vec<char>) {
        stream_safe(db, self)
    }
}

} // verus!
