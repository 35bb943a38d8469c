//! Classifying text as already normalized (`Yes`), certainly not (`No`), or
//! undecided without the full transformation (`Maybe`).
use vstd::prelude::*;
use crate::tables::{CharacterDatabase, Form, IsNormalized, StreamSafeClass};
use crate::decompose::{
    all_atomic, canonically_ordered, decompose_sequence, decomposed, expand_all, expansions_atomic,
    lemma_expand_all_atomic, lemma_expand_all_fixed, lemma_reorder_keeps, lemma_reorder_ordered_fixed,
    reorder, DECOMPOSITION_DEPTH,
};
use crate::recompose::{composed, lemma_composed_producible, producible, recompose_sequence, recomposed};
use crate::stream_safe::{count_after, needs_joiner, stream_safe, stream_safe_of, MAX_NONSTARTERS};

verus! {

/// The worse of two verdicts: `No` over `Maybe` over `Yes`.
pub open spec fn worse(a: IsNormalized, b: IsNormalized) -> IsNormalized {
    if a == IsNormalized::No || b == IsNormalized::No {
        IsNormalized::No
    } else if a == IsNormalized::Maybe || b == IsNormalized::Maybe {
        IsNormalized::Maybe
    } else {
        IsNormalized::Yes
    }
}

fn worse_of(a: IsNormalized, b: IsNormalized) -> (r: IsNormalized)
    ensures
        r == worse(a, b),
{
    match (a, b) {
        (IsNormalized::No, _) | (_, IsNormalized::No) => IsNormalized::No,
        (IsNormalized::Maybe, _) | (_, IsNormalized::Maybe) => IsNormalized::Maybe,
        _ => IsNormalized::Yes,
    }
}

/// The scan's state: the verdict so far, the combining class of the previous
/// character, and the length of the current run of non-starters.
pub type CheckState = (IsNormalized, u8, nat);

/// One character of the scan: its own quick-check value counts, a mark of a
/// smaller class right after another mark makes the verdict at best `Maybe`,
/// and, when `safe` is asked for, a run that grows too long makes it `No`.
pub open spec fn check_step(
    db: &CharacterDatabase,
    st: CheckState,
    c: char,
    form: Form,
    safe: bool,
) -> CheckState {
    let (v, last, n) = st;
    let k = db.class_of(c);
    let ordered = if last > k && k != 0 {
        IsNormalized::Maybe
    } else {
        IsNormalized::Yes
    };
    let v1 = worse(worse(v, ordered), db.quick_flag_of(c, form));
    let v2 = if safe && needs_joiner(db, n, c) {
        IsNormalized::No
    } else {
        v1
    };
    (v2, k, count_after(db, n, c))
}

pub open spec fn check_run(db: &CharacterDatabase, s: Seq<char>, form: Form, safe: bool) -> CheckState
    decreases s.len(),
{
    if s.len() == 0 {
        (IsNormalized::Yes, 0, 0)
    } else {
        check_step(db, check_run(db, s.drop_last(), form, safe), s.last(), form, safe)
    }
}

pub open spec fn quick_check_of(db: &CharacterDatabase, s: Seq<char>, form: Form, safe: bool) -> IsNormalized {
    check_run(db, s, form, safe).0
}

/// The quick check of `s` for `form`, with the stream-safe bound checked too
/// when `safe` holds.
pub fn quick_check(db: &CharacterDatabase, s: &Vec<char>, form: Form, safe: bool) -> (r: IsNormalized)
    requires
        db.well_formed(),
    ensures
        r == quick_check_of(db, s@, form, safe),
{
    let mut verdict = IsNormalized::Yes;
    let mut last: u8 = 0;
    let mut n: usize = 0;
    let mut i: usize = 0;
    assert(s@.subrange(0, 0) =~= Seq::<char>::empty());
    while i < s.len()
        invariant
            db.well_formed(),
            i <= s@.len(),
            n <= i,
            (verdict, last, n as nat) == check_run(db, s@.subrange(0, i as int), form, safe),
        decreases s.len() - i,
    {
        let c = s[i];
        assert(s@.subrange(0, i + 1).drop_last() == s@.subrange(0, i as int));
        let k = db.combining_class(c);
        if last > k && k != 0 {
            verdict = worse_of(verdict, IsNormalized::Maybe);
        }
        verdict = worse_of(verdict, db.quick_check_flag(c, form));
        match db.stream_safe_class(c) {
            StreamSafeClass::NonStarter => {
                if safe && n + 1 > MAX_NONSTARTERS as usize {
                    verdict = IsNormalized::No;
                }
                n = n + 1;
            },
            StreamSafeClass::Starter => {
                n = 0;
            },
            StreamSafeClass::Extend => {},
        }
        last = k;
        i = i + 1;
    }
    assert(s@.subrange(0, s@.len() as int) == s@);
    verdict
}

proof fn lemma_yes_run(db: &CharacterDatabase, s: Seq<char>, form: Form, safe: bool)
    requires
        check_run(db, s, form, safe).0 == IsNormalized::Yes,
    ensures
        forall|i: int| 0 <= i < s.len() ==> db.quick_flag_of(#[trigger] s[i], form) == IsNormalized::Yes,
        canonically_ordered(db, s),
        check_run(db, s, form, safe).1 == (if s.len() == 0 {
            0
        } else {
            db.class_of(s.last())
        }),
    decreases s.len(),
{
    if s.len() > 0 {
        let p = s.drop_last();
        lemma_yes_run(db, p, form, safe);
        assert forall|i: int| 0 <= i < s.len() implies db.quick_flag_of(#[trigger] s[i], form)
            == IsNormalized::Yes by {
            if i < p.len() {
                assert(s[i] == p[i]);
            }
        }
        assert forall|i: int| 0 <= i < s.len() - 1 implies !(db.class_of(#[trigger] s[i]) > db.class_of(
            s[i + 1],
        ) && db.class_of(s[i + 1]) > 0) by {
            if i < p.len() - 1 {
                assert(s[i] == p[i] && s[i + 1] == p[i + 1]);
            } else {
                assert(s[i] == p.last());
            }
        }
    }
}

/// The database's quick-check values for `form` are `Yes` only on characters
/// without a mapping in the matching decomposition.
pub open spec fn flags_agree(db: &CharacterDatabase, form: Form, compat: bool) -> bool {
    forall|c: char|
        db.quick_flag_of(c, form) == IsNormalized::Yes ==> (#[trigger] db.one_step(c, compat, false))
            is None
}

pub open spec fn decomposed_form(compat: bool) -> Form {
    if compat {
        Form::Nfkd
    } else {
        Form::Nfd
    }
}

/// Quick-check soundness for the decomposed forms: where the flags agree
/// with the mappings, a `Yes` from the quick check (with or without the
/// stream-safe bound) means that NFD (or NFKD) leaves the text unchanged.
pub proof fn lemma_quick_yes_decomposed(db: &CharacterDatabase, s: Seq<char>, compat: bool, safe: bool)
    requires
        flags_agree(db, decomposed_form(compat), compat),
        quick_check_of(db, s, decomposed_form(compat), safe) == IsNormalized::Yes,
    ensures
        decomposed(db, s, compat, false) == s,
{
    lemma_yes_run(db, s, decomposed_form(compat), safe);
    assert(all_atomic(db, s, compat, false)) by {
        assert forall|i: int| 0 <= i < s.len() implies (#[trigger] db.one_step(s[i], compat, false))
            is None by {
            assert(db.quick_flag_of(s[i], decomposed_form(compat)) == IsNormalized::Yes);
        }
    }
    lemma_expand_all_fixed(db, s, compat, false);
    lemma_reorder_ordered_fixed(db, s);
}

proof fn lemma_no_run(db: &CharacterDatabase, s: Seq<char>, form: Form)
    requires
        check_run(db, s, form, false).0 == IsNormalized::No,
    ensures
        exists|i: int| 0 <= i < s.len() && db.quick_flag_of(#[trigger] s[i], form) == IsNormalized::No,
    decreases s.len(),
{
    if s.len() > 0 {
        let p = s.drop_last();
        if check_run(db, p, form, false).0 == IsNormalized::No {
            lemma_no_run(db, p, form);
            let i = choose|i: int| 0 <= i < p.len() && db.quick_flag_of(#[trigger] p[i], form)
                == IsNormalized::No;
            assert(s[i] == p[i]);
        } else {
            assert(db.quick_flag_of(s[s.len() - 1], form) == IsNormalized::No);
        }
    }
}

/// The database's quick-check values for `form` are `No` only on characters
/// with a mapping in the matching decomposition.
pub open spec fn no_flags_mapped(db: &CharacterDatabase, form: Form, compat: bool) -> bool {
    forall|c: char|
        db.quick_flag_of(c, form) == IsNormalized::No ==> (#[trigger] db.one_step(c, compat, false))
            is Some
}

/// Quick-check soundness for the decomposed forms, the other way: where
/// `No` flags fall only on mapped characters and the mappings reach atomic
/// characters within the depth bound, a `No` from the quick check (without
/// the stream-safe bound) means that NFD (or NFKD) changes the text.
pub proof fn lemma_quick_no_decomposed(db: &CharacterDatabase, s: Seq<char>, compat: bool)
    requires
        no_flags_mapped(db, decomposed_form(compat), compat),
        expansions_atomic(db, compat, false),
        quick_check_of(db, s, decomposed_form(compat), false) == IsNormalized::No,
    ensures
        decomposed(db, s, compat, false) != s,
{
    lemma_no_run(db, s, decomposed_form(compat));
    let i = choose|i: int| 0 <= i < s.len() && db.quick_flag_of(#[trigger] s[i], decomposed_form(compat))
        == IsNormalized::No;
    assert(db.one_step(s[i], compat, false) is Some);
    let x = expand_all(db, s, compat, false, DECOMPOSITION_DEPTH as nat);
    lemma_expand_all_atomic(db, s, compat, false);
    lemma_reorder_keeps(db, x, compat, false);
    let d = reorder(db, x);
    if d == s {
        assert(db.one_step(d[i], compat, false) is None);
    }
}

pub open spec fn composed_form(compat: bool) -> Form {
    if compat {
        Form::Nfkc
    } else {
        Form::Nfc
    }
}

/// The database's quick-check values for `form` are `No` only on characters
/// that have a mapping and are no composite.
pub open spec fn no_flags_unproducible(db: &CharacterDatabase, form: Form, compat: bool, ext: bool) -> bool {
    forall|c: char|
        db.quick_flag_of(c, form) == IsNormalized::No ==> !(#[trigger] producible(db, c, compat, ext))
}

/// Quick-check soundness for the composed forms, for `No`: where `No` flags
/// fall only on characters that have a mapping and are no composite, and the
/// mappings reach atomic characters within the depth bound, a `No` from the
/// quick check (without the stream-safe bound) means that NFC (or NFKC)
/// changes the text.
pub proof fn lemma_quick_no_composed(db: &CharacterDatabase, s: Seq<char>, compat: bool)
    requires
        no_flags_unproducible(db, composed_form(compat), compat, false),
        expansions_atomic(db, compat, false),
        quick_check_of(db, s, composed_form(compat), false) == IsNormalized::No,
    ensures
        recomposed(db, s, compat, false) != s,
{
    lemma_no_run(db, s, composed_form(compat));
    let i = choose|i: int| 0 <= i < s.len() && db.quick_flag_of(#[trigger] s[i], composed_form(compat))
        == IsNormalized::No;
    assert(!producible(db, s[i], compat, false));
    let x = expand_all(db, s, compat, false, DECOMPOSITION_DEPTH as nat);
    lemma_expand_all_atomic(db, s, compat, false);
    lemma_reorder_keeps(db, x, compat, false);
    let d = reorder(db, x);
    lemma_composed_producible(db, d, compat, false);
    if composed(db, d) == s {
        assert(producible(db, composed(db, d)[i], compat, false));
    }
}

fn same_chars(a: &Vec<char>, b: &Vec<char>) -> (r: bool)
    ensures
        r == (a@ == b@),
{
    if a.len() != b.len() {
        return false;
    }
    let mut i: usize = 0;
    while i < a.len()
        invariant
            a@.len() == b@.len(),
            i <= a@.len(),
            forall|j: int| 0 <= j < i ==> a@[j] == b@[j],
        decreases a.len() - i,
    {
        if a[i] != b[i] {
            return false;
        }
        i = i + 1;
    }
    assert(a@ =~= b@);
    true
}

/// The answer of the quick check where it is decided, else whether `full`
/// leaves `s` unchanged.
pub open spec fn settled(quick: IsNormalized, s: Seq<char>, full: Seq<char>) -> bool {
    match quick {
        IsNormalized::Yes => true,
        IsNormalized::No => false,
        IsNormalized::Maybe => full == s,
    }
}

pub fn is_nfc_quick(db: &CharacterDatabase, s: &Vec<char>) -> (r: IsNormalized)
    requires
        db.well_formed(),
    ensures
        r == quick_check_of(db, s@, Form::Nfc, false),
{
    quick_check(db, s, Form::Nfc, false)
}

pub fn is_nfkc_quick(db: &CharacterDatabase, s: &Vec<char>) -> (r: IsNormalized)
    requires
        db.well_formed(),
    ensures
        r == quick_check_of(db, s@, Form::Nfkc, false),
{
    quick_check(db, s, Form::Nfkc, false)
}

pub fn is_nfd_quick(db: &CharacterDatabase, s: &Vec<char>) -> (r: IsNormalized)
    requires
        db.well_formed(),
    ensures
        r == quick_check_of(db, s@, Form::Nfd, false),
{
    quick_check(db, s, Form::Nfd, false)
}

pub fn is_nfkd_quick(db: &CharacterDatabase, s: &Vec<char>) -> (r: IsNormalized)
    requires
        db.well_formed(),
    ensures
        r == quick_check_of(db, s@, Form::Nfkd, false),
{
    quick_check(db, s, Form::Nfkd, false)
}

pub fn is_nfc_stream_safe_quick(db: &CharacterDatabase, s: &Vec<char>) -> (r: IsNormalized)
    requires
        db.well_formed(),
    ensures
        r == quick_check_of(db, s@, Form::Nfc, true),
{
    quick_check(db, s, Form::Nfc, true)
}

pub fn is_nfd_stream_safe_quick(db: &CharacterDatabase, s: &Vec<char>) -> (r: IsNormalized)
    requires
        db.well_formed(),
    ensures
        r == quick_check_of(db, s@, Form::Nfd, true),
{
    quick_check(db, s, Form::Nfd, true)
}

/// Whether `s` is in NFC: the quick check, falling back to a full
/// normalization when it answers `Maybe`.
pub fn is_nfc(db: &CharacterDatabase, s: &Vec<char>) -> (r: bool)
    requires
        db.well_formed(),
    ensures
        r == settled(quick_check_of(db, s@, Form::Nfc, false), s@, recomposed(db, s@, false, false)),
{
    match quick_check(db, s, Form::Nfc, false) {
        IsNormalized::Yes => true,
        IsNormalized::No => false,
        IsNormalized::Maybe => same_chars(&recompose_sequence(db, s, false, false), s),
    }
}

/// Whether `s` is in NFKC, as `is_nfc` decides it.
pub fn is_nfkc(db: &CharacterDatabase, s: &Vec<char>) -> (r: bool)
    requires
        db.well_formed(),
    ensures
        r == settled(quick_check_of(db, s@, Form::Nfkc, false), s@, recomposed(db, s@, true, false)),
{
    match quick_check(db, s, Form::Nfkc, false) {
        IsNormalized::Yes => true,
        IsNormalized::No => false,
        IsNormalized::Maybe => same_chars(&recompose_sequence(db, s, true, false), s),
    }
}

/// Whether `s` is in NFD, as `is_nfc` decides it.
pub fn is_nfd(db: &CharacterDatabase, s: &Vec<char>) -> (r: bool)
    requires
        db.well_formed(),
    ensures
        r == settled(quick_check_of(db, s@, Form::Nfd, false), s@, decomposed(db, s@, false, false)),
{
    match quick_check(db, s, Form::Nfd, false) {
        IsNormalized::Yes => true,
        IsNormalized::No => false,
        IsNormalized::Maybe => same_chars(&decompose_sequence(db, s, false, false), s),
    }
}

/// Whether `s` is in NFKD, as `is_nfc` decides it.
pub fn is_nfkd(db: &CharacterDatabase, s: &Vec<char>) -> (r: bool)
    requires
        db.well_formed(),
    ensures
        r == settled(quick_check_of(db, s@, Form::Nfkd, false), s@, decomposed(db, s@, true, false)),
{
    match quick_check(db, s, Form::Nfkd, false) {
        IsNormalized::Yes => true,
        IsNormalized::No => false,
        IsNormalized::Maybe => same_chars(&decompose_sequence(db, s, true, false), s),
    }
}

/// Whether `s` is in NFC and stream-safe: the stream-safe quick check,
/// falling back to normalizing and applying the stream-safe process.
pub fn is_nfc_stream_safe(db: &CharacterDatabase, s: &Vec<char>) -> (r: bool)
    requires
        db.well_formed(),
    ensures
        r == settled(
            quick_check_of(db, s@, Form::Nfc, true),
            s@,
            stream_safe_of(db, recomposed(db, s@, false, false)),
        ),
{
    match quick_check(db, s, Form::Nfc, true) {
        IsNormalized::Yes => true,
        IsNormalized::No => false,
        IsNormalized::Maybe => same_chars(
            &stream_safe(db, &recompose_sequence(db, s, false, false)),
            s,
        ),
    }
}

/// Whether `s` is in NFD and stream-safe, as `is_nfc_stream_safe` decides it.
pub fn is_nfd_stream_safe(db: &CharacterDatabase, s: &Vec<char>) -> (r: bool)
    requires
        db.well_formed(),
    ensures
        r == settled(
            quick_check_of(db, s@, Form::Nfd, true),
            s@,
            stream_safe_of(db, decomposed(db, s@, false, false)),
        ),
{
    match quick_check(db, s, Form::Nfd, true) {
        IsNormalized::Yes => true,
        IsNormalized::No => false,
        IsNormalized::Maybe => same_chars(
            &stream_safe(db, &decompose_sequence(db, s, false, false)),
            s,
        ),
    }
}

} // verus!
