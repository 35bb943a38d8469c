//! The stream-safe text process: no run of non-starters grows past a fixed
//! bound, a combining grapheme joiner being inserted where it would.
use vstd::prelude::*;
use crate::tables::{CharacterDatabase, StreamSafeClass};

verus! {

/// The longest run of non-starters that stream-safe text may hold.
pub const MAX_NONSTARTERS: u32 = 30;

/// U+034F COMBINING GRAPHEME JOINER.
pub const COMBINING_GRAPHEME_JOINER: char = '\u{34F}';

/// The length of the current run of non-starters after `c`, when it was `n`
/// before: a starter ends the run, an extending character leaves it as it is.
pub open spec fn count_after(db: &CharacterDatabase, n: nat, c: char) -> nat {
    match db.stream_class_of(c) {
        StreamSafeClass::Starter => 0,
        StreamSafeClass::NonStarter => n + 1,
        StreamSafeClass::Extend => n,
    }
}

/// Whether `c` would make a run of `n` non-starters too long.
pub open spec fn needs_joiner(db: &CharacterDatabase, n: nat, c: char) -> bool {
    db.stream_class_of(c) == StreamSafeClass::NonStarter && n + 1 > MAX_NONSTARTERS
}

/// The length of the run of non-starters at the end of `s`.
pub open spec fn run_count(db: &CharacterDatabase, s: Seq<char>) -> nat
    decreases s.len(),
{
    if s.len() == 0 {
        0
    } else {
        count_after(db, run_count(db, s.drop_last()), s.last())
    }
}

/// No prefix of `s` ends in a run of more than `MAX_NONSTARTERS` non-starters.
pub open spec fn is_stream_safe(db: &CharacterDatabase, s: Seq<char>) -> bool {
    forall|i: int| 0 <= i <= s.len() ==> #[trigger] run_count(db, s.subrange(0, i)) <= MAX_NONSTARTERS
}

/// The output for `s` and the length of the run it ends with; after an
/// inserted joiner the run counts the character that follows it.
pub open spec fn safe_run(db: &CharacterDatabase, s: Seq<char>) -> (Seq<char>, nat)
    decreases s.len(),
{
    if s.len() == 0 {
        (Seq::empty(), 0)
    } else {
        let (out, n) = safe_run(db, s.drop_last());
        let c = s.last();
        if needs_joiner(db, n, c) {
            (out.push(COMBINING_GRAPHEME_JOINER).push(c), 1)
        } else {
            (out.push(c), count_after(db, n, c))
        }
    }
}

pub open spec fn stream_safe_of(db: &CharacterDatabase, s: Seq<char>) -> Seq<char> {
    safe_run(db, s).0
}

/// Applies the stream-safe text process to `s`.
pub fn stream_safe(db: &CharacterDatabase, s: &Vec<char>) -> (r: Vec<char>)
    requires
        db.well_formed(),
    ensures
        r@ == stream_safe_of(db, s@),
{
    let mut out: Vec<char> = Vec::new();
    let mut n: u32 = 0;
    let mut i: usize = 0;
    assert(s@.subrange(0, 0) =~= Seq::<char>::empty());
    while i < s.len()
        invariant
            db.well_formed(),
            i <= s@.len(),
            n <= MAX_NONSTARTERS,
            (out@, n as nat) == safe_run(db, s@.subrange(0, i as int)),
        decreases s.len() - i,
    {
        let c = s[i];
        assert(s@.subrange(0, i + 1).drop_last() == s@.subrange(0, i as int));
        match db.stream_safe_class(c) {
            StreamSafeClass::NonStarter => {
                if n + 1 > MAX_NONSTARTERS {
                    out.push(COMBINING_GRAPHEME_JOINER);
                    out.push(c);
                    n = 1;
                } else {
                    out.push(c);
                    n = n + 1;
                }
            },
            StreamSafeClass::Starter => {
                out.push(c);
                n = 0;
            },
            StreamSafeClass::Extend => {
                out.push(c);
            },
        }
        i = i + 1;
    }
    assert(s@.subrange(0, s@.len() as int) == s@);
    out
}

proof fn lemma_safe_run_count(db: &CharacterDatabase, s: Seq<char>)
    requires
        db.stream_class_of(COMBINING_GRAPHEME_JOINER) == StreamSafeClass::Starter,
    ensures
        run_count(db, safe_run(db, s).0) == safe_run(db, s).1,
        safe_run(db, s).1 <= MAX_NONSTARTERS,
        is_stream_safe(db, safe_run(db, s).0),
    decreases s.len(),
{
    if s.len() > 0 {
        let (out, n) = safe_run(db, s.drop_last());
        let c = s.last();
        lemma_safe_run_count(db, s.drop_last());
        let r = safe_run(db, s).0;
        if needs_joiner(db, n, c) {
            let j = out.push(COMBINING_GRAPHEME_JOINER);
            assert(r.drop_last() == j);
            assert(j.drop_last() == out);
            assert(j.last() == COMBINING_GRAPHEME_JOINER);
            assert(run_count(db, j) == 0);
            assert(run_count(db, r) == 1);
            assert forall|i: int| 0 <= i <= r.len() implies #[trigger] run_count(
                db,
                r.subrange(0, i),
            ) <= MAX_NONSTARTERS by {
                if i == r.len() {
                    assert(r.subrange(0, i) == r);
                } else if i == j.len() {
                    assert(r.subrange(0, i) == j);
                } else {
                    assert(r.subrange(0, i) == out.subrange(0, i));
                }
            }
        } else {
            assert(r.drop_last() == out);
            assert forall|i: int| 0 <= i <= r.len() implies #[trigger] run_count(
                db,
                r.subrange(0, i),
            ) <= MAX_NONSTARTERS by {
                if i == r.len() {
                    assert(r.subrange(0, i) == r);
                } else {
                    assert(r.subrange(0, i) == out.subrange(0, i));
                }
            }
        }
    }
}

proof fn lemma_safe_run_fixed(db: &CharacterDatabase, t: Seq<char>)
    requires
        is_stream_safe(db, t),
    ensures
        safe_run(db, t) == (t, run_count(db, t)),
    decreases t.len(),
{
    if t.len() > 0 {
        let p = t.drop_last();
        assert forall|i: int| 0 <= i <= p.len() implies #[trigger] run_count(db, p.subrange(0, i))
            <= MAX_NONSTARTERS by {
            assert(p.subrange(0, i) == t.subrange(0, i));
        }
        lemma_safe_run_fixed(db, p);
        assert(t.subrange(0, t.len() as int) == t);
        assert(p.push(t.last()) == t);
    }
}

/// Stream safety: where the joiner counts as a starter, the output never
/// holds a run of more than `MAX_NONSTARTERS` non-starters, and applying the
/// process to its own output changes nothing.
pub proof fn lemma_stream_safe(db: &CharacterDatabase, s: Seq<char>)
    requires
        db.stream_class_of(COMBINING_GRAPHEME_JOINER) == StreamSafeClass::Starter,
    ensures
        is_stream_safe(db, stream_safe_of(db, s)),
        stream_safe_of(db, stream_safe_of(db, s)) == stream_safe_of(db, s),
{
    lemma_safe_run_count(db, s);
    lemma_safe_run_fixed(db, stream_safe_of(db, s));
}

} // verus!
