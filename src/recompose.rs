//! Canonical composition of decomposed text, under the blocking rule.
use vstd::prelude::*;
use crate::tables::CharacterDatabase;
use crate::decompose::{
    all_atomic, canonically_ordered, decompose_sequence, decomposed, expand, expand_all,
    expansions_atomic, insert_mark, lemma_decomposed_idempotent, lemma_expand_all_atomic,
    lemma_expand_all_fixed, lemma_reorder_keeps, lemma_reorder_ordered_fixed, order_step, reorder,
    DECOMPOSITION_DEPTH,
};

verus! {

/// The composer's state after some input: the output so far, the position in
/// it of the pending starter, and the class of the last character kept after
/// that starter (none while the starter is the last character).
pub type ComposeState = (Seq<char>, Option<int>, Option<u8>);

/// Whether a character of class `k` can reach the pending starter: nothing
/// stands between them, or what stands there last has a smaller class.
pub open spec fn unblocked(last: Option<u8>, k: u8) -> bool {
    match last {
        None => true,
        Some(l) => l < k,
    }
}

pub open spec fn compose_step(db: &CharacterDatabase, st: ComposeState, c: char) -> ComposeState {
    let (out, starter, last) = st;
    let k = db.class_of(c);
    match starter {
        Some(p) => if unblocked(last, k) && db.composite_of(out[p], c) is Some {
            (out.update(p, db.composite_of(out[p], c)->0), starter, last)
        } else if k == 0 {
            (out.push(c), Some(out.len() as int), None)
        } else {
            (out.push(c), starter, Some(k))
        },
        None => if k == 0 {
            (out.push(c), Some(out.len() as int), None)
        } else {
            (out.push(c), None, Some(k))
        },
    }
}

pub open spec fn compose_run(db: &CharacterDatabase, s: Seq<char>) -> ComposeState
    decreases s.len(),
{
    if s.len() == 0 {
        (Seq::empty(), None, None)
    } else {
        compose_step(db, compose_run(db, s.drop_last()), s.last())
    }
}

/// `s` with every unblocked mark (or adjacent starter) merged into the pending
/// starter wherever the pair has a composite.
pub open spec fn composed(db: &CharacterDatabase, s: Seq<char>) -> Seq<char> {
    compose_run(db, s).0
}

/// NFC for `(false, false)`, NFKC for `(true, false)`, and their extended
/// variants.
pub open spec fn recomposed(db: &CharacterDatabase, s: Seq<char>, compat: bool, ext: bool) -> Seq<
    char,
> {
    composed(db, decomposed(db, s, compat, ext))
}

pub open spec fn opt_int(o: Option<usize>) -> Option<int> {
    match o {
        Some(p) => Some(p as int),
        None => None,
    }
}

proof fn lemma_starter_in_range(db: &CharacterDatabase, s: Seq<char>)
    ensures
        compose_run(db, s).1 matches Some(p) ==> 0 <= p < compose_run(db, s).0.len(),
    decreases s.len(),
{
    if s.len() > 0 {
        lemma_starter_in_range(db, s.drop_last());
    }
}

/// Canonical equivalence: composing the decomposition of `s` gives the same
/// as composing `s` (NFC of NFD is NFC; likewise NFKC of NFKD), for a
/// database whose mappings reach atomic characters within the depth bound.
pub proof fn lemma_recomposed_of_decomposed(db: &CharacterDatabase, s: Seq<char>, compat: bool, ext: bool)
    requires
        expansions_atomic(db, compat, ext),
    ensures
        recomposed(db, decomposed(db, s, compat, ext), compat, ext) == recomposed(db, s, compat, ext),
{
    lemma_decomposed_idempotent(db, s, compat, ext);
}

/// Every composite expands to the expansion of its starter followed by that
/// of the character merged into it.
pub open spec fn composites_agree(db: &CharacterDatabase, compat: bool, ext: bool) -> bool {
    forall|a: char, b: char|
        (#[trigger] db.composite_of(a, b)) matches Some(x) ==> expand(
            db,
            x,
            compat,
            ext,
            DECOMPOSITION_DEPTH as nat,
        ) == expand(db, a, compat, ext, DECOMPOSITION_DEPTH as nat) + expand(
            db,
            b,
            compat,
            ext,
            DECOMPOSITION_DEPTH as nat,
        )
}

/// A mark of class `k` fits under the class of the last kept character.
pub open spec fn under_last(last: Option<u8>, k: u8) -> bool {
    match last {
        Some(l) => 0 < k <= l,
        None => false,
    }
}

/// The class of the last kept character is at most `k`.
pub open spec fn last_at_most(last: Option<u8>, k: u8) -> bool {
    match last {
        Some(l) => 0 < l <= k,
        None => true,
    }
}

proof fn lemma_swap_marks(db: &CharacterDatabase, r: Seq<char>, c: char, m: char)
    requires
        0 < db.class_of(m) < db.class_of(c),
    ensures
        insert_mark(db, insert_mark(db, r, c), m) == insert_mark(db, insert_mark(db, r, m), c),
    decreases r.len(),
{
    let (kc, km) = (db.class_of(c), db.class_of(m));
    if r.len() == 0 {
        assert(insert_mark(db, r, c) == seq![c]);
        assert(seq![c].drop_last() == r);
        assert(insert_mark(db, r, m) == seq![m]);
        assert(seq![m].drop_last() == r);
        assert(insert_mark(db, seq![c], m) == r.push(m).push(c));
    } else {
        let p = r.drop_last();
        let x = r.last();
        let kx = db.class_of(x);
        if kx > kc {
            lemma_swap_marks(db, p, c, m);
            let a = insert_mark(db, p, c);
            let b = insert_mark(db, p, m);
            assert(a.push(x).drop_last() == a && b.push(x).drop_last() == b);
        } else if kx > km {
            let b = insert_mark(db, p, m);
            assert(insert_mark(db, r, c) == r.push(c));
            assert(r.push(c).drop_last() == r);
            assert(b.push(x).drop_last() == b);
        } else {
            assert(insert_mark(db, r, c) == r.push(c));
            assert(r.push(c).drop_last() == r);
            assert(r.push(m).drop_last() == r);
        }
    }
}

proof fn lemma_reorder_past_marks(db: &CharacterDatabase, a: Seq<char>, c: char, ms: Seq<char>)
    requires
        db.class_of(c) > 0,
        forall|q: int| 0 <= q < ms.len() ==> 0 < #[trigger] db.class_of(ms[q]) < db.class_of(c),
    ensures
        reorder(db, a + seq![c] + ms) == insert_mark(db, reorder(db, a + ms), c),
    decreases ms.len(),
{
    if ms.len() == 0 {
        assert(a + seq![c] + ms == a.push(c));
        assert(a.push(c).drop_last() == a);
        assert(a + ms == a);
    } else {
        let mp = ms.drop_last();
        let m = ms.last();
        lemma_reorder_past_marks(db, a, c, mp);
        assert((a + seq![c] + ms).drop_last() == a + seq![c] + mp);
        assert((a + ms).drop_last() == a + mp);
        assert(db.class_of(ms[ms.len() - 1]) > 0);
        lemma_swap_marks(db, reorder(db, a + mp), c, m);
    }
}

proof fn lemma_expand_all_concat(
    db: &CharacterDatabase,
    x: Seq<char>,
    y: Seq<char>,
    compat: bool,
    ext: bool,
)
    ensures
        expand_all(db, x + y, compat, ext, DECOMPOSITION_DEPTH as nat) == expand_all(
            db,
            x,
            compat,
            ext,
            DECOMPOSITION_DEPTH as nat,
        ) + expand_all(db, y, compat, ext, DECOMPOSITION_DEPTH as nat),
    decreases y.len(),
{
    if y.len() == 0 {
        assert(x + y == x);
    } else {
        lemma_expand_all_concat(db, x, y.drop_last(), compat, ext);
        assert((x + y).drop_last() == x + y.drop_last());
    }
}

/// The invariant of a composer run over decomposed text: after the pending
/// starter stand only atomic marks whose classes the last one bounds.
pub open spec fn kept_marks(
    db: &CharacterDatabase,
    out: Seq<char>,
    p: int,
    last: Option<u8>,
    compat: bool,
    ext: bool,
) -> bool {
    &&& 0 <= p < out.len()
    &&& last is None ==> p == out.len() - 1
    &&& forall|q: int|
        p < q < out.len() ==> db.one_step(#[trigger] out[q], compat, ext) is None && under_last(
            last,
            db.class_of(out[q]),
        )
}

proof fn lemma_merge_step(
    db: &CharacterDatabase,
    out: Seq<char>,
    p: int,
    last: Option<u8>,
    c: char,
    compat: bool,
    ext: bool,
)
    requires
        kept_marks(db, out, p, last, compat, ext),
        composites_agree(db, compat, ext),
        db.one_step(c, compat, ext) is None,
        unblocked(last, db.class_of(c)),
        db.composite_of(out[p], c) is Some,
    ensures
        kept_marks(db, out.update(p, db.composite_of(out[p], c)->0), p, last, compat, ext),
        reorder(
            db,
            expand_all(
                db,
                out.update(p, db.composite_of(out[p], c)->0),
                compat,
                ext,
                DECOMPOSITION_DEPTH as nat,
            ),
        ) == reorder(db, expand_all(db, out, compat, ext, DECOMPOSITION_DEPTH as nat).push(c)),
{
    let fuel = DECOMPOSITION_DEPTH as nat;
    let x = db.composite_of(out[p], c)->0;
    assert(expand(db, c, compat, ext, fuel) == seq![c]);
    let e = expand_all(db, out, compat, ext, fuel);
    let out2 = out.update(p, x);
    let head = out.subrange(0, p);
    let ms = out.subrange(p + 1, out.len() as int);
    assert(out == head.push(out[p]) + ms);
    assert(out2 == head.push(x) + ms);
    assert(all_atomic(db, ms, compat, ext)) by {
        assert forall|q: int| 0 <= q < ms.len() implies (#[trigger] db.one_step(ms[q], compat, ext))
            is None by {
            assert(ms[q] == out[p + 1 + q]);
        }
    }
    lemma_expand_all_fixed(db, ms, compat, ext);
    lemma_expand_all_concat(db, head.push(out[p]), ms, compat, ext);
    lemma_expand_all_concat(db, head.push(x), ms, compat, ext);
    let a = expand_all(db, head.push(out[p]), compat, ext, fuel);
    assert(head.push(out[p]).drop_last() == head);
    assert(head.push(x).drop_last() == head);
    assert(expand_all(db, head.push(x), compat, ext, fuel) == a + seq![c]);
    assert(e == a + ms);
    assert(expand_all(db, out2, compat, ext, fuel) == a + seq![c] + ms);
    if ms.len() == 0 {
        assert(a + seq![c] + ms == e.push(c));
    } else {
        assert(out[p + 1] == ms[0]);
        assert forall|q: int| 0 <= q < ms.len() implies 0 < #[trigger] db.class_of(ms[q]) < db.class_of(
            c,
        ) by {
            assert(ms[q] == out[p + 1 + q]);
        }
        lemma_reorder_past_marks(db, a, c, ms);
        assert(a + ms + seq![c] == e.push(c));
        assert(e.push(c).drop_last() == e);
    }
    assert forall|q: int| p < q < out2.len() implies db.one_step(#[trigger] out2[q], compat, ext)
        is None && under_last(last, db.class_of(out2[q])) by {
        assert(out2[q] == out[q]);
    }
}

proof fn lemma_compose_run_decomposes(
    db: &CharacterDatabase,
    d: Seq<char>,
    i: int,
    compat: bool,
    ext: bool,
)
    requires
        all_atomic(db, d, compat, ext),
        canonically_ordered(db, d),
        composites_agree(db, compat, ext),
        0 <= i <= d.len(),
    ensures
        ({
            let (out, st, last) = compose_run(db, d.subrange(0, i));
            &&& reorder(db, expand_all(db, out, compat, ext, DECOMPOSITION_DEPTH as nat)) == reorder(
                db,
                d.subrange(0, i),
            )
            &&& st matches Some(p) ==> kept_marks(db, out, p, last, compat, ext)
            &&& i > 0 ==> last_at_most(last, db.class_of(d[i - 1]))
        }),
    decreases i,
{
    if i > 0 {
        lemma_compose_run_decomposes(db, d, i - 1, compat, ext);
        let pre = d.subrange(0, i - 1);
        assert(d.subrange(0, i).drop_last() == pre);
        let (out, st, last) = compose_run(db, pre);
        let c = d[i - 1];
        let k = db.class_of(c);
        let fuel = DECOMPOSITION_DEPTH as nat;
        assert(db.one_step(c, compat, ext) is None);
        assert(expand(db, c, compat, ext, fuel) == seq![c]);
        let e = expand_all(db, out, compat, ext, fuel);
        assert(reorder(db, e.push(c)) == order_step(db, reorder(db, e), c)) by {
            assert(e.push(c).drop_last() == e);
        }
        assert(reorder(db, d.subrange(0, i)) == order_step(db, reorder(db, pre), c));
        assert(expand_all(db, out.push(c), compat, ext, fuel) == e.push(c)) by {
            assert(out.push(c).drop_last() == out);
            assert(e + seq![c] == e.push(c));
        }
        if i > 1 {
            assert(!(db.class_of(d[i - 2]) > db.class_of(d[i - 2 + 1]) && db.class_of(d[i - 2 + 1]) > 0));
        }
        match st {
            Some(p) => {
                if unblocked(last, k) && db.composite_of(out[p], c) is Some {
                    lemma_merge_step(db, out, p, last, c, compat, ext);
                } else if k == 0 {
                } else {
                    let out2 = out.push(c);
                    assert forall|q: int| p < q < out2.len() implies db.one_step(
                        #[trigger] out2[q],
                        compat,
                        ext,
                    ) is None && under_last(Some(k), db.class_of(out2[q])) by {
                        if q < out.len() {
                            assert(out2[q] == out[q]);
                        }
                    }
                }
            },
            None => {},
        }
    }
}

/// Decomposition stability: decomposing the composed form gives the
/// decomposed form (NFD of NFC is NFD; likewise NFKD of NFKC), for a database
/// whose mappings reach atomic characters within the depth bound and whose
/// composites expand to what they were composed from.
pub proof fn lemma_decomposed_of_recomposed(db: &CharacterDatabase, s: Seq<char>, compat: bool, ext: bool)
    requires
        expansions_atomic(db, compat, ext),
        composites_agree(db, compat, ext),
    ensures
        decomposed(db, recomposed(db, s, compat, ext), compat, ext) == decomposed(db, s, compat, ext),
{
    let x = expand_all(db, s, compat, ext, DECOMPOSITION_DEPTH as nat);
    let d = reorder(db, x);
    lemma_expand_all_atomic(db, s, compat, ext);
    lemma_reorder_keeps(db, x, compat, ext);
    lemma_compose_run_decomposes(db, d, d.len() as int, compat, ext);
    assert(d.subrange(0, d.len() as int) == d);
    lemma_reorder_ordered_fixed(db, d);
}

/// Composing twice is composing once (NFC, NFKC and their extended
/// variants), under the conditions of `lemma_decomposed_of_recomposed`.
pub proof fn lemma_recomposed_idempotent(db: &CharacterDatabase, s: Seq<char>, compat: bool, ext: bool)
    requires
        expansions_atomic(db, compat, ext),
        composites_agree(db, compat, ext),
    ensures
        recomposed(db, recomposed(db, s, compat, ext), compat, ext) == recomposed(db, s, compat, ext),
{
    lemma_decomposed_of_recomposed(db, s, compat, ext);
}

/// `y` can stand in composed text: it has no mapping, or it is a composite.
pub open spec fn producible(db: &CharacterDatabase, y: char, compat: bool, ext: bool) -> bool {
    db.one_step(y, compat, ext) is None || exists|a: char, b: char| #[trigger] db.composite_of(a, b) == Some(y)
}

/// Composing text without mapped characters yields only producible ones.
pub proof fn lemma_composed_producible(db: &CharacterDatabase, d: Seq<char>, compat: bool, ext: bool)
    requires
        all_atomic(db, d, compat, ext),
    ensures
        forall|q: int|
            0 <= q < composed(db, d).len() ==> producible(db, #[trigger] composed(db, d)[q], compat, ext),
    decreases d.len(),
{
    if d.len() > 0 {
        let p = d.drop_last();
        assert forall|i: int| 0 <= i < p.len() implies (#[trigger] db.one_step(p[i], compat, ext)) is None by {
            assert(p[i] == d[i]);
        }
        lemma_composed_producible(db, p, compat, ext);
        let (out, st, last) = compose_run(db, p);
        let c = d.last();
        assert(db.one_step(d[d.len() - 1], compat, ext) is None);
        lemma_starter_in_range(db, p);
        let r = composed(db, d);
        assert forall|q: int| 0 <= q < r.len() implies producible(db, #[trigger] r[q], compat, ext) by {
            if q < out.len() && r[q] == out[q] {
                assert(composed(db, p) == out);
                assert(producible(db, composed(db, p)[q], compat, ext));
            } else if r[q] == c {
            } else {
                let pp = st->0;
                assert(r[q] == db.composite_of(out[pp], c)->0);
                assert(db.composite_of(out[pp], c) == Some(r[q]));
            }
        }
    }
}

/// Composes already decomposed, canonically ordered text.
pub fn compose_sequence(db: &CharacterDatabase, s: &Vec<char>) -> (r: Vec<char>)
    requires
        db.well_formed(),
    ensures
        r@ == composed(db, s@),
{
    let mut out: Vec<char> = Vec::new();
    let mut starter: Option<usize> = None;
    let mut last: Option<u8> = None;
    let mut i: usize = 0;
    assert(s@.subrange(0, 0) =~= Seq::<char>::empty());
    while i < s.len()
        invariant
            db.well_formed(),
            i <= s@.len(),
            (out@, opt_int(starter), last) == compose_run(db, s@.subrange(0, i as int)),
        decreases s.len() - i,
    {
        let c = s[i];
        let k = db.combining_class(c);
        proof {
            lemma_starter_in_range(db, s@.subrange(0, i as int));
            assert(s@.subrange(0, i + 1).drop_last() == s@.subrange(0, i as int));
        }
        let mut merged = false;
        if let Some(p) = starter {
            let free = match last {
                None => true,
                Some(l) => l < k,
            };
            if free {
                if let Some(x) = db.compose(out[p], c) {
                    out.set(p, x);
                    merged = true;
                }
            }
        }
        if !merged {
            if k == 0 {
                starter = Some(out.len());
                last = None;
            } else {
                last = Some(k);
            }
            out.push(c);
        }
        i = i + 1;
    }
    assert(s@.subrange(0, s@.len() as int) == s@);
    out
}

/// Decomposes `s` and composes the result: NFC for `(false, false)`, NFKC for
/// `(true, false)`, and their extended variants.
pub fn recompose_sequence(db: &CharacterDatabase, s: &Vec<char>, compat: bool, ext: bool) -> (r: Vec<
    char,
>)
    requires
        db.well_formed(),
    ensures
        r@ == recomposed(db, s@, compat, ext),
{
    let d = decompose_sequence(db, s, compat, ext);
    compose_sequence(db, &d)
}

} // verus!
