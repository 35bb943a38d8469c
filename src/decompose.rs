//! Canonical and compatibility decomposition, followed by canonical ordering
//! of combining-mark runs.
use vstd::prelude::*;
use tinyvec::TinyVec;
use crate::tables::CharacterDatabase;

verus! {

/// A run of combining marks not yet known to be final, kept inline while it
/// is short.
#[verifier::external_body]
pub struct MarkBuffer {
    marks: TinyVec<[(u8, char); 4]>,
}

/// What a buffer of pending marks holds, front to back: each mark with its
/// combining class.
pub uninterp spec fn pending_marks(v: MarkBuffer) -> Seq<(u8, char)>;

/// Relies on `TinyVec::new`: a new vec is empty.
#[verifier::external_body]
fn marks_new() -> (r: MarkBuffer)
    ensures
        pending_marks(r) == Seq::<(u8, char)>::empty(),
{
    MarkBuffer { marks: TinyVec::new() }
}

/// Relies on `TinyVec::len`: the number of elements.
#[verifier::external_body]
fn marks_len(v: &MarkBuffer) -> (r: usize)
    ensures
        r == pending_marks(*v).len(),
{
    v.marks.len()
}

/// Relies on `TinyVec`'s `Index<usize>`: the element at `i`.
#[verifier::external_body]
fn marks_get(v: &MarkBuffer, i: usize) -> (r: (u8, char))
    requires
        i < pending_marks(*v).len(),
    ensures
        r == pending_marks(*v)[i as int],
{
    v.marks[i]
}

/// Relies on `TinyVec::insert`: the element goes in at `i`, the later ones
/// move up by one.
#[verifier::external_body]
fn marks_insert(v: &mut MarkBuffer, i: usize, x: (u8, char))
    requires
        i <= pending_marks(*old(v)).len(),
    ensures
        pending_marks(*final(v)) == pending_marks(*old(v)).insert(i as int, x),
{
    v.marks.insert(i, x)
}

/// Relies on `TinyVec::clear`: the vec is left empty.
#[verifier::external_body]
fn marks_clear(v: &mut MarkBuffer)
    ensures
        pending_marks(*final(v)) == Seq::<(u8, char)>::empty(),
{
    v.marks.clear()
}

/// How many levels of one-step decomposition are followed. The standard's
/// mappings need far fewer.
pub const DECOMPOSITION_DEPTH: u32 = 8;

/// `c` expanded by at most `fuel` levels of one-step decomposition.
pub open spec fn expand(db: &CharacterDatabase, c: char, compat: bool, ext: bool, fuel: nat) -> Seq<
    char,
>
    decreases fuel, 0nat,
{
    if fuel == 0 {
        seq![c]
    } else {
        match db.one_step(c, compat, ext) {
            Some(d) => expand_all(db, d, compat, ext, (fuel - 1) as nat),
            None => seq![c],
        }
    }
}

/// The expansions of the characters of `s`, concatenated.
pub open spec fn expand_all(
    db: &CharacterDatabase,
    s: Seq<char>,
    compat: bool,
    ext: bool,
    fuel: nat,
) -> Seq<char>
    decreases fuel, s.len(),
{
    if s.len() == 0 {
        Seq::empty()
    } else {
        expand_all(db, s.drop_last(), compat, ext, fuel) + expand(db, s.last(), compat, ext, fuel)
    }
}

/// `s` with the mark `c` appended and moved back over every mark of a
/// strictly greater class before it.
pub open spec fn insert_mark(db: &CharacterDatabase, s: Seq<char>, c: char) -> Seq<char>
    decreases s.len(),
{
    if s.len() > 0 && db.class_of(s.last()) > db.class_of(c) {
        insert_mark(db, s.drop_last(), c).push(s.last())
    } else {
        s.push(c)
    }
}

/// One step of canonical ordering: a starter is appended, a mark inserted.
pub open spec fn order_step(db: &CharacterDatabase, s: Seq<char>, c: char) -> Seq<char> {
    if db.class_of(c) == 0 {
        s.push(c)
    } else {
        insert_mark(db, s, c)
    }
}

/// Canonical ordering: a stable sort of each run of marks by combining class,
/// in which starters do not move.
pub open spec fn reorder(db: &CharacterDatabase, s: Seq<char>) -> Seq<char>
    decreases s.len(),
{
    if s.len() == 0 {
        s
    } else {
        order_step(db, reorder(db, s.drop_last()), s.last())
    }
}

/// The full decomposition of `s`, canonically ordered: NFD for
/// `(false, false)`, NFKD for `(true, false)`, and their extended variants.
pub open spec fn decomposed(db: &CharacterDatabase, s: Seq<char>, compat: bool, ext: bool) -> Seq<
    char,
> {
    reorder(db, expand_all(db, s, compat, ext, DECOMPOSITION_DEPTH as nat))
}

pub open spec fn mark_chars(b: Seq<(u8, char)>) -> Seq<char> {
    b.map_values(|p: (u8, char)| p.1)
}

pub open spec fn marks_ok(db: &CharacterDatabase, b: Seq<(u8, char)>) -> bool {
    forall|i: int| 0 <= i < b.len() ==> #[trigger] b[i].0 == db.class_of(b[i].1) && b[i].0 > 0
}

pub open spec fn ends_at_starter(db: &CharacterDatabase, s: Seq<char>) -> bool {
    s.len() == 0 || db.class_of(s.last()) == 0
}

proof fn lemma_insert_after_starter(db: &CharacterDatabase, a: Seq<char>, b: Seq<char>, c: char)
    requires
        ends_at_starter(db, a),
        db.class_of(c) > 0,
    ensures
        insert_mark(db, a + b, c) == a + insert_mark(db, b, c),
    decreases b.len(),
{
    if b.len() == 0 {
        assert(a + b == a);
        assert(a + b.push(c) == a.push(c));
    } else {
        assert((a + b).drop_last() == a + b.drop_last());
        lemma_insert_after_starter(db, a, b.drop_last(), c);
        assert(a + insert_mark(db, b.drop_last(), c).push(b.last()) == (a + insert_mark(
            db,
            b.drop_last(),
            c,
        )).push(b.last()));
    }
}

proof fn lemma_insert_at(db: &CharacterDatabase, b: Seq<char>, c: char, j: int)
    requires
        0 <= j <= b.len(),
        forall|i: int| j <= i < b.len() ==> db.class_of(#[trigger] b[i]) > db.class_of(c),
        j == 0 || db.class_of(b[j - 1]) <= db.class_of(c),
    ensures
        insert_mark(db, b, c) == b.insert(j, c),
    decreases b.len(),
{
    if b.len() > j {
        lemma_insert_at(db, b.drop_last(), c, j);
        assert(b.drop_last().insert(j, c).push(b.last()) =~= b.insert(j, c));
    } else {
        assert(b.push(c) =~= b.insert(j, c));
    }
}

/// No character of `s` has a further mapping.
pub open spec fn all_atomic(db: &CharacterDatabase, s: Seq<char>, compat: bool, ext: bool) -> bool {
    forall|i: int| 0 <= i < s.len() ==> (#[trigger] db.one_step(s[i], compat, ext)) is None
}

/// The database's mappings reach characters without a further mapping within
/// the depth bound, for every character.
pub open spec fn expansions_atomic(db: &CharacterDatabase, compat: bool, ext: bool) -> bool {
    forall|c: char| all_atomic(db, #[trigger] expand(db, c, compat, ext, DECOMPOSITION_DEPTH as nat), compat, ext)
}

/// No two neighbouring marks stand against canonical order.
pub open spec fn canonically_ordered(db: &CharacterDatabase, s: Seq<char>) -> bool {
    forall|i: int|
        0 <= i < s.len() - 1 ==> !(db.class_of(#[trigger] s[i]) > db.class_of(s[i + 1]) && db.class_of(
            s[i + 1],
        ) > 0)
}

pub proof fn lemma_expand_all_atomic(db: &CharacterDatabase, s: Seq<char>, compat: bool, ext: bool)
    requires
        expansions_atomic(db, compat, ext),
    ensures
        all_atomic(db, expand_all(db, s, compat, ext, DECOMPOSITION_DEPTH as nat), compat, ext),
    decreases s.len(),
{
    if s.len() > 0 {
        lemma_expand_all_atomic(db, s.drop_last(), compat, ext);
        let a = expand_all(db, s.drop_last(), compat, ext, DECOMPOSITION_DEPTH as nat);
        let b = expand(db, s.last(), compat, ext, DECOMPOSITION_DEPTH as nat);
        assert(all_atomic(db, b, compat, ext));
        assert forall|i: int| 0 <= i < (a + b).len() implies (#[trigger] db.one_step(
            (a + b)[i],
            compat,
            ext,
        )) is None by {
            if i < a.len() {
                assert((a + b)[i] == a[i]);
            } else {
                assert((a + b)[i] == b[i - a.len()]);
            }
        }
    }
}

proof fn lemma_insert_keeps(
    db: &CharacterDatabase,
    s: Seq<char>,
    c: char,
    compat: bool,
    ext: bool,
)
    requires
        db.class_of(c) > 0,
    ensures
        insert_mark(db, s, c).len() == s.len() + 1,
        all_atomic(db, s, compat, ext) && db.one_step(c, compat, ext) is None ==> all_atomic(
            db,
            insert_mark(db, s, c),
            compat,
            ext,
        ),
        canonically_ordered(db, s) ==> canonically_ordered(db, insert_mark(db, s, c)),
        insert_mark(db, s, c).last() == c || (s.len() > 0 && insert_mark(db, s, c).last()
            == s.last()),
    decreases s.len(),
{
    let r = insert_mark(db, s, c);
    if s.len() > 0 && db.class_of(s.last()) > db.class_of(c) {
        let p = s.drop_last();
        lemma_insert_keeps(db, p, c, compat, ext);
        let rp = insert_mark(db, p, c);
        assert(r == rp.push(s.last()));
        if all_atomic(db, s, compat, ext) && db.one_step(c, compat, ext) is None {
            assert forall|i: int| 0 <= i < p.len() implies (#[trigger] db.one_step(p[i], compat, ext)) is None by {
                assert(p[i] == s[i]);
            }
            assert forall|i: int| 0 <= i < r.len() implies (#[trigger] db.one_step(r[i], compat, ext)) is None by {
                if i < rp.len() {
                    assert(r[i] == rp[i]);
                } else {
                    assert(r[i] == s[s.len() - 1]);
                }
            }
        }
        if canonically_ordered(db, s) {
            assert forall|i: int| 0 <= i < p.len() - 1 implies !(db.class_of(#[trigger] p[i]) > db.class_of(
                p[i + 1],
            ) && db.class_of(p[i + 1]) > 0) by {
                assert(p[i] == s[i] && p[i + 1] == s[i + 1]);
            }
            assert forall|i: int| 0 <= i < r.len() - 1 implies !(db.class_of(#[trigger] r[i]) > db.class_of(
                r[i + 1],
            ) && db.class_of(r[i + 1]) > 0) by {
                if i < rp.len() - 1 {
                    assert(r[i] == rp[i] && r[i + 1] == rp[i + 1]);
                } else {
                    assert(r[i] == rp.last());
                    assert(r[i + 1] == s.last());
                    if rp.last() != c {
                        assert(s[s.len() - 2] == p.last());
                    }
                }
            }
        }
    } else {
        assert(r == s.push(c));
        if all_atomic(db, s, compat, ext) && db.one_step(c, compat, ext) is None {
            assert forall|i: int| 0 <= i < r.len() implies (#[trigger] db.one_step(r[i], compat, ext)) is None by {
                if i < s.len() {
                    assert(r[i] == s[i]);
                }
            }
        }
        if canonically_ordered(db, s) {
            assert forall|i: int| 0 <= i < r.len() - 1 implies !(db.class_of(#[trigger] r[i]) > db.class_of(
                r[i + 1],
            ) && db.class_of(r[i + 1]) > 0) by {
                if i < s.len() - 1 {
                    assert(r[i] == s[i] && r[i + 1] == s[i + 1]);
                }
            }
        }
    }
}

pub proof fn lemma_reorder_keeps(db: &CharacterDatabase, x: Seq<char>, compat: bool, ext: bool)
    ensures
        canonically_ordered(db, reorder(db, x)),
        all_atomic(db, x, compat, ext) ==> all_atomic(db, reorder(db, x), compat, ext),
    decreases x.len(),
{
    if x.len() > 0 {
        let p = x.drop_last();
        let c = x.last();
        lemma_reorder_keeps(db, p, compat, ext);
        let rp = reorder(db, p);
        if all_atomic(db, x, compat, ext) {
            assert forall|i: int| 0 <= i < p.len() implies (#[trigger] db.one_step(p[i], compat, ext)) is None by {
                assert(p[i] == x[i]);
            }
            assert(db.one_step(x[x.len() - 1], compat, ext) is None);
        }
        if db.class_of(c) == 0 {
            let r = rp.push(c);
            assert forall|i: int| 0 <= i < r.len() - 1 implies !(db.class_of(#[trigger] r[i]) > db.class_of(
                r[i + 1],
            ) && db.class_of(r[i + 1]) > 0) by {
                if i < rp.len() - 1 {
                    assert(r[i] == rp[i] && r[i + 1] == rp[i + 1]);
                }
            }
            if all_atomic(db, x, compat, ext) {
                assert forall|i: int| 0 <= i < r.len() implies (#[trigger] db.one_step(r[i], compat, ext)) is None by {
                    if i < rp.len() {
                        assert(r[i] == rp[i]);
                    }
                }
            }
        } else {
            lemma_insert_keeps(db, rp, c, compat, ext);
        }
    }
}

/// Canonical ordering leaves canonically ordered text unchanged.
pub proof fn lemma_reorder_ordered_fixed(db: &CharacterDatabase, d: Seq<char>)
    requires
        canonically_ordered(db, d),
    ensures
        reorder(db, d) == d,
    decreases d.len(),
{
    if d.len() > 0 {
        let p = d.drop_last();
        assert forall|i: int| 0 <= i < p.len() - 1 implies !(db.class_of(#[trigger] p[i]) > db.class_of(
            p[i + 1],
        ) && db.class_of(p[i + 1]) > 0) by {
            assert(p[i] == d[i] && p[i + 1] == d[i + 1]);
        }
        lemma_reorder_ordered_fixed(db, p);
        if p.len() > 0 {
            assert(p.last() == d[d.len() - 2]);
        }
        assert(p.push(d.last()) == d);
    }
}

/// Expansion leaves text without mapped characters unchanged.
pub proof fn lemma_expand_all_fixed(db: &CharacterDatabase, d: Seq<char>, compat: bool, ext: bool)
    requires
        all_atomic(db, d, compat, ext),
    ensures
        expand_all(db, d, compat, ext, DECOMPOSITION_DEPTH as nat) == d,
    decreases d.len(),
{
    if d.len() > 0 {
        let p = d.drop_last();
        assert forall|i: int| 0 <= i < p.len() implies (#[trigger] db.one_step(p[i], compat, ext)) is None by {
            assert(p[i] == d[i]);
        }
        lemma_expand_all_fixed(db, p, compat, ext);
        assert(db.one_step(d[d.len() - 1], compat, ext) is None);
        assert(expand(db, d.last(), compat, ext, DECOMPOSITION_DEPTH as nat) == seq![d.last()]);
        assert(p + seq![d.last()] =~= d);
    }
}

/// Decomposing twice is decomposing once (NFD, NFKD and their extended
/// variants), for a database whose mappings reach atomic characters within
/// the depth bound.
pub proof fn lemma_decomposed_idempotent(db: &CharacterDatabase, s: Seq<char>, compat: bool, ext: bool)
    requires
        expansions_atomic(db, compat, ext),
    ensures
        decomposed(db, decomposed(db, s, compat, ext), compat, ext) == decomposed(db, s, compat, ext),
{
    let x = expand_all(db, s, compat, ext, DECOMPOSITION_DEPTH as nat);
    let d = reorder(db, x);
    lemma_expand_all_atomic(db, s, compat, ext);
    lemma_reorder_keeps(db, x, compat, ext);
    lemma_expand_all_fixed(db, d, compat, ext);
    lemma_reorder_ordered_fixed(db, d);
}

/// Moves the pending marks to the end of `out`.
fn flush(out: &mut Vec<char>, buf: &mut MarkBuffer)
    ensures
        final(out)@ == old(out)@ + mark_chars(pending_marks(*old(buf))),
        pending_marks(*final(buf)) == Seq::<(u8, char)>::empty(),
{
    let n = marks_len(buf);
    let mut i: usize = 0;
    while i < n
        invariant
            n == pending_marks(*buf).len(),
            i <= n,
            pending_marks(*buf) == pending_marks(*old(buf)),
            out@ == old(out)@ + mark_chars(pending_marks(*buf)).subrange(0, i as int),
        decreases n - i,
    {
        let (_, m) = marks_get(buf, i);
        out.push(m);
        i = i + 1;
        assert(out@ =~= old(out)@ + mark_chars(pending_marks(*buf)).subrange(0, i as int));
    }
    assert(mark_chars(pending_marks(*buf)).subrange(0, n as int) =~= mark_chars(pending_marks(*buf)));
    marks_clear(buf);
}

/// Adds one fully decomposed character to the ordered output: a starter
/// flushes the pending run, a mark joins it in canonical order.
fn push_ordered(db: &CharacterDatabase, out: &mut Vec<char>, buf: &mut MarkBuffer, c: char)
    requires
        db.well_formed(),
        ends_at_starter(db, old(out)@),
        marks_ok(db, pending_marks(*old(buf))),
    ensures
        ends_at_starter(db, final(out)@),
        marks_ok(db, pending_marks(*final(buf))),
        final(out)@ + mark_chars(pending_marks(*final(buf))) == order_step(
            db,
            old(out)@ + mark_chars(pending_marks(*old(buf))),
            c,
        ),
{
    let k = db.combining_class(c);
    if k == 0 {
        flush(out, buf);
        out.push(c);
        assert(mark_chars(pending_marks(*buf)) =~= Seq::<char>::empty());
        assert(out@ + mark_chars(pending_marks(*buf)) =~= out@);
    } else {
        let ghost b = pending_marks(*buf);
        let mut j = marks_len(buf);
        while j > 0 && marks_get(buf, j - 1).0 > k
            invariant
                db.well_formed(),
                b == pending_marks(*buf),
                j <= b.len(),
                forall|i: int| j <= i < b.len() ==> b[i].0 > k,
            decreases j,
        {
            j = j - 1;
        }
        marks_insert(buf, j, (k, c));
        proof {
            let bc = mark_chars(b);
            assert forall|i: int| j <= i < bc.len() implies db.class_of(#[trigger] bc[i]) > db.class_of(
                c,
            ) by {
                assert(b[i].0 == db.class_of(b[i].1));
            }
            if j > 0 {
                assert(b[j - 1].0 == db.class_of(b[j - 1].1));
            }
            lemma_insert_at(db, bc, c, j as int);
            lemma_insert_after_starter(db, out@, bc, c);
            assert(mark_chars(b.insert(j as int, (k, c))) =~= bc.insert(j as int, c));
            let nb = pending_marks(*buf);
            assert forall|i: int| 0 <= i < nb.len() implies #[trigger] nb[i].0 == db.class_of(nb[i].1)
                && nb[i].0 > 0 by {
                if i < j {
                    assert(nb[i] == b[i]);
                } else if i > j {
                    assert(nb[i] == b[i - 1]);
                }
            }
        }
    }
}

pub fn expand_char(db: &CharacterDatabase, c: char, compat: bool, ext: bool, fuel: u32) -> (r: Vec<char>)
    requires
        db.well_formed(),
    ensures
        r@ == expand(db, c, compat, ext, fuel as nat),
    decreases fuel,
{
    if fuel == 0 {
        return vec![c];
    }
    match db.decompose_one_step(c, compat, ext) {
        None => vec![c],
        Some(d) => {
            let mut r: Vec<char> = Vec::new();
            let mut i: usize = 0;
            while i < d.len()
                invariant
                    db.well_formed(),
                    i <= d@.len(),
                    fuel > 0,
                    r@ == expand_all(db, d@.subrange(0, i as int), compat, ext, (fuel - 1) as nat),
                decreases d.len() - i,
            {
                let mut e = expand_char(db, d[i], compat, ext, fuel - 1);
                assert(d@.subrange(0, i + 1).drop_last() == d@.subrange(0, i as int));
                r.append(&mut e);
                i = i + 1;
            }
            assert(d@.subrange(0, d@.len() as int) == d@);
            r
        },
    }
}

/// The full decomposition of `s` in canonical order: NFD for
/// `(false, false)`, NFKD for `(true, false)`, and their extended variants.
pub fn decompose_sequence(db: &CharacterDatabase, s: &Vec<char>, compat: bool, ext: bool) -> (r: Vec<
    char,
>)
    requires
        db.well_formed(),
    ensures
        r@ == decomposed(db, s@, compat, ext),
{
    let mut out: Vec<char> = Vec::new();
    let mut buf = marks_new();
    let mut i: usize = 0;
    assert(mark_chars(pending_marks(buf)) =~= Seq::<char>::empty());
    assert(out@ + mark_chars(pending_marks(buf)) =~= Seq::<char>::empty());
    while i < s.len()
        invariant
            db.well_formed(),
            i <= s@.len(),
            ends_at_starter(db, out@),
            marks_ok(db, pending_marks(buf)),
            out@ + mark_chars(pending_marks(buf)) == reorder(
                db,
                expand_all(db, s@.subrange(0, i as int), compat, ext, DECOMPOSITION_DEPTH as nat),
            ),
        decreases s.len() - i,
    {
        let e = expand_char(db, s[i], compat, ext, DECOMPOSITION_DEPTH);
        let ghost before = expand_all(db, s@.subrange(0, i as int), compat, ext, DECOMPOSITION_DEPTH as nat);
        let mut j: usize = 0;
        while j < e.len()
            invariant
                db.well_formed(),
                j <= e@.len(),
                ends_at_starter(db, out@),
                marks_ok(db, pending_marks(buf)),
                out@ + mark_chars(pending_marks(buf)) == reorder(db, before + e@.subrange(0, j as int)),
            decreases e.len() - j,
        {
            push_ordered(db, &mut out, &mut buf, e[j]);
            assert((before + e@.subrange(0, j + 1)).drop_last() == before + e@.subrange(0, j as int));
            j = j + 1;
        }
        assert(s@.subrange(0, i + 1).drop_last() == s@.subrange(0, i as int));
        assert(e@.subrange(0, e@.len() as int) == e@);
        i = i + 1;
    }
    flush(&mut out, &mut buf);
    assert(s@.subrange(0, s@.len() as int) == s@);
    assert(out@ =~= out@ + mark_chars(pending_marks(buf)));
    out
}

} // verus!
