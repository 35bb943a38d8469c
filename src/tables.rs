//! The character database: per-codepoint normalization properties and the
//! arithmetic treatment of the Hangul syllable block.
use vstd::prelude::*;

verus! {

// The Hangul syllable block and the three jamo ranges: where each begins and
// how many it holds (N_COUNT syllables share one leading jamo).
pub const S_BASE: u32 = 0xAC00;
pub const L_BASE: u32 = 0x1100;
pub const V_BASE: u32 = 0x1161;
pub const T_BASE: u32 = 0x11A7;
pub const L_COUNT: u32 = 19;
pub const V_COUNT: u32 = 21;
pub const T_COUNT: u32 = 28;
pub const N_COUNT: u32 = 588;
pub const S_COUNT: u32 = 11172;

/// Relies on `char::from_u32`: it returns `Some(c)` exactly when `v` is a
/// Unicode scalar value, and then `c` has that value.
#[verifier::external_body]
fn char_from(v: u32) -> (r: Option<char>)
    ensures
        r is Some <==> (v < 0xD800 || (0xE000 <= v && v <= 0x10FFFF)),
        r matches Some(c) ==> c == v as char,
{
    char::from_u32(v)
}

pub open spec fn is_hangul_syllable(c: char) -> bool {
    S_BASE <= (c as u32) && (c as u32) < S_BASE + S_COUNT
}

/// The jamo that a precomposed Hangul syllable stands for.
pub open spec fn hangul_jamo(c: char) -> Seq<u32>
    recommends
        is_hangul_syllable(c),
{
    let s = (c as u32 - S_BASE) as int;
    let l = L_BASE + s / (N_COUNT as int);
    let v = V_BASE + (s % (N_COUNT as int)) / (T_COUNT as int);
    let t = T_BASE + s % (T_COUNT as int);
    if s % (T_COUNT as int) == 0 {
        seq![l as u32, v as u32]
    } else {
        seq![l as u32, v as u32, t as u32]
    }
}

pub open spec fn hangul_decomposition(c: char) -> Seq<char> {
    hangul_jamo(c).map_values(|v: u32| v as char)
}

pub fn decompose_hangul(c: char) -> (r: Vec<char>)
    requires
        is_hangul_syllable(c),
    ensures
        r@ == hangul_decomposition(c),
{
    let s = c as u32 - S_BASE;
    let l = char_from(L_BASE + s / N_COUNT).unwrap();
    let v = char_from(V_BASE + (s % N_COUNT) / T_COUNT).unwrap();
    let mut r = Vec::new();
    r.push(l);
    r.push(v);
    if s % T_COUNT != 0 {
        let t = char_from(T_BASE + s % T_COUNT).unwrap();
        r.push(t);
    }
    assert(r@ =~= hangul_decomposition(c));
    r
}

/// A tri-state answer to "is this text already in a given normalization form".
#[derive(Clone, Copy, Debug, PartialEq, Eq, Structural)]
pub enum IsNormalized {
    Yes,
    No,
    Maybe,
}

/// The four normalization forms.
#[derive(Clone, Copy, Debug, PartialEq, Eq, Structural)]
pub enum Form {
    Nfc,
    Nfd,
    Nfkc,
    Nfkd,
}

/// How a character counts in the stream-safe text process.
#[derive(Clone, Copy, Debug, PartialEq, Eq, Structural)]
pub enum StreamSafeClass {
    Starter,
    NonStarter,
    Extend,
}

/// The read-only, per-codepoint normalization properties. Each table is
/// searched from the front and its first entry for a character wins; a
/// character without an entry takes the default (class 0, no mapping, not
/// composable, quick check `Yes`).
pub struct CharacterDatabase {
    /// Canonical combining classes.
    pub combining_classes: Vec<(char, u8)>,
    /// One step of canonical decomposition.
    pub canonical: Vec<(char, Vec<char>)>,
    /// One step of compatibility decomposition, for characters that have no
    /// canonical one.
    pub compatible: Vec<(char, Vec<char>)>,
    /// Extended canonical decompositions (standardized variation sequences
    /// for CJK compatibility ideographs), preferred by the extended forms.
    pub extended: Vec<(char, Vec<char>)>,
    /// Primary composites: for a starter, the pairs `(mark, composite)`.
    pub compositions: Vec<(char, Vec<(char, char)>)>,
    /// Composites that must never be produced by composition.
    pub exclusions: Vec<char>,
    /// NFC quick-check values other than `Yes`.
    pub nfc_quick: Vec<(char, IsNormalized)>,
    /// NFD quick-check values other than `Yes`.
    pub nfd_quick: Vec<(char, IsNormalized)>,
    /// NFKC quick-check values other than `Yes`.
    pub nfkc_quick: Vec<(char, IsNormalized)>,
    /// NFKD quick-check values other than `Yes`.
    pub nfkd_quick: Vec<(char, IsNormalized)>,
    /// The code point ranges, both ends included, of the marks (general
    /// categories Mn, Mc and Me).
    pub combining_marks: Vec<(char, char)>,
    /// Stream-safe classes that differ from the one the combining class gives.
    pub stream_classes: Vec<(char, StreamSafeClass)>,
}

pub open spec fn is_first<V>(t: Seq<(char, V)>, c: char, i: int) -> bool {
    0 <= i < t.len() && t[i].0 == c && forall|j: int| 0 <= j < i ==> t[j].0 != c
}

/// The value of the first entry of `t` for `c`.
pub open spec fn table_get<V>(t: Seq<(char, V)>, c: char) -> Option<V> {
    if exists|i: int| is_first(t, c, i) {
        Some(t[choose|i: int| is_first(t, c, i)].1)
    } else {
        None
    }
}

pub open spec fn mapping_get(t: Seq<(char, Vec<char>)>, c: char) -> Option<Seq<char>> {
    match table_get(t, c) {
        Some(v) => Some(v@),
        None => None,
    }
}

/// The keys of `t` strictly increase.
pub open spec fn keys_sorted<V>(t: Seq<(char, V)>) -> bool {
    forall|i: int, j: int| 0 <= i < j < t.len() ==> (t[i].0 as u32) < (t[j].0 as u32)
}

/// The characters of `t` strictly increase.
pub open spec fn chars_sorted(t: Seq<char>) -> bool {
    forall|i: int, j: int| 0 <= i < j < t.len() ==> (t[i] as u32) < (t[j] as u32)
}

/// Each range of `t` is non-empty, and each lies wholly below the next.
pub open spec fn ranges_sorted(t: Seq<(char, char)>) -> bool {
    &&& forall|i: int| 0 <= i < t.len() ==> (t[i].0 as u32) <= (t[i].1 as u32)
    &&& forall|i: int, j: int| 0 <= i < j < t.len() ==> (t[i].1 as u32) < (t[j].0 as u32)
}

proof fn lemma_same_char(a: char, b: char)
    requires
        a as u32 == b as u32,
    ensures
        a == b,
{
    vstd::utf8::char_u32_cast(a, a as u32);
    vstd::utf8::char_u32_cast(b, b as u32);
}

fn find_index<V>(t: &Vec<(char, V)>, c: char) -> (r: Option<usize>)
    requires
        keys_sorted(t@),
    ensures
        r matches Some(i) ==> is_first(t@, c, i as int),
        r is None ==> !exists|i: int| is_first(t@, c, i),
{
    let x = c as u32;
    let mut lo: usize = 0;
    let mut hi: usize = t.len();
    while lo < hi
        invariant
            keys_sorted(t@),
            x == c as u32,
            lo <= hi <= t@.len(),
            forall|j: int| 0 <= j < lo ==> (t@[j].0 as u32) < x,
            forall|j: int| hi <= j < t@.len() ==> (t@[j].0 as u32) > x,
        decreases hi - lo,
    {
        let mid = lo + (hi - lo) / 2;
        let key: char = t[mid].0;
        assert(key == t@[mid as int].0);
        let k = key as u32;
        if k == x {
            assert(k == (key as u32));
            assert(x == (c as u32));
            proof {
                lemma_same_char(t@[mid as int].0, c);
            }
            return Some(mid);
        } else if k < x {
            lo = mid + 1;
        } else {
            hi = mid;
        }
    }
    None
}

fn check_keys_sorted<V>(t: &Vec<(char, V)>) -> (r: bool)
    ensures
        r == keys_sorted(t@),
{
    let mut i: usize = 1;
    while i < t.len()
        invariant
            1 <= i,
            forall|a: int, b: int| 0 <= a < b < i && b < t@.len() ==> (t@[a].0 as u32) < (t@[b].0 as u32),
        decreases t.len() - i,
    {
        if t[i - 1].0 as u32 >= t[i].0 as u32 {
            return false;
        }
        i = i + 1;
    }
    true
}

fn check_chars_sorted(t: &Vec<char>) -> (r: bool)
    ensures
        r == chars_sorted(t@),
{
    let mut i: usize = 1;
    while i < t.len()
        invariant
            1 <= i,
            forall|a: int, b: int| 0 <= a < b < i && b < t@.len() ==> (t@[a] as u32) < (t@[b] as u32),
        decreases t.len() - i,
    {
        if t[i - 1] as u32 >= t[i] as u32 {
            return false;
        }
        i = i + 1;
    }
    true
}

fn check_ranges_sorted(t: &Vec<(char, char)>) -> (r: bool)
    ensures
        r == ranges_sorted(t@),
{
    let mut i: usize = 0;
    while i < t.len()
        invariant
            i <= t@.len(),
            forall|a: int| 0 <= a < i ==> (t@[a].0 as u32) <= (t@[a].1 as u32),
            forall|a: int, b: int| 0 <= a < b < i ==> (t@[a].1 as u32) < (t@[b].0 as u32),
        decreases t.len() - i,
    {
        if t[i].0 as u32 > t[i].1 as u32 {
            return false;
        }
        if i > 0 && t[i - 1].1 as u32 >= t[i].0 as u32 {
            return false;
        }
        i = i + 1;
    }
    true
}

proof fn lemma_first_unique<V>(t: Seq<(char, V)>, c: char, i: int)
    requires
        is_first(t, c, i),
    ensures
        table_get(t, c) == Some(t[i].1),
{
    let k = choose|k: int| is_first(t, c, k);
    if k < i {
        assert(t[k].0 != c);
    } else if i < k {
        assert(t[i].0 != c);
    }
}

fn get_copy<V: Copy>(t: &Vec<(char, V)>, c: char) -> (r: Option<V>)
    requires
        keys_sorted(t@),
    ensures
        r == table_get(t@, c),
{
    match find_index(t, c) {
        Some(i) => {
            proof {
                lemma_first_unique(t@, c, i as int);
            }
            Some(t[i].1)
        },
        None => None,
    }
}

fn get_ref<V>(t: &Vec<(char, V)>, c: char) -> (r: Option<&V>)
    requires
        keys_sorted(t@),
    ensures
        match r {
            Some(v) => table_get(t@, c) == Some(*v),
            None => table_get(t@, c) is None,
        },
{
    match find_index(t, c) {
        Some(i) => {
            proof {
                lemma_first_unique(t@, c, i as int);
            }
            Some(&t[i].1)
        },
        None => None,
    }
}

pub open spec fn is_leading_jamo(c: char) -> bool {
    L_BASE <= (c as u32) && (c as u32) < L_BASE + L_COUNT
}

pub open spec fn is_vowel_jamo(c: char) -> bool {
    V_BASE <= (c as u32) && (c as u32) < V_BASE + V_COUNT
}

pub open spec fn is_trailing_jamo(c: char) -> bool {
    T_BASE < (c as u32) && (c as u32) < T_BASE + T_COUNT
}

pub open spec fn is_lv_syllable(c: char) -> bool {
    is_hangul_syllable(c) && ((c as u32) - S_BASE) % (T_COUNT as int) == 0
}

/// The Hangul syllable that a pair of jamo, or an LV syllable and a trailing
/// jamo, compose to.
pub open spec fn hangul_composite(a: char, b: char) -> Option<char> {
    if is_leading_jamo(a) && is_vowel_jamo(b) {
        let l = (a as u32) - L_BASE;
        let v = (b as u32) - V_BASE;
        Some(((S_BASE + (l * V_COUNT + v) * T_COUNT) as u32) as char)
    } else if is_lv_syllable(a) && is_trailing_jamo(b) {
        Some((((a as u32) + ((b as u32) - T_BASE)) as u32) as char)
    } else {
        None
    }
}

fn compose_hangul(a: char, b: char) -> (r: Option<char>)
    ensures
        r == hangul_composite(a, b),
{
    let (x, y) = (a as u32, b as u32);
    if L_BASE <= x && x < L_BASE + L_COUNT && V_BASE <= y && y < V_BASE + V_COUNT {
        let l = x - L_BASE;
        let v = y - V_BASE;
        assert((l * V_COUNT + v) * T_COUNT < S_COUNT) by (nonlinear_arith)
            requires
                l < L_COUNT,
                v < V_COUNT,
        ;
        char_from(S_BASE + (l * V_COUNT + v) * T_COUNT)
    } else if S_BASE <= x && x < S_BASE + S_COUNT && (x - S_BASE) % T_COUNT == 0 && T_BASE < y && y
        < T_BASE + T_COUNT {
        char_from(x + (y - T_BASE))
    } else {
        None
    }
}

proof fn lemma_jamo_arith(s: int)
    requires
        0 <= s < S_COUNT,
    ensures
        (s / (N_COUNT as int)) < L_COUNT,
        (s % (N_COUNT as int)) / (T_COUNT as int) < V_COUNT,
        ((s / (N_COUNT as int)) * (V_COUNT as int) + (s % (N_COUNT as int)) / (T_COUNT as int)) * (
        T_COUNT as int) + s % (T_COUNT as int) == s,
{
    let q = s / 588;
    let r1 = s % 588;
    let w = r1 / 28;
    let t = r1 % 28;
    assert(s == 588 * q + r1 && 0 <= r1 < 588) by (nonlinear_arith)
        requires
            q == s / 588,
            r1 == s % 588,
    ;
    assert(r1 == 28 * w + t && 0 <= t < 28) by (nonlinear_arith)
        requires
            w == r1 / 28,
            t == r1 % 28,
            0 <= r1,
    ;
    assert(q < 19) by (nonlinear_arith)
        requires
            s == 588 * q + r1,
            0 <= r1,
            s < 11172,
    ;
    assert(w < 21) by (nonlinear_arith)
        requires
            r1 == 28 * w + t,
            0 <= t,
            r1 < 588,
    ;
    assert(s % 28 == t) by (nonlinear_arith)
        requires
            s == 588 * q + 28 * w + t,
            0 <= t < 28,
    ;
    assert((q * 21 + w) * 28 + t == s) by (nonlinear_arith)
        requires
            s == 588 * q + 28 * w + t,
    ;
}

/// Hangul round trip: whatever the tables hold, a precomposed syllable
/// decomposes in one step to its two or three jamo, and composing those jamo
/// from the left gives the syllable back.
pub proof fn lemma_hangul_round_trip(db: &CharacterDatabase, c: char, compat: bool, ext: bool)
    requires
        is_hangul_syllable(c),
    ensures
        db.one_step(c, compat, ext) == Some(hangul_decomposition(c)),
        hangul_decomposition(c).len() == 2 ==> db.composite_of(
            hangul_decomposition(c)[0],
            hangul_decomposition(c)[1],
        ) == Some(c),
        hangul_decomposition(c).len() == 3 ==> {
            &&& db.composite_of(hangul_decomposition(c)[0], hangul_decomposition(c)[1]) matches Some(
                lv
            )
            &&& db.composite_of(lv, hangul_decomposition(c)[2]) == Some(c)
        },
{
    let s = ((c as u32) - S_BASE) as int;
    lemma_jamo_arith(s);
    let j = hangul_decomposition(c);
    let l = s / (N_COUNT as int);
    let v = (s % (N_COUNT as int)) / (T_COUNT as int);
    let t = s % (T_COUNT as int);
    assert(j[0] as u32 == L_BASE + l);
    assert(j[1] as u32 == V_BASE + v);
    assert(is_leading_jamo(j[0]) && is_vowel_jamo(j[1]));
    let lv_val = (S_BASE + (l * V_COUNT + v) * T_COUNT) as u32;
    assert(lv_val == (c as u32) - t);
    let lv = lv_val as char;
    assert(hangul_composite(j[0], j[1]) == Some(lv));
    if t == 0 {
        assert(lv == c);
    } else {
        assert(j[2] as u32 == T_BASE + t);
        assert(lv as u32 == lv_val);
        assert(is_lv_syllable(lv));
        assert(!(is_leading_jamo(lv) && is_vowel_jamo(j[2])));
        assert(hangul_composite(lv, j[2]) == Some(c));
    }
}

impl CharacterDatabase {
    pub open spec fn is_mark(&self, c: char) -> bool {
        exists|i: int|
            0 <= i < self.combining_marks@.len() && (#[trigger] self.combining_marks@[i].0 as u32) <= (
                c as u32) && (c as u32) <= (self.combining_marks@[i].1 as u32)
    }

    pub fn is_combining_mark(&self, c: char) -> (r: bool)
        requires
            self.well_formed(),
        ensures
            r == self.is_mark(c),
    {
        let t = &self.combining_marks;
        let x = c as u32;
        let mut lo: usize = 0;
        let mut hi: usize = t.len();
        while lo < hi
            invariant
                ranges_sorted(t@),
                t@ == self.combining_marks@,
                x == c as u32,
                lo <= hi <= t@.len(),
                forall|j: int| 0 <= j < lo ==> (t@[j].1 as u32) < x,
                forall|j: int| hi <= j < t@.len() ==> x < (t@[j].0 as u32),
            decreases hi - lo,
        {
            let mid = lo + (hi - lo) / 2;
            let a: char = t[mid].0;
            let b: char = t[mid].1;
            assert(a == t@[mid as int].0 && b == t@[mid as int].1);
            assert(x == (c as u32));
            if x < a as u32 {
                hi = mid;
            } else if x > b as u32 {
                lo = mid + 1;
            } else {
                assert((self.combining_marks@[mid as int].0 as u32) <= (c as u32) && (c as u32) <= (
                    self.combining_marks@[mid as int].1 as u32));
                return true;
            }
        }
        assert forall|i: int| 0 <= i < t@.len() implies !((#[trigger] t@[i].0 as u32) <= x && x <= (t@[i].1 as u32)) by {
            if i < lo {
                assert((t@[i].1 as u32) < x);
            } else {
                assert(x < (t@[i].0 as u32));
            }
        }
        false
    }

    /// Every table is sorted by strictly increasing key, so that a lookup is
    /// a binary search.
    pub open spec fn well_formed(&self) -> bool {
        &&& keys_sorted(self.combining_classes@)
        &&& keys_sorted(self.canonical@)
        &&& keys_sorted(self.compatible@)
        &&& keys_sorted(self.extended@)
        &&& keys_sorted(self.compositions@)
        &&& forall|i: int|
            0 <= i < self.compositions@.len() ==> #[trigger] keys_sorted(self.compositions@[i].1@)
        &&& chars_sorted(self.exclusions@)
        &&& keys_sorted(self.nfc_quick@)
        &&& keys_sorted(self.nfd_quick@)
        &&& keys_sorted(self.nfkc_quick@)
        &&& keys_sorted(self.nfkd_quick@)
        &&& ranges_sorted(self.combining_marks@)
        &&& keys_sorted(self.stream_classes@)
    }

    /// Whether the database is well formed.
    pub fn is_well_formed(&self) -> (r: bool)
        ensures
            r == self.well_formed(),
    {
        let mut ok = check_keys_sorted(&self.combining_classes) && check_keys_sorted(&self.canonical)
            && check_keys_sorted(&self.compatible) && check_keys_sorted(&self.extended)
            && check_keys_sorted(&self.compositions) && check_chars_sorted(&self.exclusions)
            && check_keys_sorted(&self.nfc_quick) && check_keys_sorted(&self.nfd_quick)
            && check_keys_sorted(&self.nfkc_quick) && check_keys_sorted(&self.nfkd_quick)
            && check_ranges_sorted(&self.combining_marks) && check_keys_sorted(&self.stream_classes);
        let mut i: usize = 0;
        while i < self.compositions.len()
            invariant
                i <= self.compositions@.len(),
                ok ==> forall|j: int| 0 <= j < i ==> #[trigger] keys_sorted(self.compositions@[j].1@),
                !ok ==> !self.well_formed(),
                ok ==> (self.well_formed() <==> forall|j: int|
                    i <= j < self.compositions@.len() ==> #[trigger] keys_sorted(self.compositions@[j].1@)),
            decreases self.compositions.len() - i,
        {
            if ok && !check_keys_sorted(&self.compositions[i].1) {
                ok = false;
            }
            i = i + 1;
        }
        ok
    }

    /// The canonical combining class of `c` (0 for a starter).
    pub open spec fn class_of(&self, c: char) -> u8 {
        match table_get(self.combining_classes@, c) {
            Some(k) => k,
            None => 0,
        }
    }

    pub fn combining_class(&self, c: char) -> (r: u8)
        requires
            self.well_formed(),
        ensures
            r == self.class_of(c),
    {
        match get_copy(&self.combining_classes, c) {
            Some(k) => k,
            None => 0,
        }
    }

    /// How `c` counts in the stream-safe text process: as the table says, and
    /// otherwise by its combining class.
    pub open spec fn stream_class_of(&self, c: char) -> StreamSafeClass {
        match table_get(self.stream_classes@, c) {
            Some(k) => k,
            None => if self.class_of(c) == 0 {
                StreamSafeClass::Starter
            } else {
                StreamSafeClass::NonStarter
            },
        }
    }

    pub fn stream_safe_class(&self, c: char) -> (r: StreamSafeClass)
        requires
            self.well_formed(),
        ensures
            r == self.stream_class_of(c),
    {
        match get_copy(&self.stream_classes, c) {
            Some(k) => k,
            None => if self.combining_class(c) == 0 {
                StreamSafeClass::Starter
            } else {
                StreamSafeClass::NonStarter
            },
        }
    }

    pub open spec fn quick_table(&self, form: Form) -> Seq<(char, IsNormalized)> {
        match form {
            Form::Nfc => self.nfc_quick@,
            Form::Nfd => self.nfd_quick@,
            Form::Nfkc => self.nfkc_quick@,
            Form::Nfkd => self.nfkd_quick@,
        }
    }

    /// The quick-check property of `c` for `form`.
    pub open spec fn quick_flag_of(&self, c: char, form: Form) -> IsNormalized {
        match table_get(self.quick_table(form), c) {
            Some(q) => q,
            None => IsNormalized::Yes,
        }
    }

    pub fn quick_check_flag(&self, c: char, form: Form) -> (r: IsNormalized)
        requires
            self.well_formed(),
        ensures
            r == self.quick_flag_of(c, form),
    {
        let t = match form {
            Form::Nfc => &self.nfc_quick,
            Form::Nfd => &self.nfd_quick,
            Form::Nfkc => &self.nfkc_quick,
            Form::Nfkd => &self.nfkd_quick,
        };
        match get_copy(t, c) {
            Some(q) => q,
            None => IsNormalized::Yes,
        }
    }

    /// One step of decomposition of `c`: Hangul syllables by arithmetic, then
    /// (for the extended forms) the extended table, then the canonical table,
    /// then (for the compatibility forms) the compatibility table.
    pub open spec fn one_step(&self, c: char, compat: bool, ext: bool) -> Option<Seq<char>> {
        if is_hangul_syllable(c) {
            Some(hangul_decomposition(c))
        } else if ext && mapping_get(self.extended@, c) is Some {
            mapping_get(self.extended@, c)
        } else if mapping_get(self.canonical@, c) is Some {
            mapping_get(self.canonical@, c)
        } else if compat {
            mapping_get(self.compatible@, c)
        } else {
            None
        }
    }

    pub fn decompose_one_step(&self, c: char, compat: bool, ext: bool) -> (r: Option<Vec<char>>)
        requires
            self.well_formed(),
        ensures
            match r {
                Some(v) => self.one_step(c, compat, ext) == Some(v@),
                None => self.one_step(c, compat, ext) is None,
            },
    {
        let x = c as u32;
        if S_BASE <= x && x < S_BASE + S_COUNT {
            return Some(decompose_hangul(c));
        }
        if ext {
            if let Some(v) = get_ref(&self.extended, c) {
                return Some(v.clone());
            }
        }
        if let Some(v) = get_ref(&self.canonical, c) {
            return Some(v.clone());
        }
        if compat {
            if let Some(v) = get_ref(&self.compatible, c) {
                return Some(v.clone());
            }
        }
        None
    }

    /// The primary composite of `a` and `b`, unless it is excluded.
    pub open spec fn composite_of(&self, a: char, b: char) -> Option<char> {
        if hangul_composite(a, b) is Some {
            hangul_composite(a, b)
        } else {
            match table_get(self.compositions@, a) {
                Some(pairs) => match table_get(pairs@, b) {
                    Some(x) => if self.exclusions@.contains(x) {
                        None
                    } else {
                        Some(x)
                    },
                    None => None,
                },
                None => None,
            }
        }
    }

    pub fn compose(&self, a: char, b: char) -> (r: Option<char>)
        requires
            self.well_formed(),
        ensures
            r == self.composite_of(a, b),
    {
        if let Some(h) = compose_hangul(a, b) {
            return Some(h);
        }
        if let Some(pairs) = get_ref(&self.compositions, a) {
            if let Some(x) = get_copy(pairs, b) {
                if self.is_excluded(x) {
                    return None;
                }
                return Some(x);
            }
        }
        None
    }

    fn is_excluded(&self, x: char) -> (r: bool)
        requires
            chars_sorted(self.exclusions@),
        ensures
            r == self.exclusions@.contains(x),
    {
        let t = &self.exclusions;
        let v = x as u32;
        let mut lo: usize = 0;
        let mut hi: usize = t.len();
        while lo < hi
            invariant
                chars_sorted(t@),
                t@ == self.exclusions@,
                v == x as u32,
                lo <= hi <= t@.len(),
                forall|j: int| 0 <= j < lo ==> (t@[j] as u32) < v,
                forall|j: int| hi <= j < t@.len() ==> (t@[j] as u32) > v,
            decreases hi - lo,
        {
            let mid = lo + (hi - lo) / 2;
            let key: char = t[mid];
            assert(key == t@[mid as int]);
            let k = key as u32;
            if k == v {
                assert(k == (key as u32));
                assert(v == (x as u32));
                proof {
                    lemma_same_char(t@[mid as int], x);
                }
                return true;
            } else if k < v {
                lo = mid + 1;
            } else {
                hi = mid;
            }
        }
        assert(!t@.contains(x)) by {
            if t@.contains(x) {
                let j = choose|j: int| 0 <= j < t@.len() && t@[j] == x;
                assert((t@[j] as u32) != v);
            }
        }
        false
    }
}

} // verus!
