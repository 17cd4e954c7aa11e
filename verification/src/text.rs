//! Character-sequence helpers for the line-oriented Markdown grammar:
//! conversions between `str`/`String` and `Vec<char>`, trimming, prefix
//! tests, searching, replacing, splitting into lines and joining, and
//! decimal formatting of numbers.

use vstd::prelude::*;

verus! {

/// Relies on str::chars: yields the characters of the string in order,
/// which is exactly the string's view.
#[verifier::external_body]
pub fn zeichen_von(s: &str) -> (r: Vec<char>)
    ensures
        r@ == s@,
{
    s.chars().collect()
}

/// Relies on String's FromIterator<char> impl: collecting characters
/// builds the string of exactly those characters in order.
#[verifier::external_body]
pub fn text_von(z: &Vec<char>) -> (r: String)
    ensures
        r@ == z@,
{
    z.iter().collect()
}

/// The ASCII whitespace characters that the grammar's trimming removes.
pub open spec fn ist_leerraum(c: char) -> bool {
    c == ' ' || c == '\t' || c == '\n' || c == '\r'
}

pub fn ist_leerraum_zeichen(c: char) -> (r: bool)
    ensures
        r == ist_leerraum(c),
{
    c == ' ' || c == '\t' || c == '\n' || c == '\r'
}

pub open spec fn trim_links_spec(s: Seq<char>) -> Seq<char>
    decreases s.len(),
{
    if s.len() > 0 && ist_leerraum(s[0]) {
        trim_links_spec(s.drop_first())
    } else {
        s
    }
}

pub open spec fn trim_rechts_spec(s: Seq<char>) -> Seq<char>
    decreases s.len(),
{
    if s.len() > 0 && ist_leerraum(s[s.len() - 1]) {
        trim_rechts_spec(s.drop_last())
    } else {
        s
    }
}

/// Removes leading and trailing whitespace, as the decoder does to every line.
pub open spec fn trim_spec(s: Seq<char>) -> Seq<char> {
    trim_rechts_spec(trim_links_spec(s))
}

proof fn lemma_trim_links_ab(s: Seq<char>, i: int)
    requires
        0 <= i <= s.len(),
        forall|j: int| 0 <= j < i ==> ist_leerraum(s[j]),
        i < s.len() ==> !ist_leerraum(s[i]),
    ensures
        trim_links_spec(s) == s.subrange(i, s.len() as int),
    decreases i,
{
    if i == 0 {
        assert(s.subrange(0, s.len() as int) =~= s);
    } else {
        let t = s.drop_first();
        assert(forall|j: int| 0 <= j < i - 1 ==> ist_leerraum(#[trigger] t[j]));
        lemma_trim_links_ab(t, i - 1);
        assert(t.subrange(i - 1, t.len() as int) =~= s.subrange(i, s.len() as int));
    }
}

proof fn lemma_trim_rechts_bis(s: Seq<char>, i: int)
    requires
        0 <= i <= s.len(),
        forall|j: int| i <= j < s.len() ==> ist_leerraum(s[j]),
        i > 0 ==> !ist_leerraum(s[i - 1]),
    ensures
        trim_rechts_spec(s) == s.subrange(0, i),
    decreases s.len() - i,
{
    if i == s.len() {
        assert(s.subrange(0, s.len() as int) =~= s);
    } else {
        let t = s.drop_last();
        assert(forall|j: int| i <= j < t.len() ==> ist_leerraum(#[trigger] t[j]));
        lemma_trim_rechts_bis(t, i);
        assert(t.subrange(0, i) =~= s.subrange(0, i));
    }
}

/// A trimmed sequence neither starts nor ends with whitespace.
pub proof fn lemma_trim_fest(s: Seq<char>)
    requires
        s.len() > 0 ==> !ist_leerraum(s[0]),
        s.len() > 0 ==> !ist_leerraum(s[s.len() - 1]),
    ensures
        trim_spec(s) == s,
{
    if s.len() == 0 {
        assert(trim_links_spec(s) == s);
        assert(trim_rechts_spec(s) == s);
    } else {
        lemma_trim_links_ab(s, 0);
        assert(s.subrange(0, s.len() as int) =~= s);
        lemma_trim_rechts_bis(s, s.len() as int);
    }
}

proof fn lemma_trim_links_laenge(s: Seq<char>)
    ensures
        trim_links_spec(s).len() <= s.len(),
    decreases s.len(),
{
    if s.len() > 0 && ist_leerraum(s[0]) {
        lemma_trim_links_laenge(s.drop_first());
    }
}

proof fn lemma_trim_rechts_laenge(s: Seq<char>)
    ensures
        trim_rechts_spec(s).len() <= s.len(),
    decreases s.len(),
{
    if s.len() > 0 && ist_leerraum(s[s.len() - 1]) {
        lemma_trim_rechts_laenge(s.drop_last());
    }
}

/// A non-empty sequence that trimming leaves unchanged neither starts
/// nor ends with whitespace.
pub proof fn lemma_trim_fest_umkehr(s: Seq<char>)
    requires
        trim_spec(s) == s,
        s.len() > 0,
    ensures
        !ist_leerraum(s[0]),
        !ist_leerraum(s[s.len() - 1]),
{
    if ist_leerraum(s[0]) {
        lemma_trim_links_laenge(s.drop_first());
        lemma_trim_rechts_laenge(trim_links_spec(s));
        assert(trim_links_spec(s) == trim_links_spec(s.drop_first()));
        assert(trim_spec(s).len() < s.len());
    }
    if ist_leerraum(s[s.len() - 1]) {
        lemma_trim_links_laenge(s);
        let t = trim_links_spec(s);
        if t.len() > 0 {
            assert(t == s.subrange(s.len() - t.len(), s.len() as int)) by {
                lemma_trim_links_ist_suffix(s);
            }
            assert(t[t.len() - 1] == s[s.len() - 1]);
            lemma_trim_rechts_laenge(t.drop_last());
            assert(trim_rechts_spec(t) == trim_rechts_spec(t.drop_last()));
            assert(trim_spec(s).len() < s.len());
        } else {
            assert(trim_spec(s).len() == 0);
        }
    }
}

proof fn lemma_trim_links_ist_suffix(s: Seq<char>)
    ensures
        trim_links_spec(s) == s.subrange(
            s.len() - trim_links_spec(s).len(),
            s.len() as int,
        ),
    decreases s.len(),
{
    lemma_trim_links_laenge(s);
    if s.len() > 0 && ist_leerraum(s[0]) {
        let t = s.drop_first();
        lemma_trim_links_ist_suffix(t);
        lemma_trim_links_laenge(t);
        assert(t.subrange(t.len() - trim_links_spec(t).len(), t.len() as int) =~= s.subrange(
            s.len() - trim_links_spec(s).len(),
            s.len() as int,
        ));
    } else {
        assert(s.subrange(0, s.len() as int) =~= s);
    }
}

/// Trimming a text padded with one space on each side gives back the
/// text, when trimming the text itself changes nothing.
pub proof fn lemma_trim_gepolstert(s: Seq<char>)
    requires
        trim_spec(s) == s,
    ensures
        trim_spec(seq![' '] + s + seq![' ']) == s,
{
    let voll = seq![' '] + s + seq![' '];
    if s.len() == 0 {
        assert(voll =~= seq![' ', ' ']);
        assert(trim_links_spec(voll) == trim_links_spec(voll.drop_first()));
        assert(voll.drop_first() =~= seq![' ']);
        assert(trim_links_spec(seq![' ']) == trim_links_spec(Seq::<char>::empty())) by {
            assert(seq![' '].drop_first() =~= Seq::<char>::empty());
        }
        assert(trim_links_spec(voll) == Seq::<char>::empty());
        assert(trim_rechts_spec(Seq::<char>::empty()) == Seq::<char>::empty());
    } else {
        lemma_trim_fest_umkehr(s);
        assert(voll[0] == ' ');
        assert(trim_links_spec(voll) == trim_links_spec(voll.drop_first()));
        assert(voll.drop_first() =~= s + seq![' ']);
        let rechts = s + seq![' '];
        assert(rechts[0] == s[0] && !ist_leerraum(rechts[0]));
        assert(trim_links_spec(rechts) == rechts);
        assert(rechts[rechts.len() - 1] == ' ');
        assert(trim_rechts_spec(rechts) == trim_rechts_spec(rechts.drop_last()));
        assert(rechts.drop_last() =~= s);
        assert(trim_rechts_spec(s) == s) by {
            assert(trim_links_spec(s) == s);
        }
    }
}

/// The last occurrence is wherever an occurrence last stands.
pub proof fn lemma_letzte_eindeutig(s: Seq<char>, c: char, k: int)
    requires
        -1 <= k < s.len(),
        k >= 0 ==> s[k] == c,
        forall|j: int| k < j < s.len() ==> s[j] != c,
    ensures
        letzte_pos(s, c) == k,
    decreases s.len(),
{
    if s.len() > 0 {
        if k == s.len() - 1 {
        } else {
            assert(s[s.len() - 1] != c);
            let t = s.drop_last();
            assert(forall|j: int| k < j < t.len() ==> #[trigger] t[j] != c);
            if k >= 0 {
                assert(t[k] == c);
            }
            lemma_letzte_eindeutig(t, c, k);
        }
    }
}

/// Copies the characters `z[von..bis]`.
pub fn teilbereich(z: &Vec<char>, von: usize, bis: usize) -> (r: Vec<char>)
    requires
        von <= bis <= z@.len(),
    ensures
        r@ == z@.subrange(von as int, bis as int),
{
    let mut r: Vec<char> = Vec::new();
    let mut i: usize = von;
    while i < bis
        invariant
            von <= i <= bis <= z@.len(),
            r@ == z@.subrange(von as int, i as int),
        decreases bis - i,
    {
        r.push(z[i]);
        assert(z@.subrange(von as int, i + 1) =~= z@.subrange(von as int, i as int).push(
            z@[i as int],
        ));
        i = i + 1;
    }
    r
}

/// Trims leading and trailing whitespace from a character vector.
pub fn getrimmt(z: &Vec<char>) -> (r: Vec<char>)
    ensures
        r@ == trim_spec(z@),
{
    let mut a: usize = 0;
    while a < z.len() && ist_leerraum_zeichen(z[a])
        invariant
            a <= z@.len(),
            forall|j: int| 0 <= j < a ==> ist_leerraum(z@[j]),
        decreases z@.len() - a,
    {
        a = a + 1;
    }
    proof {
        lemma_trim_links_ab(z@, a as int);
    }
    let mut b: usize = z.len();
    while b > a && ist_leerraum_zeichen(z[b - 1])
        invariant
            a <= b <= z@.len(),
            forall|j: int| b <= j < z@.len() ==> ist_leerraum(z@[j]),
        decreases b,
    {
        b = b - 1;
    }
    let ghost rest = z@.subrange(a as int, z@.len() as int);
    proof {
        assert(forall|j: int| b - a <= j < rest.len() ==> ist_leerraum(#[trigger] rest[j]));
        lemma_trim_rechts_bis(rest, b - a);
        assert(rest.subrange(0, b - a) =~= z@.subrange(a as int, b as int));
    }
    teilbereich(z, a, b)
}

/// Does `p` stand at the beginning of `s`?
pub open spec fn ist_praefix(p: Seq<char>, s: Seq<char>) -> bool {
    p.len() <= s.len() && s.subrange(0, p.len() as int) == p
}

/// Does `p` stand at position `i` of `s`?
pub open spec fn kommt_vor_bei(s: Seq<char>, p: Seq<char>, i: int) -> bool {
    0 <= i && i + p.len() <= s.len() && s.subrange(i, i + p.len()) == p
}

pub fn hat_praefix(z: &Vec<char>, p: &Vec<char>) -> (r: bool)
    ensures
        r == ist_praefix(p@, z@),
{
    if p.len() > z.len() {
        assert(!ist_praefix(p@, z@));
        return false;
    }
    let mut i: usize = 0;
    while i < p.len()
        invariant
            p@.len() <= z@.len(),
            i <= p@.len(),
            forall|j: int| 0 <= j < i ==> z@[j] == p@[j],
        decreases p@.len() - i,
    {
        if z[i] != p[i] {
            assert(z@.subrange(0, p@.len() as int)[i as int] != p@[i as int]);
            return false;
        }
        i = i + 1;
    }
    assert(z@.subrange(0, p@.len() as int) =~= p@);
    true
}

/// Are the two character vectors equal?
pub fn zeichen_gleich(a: &Vec<char>, b: &Vec<char>) -> (r: bool)
    ensures
        r == (a@ == b@),
{
    if a.len() != b.len() {
        return false;
    }
    let mut i: usize = 0;
    while i < a.len()
        invariant
            a@.len() == b@.len(),
            i <= a@.len(),
            forall|j: int| 0 <= j < i ==> a@[j] == b@[j],
        decreases a@.len() - i,
    {
        if a[i] != b[i] {
            return false;
        }
        i = i + 1;
    }
    assert(a@ =~= b@);
    true
}

/// Index of the first occurrence of `p` in `s` at or after `ab`.
pub fn finde_ab(z: &Vec<char>, p: &Vec<char>, ab: usize) -> (r: Option<usize>)
    requires
        p@.len() > 0,
    ensures
        match r {
            Some(i) => ab <= i && kommt_vor_bei(z@, p@, i as int) && forall|j: int|
                ab <= j < i ==> !kommt_vor_bei(z@, p@, j),
            None => forall|j: int| ab <= j ==> !kommt_vor_bei(z@, p@, j),
        },
{
    let mut i: usize = ab;
    while i <= z.len() && p.len() <= z.len() - i
        invariant
            ab <= i,
            p@.len() > 0,
            forall|j: int| ab <= j < i ==> !kommt_vor_bei(z@, p@, j),
        decreases z@.len() - i,
    {
        let stueck = teilbereich(z, i, i + p.len());
        if zeichen_gleich(&stueck, p) {
            return Some(i);
        }
        assert(!kommt_vor_bei(z@, p@, i as int));
        i = i + 1;
    }
    assert forall|j: int| ab <= j implies !kommt_vor_bei(z@, p@, j) by {
        if j + p@.len() <= z@.len() {
            assert(j < i);
        }
    }
    return None;
}

/// Leftmost-first replacement of every occurrence of `m` by `e`,
/// as str::replace performs it.
pub open spec fn ersetze_spec(s: Seq<char>, m: Seq<char>, e: Seq<char>) -> Seq<char>
    recommends
        m.len() > 0,
    decreases s.len(),
{
    if s.len() == 0 {
        s
    } else if m.len() > 0 && ist_praefix(m, s) {
        e + ersetze_spec(s.skip(m.len() as int), m, e)
    } else {
        seq![s[0]] + ersetze_spec(s.drop_first(), m, e)
    }
}

pub fn ersetze_alle(z: &Vec<char>, m: &Vec<char>, e: &Vec<char>) -> (r: Vec<char>)
    requires
        m@.len() > 0,
    ensures
        r@ == ersetze_spec(z@, m@, e@),
{
    let mut r: Vec<char> = Vec::new();
    let mut i: usize = 0;
    proof {
        assert(z@.subrange(0, z@.len() as int) =~= z@);
        assert(Seq::<char>::empty() + ersetze_spec(z@, m@, e@) =~= ersetze_spec(z@, m@, e@));
    }
    while i < z.len()
        invariant
            i <= z@.len(),
            m@.len() > 0,
            ersetze_spec(z@, m@, e@) == r@ + ersetze_spec(
                z@.subrange(i as int, z@.len() as int),
                m@,
                e@,
            ),
        decreases z@.len() - i,
    {
        let ghost rest = z@.subrange(i as int, z@.len() as int);
        let treffer = if m.len() <= z.len() - i {
            let stueck = teilbereich(z, i, i + m.len());
            zeichen_gleich(&stueck, m)
        } else {
            false
        };
        if treffer {
            proof {
                assert(rest.subrange(0, m@.len() as int) =~= z@.subrange(i as int, i + m@.len()));
                assert(ist_praefix(m@, rest));
                assert(rest.skip(m@.len() as int) =~= z@.subrange(
                    i + m@.len(),
                    z@.len() as int,
                ));
            }
            let ghost r_alt = r@;
            let mut k: usize = 0;
            while k < e.len()
                invariant
                    k <= e@.len(),
                    r@ == r_alt + e@.subrange(0, k as int),
                decreases e@.len() - k,
            {
                r.push(e[k]);
                assert(e@.subrange(0, k + 1) =~= e@.subrange(0, k as int).push(e@[k as int]));
                k = k + 1;
            }
            proof {
                assert(e@.subrange(0, e@.len() as int) =~= e@);
                assert(r_alt + (e@ + ersetze_spec(rest.skip(m@.len() as int), m@, e@)) =~= (r_alt
                    + e@) + ersetze_spec(rest.skip(m@.len() as int), m@, e@));
            }
            i = i + m.len();
        } else {
            proof {
                if m@.len() <= rest.len() {
                    assert(rest.subrange(0, m@.len() as int) =~= z@.subrange(
                        i as int,
                        i + m@.len(),
                    ));
                }
                assert(!ist_praefix(m@, rest));
                assert(rest.drop_first() =~= z@.subrange(i + 1, z@.len() as int));
                assert(rest[0] == z@[i as int]);
                assert(r@ + (seq![rest[0]] + ersetze_spec(rest.drop_first(), m@, e@)) =~= r@.push(
                    z@[i as int],
                ) + ersetze_spec(rest.drop_first(), m@, e@));
            }
            r.push(z[i]);
            i = i + 1;
        }
    }
    assert(z@.subrange(z@.len() as int, z@.len() as int) =~= Seq::<char>::empty());
    assert(r@ + Seq::<char>::empty() =~= r@);
    r
}

/// Index of the first line break in `s`, or `s.len()` if there is none.
pub open spec fn erstes_zeilenende(s: Seq<char>) -> int
    decreases s.len(),
{
    if s.len() == 0 {
        0
    } else if s[0] == '\n' {
        0
    } else {
        1 + erstes_zeilenende(s.drop_first())
    }
}

pub proof fn lemma_erstes_zeilenende(s: Seq<char>)
    ensures
        0 <= erstes_zeilenende(s) <= s.len(),
        forall|j: int| 0 <= j < erstes_zeilenende(s) ==> s[j] != '\n',
        erstes_zeilenende(s) < s.len() ==> s[erstes_zeilenende(s)] == '\n',
    decreases s.len(),
{
    if s.len() > 0 && s[0] != '\n' {
        let t = s.drop_first();
        lemma_erstes_zeilenende(t);
        assert forall|j: int| 0 <= j < erstes_zeilenende(s) implies s[j] != '\n' by {
            if j > 0 {
                assert(t[j - 1] != '\n');
            }
        }
    }
}

/// The first line break is wherever a break first occurs.
pub proof fn lemma_zeilenende_eindeutig(s: Seq<char>, k: int)
    requires
        0 <= k <= s.len(),
        forall|j: int| 0 <= j < k ==> s[j] != '\n',
        k < s.len() ==> s[k] == '\n',
    ensures
        erstes_zeilenende(s) == k,
    decreases k,
{
    if k > 0 {
        let t = s.drop_first();
        assert(forall|j: int| 0 <= j < k - 1 ==> #[trigger] t[j] != '\n');
        lemma_zeilenende_eindeutig(t, k - 1);
    }
}

/// Drops a single trailing carriage return, as str::lines does.
pub open spec fn ohne_cr(z: Seq<char>) -> Seq<char> {
    if z.len() > 0 && z[z.len() - 1] == '\r' {
        z.drop_last()
    } else {
        z
    }
}

/// Splits a text into its lines: separated by `'\n'`, each stripped of one
/// trailing `'\r'`, with no empty line after a trailing line break.
pub open spec fn zeilen_spec(s: Seq<char>) -> Seq<Seq<char>>
    decreases s.len(),
    via zeilen_spec_abnahme
{
    if s.len() == 0 {
        Seq::empty()
    } else {
        let e = erstes_zeilenende(s);
        let zeile = ohne_cr(s.subrange(0, e));
        if e == s.len() {
            seq![zeile]
        } else {
            seq![zeile] + zeilen_spec(s.subrange(e + 1, s.len() as int))
        }
    }
}

#[via_fn]
proof fn zeilen_spec_abnahme(s: Seq<char>) {
    lemma_erstes_zeilenende(s);
}

/// Drops a trailing carriage return from a character vector.
pub fn ohne_cr_exec(z: Vec<char>) -> (r: Vec<char>)
    ensures
        r@ == ohne_cr(z@),
{
    let mut z = z;
    if z.len() > 0 && z[z.len() - 1] == '\r' {
        z.pop();
    }
    z
}

/// Splits a character vector into its lines.
pub fn zeilen(z: &Vec<char>) -> (r: Vec<Vec<char>>)
    ensures
        r.deep_view() == zeilen_spec(z@),
{
    let umbruch: Vec<char> = vec!['\n'];
    let mut r: Vec<Vec<char>> = Vec::new();
    let mut i: usize = 0;
    proof {
        assert(z@.subrange(0, z@.len() as int) =~= z@);
        assert(r.deep_view() =~= Seq::<Seq<char>>::empty());
    }
    while i < z.len()
        invariant
            i <= z@.len(),
            umbruch@ == seq!['\n'],
            zeilen_spec(z@) == r.deep_view() + zeilen_spec(z@.subrange(i as int, z@.len() as int)),
        decreases z@.len() - i,
    {
        let ghost rest = z@.subrange(i as int, z@.len() as int);
        let ende = match finde_ab(z, &umbruch, i) {
            Some(e) => e,
            None => z.len(),
        };
        proof {
            assert forall|j: int| 0 <= j < ende - i implies rest[j] != '\n' by {
                assert(!kommt_vor_bei(z@, umbruch@, i + j));
                assert(z@.subrange(i + j, i + j + 1) =~= seq![z@[i + j]]);
            }
            if ende < z@.len() {
                assert(kommt_vor_bei(z@, umbruch@, ende as int));
                assert(z@.subrange(ende as int, ende + 1)[0] == '\n');
            }
            lemma_zeilenende_eindeutig(rest, ende - i);
            assert(rest.subrange(0, ende - i) =~= z@.subrange(i as int, ende as int));
        }
        let zeile = ohne_cr_exec(teilbereich(z, i, ende));
        let ghost r_alt = r.deep_view();
        r.push(zeile);
        proof {
            assert(r.deep_view() =~~= r_alt.push(zeile@));
            if ende == z@.len() {
                assert(zeilen_spec(rest) =~= seq![zeile@]);
                assert(r_alt + seq![zeile@] =~= r.deep_view());
            } else {
                assert(rest.subrange(ende - i + 1, rest.len() as int) =~= z@.subrange(
                    ende + 1,
                    z@.len() as int,
                ));
                assert(zeilen_spec(rest) =~= seq![zeile@] + zeilen_spec(
                    z@.subrange(ende + 1, z@.len() as int),
                ));
                assert(r_alt + (seq![zeile@] + zeilen_spec(z@.subrange(ende + 1, z@.len() as int)))
                    =~= r.deep_view() + zeilen_spec(z@.subrange(ende + 1, z@.len() as int)));
            }
        }
        if ende == z.len() {
            i = z.len();
        } else {
            i = ende + 1;
        }
    }
    proof {
        assert(z@.subrange(z@.len() as int, z@.len() as int) =~= Seq::<char>::empty());
        assert(r.deep_view() + Seq::<Seq<char>>::empty() =~= r.deep_view());
    }
    r
}

/// Splitting into lines respects concatenation at a line break: a text
/// that ends with a break contributes exactly its own lines, whatever
/// follows. This is what lets a section-by-section writer produce a
/// text whose lines are the sections' lines in order.
pub proof fn lemma_zeilen_verkettung(a: Seq<char>, b: Seq<char>)
    requires
        a.len() > 0,
        a[a.len() - 1] == '\n',
    ensures
        zeilen_spec(a + b) == zeilen_spec(a) + zeilen_spec(b),
    decreases a.len(),
{
    let ganz = a + b;
    lemma_erstes_zeilenende(a);
    let e = erstes_zeilenende(a);
    assert(e < a.len()) by {
        if e == a.len() {
            assert(a[a.len() - 1] != '\n');
        }
    }
    assert forall|j: int| 0 <= j < e implies ganz[j] != '\n' by {
        assert(ganz[j] == a[j]);
    }
    assert(ganz[e] == a[e]);
    lemma_zeilenende_eindeutig(ganz, e);
    assert(ganz.subrange(0, e) =~= a.subrange(0, e));
    let zeile = ohne_cr(a.subrange(0, e));
    if e == a.len() - 1 {
        assert(a.subrange(e + 1, a.len() as int) =~= Seq::<char>::empty());
        assert(zeilen_spec(a) == seq![zeile]) by {
            assert(zeilen_spec(Seq::<char>::empty()) == Seq::<Seq<char>>::empty());
            assert(seq![zeile] + Seq::<Seq<char>>::empty() =~= seq![zeile]);
        }
        if e + 1 == ganz.len() {
            assert(b.len() == 0);
            assert(zeilen_spec(ganz) == seq![zeile]);
            assert(zeilen_spec(b) == Seq::<Seq<char>>::empty());
            assert(seq![zeile] + Seq::<Seq<char>>::empty() =~= seq![zeile]);
        } else {
            assert(ganz.subrange(e + 1, ganz.len() as int) =~= b);
            assert(zeilen_spec(ganz) == seq![zeile] + zeilen_spec(b));
            assert(seq![zeile] + zeilen_spec(b) =~= zeilen_spec(a) + zeilen_spec(b));
        }
    } else {
        let a_rest = a.subrange(e + 1, a.len() as int);
        assert(a_rest.len() > 0);
        assert(a_rest[a_rest.len() - 1] == '\n');
        lemma_zeilen_verkettung(a_rest, b);
        assert(ganz.subrange(e + 1, ganz.len() as int) =~= a_rest + b);
        assert(e + 1 < ganz.len());
        assert(zeilen_spec(ganz) == seq![zeile] + zeilen_spec(a_rest + b));
        assert(zeilen_spec(a) == seq![zeile] + zeilen_spec(a_rest));
        assert(seq![zeile] + (zeilen_spec(a_rest) + zeilen_spec(b)) =~= (seq![zeile]
            + zeilen_spec(a_rest)) + zeilen_spec(b));
    }
}

/// Joins parts with a separator between consecutive parts.
pub open spec fn verbinden_spec(teile: Seq<Seq<char>>, sep: Seq<char>) -> Seq<char>
    decreases teile.len(),
{
    if teile.len() == 0 {
        Seq::empty()
    } else if teile.len() == 1 {
        teile[0]
    } else {
        teile[0] + sep + verbinden_spec(teile.drop_first(), sep)
    }
}

pub proof fn lemma_verbinden_anhaengen(teile: Seq<Seq<char>>, sep: Seq<char>, neu: Seq<char>)
    requires
        teile.len() > 0,
    ensures
        verbinden_spec(teile.push(neu), sep) == verbinden_spec(teile, sep) + sep + neu,
    decreases teile.len(),
{
    let erweitert = teile.push(neu);
    if teile.len() == 1 {
        assert(erweitert.drop_first() =~= seq![neu]);
        assert(verbinden_spec(erweitert.drop_first(), sep) == neu);
        assert(erweitert[0] == teile[0]);
        assert(verbinden_spec(erweitert, sep) == teile[0] + sep + neu);
    } else {
        assert(erweitert.drop_first() =~= teile.drop_first().push(neu));
        lemma_verbinden_anhaengen(teile.drop_first(), sep, neu);
        assert((teile[0] + sep + (verbinden_spec(teile.drop_first(), sep) + sep + neu)) =~= (
        teile[0] + sep + verbinden_spec(teile.drop_first(), sep)) + sep + neu);
    }
}

/// Joins the collected parts with the separator.
pub fn verbinden(teile: &Vec<Vec<char>>, sep: &Vec<char>) -> (r: Vec<char>)
    ensures
        r@ == verbinden_spec(teile.deep_view(), sep@),
{
    let mut r: Vec<char> = Vec::new();
    let mut i: usize = 0;
    while i < teile.len()
        invariant
            i <= teile@.len(),
            r@ == verbinden_spec(teile.deep_view().subrange(0, i as int), sep@),
        decreases teile@.len() - i,
    {
        let ghost bisher = teile.deep_view().subrange(0, i as int);
        if i > 0 {
            let mut k: usize = 0;
            while k < sep.len()
                invariant
                    k <= sep@.len(),
                    r@ == verbinden_spec(bisher, sep@) + sep@.subrange(0, k as int),
                decreases sep@.len() - k,
            {
                r.push(sep[k]);
                assert(sep@.subrange(0, k + 1) =~= sep@.subrange(0, k as int).push(sep@[k as int]));
                k = k + 1;
            }
            assert(sep@.subrange(0, sep@.len() as int) =~= sep@);
        }
        let teil = &teile[i];
        proof {
            assert(teile.deep_view()[i as int] =~= teile@[i as int]@);
        }
        let mut k: usize = 0;
        let ghost r_vor = r@;
        while k < teil.len()
            invariant
                k <= teil@.len(),
                teil@ == teile.deep_view()[i as int],
                r@ == r_vor + teil@.subrange(0, k as int),
            decreases teil@.len() - k,
        {
            r.push(teil[k]);
            assert(teil@.subrange(0, k + 1) =~= teil@.subrange(0, k as int).push(teil@[k as int]));
            k = k + 1;
        }
        proof {
            assert(teil@.subrange(0, teil@.len() as int) =~= teil@);
            let nachher = teile.deep_view().subrange(0, i + 1);
            assert(nachher =~= bisher.push(teile.deep_view()[i as int]));
            if i == 0 {
                assert(verbinden_spec(nachher, sep@) == teile.deep_view()[0]);
                assert(r@ =~= Seq::<char>::empty() + teil@);
            } else {
                lemma_verbinden_anhaengen(bisher, sep@, teile.deep_view()[i as int]);
            }
        }
        i = i + 1;
    }
    proof {
        assert(teile.deep_view().subrange(0, teile.deep_view().len() as int) =~= teile.deep_view());
    }
    r
}

/// Index of the last occurrence of `c` in `s`, or `-1` if there is none.
pub open spec fn letzte_pos(s: Seq<char>, c: char) -> int
    decreases s.len(),
{
    if s.len() == 0 {
        -1
    } else if s[s.len() - 1] == c {
        s.len() - 1
    } else {
        letzte_pos(s.drop_last(), c)
    }
}

pub proof fn lemma_letzte_pos(s: Seq<char>, c: char)
    ensures
        -1 <= letzte_pos(s, c) < s.len(),
        letzte_pos(s, c) >= 0 ==> s[letzte_pos(s, c)] == c,
        forall|j: int| letzte_pos(s, c) < j < s.len() ==> s[j] != c,
    decreases s.len(),
{
    if s.len() > 0 && s[s.len() - 1] != c {
        let t = s.drop_last();
        lemma_letzte_pos(t, c);
        assert forall|j: int| letzte_pos(s, c) < j < s.len() implies s[j] != c by {
            if j < s.len() - 1 {
                assert(t[j] != c);
                assert(s[j] == t[j]);
            }
        }
    }
}

/// Finds the last occurrence of `c`, scanning from the right.
pub fn letzte_pos_exec(z: &Vec<char>, c: char) -> (r: Option<usize>)
    ensures
        match r {
            Some(i) => letzte_pos(z@, c) == i as int,
            None => letzte_pos(z@, c) == -1,
        },
{
    let mut i: usize = z.len();
    proof {
        assert(z@.subrange(0, z@.len() as int) =~= z@);
    }
    while i > 0
        invariant
            i <= z@.len(),
            letzte_pos(z@, c) == letzte_pos(z@.subrange(0, i as int), c),
        decreases i,
    {
        let ghost vorher = z@.subrange(0, i as int);
        proof {
            assert(vorher.drop_last() =~= z@.subrange(0, i - 1));
        }
        i = i - 1;
        if z[i] == c {
            return Some(i);
        }
    }
    proof {
        assert(z@.subrange(0, 0) =~= Seq::<char>::empty());
    }
    None
}

/// Removes every leading occurrence of `c`.
pub open spec fn streife_links_spec(s: Seq<char>, c: char) -> Seq<char>
    decreases s.len(),
{
    if s.len() > 0 && s[0] == c {
        streife_links_spec(s.drop_first(), c)
    } else {
        s
    }
}

/// Removes every trailing occurrence of `c`.
pub open spec fn streife_rechts_spec(s: Seq<char>, c: char) -> Seq<char>
    decreases s.len(),
{
    if s.len() > 0 && s[s.len() - 1] == c {
        streife_rechts_spec(s.drop_last(), c)
    } else {
        s
    }
}

proof fn lemma_streife_links_ab(s: Seq<char>, c: char, i: int)
    requires
        0 <= i <= s.len(),
        forall|j: int| 0 <= j < i ==> s[j] == c,
        i < s.len() ==> s[i] != c,
    ensures
        streife_links_spec(s, c) == s.subrange(i, s.len() as int),
    decreases i,
{
    if i == 0 {
        assert(s.subrange(0, s.len() as int) =~= s);
    } else {
        let t = s.drop_first();
        assert(forall|j: int| 0 <= j < i - 1 ==> #[trigger] t[j] == c);
        lemma_streife_links_ab(t, c, i - 1);
        assert(t.subrange(i - 1, t.len() as int) =~= s.subrange(i, s.len() as int));
    }
}

proof fn lemma_streife_rechts_bis(s: Seq<char>, c: char, i: int)
    requires
        0 <= i <= s.len(),
        forall|j: int| i <= j < s.len() ==> s[j] == c,
        i > 0 ==> s[i - 1] != c,
    ensures
        streife_rechts_spec(s, c) == s.subrange(0, i),
    decreases s.len() - i,
{
    if i == s.len() {
        assert(s.subrange(0, s.len() as int) =~= s);
    } else {
        let t = s.drop_last();
        assert(forall|j: int| i <= j < t.len() ==> #[trigger] t[j] == c);
        lemma_streife_rechts_bis(t, c, i);
        assert(t.subrange(0, i) =~= s.subrange(0, i));
    }
}

/// Removes every leading occurrence of `c`.
pub fn gestreift_links(z: &Vec<char>, c: char) -> (r: Vec<char>)
    ensures
        r@ == streife_links_spec(z@, c),
{
    let mut a: usize = 0;
    while a < z.len() && z[a] == c
        invariant
            a <= z@.len(),
            forall|j: int| 0 <= j < a ==> z@[j] == c,
        decreases z@.len() - a,
    {
        a = a + 1;
    }
    proof {
        lemma_streife_links_ab(z@, c, a as int);
    }
    teilbereich(z, a, z.len())
}

/// Removes every leading and trailing occurrence of `c`.
pub fn gestreift(z: &Vec<char>, c: char) -> (r: Vec<char>)
    ensures
        r@ == streife_rechts_spec(streife_links_spec(z@, c), c),
{
    let mut a: usize = 0;
    while a < z.len() && z[a] == c
        invariant
            a <= z@.len(),
            forall|j: int| 0 <= j < a ==> z@[j] == c,
        decreases z@.len() - a,
    {
        a = a + 1;
    }
    proof {
        lemma_streife_links_ab(z@, c, a as int);
    }
    let mut b: usize = z.len();
    while b > a && z[b - 1] == c
        invariant
            a <= b <= z@.len(),
            forall|j: int| b <= j < z@.len() ==> z@[j] == c,
        decreases b,
    {
        b = b - 1;
    }
    let ghost rest = z@.subrange(a as int, z@.len() as int);
    proof {
        assert(forall|j: int| b - a <= j < rest.len() ==> #[trigger] rest[j] == c);
        lemma_streife_rechts_bis(rest, c, b - a);
        assert(rest.subrange(0, b - a) =~= z@.subrange(a as int, b as int));
    }
    teilbereich(z, a, b)
}

/// Removes every leading repetition of the pattern `m`, as
/// str::trim_start_matches does.
pub open spec fn streife_praefixe(s: Seq<char>, m: Seq<char>) -> Seq<char>
    recommends
        m.len() > 0,
    decreases s.len(),
{
    if m.len() > 0 && ist_praefix(m, s) && s.len() > 0 {
        streife_praefixe(s.skip(m.len() as int), m)
    } else {
        s
    }
}

/// Does `m` stand at position `von` of `z`?
pub fn praefix_ab(z: &Vec<char>, m: &Vec<char>, von: usize) -> (r: bool)
    requires
        von <= z@.len(),
    ensures
        r == kommt_vor_bei(z@, m@, von as int),
{
    if m.len() > z.len() - von {
        return false;
    }
    let stueck = teilbereich(z, von, von + m.len());
    let gleich = zeichen_gleich(&stueck, m);
    proof {
        assert(z@.subrange(von as int, von + m@.len()) == stueck@);
    }
    gleich
}

/// Removes every leading repetition of the pattern.
pub fn streife_praefixe_exec(z: &Vec<char>, m: &Vec<char>) -> (r: Vec<char>)
    requires
        m@.len() > 0,
    ensures
        r@ == streife_praefixe(z@, m@),
{
    let mut von: usize = 0;
    proof {
        assert(z@.subrange(0, z@.len() as int) =~= z@);
    }
    while von < z.len() && praefix_ab(z, m, von)
        invariant
            von <= z@.len(),
            m@.len() > 0,
            streife_praefixe(z@, m@) == streife_praefixe(
                z@.subrange(von as int, z@.len() as int),
                m@,
            ),
        decreases z@.len() - von,
    {
        let ghost rest = z@.subrange(von as int, z@.len() as int);
        proof {
            assert(rest.subrange(0, m@.len() as int) =~= z@.subrange(von as int, von + m@.len()));
            assert(ist_praefix(m@, rest));
            assert(rest.skip(m@.len() as int) =~= z@.subrange(von + m@.len(), z@.len() as int));
        }
        von = von + m.len();
    }
    proof {
        let rest = z@.subrange(von as int, z@.len() as int);
        if von < z@.len() && m@.len() <= z@.len() - von {
            assert(rest.subrange(0, m@.len() as int) =~= z@.subrange(von as int, von + m@.len()));
        }
        assert(!(m@.len() > 0 && ist_praefix(m@, rest) && rest.len() > 0));
    }
    teilbereich(z, von, z.len())
}

/// Index of the first occurrence of `m` in `s`, or `s.len()` when `m`
/// does not occur.
pub open spec fn erstes_vorkommen(s: Seq<char>, m: Seq<char>) -> int
    decreases s.len(),
{
    if ist_praefix(m, s) {
        0
    } else if s.len() == 0 {
        0
    } else {
        1 + erstes_vorkommen(s.drop_first(), m)
    }
}

pub proof fn lemma_erstes_vorkommen(s: Seq<char>, m: Seq<char>)
    requires
        m.len() > 0,
    ensures
        0 <= erstes_vorkommen(s, m) <= s.len(),
        erstes_vorkommen(s, m) < s.len() ==> kommt_vor_bei(s, m, erstes_vorkommen(s, m)),
        forall|j: int| 0 <= j < erstes_vorkommen(s, m) ==> !kommt_vor_bei(s, m, j),
    decreases s.len(),
{
    if ist_praefix(m, s) {
        assert(s.subrange(0, m.len() as int) == m);
    } else if s.len() > 0 {
        let t = s.drop_first();
        lemma_erstes_vorkommen(t, m);
        let e = erstes_vorkommen(s, m);
        if e < s.len() {
            assert(kommt_vor_bei(t, m, e - 1));
            assert(t.subrange(e - 1, e - 1 + m.len()) =~= s.subrange(e, e + m.len()));
        }
        assert forall|j: int| 0 <= j < e implies !kommt_vor_bei(s, m, j) by {
            if j == 0 {
                if kommt_vor_bei(s, m, 0) {
                    assert(ist_praefix(m, s));
                }
            } else {
                assert(!kommt_vor_bei(t, m, j - 1));
                if kommt_vor_bei(s, m, j) {
                    assert(t.subrange(j - 1, j - 1 + m.len()) =~= s.subrange(j, j + m.len()));
                }
            }
        }
    }
}

/// The first occurrence is wherever an occurrence first stands.
pub proof fn lemma_vorkommen_eindeutig(s: Seq<char>, m: Seq<char>, k: int)
    requires
        m.len() > 0,
        0 <= k <= s.len(),
        k < s.len() ==> kommt_vor_bei(s, m, k),
        k == s.len() ==> forall|j: int| 0 <= j ==> !kommt_vor_bei(s, m, j),
        forall|j: int| 0 <= j < k ==> !kommt_vor_bei(s, m, j),
    ensures
        erstes_vorkommen(s, m) == k,
{
    lemma_erstes_vorkommen(s, m);
    let e = erstes_vorkommen(s, m);
    if e < k {
        assert(!kommt_vor_bei(s, m, e));
    }
    if k < e {
        assert(!kommt_vor_bei(s, m, k));
    }
}

/// Does `m` occur anywhere in `s`?
pub open spec fn enthaelt(s: Seq<char>, m: Seq<char>) -> bool {
    erstes_vorkommen(s, m) < s.len()
}

/// Tests whether the pattern occurs anywhere in `z`.
pub fn enthaelt_exec(z: &Vec<char>, m: &Vec<char>) -> (r: bool)
    requires
        m@.len() > 0,
    ensures
        r == enthaelt(z@, m@),
{
    proof {
        lemma_erstes_vorkommen(z@, m@);
    }
    match finde_ab(z, m, 0) {
        Some(i) => {
            proof {
                lemma_vorkommen_eindeutig(z@, m@, i as int);
            }
            true
        },
        None => {
            proof {
                lemma_vorkommen_eindeutig(z@, m@, z@.len() as int);
            }
            false
        },
    }
}

/// Splitting of `s` at every occurrence of the separator, as str::split
/// does: always at least one part, empty parts kept.
pub open spec fn teile_spec(s: Seq<char>, sep: Seq<char>) -> Seq<Seq<char>>
    recommends
        sep.len() > 0,
    decreases s.len(),
    via teile_spec_abnahme
{
    if sep.len() == 0 {
        seq![s]
    } else {
        let e = erstes_vorkommen(s, sep);
        if e == s.len() {
            seq![s]
        } else {
            seq![s.subrange(0, e)] + teile_spec(s.subrange(e + sep.len(), s.len() as int), sep)
        }
    }
}

#[via_fn]
proof fn teile_spec_abnahme(s: Seq<char>, sep: Seq<char>) {
    if sep.len() > 0 {
        lemma_erstes_vorkommen(s, sep);
    }
}

/// Splits `z` at every occurrence of the separator.
pub fn teile(z: &Vec<char>, sep: &Vec<char>) -> (r: Vec<Vec<char>>)
    requires
        sep@.len() > 0,
    ensures
        r.deep_view() == teile_spec(z@, sep@),
{
    let mut r: Vec<Vec<char>> = Vec::new();
    let mut von: usize = 0;
    proof {
        assert(z@.subrange(0, z@.len() as int) =~= z@);
        assert(r.deep_view() =~= Seq::<Seq<char>>::empty());
        assert(Seq::<Seq<char>>::empty() + teile_spec(z@, sep@) =~= teile_spec(z@, sep@));
    }
    loop
        invariant
            von <= z@.len(),
            sep@.len() > 0,
            teile_spec(z@, sep@) == r.deep_view() + teile_spec(
                z@.subrange(von as int, z@.len() as int),
                sep@,
            ),
        decreases z@.len() - von + 1,
    {
        let ghost rest = z@.subrange(von as int, z@.len() as int);
        proof {
            lemma_erstes_vorkommen(rest, sep@);
        }
        match finde_ab(z, sep, von) {
            Some(e) => {
                proof {
                    assert(e + sep@.len() <= z@.len());
                    assert forall|j: int| 0 <= j < e - von implies !kommt_vor_bei(rest, sep@, j) by {
                        assert(!kommt_vor_bei(z@, sep@, von + j));
                        if kommt_vor_bei(rest, sep@, j) {
                            assert(rest.subrange(j, j + sep@.len()) =~= z@.subrange(
                                von + j,
                                von + j + sep@.len(),
                            ));
                        }
                    }
                    assert(rest.subrange(e - von, e - von + sep@.len()) =~= z@.subrange(
                        e as int,
                        e + sep@.len(),
                    ));
                    lemma_vorkommen_eindeutig(rest, sep@, e - von);
                    assert(rest.subrange(0, e - von) =~= z@.subrange(von as int, e as int));
                    assert(rest.subrange(e - von + sep@.len(), rest.len() as int) =~= z@.subrange(
                        e + sep@.len(),
                        z@.len() as int,
                    ));
                }
                let stueck = teilbereich(z, von, e);
                let ghost r_alt = r.deep_view();
                r.push(stueck);
                proof {
                    assert(r.deep_view() =~~= r_alt.push(stueck@));
                    assert(r_alt + (seq![stueck@] + teile_spec(
                        z@.subrange(e + sep@.len(), z@.len() as int),
                        sep@,
                    )) =~= r.deep_view() + teile_spec(
                        z@.subrange(e + sep@.len(), z@.len() as int),
                        sep@,
                    ));
                }
                let laenge = z.len();
                assert(e + sep@.len() <= laenge as int);
                von = e + sep.len();
            },
            None => {
                proof {
                    assert forall|j: int| 0 <= j implies !kommt_vor_bei(rest, sep@, j) by {
                        if kommt_vor_bei(rest, sep@, j) {
                            assert(rest.subrange(j, j + sep@.len()) =~= z@.subrange(
                                von + j,
                                von + j + sep@.len(),
                            ));
                            assert(kommt_vor_bei(z@, sep@, von + j));
                        }
                    }
                    lemma_vorkommen_eindeutig(rest, sep@, rest.len() as int);
                }
                let stueck = teilbereich(z, von, z.len());
                let ghost r_alt = r.deep_view();
                r.push(stueck);
                proof {
                    assert(r.deep_view() =~~= r_alt.push(stueck@));
                    assert(r_alt + seq![stueck@] =~= r.deep_view());
                }
                return r;
            },
        }
    }
}

/// The Unicode uppercase mapping of a character, named here and supplied
/// by the standard library.
pub uninterp spec fn gross_von(c: char) -> Seq<char>;

/// Relies on char::to_uppercase: the Unicode uppercase mapping of a
/// character, a function of the character alone.
#[verifier::external_body]
pub(crate) fn zu_gross(c: char) -> (r: String)
    ensures
        r@ == gross_von(c),
{
    c.to_uppercase().collect()
}

/// The first character of every whitespace-separated word of `s`.
/// `am_anfang` records whether the scan stands at a word boundary.
pub open spec fn wortanfaenge(s: Seq<char>, am_anfang: bool) -> Seq<char>
    decreases s.len(),
{
    if s.len() == 0 {
        Seq::empty()
    } else if ist_leerraum(s[0]) {
        wortanfaenge(s.drop_first(), true)
    } else if am_anfang {
        seq![s[0]] + wortanfaenge(s.drop_first(), false)
    } else {
        wortanfaenge(s.drop_first(), false)
    }
}

/// The uppercase mappings of all characters of `s`, concatenated.
pub open spec fn gross_alle(s: Seq<char>) -> Seq<char>
    decreases s.len(),
{
    if s.len() == 0 {
        Seq::empty()
    } else {
        gross_von(s[0]) + gross_alle(s.drop_first())
    }
}

pub proof fn lemma_gross_alle_anhaengen(s: Seq<char>, c: char)
    ensures
        gross_alle(s.push(c)) == gross_alle(s) + gross_von(c),
    decreases s.len(),
{
    let erweitert = s.push(c);
    if s.len() == 0 {
        assert(erweitert[0] == c);
        assert(erweitert.drop_first() =~= Seq::<char>::empty());
        assert(gross_alle(erweitert) == gross_von(c) + gross_alle(erweitert.drop_first()));
        assert(gross_von(c) + Seq::<char>::empty() =~= gross_von(c));
        assert(Seq::<char>::empty() + gross_von(c) =~= gross_von(c));
    } else {
        assert(erweitert[0] == s[0]);
        assert(erweitert.drop_first() =~= s.drop_first().push(c));
        lemma_gross_alle_anhaengen(s.drop_first(), c);
        assert(gross_alle(erweitert) == gross_von(s[0]) + gross_alle(erweitert.drop_first()));
        assert(gross_von(s[0]) + (gross_alle(s.drop_first()) + gross_von(c)) =~= (gross_von(s[0])
            + gross_alle(s.drop_first())) + gross_von(c));
    }
}

/// The decimal digit character for `d`.
pub open spec fn ziffer(d: int) -> char {
    if d == 0 {
        '0'
    } else if d == 1 {
        '1'
    } else if d == 2 {
        '2'
    } else if d == 3 {
        '3'
    } else if d == 4 {
        '4'
    } else if d == 5 {
        '5'
    } else if d == 6 {
        '6'
    } else if d == 7 {
        '7'
    } else if d == 8 {
        '8'
    } else {
        '9'
    }
}

/// Decimal notation of a non-negative number, most significant digit first.
pub open spec fn zahl_spec(n: int) -> Seq<char>
    recommends
        n >= 0,
    decreases n,
{
    if n < 10 {
        seq![ziffer(n)]
    } else {
        zahl_spec(n / 10).push(ziffer(n % 10))
    }
}

/// Writes `n` in decimal notation.
pub fn zahl_text(n: usize) -> (r: Vec<char>)
    ensures
        r@ == zahl_spec(n as int),
{
    let mut rueckwaerts: Vec<char> = Vec::new();
    let mut rest: usize = n;
    while rest >= 10
        invariant
            zahl_spec(n as int) == zahl_spec(rest as int) + rueckwaerts@.reverse(),
        decreases rest,
    {
        let d = rest % 10;
        let z = if d == 0 {
            '0'
        } else if d == 1 {
            '1'
        } else if d == 2 {
            '2'
        } else if d == 3 {
            '3'
        } else if d == 4 {
            '4'
        } else if d == 5 {
            '5'
        } else if d == 6 {
            '6'
        } else if d == 7 {
            '7'
        } else if d == 8 {
            '8'
        } else {
            '9'
        };
        proof {
            assert(z == ziffer(d as int));
            assert(zahl_spec(rest as int) == zahl_spec(rest as int / 10).push(
                ziffer(rest as int % 10),
            ));
            assert(rueckwaerts@.push(z).reverse() =~= seq![z] + rueckwaerts@.reverse());
            assert(zahl_spec(rest as int / 10) + (seq![z] + rueckwaerts@.reverse()) =~= (zahl_spec(
                rest as int / 10,
            ) + seq![z]) + rueckwaerts@.reverse());
            assert(zahl_spec(rest as int / 10).push(z) =~= zahl_spec(rest as int / 10) + seq![z]);
        }
        rueckwaerts.push(z);
        rest = rest / 10;
    }
    let d = rest;
    let z = if d == 0 {
        '0'
    } else if d == 1 {
        '1'
    } else if d == 2 {
        '2'
    } else if d == 3 {
        '3'
    } else if d == 4 {
        '4'
    } else if d == 5 {
        '5'
    } else if d == 6 {
        '6'
    } else if d == 7 {
        '7'
    } else if d == 8 {
        '8'
    } else {
        '9'
    };
    assert(zahl_spec(rest as int) == seq![z]);
    let mut r: Vec<char> = Vec::new();
    r.push(z);
    let mut k: usize = rueckwaerts.len();
    while k > 0
        invariant
            k <= rueckwaerts@.len(),
            r@ == seq![z] + rueckwaerts@.subrange(k as int, rueckwaerts@.len() as int).reverse(),
        decreases k,
    {
        k = k - 1;
        r.push(rueckwaerts[k]);
        proof {
            let s = rueckwaerts@;
            assert(s.subrange(k as int, s.len() as int).reverse() =~= s.subrange(
                k + 1,
                s.len() as int,
            ).reverse().push(s[k as int]));
        }
    }
    proof {
        assert(rueckwaerts@.subrange(0, rueckwaerts@.len() as int) =~= rueckwaerts@);
        assert(r@ =~= zahl_spec(rest as int) + rueckwaerts@.reverse());
    }
    r
}

} // verus!
