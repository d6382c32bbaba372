//! Lexicographic order and common prefixes of character sequences.
use vstd::prelude::*;
use vstd::utf8::char_u32_cast;

verus! {

/// Lexicographic order on character sequences, comparing characters by code
/// point; a proper prefix comes before the longer sequence.
pub open spec fn lex_less(a: Seq<char>, b: Seq<char>) -> bool
    decreases a.len(),
{
    if a.len() == 0 {
        b.len() > 0
    } else if b.len() == 0 {
        false
    } else if a[0] == b[0] {
        lex_less(a.drop_first(), b.drop_first())
    } else {
        (a[0] as u32) < (b[0] as u32)
    }
}

/// Each element comes strictly before every later one.
pub open spec fn strictly_ascending(s: Seq<Seq<char>>) -> bool {
    forall|i: int, j: int| 0 <= i < j < s.len() ==> lex_less(#[trigger] s[i], #[trigger] s[j])
}

/// The character sequences that the vectors of `s` hold.
pub open spec fn views(s: Seq<Vec<char>>) -> Seq<Seq<char>> {
    s.map_values(|v: Vec<char>| v@)
}

/// `q` starts every sequence of `ws`.
pub open spec fn is_common_prefix(q: Seq<char>, ws: Set<Seq<char>>) -> bool {
    forall|w: Seq<char>| #[trigger] ws.contains(w) ==> q.is_prefix_of(w)
}

/// `q` starts every sequence of `ws`, and no longer sequence does.
pub open spec fn is_longest_common_prefix(q: Seq<char>, ws: Set<Seq<char>>) -> bool {
    &&& is_common_prefix(q, ws)
    &&& forall|q2: Seq<char>| #[trigger] is_common_prefix(q2, ws) ==> q2.len() <= q.len()
}

pub proof fn lemma_lex_less_transitive(a: Seq<char>, b: Seq<char>, c: Seq<char>)
    requires
        lex_less(a, b),
        lex_less(b, c),
    ensures
        lex_less(a, c),
    decreases a.len(),
{
    if a.len() > 0 && b.len() > 0 && c.len() > 0 && a[0] == b[0] && b[0] == c[0] {
        lemma_lex_less_transitive(a.drop_first(), b.drop_first(), c.drop_first());
    }
}

pub proof fn lemma_lex_less_total(a: Seq<char>, b: Seq<char>)
    requires
        a != b,
    ensures
        lex_less(a, b) || lex_less(b, a),
    decreases a.len(),
{
    if a.len() > 0 && b.len() > 0 {
        if a[0] == b[0] {
            if a.drop_first() == b.drop_first() {
                assert(a =~= seq![a[0]] + a.drop_first());
                assert(b =~= seq![b[0]] + b.drop_first());
            }
            lemma_lex_less_total(a.drop_first(), b.drop_first());
        } else {
            char_u32_cast(a[0], a[0] as u32);
            char_u32_cast(b[0], b[0] as u32);
        }
    } else if a.len() == 0 && b.len() == 0 {
        assert(a =~= b);
    }
}

/// Whether `a` comes strictly before `b` in lexicographic order.
pub fn less_than(a: &Vec<char>, b: &Vec<char>) -> (r: bool)
    ensures
        r == lex_less(a@, b@),
{
    let mut i: usize = 0;
    assert(a@.skip(0) =~= a@ && b@.skip(0) =~= b@);
    while i < a.len() && i < b.len() && a[i] == b[i]
        invariant
            i <= a.len(),
            i <= b.len(),
            lex_less(a@, b@) == lex_less(a@.skip(i as int), b@.skip(i as int)),
        decreases a.len() - i,
    {
        assert(a@.skip(i as int).drop_first() =~= a@.skip(i + 1));
        assert(b@.skip(i as int).drop_first() =~= b@.skip(i + 1));
        i = i + 1;
    }
    if i == a.len() {
        i < b.len()
    } else if i == b.len() {
        false
    } else {
        (a[i] as u32) < (b[i] as u32)
    }
}

/// The sequences of `words` in strictly ascending order.
pub fn sort_words(words: Vec<Vec<char>>) -> (r: Vec<Vec<char>>)
    requires
        views(words@).no_duplicates(),
    ensures
        strictly_ascending(views(r@)),
        views(r@).to_set() == views(words@).to_set(),
{
    let ghost orig = views(words@);
    let mut rest = words;
    let mut sorted: Vec<Vec<char>> = Vec::new();
    assert(orig.skip(orig.len() as int) =~= Seq::<Seq<char>>::empty());
    assert(views(sorted@) =~= Seq::<Seq<char>>::empty());
    while rest.len() > 0
        invariant
            orig.no_duplicates(),
            rest.len() <= orig.len(),
            views(rest@) == orig.take(rest.len() as int),
            strictly_ascending(views(sorted@)),
            views(sorted@).to_set() == orig.skip(rest.len() as int).to_set(),
        decreases rest.len(),
    {
        let ghost r = rest.len() as int;
        let ghost before = rest@;
        let w = rest.pop().unwrap();
        assert(w == before[r - 1]);
        assert(views(before)[r - 1] == before[r - 1]@);
        assert(orig.take(r)[r - 1] == orig[r - 1]);
        let ghost wv = w@;
        let ghost sv = views(sorted@);
        assert(wv == orig[r - 1]);
        assert(views(rest@) =~= orig.take(r - 1));
        assert(!sv.to_set().contains(wv)) by {
            if sv.to_set().contains(wv) {
                let x = choose|x: int| 0 <= x < orig.skip(r).len() && orig.skip(r)[x] == wv;
                assert(orig[r + x] == orig[r - 1]);
            }
        }
        let mut j: usize = 0;
        while j < sorted.len() && !less_than(&w, &sorted[j])
            invariant
                sv == views(sorted@),
                wv == w@,
                !sv.to_set().contains(wv),
                j <= sorted.len(),
                forall|x: int| 0 <= x < j ==> lex_less(#[trigger] sv[x], wv),
            decreases sorted.len() - j,
        {
            proof {
                assert(sv.to_set().contains(sv[j as int]));
                lemma_lex_less_total(wv, sv[j as int]);
            }
            j = j + 1;
        }
        sorted.insert(j, w);
        proof {
            let nv = views(sorted@);
            assert(nv =~= sv.insert(j as int, wv));
            assert forall|x: int, y: int| 0 <= x < y < nv.len() implies lex_less(
                #[trigger] nv[x],
                #[trigger] nv[y],
            ) by {
                if y < j {
                } else if y == j {
                } else if x < j {
                    assert(nv[y] == sv[y - 1]);
                    assert(lex_less(sv[x], sv[y - 1]));
                } else if x == j {
                    assert(nv[y] == sv[y - 1]);
                    if y - 1 > j {
                        assert(lex_less(sv[j as int], sv[y - 1]));
                        lemma_lex_less_transitive(wv, sv[j as int], sv[y - 1]);
                    }
                } else {
                    assert(nv[x] == sv[x - 1]);
                    assert(nv[y] == sv[y - 1]);
                    assert(lex_less(sv[x - 1], sv[y - 1]));
                }
            }
            assert(orig.skip(r - 1) =~= orig.skip(r).insert(0, wv));
            assert(nv.to_set() =~= sv.to_set().insert(wv)) by {
                assert forall|v: Seq<char>| nv.to_set().contains(v) implies sv.to_set().insert(
                    wv,
                ).contains(v) by {
                    let x = choose|x: int| 0 <= x < nv.len() && nv[x] == v;
                    if x < j {
                        assert(sv[x] == v);
                    } else if x > j {
                        assert(sv[x - 1] == v);
                    }
                }
                assert forall|v: Seq<char>| sv.to_set().insert(wv).contains(v) implies nv.to_set().contains(
                    v,
                ) by {
                    if v == wv {
                        assert(nv[j as int] == v);
                    } else {
                        let x = choose|x: int| 0 <= x < sv.len() && sv[x] == v;
                        if x < j {
                            assert(nv[x] == v);
                        } else {
                            assert(nv[x + 1] == v);
                        }
                    }
                }
            }
            assert(orig.skip(r - 1).to_set() =~= orig.skip(r).to_set().insert(wv)) by {
                let a = orig.skip(r - 1);
                let b = orig.skip(r);
                assert forall|v: Seq<char>| a.to_set().contains(v) implies b.to_set().insert(
                    wv,
                ).contains(v) by {
                    let x = choose|x: int| 0 <= x < a.len() && a[x] == v;
                    if x > 0 {
                        assert(b[x - 1] == v);
                    }
                }
                assert forall|v: Seq<char>| b.to_set().insert(wv).contains(v) implies a.to_set().contains(
                    v,
                ) by {
                    if v == wv {
                        assert(a[0] == v);
                    } else {
                        let x = choose|x: int| 0 <= x < b.len() && b[x] == v;
                        assert(a[x + 1] == v);
                    }
                }
            }
        }
    }
    assert(orig.skip(0) =~= orig);
    sorted
}

/// The length of the longest common prefix of `a` and `b`.
pub fn common_prefix_len(a: &Vec<char>, b: &Vec<char>) -> (k: usize)
    ensures
        k <= a.len(),
        k <= b.len(),
        a@.take(k as int) == b@.take(k as int),
        k < a.len() && k < b.len() ==> a@[k as int] != b@[k as int],
{
    let mut k: usize = 0;
    while k < a.len() && k < b.len() && a[k] == b[k]
        invariant
            k <= a.len(),
            k <= b.len(),
            a@.take(k as int) == b@.take(k as int),
        decreases a.len() - k,
    {
        assert(a@.take(k + 1) =~= a@.take(k as int).push(a@[k as int]));
        assert(b@.take(k + 1) =~= b@.take(k as int).push(b@[k as int]));
        k = k + 1;
    }
    k
}

/// The longest common prefix of the sequences of `words`.
pub fn longest_common_prefix(words: &Vec<Vec<char>>) -> (r: Vec<char>)
    requires
        words.len() > 0,
    ensures
        is_longest_common_prefix(r@, views(words@).to_set()),
{
    let ghost ws = views(words@);
    let first = &words[0];
    let ghost f = first@;
    let mut k: usize = first.len();
    let mut i: usize = 1;
    while i < words.len()
        invariant
            ws == views(words@),
            f == ws[0],
            f == first@,
            1 <= i <= words.len(),
            k <= f.len(),
            forall|x: int| 0 <= x < i ==> f.take(k as int).is_prefix_of(#[trigger] ws[x]),
            k == f.len() || exists|x: int|
                0 <= x < i && (k == (#[trigger] ws[x]).len() || (k < ws[x].len() && ws[x][k as int]
                    != f[k as int])),
        decreases words.len() - i,
    {
        let cp = common_prefix_len(first, &words[i]);
        let ghost wi = ws[i as int];
        assert(wi == words@[i as int]@);
        if cp < k {
            k = cp;
            assert(k == wi.len() || (k < wi.len() && wi[k as int] != f[k as int]));
        }
        assert forall|x: int| 0 <= x <= i implies f.take(k as int).is_prefix_of(#[trigger] ws[x]) by {
            if x < i {
                assert(f.take(k as int) =~= ws[x].take(k as int));
            } else {
                assert(f.take(k as int) =~= f.take(cp as int).take(k as int));
                assert(f.take(k as int) =~= wi.take(k as int));
            }
        }
        i = i + 1;
    }
    let mut r: Vec<char> = Vec::new();
    let mut j: usize = 0;
    while j < k
        invariant
            k <= first@.len(),
            j <= k,
            r@ == first@.take(j as int),
        decreases k - j,
    {
        r.push(first[j]);
        assert(first@.take(j + 1) =~= first@.take(j as int).push(first@[j as int]));
        j = j + 1;
    }
    proof {
        let q = r@;
        let all = ws.to_set();
        assert forall|w: Seq<char>| #[trigger] all.contains(w) implies q.is_prefix_of(w) by {
            let x = choose|x: int| 0 <= x < ws.len() && ws[x] == w;
        }
        assert forall|q2: Seq<char>| #[trigger] is_common_prefix(q2, all) implies q2.len() <= q.len() by {
            if q2.len() > q.len() {
                assert(all.contains(f));
                assert(q2.is_prefix_of(f));
                if k < f.len() {
                    let x = choose|x: int|
                        0 <= x < i && (k == (#[trigger] ws[x]).len() || (k < ws[x].len()
                            && ws[x][k as int] != f[k as int]));
                    assert(all.contains(ws[x]));
                    assert(q2.is_prefix_of(ws[x]));
                    assert(q2[k as int] == f[k as int]);
                    assert(q2[k as int] == ws[x][k as int]);
                }
            }
        }
    }
    r
}

} // verus!
