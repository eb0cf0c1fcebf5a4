//! Lexicographic order on sequences and strictly sorted sequences.
use vstd::prelude::*;

verus! {

/// `lt` is a strict total order on `T`.
pub open spec fn is_strict_total<T>(lt: spec_fn(T, T) -> bool) -> bool {
    &&& forall|x: T| !#[trigger] lt(x, x)
    &&& forall|x: T, y: T, z: T| #[trigger] lt(x, y) && #[trigger] lt(y, z) ==> lt(x, z)
    &&& forall|x: T, y: T| x == y || #[trigger] lt(x, y) || lt(y, x)
}

/// Lexicographic order induced by `lt`; a proper prefix comes first.
pub open spec fn lex_lt<T>(a: Seq<T>, b: Seq<T>, lt: spec_fn(T, T) -> bool) -> bool
    decreases a.len(),
{
    if a.len() == 0 {
        b.len() > 0
    } else if b.len() == 0 {
        false
    } else if a[0] == b[0] {
        lex_lt(a.drop_first(), b.drop_first(), lt)
    } else {
        lt(a[0], b[0])
    }
}

/// Every element of `s` is below every later one: `s` is sorted and free of
/// repeats.
pub open spec fn strictly_sorted<T>(s: Seq<T>, lt: spec_fn(T, T) -> bool) -> bool {
    forall|i: int, j: int| 0 <= i < j < s.len() ==> #[trigger] lt(s[i], s[j])
}

/// Order of characters by code point.
pub open spec fn char_lt() -> spec_fn(char, char) -> bool {
    |x: char, y: char| (x as int) < (y as int)
}

/// Order of strings: lexicographic by code point.
pub open spec fn text_lt() -> spec_fn(Seq<char>, Seq<char>) -> bool {
    |a: Seq<char>, b: Seq<char>| lex_lt(a, b, char_lt())
}

/// Past a common prefix of length `i`, the lexicographic order is decided by
/// what follows it.
pub proof fn lemma_lex_skip<T>(a: Seq<T>, b: Seq<T>, lt: spec_fn(T, T) -> bool, i: int)
    requires
        0 <= i <= a.len(),
        i <= b.len(),
        a.take(i) == b.take(i),
    ensures
        lex_lt(a, b, lt) == lex_lt(a.skip(i), b.skip(i), lt),
    decreases i,
{
    if i == 0 {
        assert(a.skip(0) == a);
        assert(b.skip(0) == b);
    } else {
        assert(a[0] == a.take(i)[0]);
        assert(b[0] == b.take(i)[0]);
        assert(a.drop_first().take(i - 1) == a.take(i).drop_first());
        assert(b.drop_first().take(i - 1) == b.take(i).drop_first());
        lemma_lex_skip(a.drop_first(), b.drop_first(), lt, i - 1);
        assert(a.drop_first().skip(i - 1) == a.skip(i));
        assert(b.drop_first().skip(i - 1) == b.skip(i));
    }
}

proof fn lemma_lex_irreflexive<T>(a: Seq<T>, lt: spec_fn(T, T) -> bool)
    ensures
        !lex_lt(a, a, lt),
    decreases a.len(),
{
    if a.len() > 0 {
        lemma_lex_irreflexive(a.drop_first(), lt);
    }
}

proof fn lemma_lex_transitive<T>(a: Seq<T>, b: Seq<T>, c: Seq<T>, lt: spec_fn(T, T) -> bool)
    requires
        is_strict_total(lt),
        lex_lt(a, b, lt),
        lex_lt(b, c, lt),
    ensures
        lex_lt(a, c, lt),
    decreases a.len(),
{
    if a.len() > 0 {
        if a[0] == b[0] && b[0] == c[0] {
            lemma_lex_transitive(a.drop_first(), b.drop_first(), c.drop_first(), lt);
        } else if a[0] != b[0] && b[0] != c[0] {
            assert(lt(a[0], b[0]) && lt(b[0], c[0]));
            if a[0] == c[0] {
                assert(lt(a[0], a[0]));
            }
        }
    }
}

proof fn lemma_lex_total<T>(a: Seq<T>, b: Seq<T>, lt: spec_fn(T, T) -> bool)
    requires
        is_strict_total(lt),
    ensures
        a == b || lex_lt(a, b, lt) || lex_lt(b, a, lt),
    decreases a.len(),
{
    if a.len() > 0 && b.len() > 0 {
        if a[0] == b[0] {
            lemma_lex_total(a.drop_first(), b.drop_first(), lt);
            if a.drop_first() == b.drop_first() {
                assert(a == seq![a[0]] + a.drop_first());
                assert(b == seq![b[0]] + b.drop_first());
            }
        } else {
            assert(lt(a[0], b[0]) || lt(b[0], a[0]));
        }
    } else if a.len() == 0 && b.len() == 0 {
        assert(a == b);
    }
}

/// The lexicographic order induced by a strict total order is one too.
pub proof fn lemma_lex_strict_total<T>(lt: spec_fn(T, T) -> bool)
    requires
        is_strict_total(lt),
    ensures
        is_strict_total(|a: Seq<T>, b: Seq<T>| lex_lt(a, b, lt)),
{
    let l = |a: Seq<T>, b: Seq<T>| lex_lt(a, b, lt);
    assert forall|x: Seq<T>| !#[trigger] l(x, x) by {
        lemma_lex_irreflexive(x, lt);
    }
    assert forall|x: Seq<T>, y: Seq<T>, z: Seq<T>| #[trigger] l(x, y) && #[trigger] l(y, z) implies l(
        x,
        z,
    ) by {
        lemma_lex_transitive(x, y, z, lt);
    }
    assert forall|x: Seq<T>, y: Seq<T>| x == y || #[trigger] l(x, y) || l(y, x) by {
        lemma_lex_total(x, y, lt);
    }
}

/// Code-point order on characters is a strict total order.
pub proof fn lemma_char_lt_strict_total()
    ensures
        is_strict_total(char_lt()),
{
    assert forall|x: char, y: char| x == y || #[trigger] char_lt()(x, y) || char_lt()(y, x) by {
        if (x as int) == (y as int) {
            assert(x == y);
        }
    }
}

/// Code-point lexicographic order on strings is a strict total order.
pub proof fn lemma_text_lt_strict_total()
    ensures
        is_strict_total(text_lt()),
{
    lemma_char_lt_strict_total();
    lemma_lex_strict_total(char_lt());
    assert(text_lt() == (|a: Seq<char>, b: Seq<char>| lex_lt(a, b, char_lt())));
}

/// Two strictly sorted sequences with the same elements are equal: a finite
/// set has one strictly sorted listing.
pub proof fn lemma_sorted_unique<T>(s1: Seq<T>, s2: Seq<T>, lt: spec_fn(T, T) -> bool)
    requires
        is_strict_total(lt),
        strictly_sorted(s1, lt),
        strictly_sorted(s2, lt),
        s1.to_set() == s2.to_set(),
    ensures
        s1 == s2,
    decreases s1.len() + s2.len(),
{
    if s1.len() == 0 && s2.len() > 0 {
        assert(s2.to_set().contains(s2[0]));
    } else if s2.len() == 0 && s1.len() > 0 {
        assert(s1.to_set().contains(s1[0]));
    } else if s1.len() > 0 && s2.len() > 0 {
        let x = s1[0];
        let y = s2[0];
        assert(s1.to_set().contains(x));
        assert(s2.to_set().contains(y));
        let j = choose|j: int| 0 <= j < s2.len() && s2[j] == x;
        let k = choose|k: int| 0 <= k < s1.len() && s1[k] == y;
        if x != y {
            assert(lt(s2[0], s2[j]));
            assert(lt(s1[0], s1[k]));
            assert(lt(x, x));
        }
        let t1 = s1.drop_first();
        let t2 = s2.drop_first();
        assert forall|z: T| t1.to_set().contains(z) implies t2.to_set().contains(z) by {
            let i = choose|i: int| 0 <= i < t1.len() && t1[i] == z;
            assert(s1[i + 1] == z);
            assert(lt(s1[0], s1[i + 1]));
            assert(s2.to_set().contains(z));
            let m = choose|m: int| 0 <= m < s2.len() && s2[m] == z;
            assert(m != 0);
            assert(t2[m - 1] == z);
        }
        assert forall|z: T| t2.to_set().contains(z) implies t1.to_set().contains(z) by {
            let i = choose|i: int| 0 <= i < t2.len() && t2[i] == z;
            assert(s2[i + 1] == z);
            assert(lt(s2[0], s2[i + 1]));
            assert(s1.to_set().contains(z));
            let m = choose|m: int| 0 <= m < s1.len() && s1[m] == z;
            assert(m != 0);
            assert(t1[m - 1] == z);
        }
        assert(t1.to_set() == t2.to_set());
        lemma_sorted_unique(t1, t2, lt);
        assert(s1 == seq![x] + t1);
        assert(s2 == seq![y] + t2);
    }
}

/// Inserting `x` at the place where it falls keeps a sequence strictly sorted
/// and adds `x` to its elements.
pub proof fn lemma_sorted_insert<T>(s: Seq<T>, p: int, x: T, lt: spec_fn(T, T) -> bool)
    requires
        is_strict_total(lt),
        strictly_sorted(s, lt),
        0 <= p <= s.len(),
        forall|j: int| 0 <= j < p ==> #[trigger] lt(s[j], x),
        p < s.len() ==> lt(x, s[p]),
    ensures
        strictly_sorted(s.insert(p, x), lt),
        s.insert(p, x).to_set() == s.to_set().insert(x),
{
    let t = s.insert(p, x);
    assert forall|i: int, j: int| 0 <= i < j < t.len() implies #[trigger] lt(t[i], t[j]) by {
        if j < p {
            assert(lt(s[i], s[j]));
        } else if j == p {
            assert(lt(s[i], x));
        } else if i < p {
            assert(lt(s[i], s[j - 1]));
        } else if i == p {
            if j - 1 > p {
                assert(lt(s[p], s[j - 1]));
            }
        } else {
            assert(lt(s[i - 1], s[j - 1]));
        }
    }
    assert forall|z: T| t.to_set().contains(z) <==> s.to_set().insert(x).contains(z) by {
        if t.to_set().contains(z) {
            let i = choose|i: int| 0 <= i < t.len() && t[i] == z;
            if i < p {
                assert(s[i] == z);
            } else if i > p {
                assert(s[i - 1] == z);
            }
        }
        if s.to_set().contains(z) {
            let i = choose|i: int| 0 <= i < s.len() && s[i] == z;
            if i < p {
                assert(t[i] == z);
            } else {
                assert(t[i + 1] == z);
            }
        }
        if z == x {
            assert(t[p] == x);
        }
    }
    assert(t.to_set() == s.to_set().insert(x));
}

/// Adding an element at the end of a sequence adds it to the elements.
pub proof fn lemma_push_to_set<T>(s: Seq<T>, x: T)
    ensures
        s.push(x).to_set() == s.to_set().insert(x),
{
    let t = s.push(x);
    assert forall|z: T| t.to_set().contains(z) <==> s.to_set().insert(x).contains(z) by {
        if t.to_set().contains(z) {
            let i = choose|i: int| 0 <= i < t.len() && t[i] == z;
            if i < s.len() {
                assert(s[i] == z);
            }
        }
        if s.to_set().contains(z) {
            let i = choose|i: int| 0 <= i < s.len() && s[i] == z;
            assert(t[i] == z);
        }
        if z == x {
            assert(t[s.len() as int] == x);
        }
    }
    assert(t.to_set() == s.to_set().insert(x));
}

/// Where `x`, absent from the strictly sorted `s`, falls in it.
proof fn insert_position<T>(s: Seq<T>, x: T, lt: spec_fn(T, T) -> bool) -> (p: int)
    requires
        is_strict_total(lt),
        strictly_sorted(s, lt),
        !s.contains(x),
    ensures
        0 <= p <= s.len(),
        forall|j: int| 0 <= j < p ==> #[trigger] lt(s[j], x),
        p < s.len() ==> lt(x, s[p]),
    decreases s.len(),
{
    if s.len() == 0 {
        0
    } else if lt(s.last(), x) {
        let p = s.len() as int;
        assert forall|j: int| 0 <= j < p implies #[trigger] lt(s[j], x) by {
            if j < p - 1 {
                assert(lt(s[j], s[p - 1]));
            }
        }
        p
    } else {
        let t = s.drop_last();
        assert(!t.contains(x)) by {
            if t.contains(x) {
                let i = choose|i: int| 0 <= i < t.len() && t[i] == x;
                assert(s[i] == x);
            }
        }
        assert(s[s.len() - 1] != x);
        let p = insert_position(t, x, lt);
        assert forall|j: int| 0 <= j < p implies #[trigger] lt(s[j], x) by {
            assert(t[j] == s[j]);
        }
        if p < t.len() {
            assert(t[p] == s[p]);
        }
        p
    }
}

/// The elements of any sequence have a strictly sorted listing.
pub proof fn lemma_sorted_listing_exists<T>(q: Seq<T>, lt: spec_fn(T, T) -> bool)
    requires
        is_strict_total(lt),
    ensures
        exists|s: Seq<T>| strictly_sorted(s, lt) && s.to_set() == q.to_set(),
    decreases q.len(),
{
    if q.len() == 0 {
        let s = Seq::<T>::empty();
        assert(s.to_set() == q.to_set());
        assert(strictly_sorted(s, lt));
    } else {
        let r = q.drop_last();
        let x = q.last();
        lemma_sorted_listing_exists(r, lt);
        let t = choose|t: Seq<T>| strictly_sorted(t, lt) && t.to_set() == r.to_set();
        assert(q == r.push(x));
        lemma_push_to_set(r, x);
        if t.contains(x) {
            assert(t.to_set().contains(x));
            assert(q.to_set() == t.to_set());
        } else {
            let p = insert_position(t, x, lt);
            lemma_sorted_insert(t, p, x, lt);
        }
    }
}

} // verus!
