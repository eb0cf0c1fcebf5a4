//! Relative paths as sequences of segments.
use vstd::prelude::*;
use vstd::string::*;

verus! {

/// The texts of a list of strings.
pub open spec fn texts(v: Seq<String>) -> Seq<Seq<char>> {
    v.map_values(|s: String| s@)
}

/// Splitting `p` at '/' after reading it whole: the segments completed so far
/// and the one still being read. Empty segments are dropped.
pub open spec fn split_state(p: Seq<char>) -> (Seq<Seq<char>>, Seq<char>)
    decreases p.len(),
{
    if p.len() == 0 {
        (Seq::empty(), Seq::empty())
    } else {
        let (done, cur) = split_state(p.drop_last());
        if p.last() == '/' {
            (if cur.len() > 0 {
                done.push(cur)
            } else {
                done
            }, Seq::empty())
        } else {
            (done, cur.push(p.last()))
        }
    }
}

/// The non-empty runs of characters of `p` between '/' separators, in order.
pub open spec fn segments(p: Seq<char>) -> Seq<Seq<char>> {
    let (done, cur) = split_state(p);
    if cur.len() > 0 {
        done.push(cur)
    } else {
        done
    }
}

proof fn lemma_texts_push(v: Seq<String>, s: String)
    ensures
        texts(v.push(s)) == texts(v).push(s@),
{
    assert(texts(v.push(s)) == texts(v).push(s@));
}

/// Splits a relative path into its segments, skipping empty ones.
pub fn split_segments(path: &str) -> (r: Vec<String>)
    ensures
        texts(r@) == segments(path@),
{
    let n = path.unicode_len();
    let mut out: Vec<String> = Vec::new();
    let mut start: usize = 0;
    let mut i: usize = 0;
    assert(path@.take(0) == Seq::<char>::empty());
    assert(texts(out@) == Seq::<Seq<char>>::empty());
    while i < n
        invariant
            n == path@.len(),
            0 <= start <= i <= n,
            split_state(path@.take(i as int)) == (texts(out@), path@.subrange(
                start as int,
                i as int,
            )),
        decreases n - i,
    {
        let c = path.get_char(i);
        assert(path@.take(i + 1).drop_last() == path@.take(i as int));
        assert(path@.take(i + 1).last() == c);
        if c == '/' {
            if start < i {
                let seg = String::from_str(path.substring_char(start, i));
                proof {
                    lemma_texts_push(out@, seg);
                }
                out.push(seg);
            }
            start = i + 1;
            assert(path@.subrange(start as int, i + 1) == Seq::<char>::empty());
        } else {
            assert(path@.subrange(start as int, i + 1) == path@.subrange(start as int, i as int).push(
                c,
            ));
        }
        i = i + 1;
    }
    assert(path@.take(n as int) == path@);
    if start < n {
        let seg = String::from_str(path.substring_char(start, n));
        proof {
            lemma_texts_push(out@, seg);
        }
        out.push(seg);
    }
    out
}

} // verus!
