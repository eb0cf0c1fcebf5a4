//! Choosing, among the files that a directory walk found, those that a policy
//! selects, in the canonical order that rendering relies on.
use vstd::prelude::*;
use crate::order::{is_strict_total, lemma_sorted_insert, lemma_text_lt_strict_total, strictly_sorted, text_lt};
use crate::path::texts;
use crate::policy::FileFilter;
use crate::tree::compare_text;

verus! {

/// The candidates that `policy` selects, as a set of path texts.
pub open spec fn selected(policy: FileFilter, candidates: Seq<Seq<char>>) -> Set<Seq<char>> {
    candidates.to_set().filter(|p: Seq<char>| policy.admits(p))
}

/// Adds `x` to the strictly sorted list `paths`, unless it is there.
fn insert_path(paths: &mut Vec<String>, x: String)
    requires
        strictly_sorted(texts(old(paths)@), text_lt()),
    ensures
        strictly_sorted(texts(final(paths)@), text_lt()),
        texts(final(paths)@).to_set() == texts(old(paths)@).to_set().insert(x@),
{
    proof {
        lemma_text_lt_strict_total();
    }
    let ghost l = texts(paths@);
    let mut lo: usize = 0;
    let mut hi: usize = paths.len();
    while lo < hi
        invariant
            *paths == *old(paths),
            l == texts(paths@),
            lo <= hi <= l.len(),
            is_strict_total(text_lt()),
            strictly_sorted(l, text_lt()),
            forall|j: int| 0 <= j < lo ==> #[trigger] text_lt()(l[j], x@),
            hi < l.len() ==> !text_lt()(l[hi as int], x@),
        decreases hi - lo,
    {
        let mid = lo + (hi - lo) / 2;
        if compare_text(&paths[mid], &x) < 0 {
            assert forall|j: int| 0 <= j < mid + 1 implies #[trigger] text_lt()(l[j], x@) by {
                if j < mid {
                    assert(text_lt()(l[j], l[mid as int]));
                }
            }
            lo = mid + 1;
        } else {
            hi = mid;
        }
    }
    let p = lo;
    if p < paths.len() && compare_text(&paths[p], &x) == 0 {
        proof {
            assert(l[p as int] == x@);
            assert(l.to_set().contains(x@));
            assert(l.to_set().insert(x@) == l.to_set());
        }
        return;
    }
    proof {
        lemma_sorted_insert(texts(paths@), p as int, x@, text_lt());
    }
    paths.insert(p, x);
    assert(texts(paths@) == texts(old(paths)@).insert(p as int, x@));
}

/// The candidate paths (relative to the walked root) that `policy` selects,
/// sorted by code point and each listed once.
pub fn select_files(candidates: Vec<String>, policy: &FileFilter) -> (r: Vec<String>)
    ensures
        strictly_sorted(texts(r@), text_lt()),
        texts(r@).to_set() == selected(*policy, texts(candidates@)),
{
    let ghost c = texts(candidates@);
    let mut out: Vec<String> = Vec::new();
    let mut i: usize = 0;
    assert(texts(out@).to_set() == Set::<Seq<char>>::empty());
    while i < candidates.len()
        invariant
            c == texts(candidates@),
            i <= candidates@.len(),
            strictly_sorted(texts(out@), text_lt()),
            texts(out@).to_set() == selected(*policy, c.take(i as int)),
        decreases candidates.len() - i,
    {
        let path = &candidates[i];
        let keep = policy.should_include(path.as_str());
        let ghost before = texts(out@).to_set();
        if keep {
            insert_path(&mut out, path.clone());
        }
        proof {
            let next = c.take(i + 1);
            assert(next == c.take(i as int).push(path@));
            assert forall|p: Seq<char>| #[trigger] selected(*policy, next).contains(p) <==> (
            selected(*policy, c.take(i as int)).contains(p) || (p == path@ && keep)) by {
                if next.to_set().contains(p) {
                    let q = choose|q: int| 0 <= q < next.len() && next[q] == p;
                    if q < i {
                        assert(c.take(i as int)[q] == p);
                    }
                }
                if c.take(i as int).to_set().contains(p) {
                    let q = choose|q: int| 0 <= q < i && c.take(i as int)[q] == p;
                    assert(next[q] == p);
                }
                if p == path@ {
                    assert(next[i as int] == p);
                }
            }
            assert(texts(out@).to_set() == selected(*policy, next));
        }
        i = i + 1;
    }
    assert(c.take(i as int) == c);
    out
}

} // verus!
