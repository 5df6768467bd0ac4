//! Sorting texts.
use crate::text::{chars_of, texts};
use vstd::prelude::*;

verus! {

/// The lexicographic order of texts, by code points.
pub open spec fn text_before(a: Seq<char>, b: Seq<char>) -> bool
    decreases a.len(),
{
    if b.len() == 0 {
        false
    } else if a.len() == 0 {
        true
    } else if a[0] != b[0] {
        a[0] < b[0]
    } else {
        text_before(a.drop_first(), b.drop_first())
    }
}

/// That each text comes strictly before those after it.
pub open spec fn ascending(v: Seq<Seq<char>>) -> bool {
    forall|i: int, j: int| 0 <= i < j < v.len() ==> text_before(#[trigger] v[i], #[trigger] v[j])
}

/// The order is strict and total.
pub proof fn lemma_order_total(a: Seq<char>, b: Seq<char>)
    ensures
        !(text_before(a, b) && text_before(b, a)),
        text_before(a, b) || text_before(b, a) <==> a != b,
    decreases a.len(),
{
    if a.len() > 0 && b.len() > 0 && a[0] == b[0] {
        lemma_order_total(a.drop_first(), b.drop_first());
        if a.drop_first() == b.drop_first() {
            assert(a == seq![a[0]] + a.drop_first());
            assert(b == seq![b[0]] + b.drop_first());
        }
    } else if a.len() == 0 && b.len() == 0 {
        assert(a == b);
    }
}

/// The order is transitive.
pub proof fn lemma_order_transitive(a: Seq<char>, b: Seq<char>, c: Seq<char>)
    requires
        text_before(a, b),
        text_before(b, c),
    ensures
        text_before(a, c),
    decreases a.len(),
{
    if a.len() > 0 && a[0] == b[0] && b[0] == c[0] {
        lemma_order_transitive(a.drop_first(), b.drop_first(), c.drop_first());
    }
}

/// Tells whether `a` comes before `b`.
pub fn is_before(a: &str, b: &str) -> (r: bool)
    ensures
        r == text_before(a@, b@),
{
    let x = chars_of(a);
    let y = chars_of(b);
    let mut i: usize = 0;
    assert(a@.skip(0) == a@);
    assert(b@.skip(0) == b@);
    while i < x.len() && i < y.len() && x[i] == y[i]
        invariant
            x@ == a@,
            y@ == b@,
            i <= x@.len(),
            i <= y@.len(),
            text_before(a@, b@) == text_before(a@.skip(i as int), b@.skip(i as int)),
        decreases x@.len() - i,
    {
        assert(a@.skip(i as int).drop_first() == a@.skip(i + 1));
        assert(b@.skip(i as int).drop_first() == b@.skip(i + 1));
        i = i + 1;
    }
    if i >= y.len() {
        false
    } else if i >= x.len() {
        true
    } else {
        x[i] < y[i]
    }
}

/// A text comes before every one that comes after a later text.
proof fn lemma_before_rest(v: Seq<Seq<char>>, i: int, t: Seq<char>)
    requires
        ascending(v),
        0 <= i < v.len(),
        text_before(t, v[i]),
    ensures
        forall|j: int| i <= j < v.len() ==> text_before(t, #[trigger] v[j]),
{
    assert forall|j: int| i <= j < v.len() implies text_before(t, #[trigger] v[j]) by {
        if i < j {
            lemma_order_transitive(t, v[i], v[j]);
        }
    }
}

/// That every text of `out` comes before those of `v` from place `i` on.
spec fn all_before(out: Seq<Seq<char>>, v: Seq<Seq<char>>, i: int) -> bool {
    forall|k: int, j: int|
        0 <= k < out.len() && i <= j < v.len() ==> text_before(#[trigger] out[k], #[trigger] v[j])
}

/// That `out` holds the texts of `a` before `i` and those of `b` before `j`, and no others.
spec fn holds(
    out: Seq<Seq<char>>,
    a: Seq<Seq<char>>,
    i: int,
    b: Seq<Seq<char>>,
    j: int,
) -> bool {
    forall|t: Seq<char>| #[trigger]
        out.contains(t) <==> a.take(i).contains(t) || b.take(j).contains(t)
}

/// What a sequence holds with one more text at its end.
proof fn lemma_push_contains(v: Seq<Seq<char>>, x: Seq<char>)
    ensures
        forall|t: Seq<char>| #[trigger] v.push(x).contains(t) <==> v.contains(t) || t == x,
{
    assert forall|t: Seq<char>| #[trigger] v.push(x).contains(t) <==> v.contains(t) || t == x by {
        if v.contains(t) {
            let k = choose|k: int| 0 <= k < v.len() && v[k] == t;
            assert(v.push(x)[k] == t);
        }
        if t == x {
            assert(v.push(x)[v.len() as int] == t);
        }
    }
}

/// The texts of two ascending lists in one, each once.
fn merge(a: &Vec<String>, b: &Vec<String>) -> (r: Vec<String>)
    requires
        ascending(texts(a@)),
        ascending(texts(b@)),
    ensures
        ascending(texts(r@)),
        forall|t: Seq<char>| #[trigger]
            texts(r@).contains(t) <==> texts(a@).contains(t) || texts(b@).contains(t),
{
    let ghost ta = texts(a@);
    let ghost tb = texts(b@);
    let mut out: Vec<String> = Vec::new();
    let mut i: usize = 0;
    let mut j: usize = 0;
    while i < a.len() || j < b.len()
        invariant
            ta == texts(a@),
            tb == texts(b@),
            ascending(ta),
            ascending(tb),
            i <= a@.len(),
            j <= b@.len(),
            ascending(texts(out@)),
            all_before(texts(out@), ta, i as int),
            all_before(texts(out@), tb, j as int),
            holds(texts(out@), ta, i as int, tb, j as int),
        decreases a@.len() - i + b@.len() - j,
    {
        let ghost before = texts(out@);
        let from_a = i < a.len() && (j >= b.len() || !is_before(b[j].as_str(), a[i].as_str()));
        let from_b = j < b.len() && (i >= a.len() || !is_before(a[i].as_str(), b[j].as_str()));
        proof {
            if i < ta.len() && j < tb.len() {
                lemma_order_total(ta[i as int], tb[j as int]);
            }
        }
        let next = if from_a {
            a[i].clone()
        } else {
            b[j].clone()
        };
        let ghost x = next@;
        out.push(next);
        let ghost i0 = i as int;
        let ghost j0 = j as int;
        if from_a {
            i = i + 1;
        }
        if from_b {
            j = j + 1;
        }
        proof {
            assert(texts(out@) == before.push(x));
            lemma_push_contains(before, x);
            if from_a {
                assert(ta.take(i as int) == ta.take(i0).push(ta[i0]));
                lemma_push_contains(ta.take(i0), ta[i0]);
                if from_b {
                    assert(ta[i0] == tb[j0]);
                } else if j0 < tb.len() {
                    lemma_before_rest(tb, j0, x);
                }
            }
            if from_b {
                assert(tb.take(j as int) == tb.take(j0).push(tb[j0]));
                lemma_push_contains(tb.take(j0), tb[j0]);
                if !from_a && i0 < ta.len() {
                    lemma_before_rest(ta, i0, x);
                }
            }
            assert(all_before(texts(out@), ta, i as int));
            assert(all_before(texts(out@), tb, j as int));
            assert(holds(texts(out@), ta, i as int, tb, j as int));
        }
    }
    assert(ta.take(i as int) == ta);
    assert(tb.take(j as int) == tb);
    out
}

/// The texts of `v` from place `lo` up to place `hi`, in order, each once.
fn sort_range(v: &Vec<String>, lo: usize, hi: usize) -> (r: Vec<String>)
    requires
        lo <= hi <= v@.len(),
    ensures
        ascending(texts(r@)),
        forall|t: Seq<char>| #[trigger]
            texts(r@).contains(t) <==> texts(v@).subrange(lo as int, hi as int).contains(t),
    decreases hi - lo,
{
    let ghost part = texts(v@).subrange(lo as int, hi as int);
    if hi - lo <= 1 {
        let mut out: Vec<String> = Vec::new();
        if hi - lo == 1 {
            out.push(v[lo].clone());
        }
        assert(texts(out@) == part);
        return out;
    }
    let mid: usize = lo + (hi - lo) / 2;
    let left = sort_range(v, lo, mid);
    let right = sort_range(v, mid, hi);
    let out = merge(&left, &right);
    proof {
        let a = texts(v@).subrange(lo as int, mid as int);
        let b = texts(v@).subrange(mid as int, hi as int);
        assert(part == a + b);
        assert forall|t: Seq<char>| part.contains(t) <==> a.contains(t) || b.contains(t) by {
            if a.contains(t) {
                let k = choose|k: int| 0 <= k < a.len() && a[k] == t;
                assert(part[k] == t);
            }
            if b.contains(t) {
                let k = choose|k: int| 0 <= k < b.len() && b[k] == t;
                assert(part[a.len() + k] == t);
            }
            if part.contains(t) {
                let k = choose|k: int| 0 <= k < part.len() && part[k] == t;
                if k < a.len() {
                    assert(a[k] == t);
                } else {
                    assert(b[k - a.len()] == t);
                }
            }
        }
    }
    out
}

/// The texts of `v` in order, each once.
pub fn sorted(v: &Vec<String>) -> (r: Vec<String>)
    ensures
        ascending(texts(r@)),
        texts(r@).to_set() == texts(v@).to_set(),
{
    let out = sort_range(v, 0, v.len());
    assert(texts(v@).subrange(0, v@.len() as int) == texts(v@));
    assert(texts(out@).to_set() =~= texts(v@).to_set());
    out
}

} // verus!
