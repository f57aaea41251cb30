//! The order of paths: by their segments, each as a text.
use crate::path;
use crate::path::Path;
use vstd::prelude::*;

verus! {

/// Whether one text comes before another: at the first character in which they differ, or
/// where the first one ends.
pub open spec fn text_before(a: Seq<char>, b: Seq<char>) -> bool
    decreases a.len(),
{
    if b.len() == 0 {
        false
    } else if a.len() == 0 {
        true
    } else if a[0] != b[0] {
        a[0] < b[0]
    } else {
        text_before(a.drop_first(), b.drop_first())
    }
}

/// Whether one chain of segments comes before another.
pub open spec fn before(a: Seq<Seq<char>>, b: Seq<Seq<char>>) -> bool
    decreases a.len(),
{
    if b.len() == 0 {
        false
    } else if a.len() == 0 {
        true
    } else if a[0] != b[0] {
        text_before(a[0], b[0])
    } else {
        before(a.drop_first(), b.drop_first())
    }
}

/// `str` by `<`: strings are ordered by the code points of their characters, the first
/// difference decides, and a string comes before those that begin with it.
#[verifier::external_body]
fn precedes(a: &str, b: &str) -> (r: bool)
    ensures
        r == text_before(a@, b@),
{
    a < b
}

/// Of two texts one comes before the other, or they are the same, and never both.
proof fn lemma_text_order(a: Seq<char>, b: Seq<char>)
    ensures
        a == b || text_before(a, b) || text_before(b, a),
        !(text_before(a, b) && text_before(b, a)),
        a == b ==> !text_before(a, b),
    decreases a.len(),
{
    if a.len() > 0 && b.len() > 0 && a[0] == b[0] {
        lemma_text_order(a.drop_first(), b.drop_first());
        if a.drop_first() == b.drop_first() {
            assert(a =~= seq![a[0]] + a.drop_first());
            assert(b =~= seq![b[0]] + b.drop_first());
        }
    } else if a.len() == 0 && b.len() == 0 {
        assert(a =~= b);
    }
}

/// What comes before a text comes before all that come after it.
proof fn lemma_text_chain(a: Seq<char>, b: Seq<char>, c: Seq<char>)
    requires
        text_before(a, b),
        text_before(b, c),
    ensures
        text_before(a, c),
    decreases a.len(),
{
    if a.len() > 0 && a[0] == b[0] && b[0] == c[0] {
        lemma_text_chain(a.drop_first(), b.drop_first(), c.drop_first());
    }
}

/// Of two paths one comes before the other, or they are the same, and never both.
pub proof fn lemma_order(a: Seq<Seq<char>>, b: Seq<Seq<char>>)
    ensures
        a == b || before(a, b) || before(b, a),
        !(before(a, b) && before(b, a)),
        a == b ==> !before(a, b),
    decreases a.len(),
{
    if a.len() > 0 && b.len() > 0 {
        lemma_text_order(a[0], b[0]);
        if a[0] == b[0] {
            lemma_order(a.drop_first(), b.drop_first());
            if a.drop_first() == b.drop_first() {
                assert(a =~= seq![a[0]] + a.drop_first());
                assert(b =~= seq![b[0]] + b.drop_first());
            }
        }
    } else if a.len() == 0 && b.len() == 0 {
        assert(a =~= b);
    }
}

/// What comes before a path comes before all that come after it.
pub proof fn lemma_chain(a: Seq<Seq<char>>, b: Seq<Seq<char>>, c: Seq<Seq<char>>)
    requires
        before(a, b),
        before(b, c),
    ensures
        before(a, c),
    decreases a.len(),
{
    if a.len() > 0 {
        if a[0] == b[0] && b[0] == c[0] {
            lemma_chain(a.drop_first(), b.drop_first(), c.drop_first());
        } else if a[0] != b[0] && b[0] != c[0] {
            lemma_text_chain(a[0], b[0], c[0]);
            lemma_text_order(a[0], c[0]);
        }
    }
}

/// A path comes before everything below it.
pub proof fn lemma_prefix_first(a: Seq<Seq<char>>, b: Seq<Seq<char>>)
    requires
        path::is_prefix(a, b),
        a != b,
    ensures
        before(a, b),
    decreases a.len(),
{
    if a.len() == 0 {
        if b.len() == 0 {
            assert(a =~= b);
        }
    } else {
        assert(a[0] == b.take(a.len() as int)[0]);
        let x = a.drop_first();
        let y = b.drop_first();
        assert(y.take(x.len() as int) =~= b.take(a.len() as int).drop_first());
        if x == y {
            assert(a =~= seq![a[0]] + x);
            assert(b =~= seq![b[0]] + y);
        }
        lemma_prefix_first(x, y);
    }
}

/// What lies at or below a path has no strangers in between.
pub proof fn lemma_between(p: Seq<Seq<char>>, y: Seq<Seq<char>>, x: Seq<Seq<char>>)
    requires
        path::is_prefix(p, x),
        !before(y, p),
        before(y, x),
    ensures
        path::is_prefix(p, y),
    decreases p.len(),
{
    if p.len() == 0 {
        assert(y.take(0) =~= p);
    } else {
        assert(p[0] == x.take(p.len() as int)[0]);
        lemma_text_order(y[0], p[0]);
        let p1 = p.drop_first();
        let y1 = y.drop_first();
        let x1 = x.drop_first();
        assert(x1.take(p1.len() as int) =~= x.take(p.len() as int).drop_first());
        lemma_between(p1, y1, x1);
        assert(y.take(p.len() as int) =~= seq![y[0]] + y1.take(p1.len() as int));
        assert(p =~= seq![p[0]] + p1);
    }
}

/// Between two neighbouring steps on the way to a path lies nothing that is on the way to
/// it, or below it.
pub proof fn lemma_gap(p: Seq<Seq<char>>, d: int, y: Seq<Seq<char>>)
    requires
        0 <= d <= p.len(),
        d > 0 ==> before(p.take(d - 1), y),
        before(y, p.take(d)),
    ensures
        !path::related(y, p),
{
    let here = p.take(d);
    if path::is_prefix(y, p) && y.len() < d {
        let up = p.take(d - 1);
        assert(up.take(y.len() as int) =~= p.take(y.len() as int));
        if y != up {
            lemma_prefix_first(y, up);
        }
        lemma_order(y, up);
    } else if path::related(y, p) {
        assert(y.take(d) =~= here) by {
            if path::is_prefix(y, p) {
                assert(p.take(y.len() as int).take(d) =~= here);
            } else {
                assert(y.take(p.len() as int).take(d) =~= y.take(d));
            }
        }
        if y != here {
            lemma_prefix_first(here, y);
        }
        lemma_order(y, here);
    }
}

/// Whether one path comes before another.
pub fn comes_before(a: &Path, b: &Path) -> (r: bool)
    ensures
        r == before(a@, b@),
{
    let mut i: usize = 0;
    assert(a@.skip(0) =~= a@);
    assert(b@.skip(0) =~= b@);
    while i < a.segments.len() && i < b.segments.len()
        invariant
            i <= a@.len(),
            i <= b@.len(),
            before(a@, b@) == before(a@.skip(i as int), b@.skip(i as int)),
        decreases a@.len() - i,
    {
        let x = a.segments[i].as_str();
        let y = b.segments[i].as_str();
        assert(a@.skip(i as int)[0] == x@);
        assert(b@.skip(i as int)[0] == y@);
        proof {
            lemma_text_order(x@, y@);
        }
        if precedes(x, y) {
            return true;
        }
        if precedes(y, x) {
            return false;
        }
        assert(a@.skip(i as int).drop_first() =~= a@.skip(i + 1));
        assert(b@.skip(i as int).drop_first() =~= b@.skip(i + 1));
        i = i + 1;
    }
    i < b.segments.len()
}

/// Paths have one order: of two different ones exactly one comes first, and what comes before
/// a path comes before all that follow it.
pub proof fn law_paths_have_one_order(a: Seq<Seq<char>>, b: Seq<Seq<char>>, c: Seq<Seq<char>>)
    ensures
        a != b ==> (before(a, b) <==> !before(b, a)),
        !before(a, a),
        before(a, b) && before(b, c) ==> before(a, c),
{
    lemma_order(a, b);
    lemma_order(a, a);
    if before(a, b) && before(b, c) {
        lemma_chain(a, b, c);
    }
}

/// Two texts are ordered by the first character in which they differ, and two paths by the
/// first segment in which they differ. What is a beginning of the other comes first.
pub proof fn law_first_difference_decides(
    a: Seq<char>,
    b: Seq<char>,
    p: Seq<Seq<char>>,
    q: Seq<Seq<char>>,
    n: int,
)
    ensures
        0 <= n < a.len() && n < b.len() && a.take(n) == b.take(n) && a[n] < b[n] ==> text_before(
            a,
            b,
        ),
        a.len() < b.len() && b.take(a.len() as int) == a ==> text_before(a, b),
        0 <= n < p.len() && n < q.len() && p.take(n) == q.take(n) && text_before(p[n], q[n])
            ==> before(p, q),
        p.len() < q.len() && q.take(p.len() as int) == p ==> before(p, q),
    decreases a.len() + p.len(),
{
    if 0 <= n < a.len() && n < b.len() && a.take(n) == b.take(n) && a[n] < b[n] && n > 0 {
        let (ad, bd) = (a.drop_first(), b.drop_first());
        assert(a.take(n)[0] == b.take(n)[0]);
        assert(ad.take(n - 1) =~= a.take(n).drop_first());
        assert(bd.take(n - 1) =~= b.take(n).drop_first());
        law_first_difference_decides(ad, bd, Seq::empty(), Seq::empty(), n - 1);
    }
    if a.len() < b.len() && b.take(a.len() as int) == a && a.len() > 0 {
        let (ad, bd) = (a.drop_first(), b.drop_first());
        assert(b.take(a.len() as int)[0] == b[0]);
        assert(bd.take(ad.len() as int) =~= b.take(a.len() as int).drop_first());
        law_first_difference_decides(ad, bd, Seq::empty(), Seq::empty(), 0);
    }
    if 0 <= n < p.len() && n < q.len() && p.take(n) == q.take(n) && text_before(p[n], q[n]) {
        lemma_text_order(p[n], q[n]);
        if n > 0 {
            let (pd, qd) = (p.drop_first(), q.drop_first());
            assert(p.take(n)[0] == q.take(n)[0]);
            assert(pd.take(n - 1) =~= p.take(n).drop_first());
            assert(qd.take(n - 1) =~= q.take(n).drop_first());
            law_first_difference_decides(Seq::empty(), Seq::empty(), pd, qd, n - 1);
        }
    }
    if p.len() < q.len() && q.take(p.len() as int) == p {
        lemma_prefix_first(p, q);
    }
}

} // verus!
