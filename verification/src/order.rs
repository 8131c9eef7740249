//! Things found at paths, in the order of their paths.
//!
//! Paths are ordered name by name, and names byte by byte.
use vstd::multiset::Multiset;
use vstd::prelude::*;

use crate::unixwalk::split_path;
use crate::unixwalk;

verus! {

/// `a` does not come behind `b`, byte by byte.
pub open spec fn name_le(a: Seq<u8>, b: Seq<u8>) -> bool
    decreases a.len(),
{
    if a.len() == 0 {
        true
    } else if b.len() == 0 {
        false
    } else if a[0] == b[0] {
        name_le(a.skip(1), b.skip(1))
    } else {
        a[0] < b[0]
    }
}

/// `a` does not come behind `b`, name by name.
pub open spec fn path_le(a: Seq<Seq<u8>>, b: Seq<Seq<u8>>) -> bool
    decreases a.len(),
{
    if a.len() == 0 {
        true
    } else if b.len() == 0 {
        false
    } else if a[0] == b[0] {
        path_le(a.skip(1), b.skip(1))
    } else {
        name_le(a[0], b[0])
    }
}

proof fn lemma_name_total(a: Seq<u8>, b: Seq<u8>)
    ensures
        name_le(a, b) || name_le(b, a),
        name_le(a, b) && name_le(b, a) ==> a == b,
    decreases a.len(),
{
    if a.len() > 0 && b.len() > 0 && a[0] == b[0] {
        lemma_name_total(a.skip(1), b.skip(1));
        if name_le(a, b) && name_le(b, a) {
            assert(a =~= seq![a[0]] + a.skip(1));
            assert(b =~= seq![b[0]] + b.skip(1));
        }
    } else if a.len() == 0 && b.len() == 0 {
        assert(a =~= b);
    }
}

proof fn lemma_name_trans(a: Seq<u8>, b: Seq<u8>, c: Seq<u8>)
    requires
        name_le(a, b),
        name_le(b, c),
    ensures
        name_le(a, c),
    decreases a.len(),
{
    if a.len() > 0 && b.len() > 0 && c.len() > 0 && a[0] == b[0] && b[0] == c[0] {
        lemma_name_trans(a.skip(1), b.skip(1), c.skip(1));
    }
}

/// Any two paths stand in order one way or the other, and only equal ones both
/// ways.
pub proof fn law_path_order_is_total(a: Seq<Seq<u8>>, b: Seq<Seq<u8>>)
    ensures
        path_le(a, b) || path_le(b, a),
        path_le(a, b) && path_le(b, a) ==> a == b,
    decreases a.len(),
{
    if a.len() > 0 && b.len() > 0 {
        lemma_name_total(a[0], b[0]);
        if a[0] == b[0] {
            law_path_order_is_total(a.skip(1), b.skip(1));
            if path_le(a, b) && path_le(b, a) {
                assert(a =~= seq![a[0]] + a.skip(1));
                assert(b =~= seq![b[0]] + b.skip(1));
            }
        }
    } else if a.len() == 0 && b.len() == 0 {
        assert(a =~= b);
    }
}

/// The order of paths carries over from step to step.
pub proof fn law_path_order_is_transitive(a: Seq<Seq<u8>>, b: Seq<Seq<u8>>, c: Seq<Seq<u8>>)
    requires
        path_le(a, b),
        path_le(b, c),
    ensures
        path_le(a, c),
    decreases a.len(),
{
    if a.len() > 0 && b.len() > 0 && c.len() > 0 {
        if a[0] == b[0] && b[0] == c[0] {
            law_path_order_is_transitive(a.skip(1), b.skip(1), c.skip(1));
        } else if a[0] == c[0] {
            lemma_name_total(a[0], b[0]);
        } else if a[0] != b[0] && b[0] != c[0] {
            lemma_name_trans(a[0], b[0], c[0]);
        }
    }
}

fn name_in_order(a: &[u8], b: &[u8]) -> (r: bool)
    ensures
        r == name_le(a@, b@),
{
    let mut i: usize = 0;
    proof {
        assert(a@.skip(0) =~= a@);
        assert(b@.skip(0) =~= b@);
    }
    while i < a.len() && i < b.len() && a[i] == b[i]
        invariant
            i <= a.len(),
            i <= b.len(),
            name_le(a@, b@) == name_le(a@.skip(i as int), b@.skip(i as int)),
        decreases a.len() - i,
    {
        proof {
            assert(a@.skip(i as int).skip(1) =~= a@.skip(i as int + 1));
            assert(b@.skip(i as int).skip(1) =~= b@.skip(i as int + 1));
        }
        i = i + 1;
    }
    if i == a.len() {
        true
    } else if i == b.len() {
        false
    } else {
        a[i] < b[i]
    }
}

/// Whether the path `a` does not come behind `b`.
pub fn path_in_order(a: &[u8], b: &[u8]) -> (r: bool)
    ensures
        r == path_le(unixwalk::names(a@), unixwalk::names(b@)),
{
    let x: Vec<Vec<u8>> = split_path(a);
    let y: Vec<Vec<u8>> = split_path(b);
    let ghost p = unixwalk::parts(x@);
    let ghost q = unixwalk::parts(y@);
    let mut i: usize = 0;
    proof {
        assert(p.skip(0) =~= p);
        assert(q.skip(0) =~= q);
    }
    while i < x.len() && i < y.len()
        invariant
            i <= x.len(),
            i <= y.len(),
            p == unixwalk::parts(x@),
            q == unixwalk::parts(y@),
            path_le(p, q) == path_le(p.skip(i as int), q.skip(i as int)),
            p == unixwalk::names(a@),
            q == unixwalk::names(b@),
        decreases x.len() - i,
    {
        proof {
            assert(p.skip(i as int).skip(1) =~= p.skip(i as int + 1));
            assert(q.skip(i as int).skip(1) =~= q.skip(i as int + 1));
        }
        if !unixwalk::same_name(x[i].as_slice(), y[i].as_slice()) {
            return name_in_order(x[i].as_slice(), y[i].as_slice());
        }
        i = i + 1;
    }
    i == x.len()
}

/// Something found at a path.
pub trait Located {
    /// The names of the path.
    spec fn names(&self) -> Seq<Seq<u8>>;

    /// Whether it does not come behind `other`.
    fn in_order(&self, other: &Self) -> (r: bool)
        ensures
            r == path_le(self.names(), other.names()),
    ;
}

/// In the order of the paths.
pub open spec fn ordered<T: Located>(s: Seq<T>) -> bool {
    forall|i: int, j: int|
        0 <= i < j < s.len() ==> path_le((#[trigger] s[i]).names(), (#[trigger] s[j]).names())
}

/// Against the order of the paths.
spec fn reversed<T: Located>(s: Seq<T>) -> bool {
    forall|i: int, j: int|
        0 <= i < j < s.len() ==> path_le((#[trigger] s[j]).names(), (#[trigger] s[i]).names())
}

/// Nothing in `low` comes behind anything in `high`.
spec fn before<T: Located>(low: Seq<T>, high: Seq<T>) -> bool {
    forall|i: int, j: int|
        0 <= i < low.len() && 0 <= j < high.len() ==> path_le(
            (#[trigger] low[i]).names(),
            (#[trigger] high[j]).names(),
        )
}

proof fn lemma_pop_multiset<T>(s: Seq<T>)
    requires
        s.len() > 0,
    ensures
        s.to_multiset() == s.drop_last().to_multiset().insert(s.last()),
{
    broadcast use vstd::seq_lib::group_to_multiset_ensures;

    assert(s =~= s.drop_last().push(s.last()));
}

/// Turns a list round.
fn turn<T: Located>(v: Vec<T>) -> (r: Vec<T>)
    requires
        reversed(v@),
    ensures
        ordered(r@),
        r@.to_multiset() == v@.to_multiset(),
{
    let mut from: Vec<T> = v;
    let mut out: Vec<T> = Vec::new();
    let ghost all = v@.to_multiset();
    proof {
        broadcast use vstd::seq_lib::group_to_multiset_ensures;

        assert(out@.to_multiset() =~= Multiset::<T>::empty());
        assert(from@.to_multiset().add(out@.to_multiset()) =~= all);
    }
    while from.len() > 0
        invariant
            reversed(from@),
            ordered(out@),
            before(out@, from@),
            from@.to_multiset().add(out@.to_multiset()) == all,
        decreases from@.len(),
    {
        let ghost f = from@;
        let ghost o = out@;
        match from.pop() {
            None => {},
            Some(x) => {
                out.push(x);
                proof {
                    broadcast use vstd::seq_lib::group_to_multiset_ensures;

                    lemma_pop_multiset(f);
                    assert(from@ =~= f.drop_last());
                    assert(x == f.last());
                    assert(from@.to_multiset().add(out@.to_multiset()) =~= all);
                    assert forall|i: int, j: int| 0 <= i < j < out@.len() implies path_le(
                        (#[trigger] out@[i]).names(),
                        (#[trigger] out@[j]).names(),
                    ) by {
                        if j == o.len() {
                            assert(out@[i] == o[i]);
                            assert(f[f.len() - 1] == x);
                        }
                    }
                    assert forall|i: int, j: int|
                        0 <= i < out@.len() && 0 <= j < from@.len() implies path_le(
                        (#[trigger] out@[i]).names(),
                        (#[trigger] from@[j]).names(),
                    ) by {
                        assert(from@[j] == f[j]);
                        if i == o.len() {
                            assert(f[f.len() - 1] == x);
                        } else {
                            assert(out@[i] == o[i]);
                        }
                    }
                }
            },
        }
    }
    proof {
        broadcast use vstd::seq_lib::group_to_multiset_ensures;

        assert(from@ =~= Seq::<T>::empty());
        assert(from@.to_multiset() =~= Multiset::<T>::empty());
        assert(out@.to_multiset() =~= all);
    }
    out
}

/// Merges two ordered lists.
fn merge<T: Located>(a: Vec<T>, b: Vec<T>) -> (r: Vec<T>)
    requires
        ordered(a@),
        ordered(b@),
    ensures
        ordered(r@),
        r@.to_multiset() == a@.to_multiset().add(b@.to_multiset()),
{
    let mut x: Vec<T> = a;
    let mut y: Vec<T> = b;
    let mut down: Vec<T> = Vec::new();
    let ghost all = a@.to_multiset().add(b@.to_multiset());
    proof {
        broadcast use vstd::seq_lib::group_to_multiset_ensures;

        assert(down@.to_multiset() =~= Multiset::<T>::empty());
        assert(x@.to_multiset().add(y@.to_multiset()).add(down@.to_multiset()) =~= all);
    }
    while x.len() > 0 || y.len() > 0
        invariant
            ordered(x@),
            ordered(y@),
            reversed(down@),
            before(x@, down@),
            before(y@, down@),
            x@.to_multiset().add(y@.to_multiset()).add(down@.to_multiset()) == all,
        decreases x@.len() + y@.len(),
    {
        let from_y: bool = if x.len() == 0 {
            true
        } else if y.len() == 0 {
            false
        } else {
            x[x.len() - 1].in_order(&y[y.len() - 1])
        };
        let ghost ox = x@;
        let ghost oy = y@;
        let ghost od = down@;
        let popped: Option<T> = if from_y {
            y.pop()
        } else {
            x.pop()
        };
        match popped {
            None => {},
            Some(t) => {
                down.push(t);
                proof {
                    broadcast use vstd::seq_lib::group_to_multiset_ensures;

                    if from_y {
                        assert(y@ =~= oy.drop_last());
                        assert(oy[oy.len() - 1] == t);
                        lemma_pop_multiset(oy);
                        if ox.len() > 0 {
                            assert forall|i: int| 0 <= i < ox.len() implies path_le(
                                (#[trigger] ox[i]).names(),
                                t.names(),
                            ) by {
                                if i < ox.len() - 1 {
                                    law_path_order_is_transitive(
                                        ox[i].names(),
                                        ox[ox.len() - 1].names(),
                                        t.names(),
                                    );
                                }
                            }
                        }
                    } else {
                        assert(x@ =~= ox.drop_last());
                        assert(ox[ox.len() - 1] == t);
                        lemma_pop_multiset(ox);
                        if oy.len() > 0 {
                            law_path_order_is_total(t.names(), oy[oy.len() - 1].names());
                            assert forall|i: int| 0 <= i < oy.len() implies path_le(
                                (#[trigger] oy[i]).names(),
                                t.names(),
                            ) by {
                                if i < oy.len() - 1 {
                                    law_path_order_is_transitive(
                                        oy[i].names(),
                                        oy[oy.len() - 1].names(),
                                        t.names(),
                                    );
                                }
                            }
                        }
                    }
                    assert(x@.to_multiset().add(y@.to_multiset()).add(down@.to_multiset()) =~= all);
                    lemma_down(ox, oy, od, x@, y@, down@, t);
                }
            },
        }
    }
    proof {
        broadcast use vstd::seq_lib::group_to_multiset_ensures;

        assert(x@ =~= Seq::<T>::empty());
        assert(y@ =~= Seq::<T>::empty());
        assert(x@.to_multiset() =~= Multiset::<T>::empty());
        assert(y@.to_multiset() =~= Multiset::<T>::empty());
        assert(down@.to_multiset() =~= all);
    }
    turn(down)
}

proof fn lemma_down<T: Located>(
    ox: Seq<T>,
    oy: Seq<T>,
    od: Seq<T>,
    x: Seq<T>,
    y: Seq<T>,
    d: Seq<T>,
    t: T,
)
    requires
        d == od.push(t),
        reversed(od),
        before(ox, od),
        before(oy, od),
        (x == ox && oy.len() > 0 && t == oy.last() && y == oy.drop_last()) || (y == oy && ox.len()
            > 0 && t == ox.last() && x == ox.drop_last()),
        forall|i: int| 0 <= i < x.len() ==> path_le((#[trigger] x[i]).names(), t.names()),
        forall|i: int| 0 <= i < y.len() ==> path_le((#[trigger] y[i]).names(), t.names()),
    ensures
        reversed(d),
        before(x, d),
        before(y, d),
{
    let k = if x == ox && t == oy.last() && oy.len() > 0 && y == oy.drop_last() { 1int } else { 0int };
    assert forall|j: int| 0 <= j < od.len() implies path_le(t.names(), (#[trigger] od[j]).names()) by {
        if k == 1 {
            assert(oy[oy.len() - 1] == t);
        } else {
            assert(ox[ox.len() - 1] == t);
        }
    }
    assert forall|i: int, j: int| 0 <= i < j < d.len() implies path_le(
        (#[trigger] d[j]).names(),
        (#[trigger] d[i]).names(),
    ) by {
        assert(d[i] == od[i]);
        if j < od.len() {
            assert(d[j] == od[j]);
        }
    }
    assert forall|i: int, j: int| 0 <= i < x.len() && 0 <= j < d.len() implies path_le(
        (#[trigger] x[i]).names(),
        (#[trigger] d[j]).names(),
    ) by {
        if j < od.len() {
            assert(d[j] == od[j]);
            assert(x[i] == ox[i]);
        }
    }
    assert forall|i: int, j: int| 0 <= i < y.len() && 0 <= j < d.len() implies path_le(
        (#[trigger] y[i]).names(),
        (#[trigger] d[j]).names(),
    ) by {
        if j < od.len() {
            assert(d[j] == od[j]);
            assert(y[i] == oy[i]);
        }
    }
}

/// The same things in the order of their paths.
pub fn sort_by_path<T: Located>(v: Vec<T>) -> (r: Vec<T>)
    ensures
        ordered(r@),
        r@.to_multiset() == v@.to_multiset(),
    decreases v@.len(),
{
    if v.len() <= 1 {
        return v;
    }
    let mut low: Vec<T> = v;
    let middle: usize = low.len() / 2;
    let ghost all = low@;
    let high: Vec<T> = low.split_off(middle);
    proof {
        vstd::seq_lib::lemma_multiset_commutative(low@, high@);
        assert(low@ + high@ =~= all);
    }
    merge(sort_by_path(low), sort_by_path(high))
}

/// Names are ordered by their first bytes that differ, and a name stands before a
/// longer one that it begins; paths are ordered so name by name.
pub proof fn law_the_first_difference_decides(
    a: Seq<u8>,
    x: u8,
    b: Seq<u8>,
    y: u8,
    c: Seq<u8>,
    p: Seq<Seq<u8>>,
    q: Seq<Seq<u8>>,
)
    requires
        x < y,
    ensures
        name_le(a, a + c),
        name_le(a + seq![x] + b, a + seq![y] + c),
        !name_le(a + seq![y] + c, a + seq![x] + b),
        c.len() > 0 ==> !name_le(a + c, a),
        path_le(p, p + q),
        q.len() > 0 ==> !path_le(p + q, p),
        path_le(p + seq![a + seq![x] + b] + q, p + seq![a + seq![y] + c]),
        !path_le(p + seq![a + seq![y] + c], p + seq![a + seq![x] + b] + q),
{
    lemma_name_difference(a, x, b, y, c);
    lemma_path_difference(p, a + seq![x] + b, q, a + seq![y] + c);
    assert((a + seq![x] + b)[a.len() as int] == x);
    assert((a + seq![y] + c)[a.len() as int] == y);
}

proof fn lemma_name_difference(a: Seq<u8>, x: u8, b: Seq<u8>, y: u8, c: Seq<u8>)
    requires
        x < y,
    ensures
        name_le(a, a + c),
        name_le(a + seq![x] + b, a + seq![y] + c),
        !name_le(a + seq![y] + c, a + seq![x] + b),
        c.len() > 0 ==> !name_le(a + c, a),
    decreases a.len(),
{
    let l = a + seq![x] + b;
    let h = a + seq![y] + c;
    if a.len() == 0 {
        assert(l[0] == x && h[0] == y);
    } else {
        let t = a.skip(1);
        lemma_name_difference(t, x, b, y, c);
        assert(l.skip(1) =~= t + seq![x] + b);
        assert(h.skip(1) =~= t + seq![y] + c);
        assert((a + c).skip(1) =~= t + c);
        assert(l[0] == a[0] && h[0] == a[0] && (a + c)[0] == a[0]);
    }
}

proof fn lemma_path_difference(p: Seq<Seq<u8>>, low: Seq<u8>, q: Seq<Seq<u8>>, high: Seq<u8>)
    ensures
        path_le(p, p + q),
        q.len() > 0 ==> !path_le(p + q, p),
        low != high && name_le(low, high) ==> path_le(p + seq![low] + q, p + seq![high]),
        low != high && !name_le(high, low) ==> !path_le(p + seq![high], p + seq![low] + q),
    decreases p.len(),
{
    let l = p + seq![low] + q;
    let h = p + seq![high];
    if p.len() == 0 {
        assert(l[0] == low && h[0] == high);
    } else {
        let t = p.skip(1);
        lemma_path_difference(t, low, q, high);
        assert(l.skip(1) =~= t + seq![low] + q);
        assert(h.skip(1) =~= t + seq![high]);
        assert((p + q).skip(1) =~= t + q);
        assert(l[0] == p[0] && h[0] == p[0] && (p + q)[0] == p[0]);
    }
}

} // verus!
