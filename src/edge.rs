use vstd::prelude::*;

use crate::segment::Segment;

verus! {

/// Is `a` a prefix of `b`?
pub open spec fn is_prefix<T>(a: Seq<T>, b: Seq<T>) -> bool {
    a.len() <= b.len() && b.take(a.len() as int) == a
}

/// The number of leading positions at which `a` and `b` agree.
pub open spec fn common_prefix<T>(a: Seq<T>, b: Seq<T>) -> nat
    decreases a.len(),
{
    if a.len() == 0 || b.len() == 0 || a[0] != b[0] {
        0
    } else {
        1 + common_prefix(a.drop_first(), b.drop_first())
    }
}

/// The views of a sequence of segments.
pub open spec fn views<S: View>(s: Seq<S>) -> Seq<S::V> {
    s.map_values(|x: S| x@)
}

/// An owned, ordered run of key segments.
#[derive(Debug)]
pub struct Edge<S>(Vec<S>);

impl<S: View> View for Edge<S> {
    type V = Seq<S::V>;

    closed spec fn view(&self) -> Seq<S::V> {
        views(self.0@)
    }
}

impl<S: Segment> Edge<S> {
    pub fn empty() -> (r: Self)
        ensures
            r@ == Seq::<S::V>::empty(),
    {
        Edge(Vec::new())
    }

    pub fn from_vec(v: Vec<S>) -> (r: Self)
        ensures
            r@ == views(v@),
    {
        Edge(v)
    }

    /// The segments, in order.
    pub fn as_slice(&self) -> (r: &[S])
        ensures
            views(r@) == self@,
    {
        self.0.as_slice()
    }

    pub fn len(&self) -> (r: usize)
        ensures
            r == self@.len(),
    {
        self.0.len()
    }

    pub fn first(&self) -> (r: &S)
        requires
            self@.len() > 0,
        ensures
            r@ == self@[0],
    {
        &self.0[0]
    }

    pub fn take_first(self) -> (r: S)
        requires
            self@.len() > 0,
        ensures
            r@ == self@[0],
    {
        let mut v = self.0;
        v.swap_remove(0)
    }

    /// The number of leading segments that the edge and `edge_like` share.
    pub fn common_prefix_len(&self, edge_like: &[S]) -> (r: usize)
        ensures
            r == common_prefix(self@, views(edge_like@)),
    {
        let ghost a = self@;
        let ghost b = views(edge_like@);
        let mut n: usize = 0;
        proof {
            assert(a.skip(0) =~= a);
            assert(b.skip(0) =~= b);
        }
        while n < self.0.len() && n < edge_like.len() && edge_like[n].same(&self.0[n])
            invariant
                n <= a.len(),
                n <= b.len(),
                a == self@,
                b == views(edge_like@),
                common_prefix(a, b) == n + common_prefix(a.skip(n as int), b.skip(n as int)),
            decreases a.len() - n,
        {
            proof {
                assert(a.skip(n as int).drop_first() =~= a.skip(n + 1));
                assert(b.skip(n as int).drop_first() =~= b.skip(n + 1));
            }
            n = n + 1;
        }
        proof {
            if n < a.len() && n < b.len() {
                assert(a.skip(n as int)[0] == a[n as int]);
                assert(b.skip(n as int)[0] == b[n as int]);
            }
        }
        n
    }

    pub fn is_prefix_of(&self, edge_like: &[S]) -> (r: bool)
        ensures
            r == is_prefix(self@, views(edge_like@)),
    {
        proof {
            lemma_common_prefix_is_prefix(self@, views(edge_like@));
        }
        self.common_prefix_len(edge_like) == self.len()
    }

    /// Removes the prefix of the given length from the edge and returns it.
    pub fn remove_prefix(&mut self, prefix_len: usize) -> (r: Self)
        requires
            prefix_len <= old(self)@.len(),
        ensures
            r@ == old(self)@.take(prefix_len as int),
            final(self)@ == old(self)@.skip(prefix_len as int),
    {
        let mut result = self.0.split_off(prefix_len);
        std::mem::swap(&mut self.0, &mut result);
        Edge(result)
    }
}

/// The common prefix length is bounded by both lengths, and the two
/// sequences agree on it.
pub proof fn lemma_common_prefix<T>(a: Seq<T>, b: Seq<T>)
    ensures
        common_prefix(a, b) <= a.len(),
        common_prefix(a, b) <= b.len(),
        a.take(common_prefix(a, b) as int) == b.take(common_prefix(a, b) as int),
        common_prefix(a, b) < a.len() && common_prefix(a, b) < b.len() ==> a[common_prefix(
            a,
            b,
        ) as int] != b[common_prefix(a, b) as int],
    decreases a.len(),
{
    if a.len() == 0 || b.len() == 0 || a[0] != b[0] {
        assert(a.take(0) =~= b.take(0));
    } else {
        lemma_common_prefix(a.drop_first(), b.drop_first());
        let n = common_prefix(a, b) as int;
        assert(a.take(n) =~= seq![a[0]] + a.drop_first().take(n - 1));
        assert(b.take(n) =~= seq![b[0]] + b.drop_first().take(n - 1));
    }
}

/// `a` is a prefix of `b` exactly when their common prefix is all of `a`.
pub proof fn lemma_common_prefix_is_prefix<T>(a: Seq<T>, b: Seq<T>)
    ensures
        is_prefix(a, b) == (common_prefix(a, b) == a.len()),
    decreases a.len(),
{
    lemma_common_prefix(a, b);
    if a.len() == 0 || b.len() == 0 || a[0] != b[0] {
        if 0 < a.len() <= b.len() {
            assert(b.take(a.len() as int)[0] == b[0]);
        }
        if a.len() == 0 {
            assert(b.take(0) =~= a);
        }
    } else {
        lemma_common_prefix_is_prefix(a.drop_first(), b.drop_first());
        if is_prefix(a, b) {
            assert(b.drop_first().take(a.len() - 1) =~= a.drop_first());
        }
        if common_prefix(a, b) == a.len() {
            assert(b.take(a.len() as int) =~= a);
        }
    }
}

} // verus!
