//! Strict orders, sequences sorted by them, and a sort that keeps every
//! element of its input.

use vstd::prelude::*;

verus! {

/// `lt` is irreflexive, transitive and total on different values.
pub open spec fn strict_total_order<A>(lt: spec_fn(A, A) -> bool) -> bool {
    &&& forall|x: A| !#[trigger] lt(x, x)
    &&& forall|x: A, y: A, z: A| #[trigger] lt(x, y) && #[trigger] lt(y, z) ==> lt(x, z)
    &&& forall|x: A, y: A| x != y ==> #[trigger] lt(x, y) || lt(y, x)
}

/// Every element of `s` comes strictly before every later one.
pub open spec fn strictly_sorted<A>(s: Seq<A>, lt: spec_fn(A, A) -> bool) -> bool {
    forall|i: int, j: int| 0 <= i < j < s.len() ==> #[trigger] lt(s[i], s[j])
}

/// Two sequences sorted strictly by the same strict order and holding the
/// same elements are equal: a set has exactly one strictly sorted listing.
pub proof fn lemma_sorted_unique<A>(a: Seq<A>, b: Seq<A>, lt: spec_fn(A, A) -> bool)
    requires
        strict_total_order(lt),
        strictly_sorted(a, lt),
        strictly_sorted(b, lt),
        a.to_set() == b.to_set(),
    ensures
        a == b,
    decreases a.len(),
{
    if a.len() == 0 {
        if b.len() > 0 {
            assert(b.to_set().contains(b[0]));
        }
        assert(a =~= b);
    } else {
        assert(a.to_set().contains(a[0]));
        assert(b.to_set().contains(a[0]));
        let j = choose|j: int| 0 <= j < b.len() && b[j] == a[0];
        assert(b.to_set().contains(b[0]));
        assert(a.to_set().contains(b[0]));
        let k = choose|k: int| 0 <= k < a.len() && a[k] == b[0];
        if j > 0 {
            assert(lt(b[0], b[j]));
            if k > 0 {
                assert(lt(a[0], a[k]));
            }
            assert(false);
        }
        let a2 = a.drop_first();
        let b2 = b.drop_first();
        assert forall|x: A| a2.to_set().contains(x) implies b2.to_set().contains(x) by {
            let i = choose|i: int| 0 <= i < a2.len() && a2[i] == x;
            assert(a[i + 1] == x);
            assert(lt(a[0], a[i + 1]));
            assert(b.to_set().contains(x));
            let m = choose|m: int| 0 <= m < b.len() && b[m] == x;
            if m == 0 {
                assert(x == a[0]);
            }
            assert(b2[m - 1] == x);
        }
        assert forall|x: A| b2.to_set().contains(x) implies a2.to_set().contains(x) by {
            let i = choose|i: int| 0 <= i < b2.len() && b2[i] == x;
            assert(b[i + 1] == x);
            assert(lt(b[0], b[i + 1]));
            assert(a.to_set().contains(x));
            let m = choose|m: int| 0 <= m < a.len() && a[m] == x;
            if m == 0 {
                assert(x == b[0]);
            }
            assert(a2[m - 1] == x);
        }
        assert(a2.to_set() =~= b2.to_set());
        lemma_sorted_unique(a2, b2, lt);
        assert(a =~= seq![a[0]] + a2);
        assert(b =~= seq![b[0]] + b2);
    }
}

/// A strictly sorted sequence holds no value twice.
pub proof fn lemma_sorted_no_duplicates<A>(s: Seq<A>, lt: spec_fn(A, A) -> bool)
    requires
        strict_total_order(lt),
        strictly_sorted(s, lt),
    ensures
        s.no_duplicates(),
{
    assert forall|i: int, j: int| 0 <= i < s.len() && 0 <= j < s.len() && i != j implies s[i]
        != s[j] by {
        if i < j {
            assert(lt(s[i], s[j]));
        } else {
            assert(lt(s[j], s[i]));
        }
    }
}

/// Values with a strict total order on their deep views, which an
/// executable comparison decides.
pub trait Ranked: DeepView + Sized {
    /// The order: `a` ranks strictly before `b`.
    spec fn rank_lt() -> spec_fn(Self::V, Self::V) -> bool;

    /// The order is a strict total order.
    proof fn lemma_rank_order()
        ensures
            strict_total_order(Self::rank_lt()),
    ;

    /// Decides whether `self` ranks strictly before `other`.
    fn ranks_before(&self, other: &Self) -> (r: bool)
        ensures
            r == (Self::rank_lt())(self.deep_view(), other.deep_view()),
    ;
}

/// Sorts distinct values by their rank: the result holds the same values,
/// strictly sorted.
pub fn sort_distinct<T: Ranked>(v: Vec<T>) -> (r: Vec<T>)
    requires
        v.deep_view().no_duplicates(),
    ensures
        r.len() == v.len(),
        strictly_sorted(r.deep_view(), T::rank_lt()),
        r.deep_view().to_set() == v.deep_view().to_set(),
{
    proof {
        T::lemma_rank_order();
    }
    let ghost lt = T::rank_lt();
    let ghost orig = v.deep_view();
    let mut rest = v;
    let mut r: Vec<T> = Vec::new();
    assert(rest.deep_view() =~= orig);
    while rest.len() > 0
        invariant
            lt == T::rank_lt(),
            strict_total_order(lt),
            rest.len() + r.len() == orig.len(),
            rest.deep_view().no_duplicates(),
            forall|i: int, j: int|
                0 <= i < rest.len() && 0 <= j < r.len() ==> rest.deep_view()[i]
                    != r.deep_view()[j],
            strictly_sorted(r.deep_view(), lt),
            orig.to_set() == rest.deep_view().to_set() + r.deep_view().to_set(),
        decreases rest.len(),
    {
        let ghost old_rest = rest.deep_view();
        let ghost old_r = r.deep_view();
        let x = rest.pop().unwrap();
        let ghost xv = x.deep_view();
        assert(old_rest =~= rest.deep_view().push(xv));
        assert(old_rest[old_rest.len() - 1] == xv);
        let mut p: usize = 0;
        while p < r.len()
            invariant
                lt == T::rank_lt(),
                strict_total_order(lt),
                r.deep_view() == old_r,
                p <= r.len(),
                forall|k: int| 0 <= k < p ==> lt(old_r[k], xv),
                forall|j: int| 0 <= j < old_r.len() ==> old_r[j] != xv,
                xv == x.deep_view(),
            ensures
                p <= r.len(),
                p < r.len() ==> lt(xv, old_r[p as int]),
                forall|k: int| 0 <= k < p ==> lt(old_r[k], xv),
            decreases r.len() - p,
        {
            if x.ranks_before(&r[p]) {
                break;
            }
            assert(old_r[p as int] != xv);
            assert(!lt(xv, old_r[p as int]));
            p = p + 1;
        }
        proof {
            if p < old_r.len() {
                assert forall|k: int| p <= k < old_r.len() implies lt(xv, old_r[k]) by {
                    if k > p {
                        assert(lt(old_r[p as int], old_r[k]));
                    }
                }
            }
        }
        r.insert(p, x);
        let ghost new_r = r.deep_view();
        assert(new_r =~= old_r.insert(p as int, xv));
        assert forall|i: int, j: int| 0 <= i < j < new_r.len() implies #[trigger] lt(
            new_r[i],
            new_r[j],
        ) by {
            if j < p {
                assert(lt(old_r[i], old_r[j]));
            } else if j == p {
                assert(lt(old_r[i], xv));
            } else if i < p {
                assert(lt(old_r[i], old_r[j - 1]));
            } else if i == p {
                assert(lt(xv, old_r[j - 1]));
            } else {
                assert(lt(old_r[i - 1], old_r[j - 1]));
            }
        }
        assert forall|y: T::V| old_rest.to_set().contains(y) implies rest.deep_view().to_set().insert(
            xv,
        ).contains(y) by {
            let i = choose|i: int| 0 <= i < old_rest.len() && old_rest[i] == y;
            if i < old_rest.len() - 1 {
                assert(rest.deep_view()[i] == y);
            }
        }
        assert forall|y: T::V| rest.deep_view().to_set().insert(xv).contains(y) implies old_rest.to_set().contains(
            y,
        ) by {
            if y != xv {
                let i = choose|i: int| 0 <= i < rest.len() && rest.deep_view()[i] == y;
                assert(old_rest[i] == y);
            } else {
                assert(old_rest[old_rest.len() - 1] == y);
            }
        }
        assert(rest.deep_view().to_set().insert(xv) =~= old_rest.to_set());
        assert forall|y: T::V| new_r.to_set().contains(y) <==> old_r.to_set().insert(xv).contains(y) by {
            if new_r.to_set().contains(y) {
                let i = choose|i: int| 0 <= i < new_r.len() && new_r[i] == y;
                if i < p {
                    assert(old_r[i] == y);
                } else if i > p {
                    assert(old_r[i - 1] == y);
                }
            }
            if old_r.to_set().insert(xv).contains(y) {
                if y == xv {
                    assert(new_r[p as int] == y);
                } else {
                    let i = choose|i: int| 0 <= i < old_r.len() && old_r[i] == y;
                    if i < p {
                        assert(new_r[i] == y);
                    } else {
                        assert(new_r[i + 1] == y);
                    }
                }
            }
        }
        assert(new_r.to_set() =~= old_r.to_set().insert(xv));
        assert(orig.to_set() =~= rest.deep_view().to_set() + new_r.to_set());
        assert forall|i: int, j: int|
            0 <= i < rest.len() && 0 <= j < r.len() implies rest.deep_view()[i]
            != r.deep_view()[j] by {
            assert(old_rest[i] == rest.deep_view()[i]);
            if j < p {
                assert(new_r[j] == old_r[j]);
            } else if j == p {
                assert(old_rest[i] != old_rest[old_rest.len() - 1]);
            } else {
                assert(new_r[j] == old_r[j - 1]);
            }
        }
        assert(rest.deep_view().no_duplicates()) by {
            assert forall|i: int, j: int|
                0 <= i < rest.len() && 0 <= j < rest.len() && i != j implies rest.deep_view()[i]
                != rest.deep_view()[j] by {
                assert(old_rest[i] != old_rest[j]);
            }
        }
    }
    assert(rest.deep_view().to_set() =~= Set::empty());
    assert(orig.to_set() =~= r.deep_view().to_set());
    r
}

} // verus!
