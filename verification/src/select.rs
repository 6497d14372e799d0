//! Index lists: the indices below a bound that satisfy a condition.

use vstd::prelude::*;

verus! {

/// The indices below `n` that satisfy `keep`, in rising order.
pub open spec fn selected(n: nat, keep: spec_fn(int) -> bool) -> Seq<usize>
    decreases n,
{
    if n == 0 {
        Seq::empty()
    } else if keep(n - 1) {
        selected((n - 1) as nat, keep).push((n - 1) as usize)
    } else {
        selected((n - 1) as nat, keep)
    }
}

/// A selection holds exactly the indices that satisfy the condition, each
/// once, in rising order.
pub proof fn selection_is_exact(n: nat, keep: spec_fn(int) -> bool)
    requires
        n <= usize::MAX,
    ensures
        forall|i: usize| selected(n, keep).contains(i) <==> i < n && keep(i as int),
        forall|a: int, b: int|
            0 <= a < b < selected(n, keep).len() ==> #[trigger] selected(n, keep)[a]
                < #[trigger] selected(n, keep)[b],
        forall|a: int|
            0 <= a < selected(n, keep).len() ==> #[trigger] selected(n, keep)[a] < n && keep(
                selected(n, keep)[a] as int,
            ),
        selected(n, keep).len() <= n,
    decreases n,
{
    let s = selected(n, keep);
    if n > 0 {
        let m = (n - 1) as nat;
        let t = selected(m, keep);
        selection_is_exact(m, keep);
        assert forall|i: usize| s.contains(i) <==> i < n && keep(i as int) by {
            if keep(n - 1) {
                assert(s == t.push((n - 1) as usize));
                if s.contains(i) {
                    let k = choose|k: int| 0 <= k < s.len() && s[k] == i;
                    if k < t.len() {
                        assert(t[k] == i);
                        assert(t.contains(i));
                    }
                }
                if i < n && keep(i as int) {
                    if i == n - 1 {
                        assert(s[t.len() as int] == i);
                    } else {
                        assert(t.contains(i));
                        let k = choose|k: int| 0 <= k < t.len() && t[k] == i;
                        assert(s[k] == i);
                    }
                }
            }
        }
        assert forall|a: int| 0 <= a < s.len() implies #[trigger] s[a] < n && keep(s[a] as int) by {
            if a < t.len() {
                assert(s[a] == t[a]);
            }
        }
        assert forall|a: int, b: int| 0 <= a < b < s.len() implies #[trigger] s[a] < #[trigger] s[b] by {
            assert(s[a] == t[a]);
            if b < t.len() {
                assert(s[b] == t[b]);
            }
        }
    }
}

/// The numbers `0`, `1`, ... `n - 1`.
pub open spec fn first_indices(n: nat) -> Seq<usize> {
    Seq::new(n, |i: int| i as usize)
}

/// The numbers `0`, `1`, ... `n - 1`.
pub fn indices(n: usize) -> (r: Vec<usize>)
    ensures
        r@ == first_indices(n as nat),
        r@.len() == n,
{
    let mut order: Vec<usize> = Vec::new();
    for i in 0..n
        invariant
            order@ =~= first_indices(i as nat),
    {
        order.push(i);
    }
    order
}

/// Two conditions that agree below a bound select the same indices.
pub proof fn selection_depends_on_the_condition(
    n: nat,
    a: spec_fn(int) -> bool,
    b: spec_fn(int) -> bool,
)
    requires
        forall|i: int| 0 <= i < n ==> #[trigger] a(i) == b(i),
    ensures
        selected(n, a) == selected(n, b),
    decreases n,
{
    if n > 0 {
        selection_depends_on_the_condition((n - 1) as nat, a, b);
        assert(a(n - 1) == b(n - 1));
    }
}

} // verus!
