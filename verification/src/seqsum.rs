use vstd::prelude::*;

verus! {

/// Sum of `f` over all elements of `s`.
pub open spec fn sum_by<T>(s: Seq<T>, f: spec_fn(T) -> int) -> int
    decreases s.len(),
{
    if s.len() == 0 {
        0
    } else {
        sum_by(s.drop_last(), f) + f(s.last())
    }
}

/// All keys of a keyed sequence are distinct.
pub open spec fn unique_ids<T>(s: Seq<(u64, T)>) -> bool {
    forall|i: int, j: int| 0 <= i < j < s.len() ==> s[i].0 != s[j].0
}

/// Some entry of `s` carries the key `id`.
pub open spec fn has_id<T>(s: Seq<(u64, T)>, id: u64) -> bool {
    exists|i: int| 0 <= i < s.len() && s[i].0 == id
}

/// The index of the entry carrying `id`; a single well-defined index under
/// `unique_ids` (see `lemma_idx_of`).
pub open spec fn idx_of<T>(s: Seq<(u64, T)>, id: u64) -> int {
    choose|i: int| 0 <= i < s.len() && s[i].0 == id
}

/// Under distinct keys, the entry at `i` carrying `id` pins `idx_of` to `i`.
pub proof fn lemma_idx_of<T>(s: Seq<(u64, T)>, id: u64, i: int)
    requires
        unique_ids(s),
        0 <= i < s.len(),
        s[i].0 == id,
    ensures
        has_id(s, id),
        idx_of(s, id) == i,
{
    assert(has_id(s, id));
    let j = idx_of(s, id);
    assert(0 <= j < s.len() && s[j].0 == id);
    if i < j {
        assert(s[i].0 != s[j].0);
    } else if j < i {
        assert(s[j].0 != s[i].0);
    }
}

/// One more element extends a prefix sum by exactly that element.
pub proof fn lemma_sum_take_succ<T>(s: Seq<T>, f: spec_fn(T) -> int, i: int)
    requires
        0 <= i < s.len(),
    ensures
        sum_by(s.take(i + 1), f) == sum_by(s.take(i), f) + f(s[i]),
{
    assert(s.take(i + 1).drop_last() =~= s.take(i));
    assert(s.take(i + 1).last() == s[i]);
}

/// The full-length prefix carries the full sum.
pub proof fn lemma_sum_take_all<T>(s: Seq<T>, f: spec_fn(T) -> int)
    ensures
        sum_by(s.take(s.len() as int), f) == sum_by(s, f),
{
    assert(s.take(s.len() as int) =~= s);
}

/// Replacing one element moves the sum by the difference of the images.
pub proof fn lemma_sum_update<T>(s: Seq<T>, f: spec_fn(T) -> int, i: int, v: T)
    requires
        0 <= i < s.len(),
    ensures
        sum_by(s.update(i, v), f) == sum_by(s, f) - f(s[i]) + f(v),
    decreases s.len(),
{
    let t = s.update(i, v);
    if i == s.len() - 1 {
        assert(t.drop_last() =~= s.drop_last());
        assert(t.last() == v);
    } else {
        assert(t.drop_last() =~= s.drop_last().update(i, v));
        assert(t.last() == s.last());
        lemma_sum_update(s.drop_last(), f, i, v);
    }
}

/// Removing one element removes exactly its image from the sum.
pub proof fn lemma_sum_remove<T>(s: Seq<T>, f: spec_fn(T) -> int, i: int)
    requires
        0 <= i < s.len(),
    ensures
        sum_by(s.remove(i), f) == sum_by(s, f) - f(s[i]),
    decreases s.len(),
{
    let t = s.remove(i);
    if i == s.len() - 1 {
        assert(t =~= s.drop_last());
    } else {
        assert(t.drop_last() =~= s.drop_last().remove(i));
        assert(t.last() == s.last());
        lemma_sum_remove(s.drop_last(), f, i);
    }
}

/// Appending one element adds exactly its image to the sum.
pub proof fn lemma_sum_push<T>(s: Seq<T>, f: spec_fn(T) -> int, v: T)
    ensures
        sum_by(s.push(v), f) == sum_by(s, f) + f(v),
{
    assert(s.push(v).drop_last() =~= s);
    assert(s.push(v).last() == v);
}

/// A pointwise bound between two images carries over to their sums.
pub proof fn lemma_sum_le<T>(s: Seq<T>, f: spec_fn(T) -> int, g: spec_fn(T) -> int)
    requires
        forall|i: int| 0 <= i < s.len() ==> f(s[i]) <= g(s[i]),
    ensures
        sum_by(s, f) <= sum_by(s, g),
    decreases s.len(),
{
    if s.len() > 0 {
        assert forall|i: int| 0 <= i < s.drop_last().len() implies f(s.drop_last()[i]) <= g(
            s.drop_last()[i],
        ) by {
            assert(s.drop_last()[i] == s[i]);
        }
        lemma_sum_le(s.drop_last(), f, g);
        assert(f(s.last()) <= g(s.last()));
    }
}

/// A sum of pointwise non-negative images is non-negative.
pub proof fn lemma_sum_nonneg<T>(s: Seq<T>, f: spec_fn(T) -> int)
    requires
        forall|i: int| 0 <= i < s.len() ==> f(s[i]) >= 0,
    ensures
        sum_by(s, f) >= 0,
    decreases s.len(),
{
    if s.len() > 0 {
        assert forall|i: int| 0 <= i < s.drop_last().len() implies f(s.drop_last()[i]) >= 0 by {
            assert(s.drop_last()[i] == s[i]);
        }
        lemma_sum_nonneg(s.drop_last(), f);
        assert(f(s.last()) >= 0);
    }
}

/// With non-negative images, one element's image is at most the whole sum.
pub proof fn lemma_elem_le_sum<T>(s: Seq<T>, f: spec_fn(T) -> int, i: int)
    requires
        forall|j: int| 0 <= j < s.len() ==> f(s[j]) >= 0,
        0 <= i < s.len(),
    ensures
        f(s[i]) <= sum_by(s, f),
{
    lemma_sum_remove(s, f, i);
    let t = s.remove(i);
    assert forall|j: int| 0 <= j < t.len() implies f(t[j]) >= 0 by {
        if j < i {
            assert(t[j] == s[j]);
        } else {
            assert(t[j] == s[j + 1]);
        }
    }
    lemma_sum_nonneg(t, f);
}

/// A sum of pointwise zero images is zero.
pub proof fn lemma_sum_zero<T>(s: Seq<T>, f: spec_fn(T) -> int)
    requires
        forall|i: int| 0 <= i < s.len() ==> f(s[i]) == 0,
    ensures
        sum_by(s, f) == 0,
    decreases s.len(),
{
    if s.len() > 0 {
        assert forall|i: int| 0 <= i < s.drop_last().len() implies f(s.drop_last()[i]) == 0 by {
            assert(s.drop_last()[i] == s[i]);
        }
        lemma_sum_zero(s.drop_last(), f);
        assert(f(s.last()) == 0);
    }
}

/// With non-negative images, a prefix sum is at most the whole sum.
pub proof fn lemma_sum_take_le<T>(s: Seq<T>, f: spec_fn(T) -> int, i: int)
    requires
        forall|j: int| 0 <= j < s.len() ==> f(s[j]) >= 0,
        0 <= i <= s.len(),
    ensures
        sum_by(s.take(i), f) <= sum_by(s, f),
    decreases s.len() - i,
{
    if i == s.len() {
        lemma_sum_take_all(s, f);
    } else {
        lemma_sum_take_succ(s, f, i);
        lemma_sum_take_le(s, f, i + 1);
    }
}

/// With non-negative images, every prefix sum is non-negative.
pub proof fn lemma_sum_nonneg_prefix<T>(s: Seq<T>, f: spec_fn(T) -> int, i: int)
    requires
        forall|j: int| 0 <= j < s.len() ==> f(s[j]) >= 0,
        0 <= i <= s.len(),
    ensures
        sum_by(s.take(i), f) >= 0,
{
    assert forall|j: int| 0 <= j < s.take(i).len() implies f(s.take(i)[j]) >= 0 by {
        assert(s.take(i)[j] == s[j]);
    }
    lemma_sum_nonneg(s.take(i), f);
}

/// An image that splits pointwise into two splits the sum the same way.
pub proof fn lemma_sum_split<T>(
    s: Seq<T>,
    f: spec_fn(T) -> int,
    g: spec_fn(T) -> int,
    h: spec_fn(T) -> int,
)
    requires
        forall|i: int| 0 <= i < s.len() ==> f(s[i]) == g(s[i]) + h(s[i]),
    ensures
        sum_by(s, f) == sum_by(s, g) + sum_by(s, h),
    decreases s.len(),
{
    if s.len() > 0 {
        assert forall|i: int| 0 <= i < s.drop_last().len() implies f(s.drop_last()[i]) == g(
            s.drop_last()[i],
        ) + h(s.drop_last()[i]) by {
            assert(s.drop_last()[i] == s[i]);
        }
        lemma_sum_split(s.drop_last(), f, g, h);
        assert(f(s.last()) == g(s.last()) + h(s.last()));
    }
}

/// A pointwise sum across aligned sequences carries over to the sums.
pub proof fn lemma_sum_add_across<A, B>(
    t: Seq<A>,
    s: Seq<A>,
    u: Seq<B>,
    f: spec_fn(A) -> int,
    g: spec_fn(B) -> int,
)
    requires
        t.len() == s.len(),
        u.len() == s.len(),
        forall|i: int| 0 <= i < s.len() ==> f(t[i]) == f(s[i]) + g(u[i]),
    ensures
        sum_by(t, f) == sum_by(s, f) + sum_by(u, g),
    decreases s.len(),
{
    if s.len() > 0 {
        assert forall|i: int| 0 <= i < s.drop_last().len() implies f(t.drop_last()[i]) == f(
            s.drop_last()[i],
        ) + g(u.drop_last()[i]) by {
            assert(t.drop_last()[i] == t[i]);
            assert(s.drop_last()[i] == s[i]);
            assert(u.drop_last()[i] == u[i]);
        }
        lemma_sum_add_across(t.drop_last(), s.drop_last(), u.drop_last(), f, g);
        assert(f(t.last()) == f(s.last()) + g(u.last()));
    }
}

/// Rounded-down division is superadditive: `p/d + q/d <= (p+q)/d`.
pub proof fn lemma_div_sum_le(p: int, q: int, d: int)
    requires
        d > 0,
        p >= 0,
        q >= 0,
    ensures
        p / d + q / d <= (p + q) / d,
{
    vstd::arithmetic::div_mod::lemma_fundamental_div_mod(p, d);
    vstd::arithmetic::div_mod::lemma_fundamental_div_mod(q, d);
    assert(p % d >= 0);
    assert(q % d >= 0);
    let m = p / d + q / d;
    assert(d * m <= p + q) by (nonlinear_arith)
        requires
            p == d * (p / d) + p % d,
            q == d * (q / d) + q % d,
            m == p / d + q / d,
            p % d >= 0,
            q % d >= 0,
    ;
    vstd::arithmetic::div_mod::lemma_div_multiples_vanish(m, d);
    vstd::arithmetic::div_mod::lemma_div_is_ordered(d * m, p + q, d);
}

/// Scaling by `k` and dividing by a larger denominator stays at or under `k`.
pub proof fn lemma_mul_div_le(w: int, k: int, d: int)
    requires
        0 <= w <= d,
        0 <= k,
        0 < d,
    ensures
        w * k / d <= k,
{
    vstd::arithmetic::mul::lemma_mul_inequality(w, d, k);
    vstd::arithmetic::div_mod::lemma_multiply_divide_le(w * k, d, k);
}

} // verus!
