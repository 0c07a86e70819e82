//! Median aggregation of validator price submissions.
//!
//! Submissions arrive in a host vector, are copied once into a stack buffer
//! and sorted there by insertion sort; the median is then read off the sorted
//! buffer.
use vstd::prelude::*;
use vstd::relations::{sorted_by, total_ordering};

use crate::host::{
    all_present, bucket_rows, held_rows, held_u32s, i128_view_of, row_as_i128s, row_as_u32s,
    rows_len, rows_of, rows_try_get, u32_view_of, u32s_len, u32s_try_get, held_i128s, i128s_len,
    i128s_try_get, unwrapped,
};
use crate::math::{div_toward_zero, fits_i128, lemma_div_toward_zero_fits};

verus! {

broadcast use {vstd::seq_lib::group_to_multiset_ensures, vstd::multiset::group_multiset_axioms};

/// Hard cap on the number of entries a median is computed over.
pub const MAX_VALIDATORS: usize = 15;

/// Errors of the median computations.
#[derive(Clone, Copy, Debug, PartialEq, Eq, Structural)]
pub enum MedianError {
    /// No entries, or entries whose counts are all zero.
    EmptyInput,
    /// Arithmetic operation overflow detected.
    ArithmeticOverflow,
    /// Input length exceeds `MAX_VALIDATORS`.
    InputTooLarge,
    /// A stored entry is not of the expected type.
    InvalidEntry,
}

/// The ascending order on prices.
pub open spec fn ascending() -> spec_fn(i128, i128) -> bool {
    |a: i128, b: i128| a <= b
}

/// `values` in ascending order.
pub open spec fn in_ascending_order(values: Seq<i128>) -> Seq<i128> {
    values.sort_by(ascending())
}

/// The median of an ascending sequence: its middle item when the length is
/// odd, else the mean of the two middle items rounded toward zero, which
/// fails when their sum overflows.
pub open spec fn median_of_sorted(sorted: Seq<i128>) -> Result<i128, MedianError> {
    let n = sorted.len();
    let mid = n / 2;
    if n % 2 == 1 {
        Ok(sorted[mid as int])
    } else {
        let sum = sorted[mid - 1] + sorted[mid as int];
        if fits_i128(sum) {
            Ok(div_toward_zero(sum, 2) as i128)
        } else {
            Err(MedianError::ArithmeticOverflow)
        }
    }
}

/// The median of the multiset `values`.
pub open spec fn median_of(values: Seq<i128>) -> Result<i128, MedianError> {
    median_of_sorted(in_ascending_order(values))
}

pub proof fn lemma_ascending_is_total()
    ensures
        total_ordering(ascending()),
{
}

/// `values` in ascending order is the one ascending sequence with the same
/// items as `values`.
pub proof fn lemma_ascending_order_unique(values: Seq<i128>, sorted: Seq<i128>)
    requires
        sorted_by(sorted, ascending()),
        sorted.to_multiset() == values.to_multiset(),
    ensures
        sorted == in_ascending_order(values),
{
    lemma_ascending_is_total();
    values.lemma_sort_by_ensures(ascending());
    vstd::seq_lib::lemma_sorted_unique(sorted, in_ascending_order(values), ascending());
}

/// Two sequences with the same items and the same suffix from `n` on have
/// the same items before `n`.
pub proof fn lemma_prefix_multiset<A>(a: Seq<A>, b: Seq<A>, n: int)
    requires
        0 <= n <= a.len(),
        a.len() == b.len(),
        a.to_multiset() == b.to_multiset(),
        a.skip(n) == b.skip(n),
    ensures
        a.take(n).to_multiset() == b.take(n).to_multiset(),
{
    assert(a =~= a.take(n) + a.skip(n));
    assert(b =~= b.take(n) + b.skip(n));
    vstd::seq_lib::lemma_multiset_commutative(a.take(n), a.skip(n));
    vstd::seq_lib::lemma_multiset_commutative(b.take(n), b.skip(n));
    assert forall|x: A| #[trigger] a.take(n).to_multiset().count(x) == b.take(n).to_multiset().count(
        x,
    ) by {
        assert(a.to_multiset().count(x) == a.take(n).to_multiset().count(x) + a.skip(
            n,
        ).to_multiset().count(x));
        assert(b.to_multiset().count(x) == b.take(n).to_multiset().count(x) + b.skip(
            n,
        ).to_multiset().count(x));
    }
    assert(a.take(n).to_multiset() =~= b.take(n).to_multiset());
}

/// Exchanging two items of a sequence keeps its items.
pub proof fn lemma_swap_multiset<A>(s: Seq<A>, i: int, j: int)
    requires
        0 <= i < s.len(),
        0 <= j < s.len(),
    ensures
        s.update(i, s[j]).update(j, s[i]).to_multiset() == s.to_multiset(),
{
    let t = s.update(i, s[j]);
    assert(t.update(j, s[i]).to_multiset() =~= s.to_multiset());
}

/// One insertion step keeps the prefix sorted: inserting `key` at `j` into
/// the sorted first `i` items of `pre`, with the items from `j` on shifted up
/// by one, sorts the first `i + 1` items, when `key` follows the item before
/// `j` and precedes every shifted item.
pub proof fn lemma_insertion_step_sorted<A>(
    pre: Seq<A>,
    post: Seq<A>,
    key: A,
    i: int,
    j: int,
    leq: spec_fn(A, A) -> bool,
)
    requires
        vstd::relations::transitive(leq),
        0 <= j <= i < pre.len(),
        post.len() == pre.len(),
        sorted_by(pre.take(i), leq),
        forall|k: int| 0 <= k < j ==> post[k] == pre[k],
        post[j] == key,
        forall|k: int| j < k <= i ==> post[k] == pre[k - 1],
        j > 0 ==> leq(pre[j - 1], key),
        forall|k: int| j < k <= i ==> #[trigger] leq(key, post[k]),
    ensures
        sorted_by(post.take(i + 1), leq),
{
    assert forall|a: int, b: int| 0 <= a < b < i + 1 implies #[trigger] leq(
        post.take(i + 1)[a],
        post.take(i + 1)[b],
    ) by {
        if a < j {
            assert(pre.take(i)[a] == pre[a]);
        }
        if a < j && b > j {
            assert(pre.take(i)[b - 1] == pre[b - 1]);
            assert(leq(pre.take(i)[a], pre.take(i)[b - 1]));
        } else if a < j && b == j {
            assert(pre.take(i)[j - 1] == pre[j - 1]);
            if a < j - 1 {
                assert(leq(pre.take(i)[a], pre.take(i)[j - 1]));
            }
        } else if a > j {
            assert(pre.take(i)[a - 1] == pre[a - 1]);
            assert(pre.take(i)[b - 1] == pre[b - 1]);
            assert(leq(pre.take(i)[a - 1], pre.take(i)[b - 1]));
        } else if a < j {
            assert(pre.take(i)[b] == pre[b]);
            assert(leq(pre.take(i)[a], pre.take(i)[b]));
        } else {
            assert(leq(key, post[b]));
        }
    }
}

/// Insertion sort of the first `len` items of `buf`, in place; the items
/// from `len` on are left as they are.
///
/// Insertion sort needs no recursion and runs in linear time on input that
/// is already sorted, which is common for sequential relayer feeds.
pub fn sort_stack_i128(buf: &mut [i128], len: usize)
    requires
        len <= old(buf)@.len(),
    ensures
        final(buf)@.len() == old(buf)@.len(),
        sorted_by(final(buf)@.take(len as int), ascending()),
        final(buf)@.take(len as int).to_multiset() == old(buf)@.take(len as int).to_multiset(),
        final(buf)@.skip(len as int) == old(buf)@.skip(len as int),
{
    let ghost orig = buf@;
    if len == 0 {
        assert(buf@.take(0) =~= Seq::<i128>::empty());
        return;
    }
    let mut i: usize = 1;
    while i < len
        invariant
            1 <= i <= len <= buf@.len(),
            buf@.len() == orig.len(),
            sorted_by(buf@.take(i as int), ascending()),
            buf@.to_multiset() == orig.to_multiset(),
            buf@.skip(len as int) == orig.skip(len as int),
        decreases len - i,
    {
        let ghost pre = buf@;
        let key = buf[i];
        let mut j: usize = i;
        while j > 0 && buf[j - 1] > key
            invariant
                0 <= j <= i < len <= buf@.len(),
                buf@.len() == pre.len(),
                key == pre[i as int],
                sorted_by(pre.take(i as int), ascending()),
                forall|k: int| 0 <= k < j ==> buf@[k] == pre[k],
                forall|k: int| j < k <= i ==> buf@[k] == pre[k - 1],
                forall|k: int| j < k <= i ==> key < #[trigger] buf@[k],
                forall|k: int| i < k < buf@.len() ==> buf@[k] == pre[k],
                buf@.update(j as int, key).to_multiset() == pre.to_multiset(),
            decreases j,
        {
            proof {
                let g = buf@.update(j as int, key);
                lemma_swap_multiset(g, j - 1, j as int);
                assert(g.update(j - 1, g[j as int]).update(j as int, g[j - 1]) =~= buf@.update(
                    j as int,
                    buf@[j - 1],
                ).update(j - 1, key));
            }
            let prev = buf[j - 1];
            buf[j] = prev;
            j -= 1;
        }
        buf[j] = key;
        proof {
            lemma_insertion_step_sorted(pre, buf@, key, i as int, j as int, ascending());
            assert(buf@.skip(len as int) =~= pre.skip(len as int));
        }
        i += 1;
    }
    proof {
        lemma_prefix_multiset(buf@, orig, len as int);
    }
}


/// The median of the sorted first `len` prices of `buf`, as
/// `median_of_sorted` states it.
fn median_of_sorted_buffer(buf: &[i128], len: usize) -> (r: Result<i128, MedianError>)
    requires
        0 < len <= buf@.len(),
    ensures
        r == median_of_sorted(buf@.take(len as int)),
{
    let mid = len / 2;
    if len % 2 == 1 {
        Ok(buf[mid])
    } else {
        let sum = match buf[mid - 1].checked_add(buf[mid]) {
            Some(s) => s,
            None => return Err(MedianError::ArithmeticOverflow),
        };
        proof {
            lemma_div_toward_zero_fits(sum as int, 2);
        }
        match sum.checked_div(2) {
            Some(q) => Ok(q),
            None => Err(MedianError::ArithmeticOverflow),
        }
    }
}

/// Returns the median of the provided prices.
///
/// The host vector is traversed once to copy its values into a stack
/// buffer of `MAX_VALIDATORS` entries; sorting and index arithmetic then run
/// on that buffer alone, with no heap allocation.
///
/// # Errors
/// - `MedianError::EmptyInput`: no prices.
/// - `MedianError::InputTooLarge`: more than `MAX_VALIDATORS` prices.
/// - `MedianError::InvalidEntry`: a stored entry is not an `i128`.
/// - `MedianError::ArithmeticOverflow`: the sum of the two middle prices of an
///   even count overflows `i128`.
pub fn calculate_median(prices: soroban_sdk::Vec<i128>) -> (r: Result<i128, MedianError>)
    ensures
        held_i128s(prices).len() == 0 ==> r == Err::<i128, MedianError>(MedianError::EmptyInput),
        held_i128s(prices).len() > MAX_VALIDATORS ==> r == Err::<i128, MedianError>(
            MedianError::InputTooLarge,
        ),
        0 < held_i128s(prices).len() <= MAX_VALIDATORS && !all_present(held_i128s(prices))
            ==> r == Err::<i128, MedianError>(MedianError::InvalidEntry),
        0 < held_i128s(prices).len() <= MAX_VALIDATORS && all_present(held_i128s(prices)) ==> r
            == median_of(unwrapped(held_i128s(prices))),
{
    let len = i128s_len(&prices) as usize;
    if len == 0 {
        return Err(MedianError::EmptyInput);
    }
    if len > MAX_VALIDATORS {
        return Err(MedianError::InputTooLarge);
    }
    let ghost held = held_i128s(prices);
    let mut buf = [0i128; MAX_VALIDATORS];
    let mut i: usize = 0;
    while i < len
        invariant
            len == held.len() <= MAX_VALIDATORS,
            held == held_i128s(prices),
            buf@.len() == MAX_VALIDATORS,
            i <= len,
            forall|k: int| 0 <= k < i ==> #[trigger] held[k] is Some,
            forall|k: int| 0 <= k < i ==> buf@[k] == (#[trigger] held[k])->0,
        decreases len - i,
    {
        let price = match i128s_try_get(&prices, i as u32) {
            Ok(p) => p.unwrap(),
            Err(_) => return Err(MedianError::InvalidEntry),
        };
        buf[i] = price;
        i += 1;
    }
    let ghost values = unwrapped(held);
    assert(buf@.take(len as int) =~= values);
    sort_stack_i128(&mut buf, len);
    proof {
        lemma_ascending_order_unique(values, buf@.take(len as int));
    }
    median_of_sorted_buffer(&buf, len)
}

/// The order of `(price, count)` buckets by price.
pub open spec fn buckets_ascending() -> spec_fn((i128, u32), (i128, u32)) -> bool {
    |a: (i128, u32), b: (i128, u32)| a.0 <= b.0
}

/// The prices that `(price, count)` buckets stand for: each price repeated
/// `count` times, bucket after bucket.
pub open spec fn expanded(buckets: Seq<(i128, u32)>) -> Seq<i128>
    decreases buckets.len(),
{
    if buckets.len() == 0 {
        Seq::empty()
    } else {
        expanded(buckets.drop_last()) + Seq::new(
            buckets.last().1 as nat,
            |_k: int| buckets.last().0,
        )
    }
}

/// Expansion distributes over concatenation.
pub proof fn lemma_expanded_concat(a: Seq<(i128, u32)>, b: Seq<(i128, u32)>)
    ensures
        expanded(a + b) == expanded(a) + expanded(b),
    decreases b.len(),
{
    if b.len() == 0 {
        assert(a + b =~= a);
        assert(expanded(a) + expanded(b) =~= expanded(a));
    } else {
        assert((a + b).drop_last() =~= a + b.drop_last());
        assert((a + b).last() == b.last());
        lemma_expanded_concat(a, b.drop_last());
        assert(expanded(a + b) =~= expanded(a) + expanded(b));
    }
}

/// The expansion of a single bucket.
pub proof fn lemma_expanded_single(x: (i128, u32))
    ensures
        expanded(seq![x]) == Seq::new(x.1 as nat, |_k: int| x.0),
{
    assert(seq![x].drop_last() =~= Seq::<(i128, u32)>::empty());
    assert(seq![x].last() == x);
    assert(expanded(seq![x].drop_last()) =~= Seq::<i128>::empty());
    assert(expanded(seq![x]) =~= Seq::new(x.1 as nat, |_k: int| x.0));
}

/// The number of prices that buckets stand for is at most `u32::MAX` per
/// bucket.
pub proof fn lemma_expanded_len_bound(b: Seq<(i128, u32)>)
    ensures
        expanded(b).len() <= b.len() * (u32::MAX as int),
    decreases b.len(),
{
    if b.len() > 0 {
        lemma_expanded_len_bound(b.drop_last());
    }
}

/// The multiset of expanded prices depends only on the multiset of buckets.
pub proof fn lemma_expanded_multiset(a: Seq<(i128, u32)>, b: Seq<(i128, u32)>)
    requires
        a.to_multiset() == b.to_multiset(),
    ensures
        expanded(a).to_multiset() == expanded(b).to_multiset(),
    decreases a.len(),
{
    if a.len() == 0 {
        assert(b.to_multiset().len() == 0);
        assert(b =~= Seq::<(i128, u32)>::empty());
    } else {
        let x = a.last();
        let rest = a.drop_last();
        assert(a =~= rest.push(x));
        assert(a.to_multiset().count(x) > 0);
        assert(b.contains(x));
        let i = choose|i: int| 0 <= i < b.len() && b[i] == x;
        let b2 = b.remove(i);
        assert(b2.to_multiset() =~= rest.to_multiset());
        lemma_expanded_multiset(rest, b2);
        let pre = b.take(i);
        let post = b.skip(i + 1);
        assert(b =~= pre + seq![x] + post);
        assert(b2 =~= pre + post);
        lemma_expanded_concat(pre + seq![x], post);
        lemma_expanded_concat(pre, seq![x]);
        lemma_expanded_concat(pre, post);
        lemma_expanded_single(x);
        let r = Seq::new(x.1 as nat, |_k: int| x.0);
        assert(expanded(a) =~= expanded(rest) + r);
        vstd::seq_lib::lemma_multiset_commutative(expanded(rest), r);
        vstd::seq_lib::lemma_multiset_commutative(expanded(pre) + r, expanded(post));
        vstd::seq_lib::lemma_multiset_commutative(expanded(pre), r);
        vstd::seq_lib::lemma_multiset_commutative(expanded(pre), expanded(post));
        assert(expanded(a).to_multiset() =~= expanded(b).to_multiset());
    }
}

/// Every expanded price is at most `bound` when every bucket price is.
pub proof fn lemma_expanded_bounded(b: Seq<(i128, u32)>, bound: i128)
    requires
        forall|k: int| 0 <= k < b.len() ==> (#[trigger] b[k]).0 <= bound,
    ensures
        forall|j: int| 0 <= j < expanded(b).len() ==> #[trigger] expanded(b)[j] <= bound,
    decreases b.len(),
{
    if b.len() > 0 {
        assert forall|k: int| 0 <= k < b.drop_last().len() implies (
        #[trigger] b.drop_last()[k]).0 <= bound by {
            assert(b.drop_last()[k] == b[k]);
        }
        lemma_expanded_bounded(b.drop_last(), bound);
        assert(b[b.len() - 1] == b.last());
        let e = expanded(b.drop_last());
        assert forall|j: int| 0 <= j < expanded(b).len() implies #[trigger] expanded(b)[j]
            <= bound by {
            if j < e.len() {
                assert(expanded(b)[j] == e[j]);
            } else {
                assert(expanded(b)[j] == b.last().0);
            }
        }
    }
}

/// Buckets in price order expand to prices in ascending order.
pub proof fn lemma_expanded_sorted(b: Seq<(i128, u32)>)
    requires
        sorted_by(b, buckets_ascending()),
    ensures
        sorted_by(expanded(b), ascending()),
    decreases b.len(),
{
    if b.len() > 0 {
        let rest = b.drop_last();
        let v = b.last().0;
        assert forall|p: int, q: int| 0 <= p < q < rest.len() implies #[trigger] (
        buckets_ascending())(rest[p], rest[q]) by {
            assert((buckets_ascending())(b[p], b[q]));
        }
        lemma_expanded_sorted(rest);
        assert forall|k: int| 0 <= k < rest.len() implies (#[trigger] rest[k]).0 <= v by {
            assert((buckets_ascending())(b[k], b[b.len() - 1]));
        }
        lemma_expanded_bounded(rest, v);
        let e = expanded(rest);
        assert forall|p: int, q: int| 0 <= p < q < expanded(b).len() implies #[trigger] (
        ascending())(expanded(b)[p], expanded(b)[q]) by {
            if q < e.len() {
                assert((ascending())(e[p], e[q]));
            } else if p < e.len() {
                assert(e[p] <= v);
            }
        }
    }
}

/// The buckets of `s` with price `p`, in their order.
pub open spec fn at_price(s: Seq<(i128, u32)>, p: i128) -> Seq<(i128, u32)>
    decreases s.len(),
{
    if s.len() == 0 {
        Seq::empty()
    } else {
        let earlier = at_price(s.drop_last(), p);
        if s.last().0 == p {
            earlier.push(s.last())
        } else {
            earlier
        }
    }
}

/// Selecting by price distributes over concatenation.
pub proof fn lemma_at_price_concat(a: Seq<(i128, u32)>, b: Seq<(i128, u32)>, p: i128)
    ensures
        at_price(a + b, p) == at_price(a, p) + at_price(b, p),
    decreases b.len(),
{
    if b.len() == 0 {
        assert(a + b =~= a);
        assert(at_price(a, p) + at_price(b, p) =~= at_price(a, p));
    } else {
        assert((a + b).drop_last() =~= a + b.drop_last());
        lemma_at_price_concat(a, b.drop_last(), p);
        assert(at_price(a + b, p) =~= at_price(a, p) + at_price(b, p));
    }
}

/// Exchanging two neighbouring buckets of different prices keeps, for
/// every price, the order of the buckets of that price.
pub proof fn lemma_at_price_swap(s: Seq<(i128, u32)>, k: int, p: i128)
    requires
        0 <= k,
        k + 1 < s.len(),
        s[k].0 != s[k + 1].0,
    ensures
        at_price(s.update(k, s[k + 1]).update(k + 1, s[k]), p) == at_price(s, p),
{
    let t = s.update(k, s[k + 1]).update(k + 1, s[k]);
    let pre = s.take(k);
    let post = s.skip(k + 2);
    let xy = seq![s[k], s[k + 1]];
    let yx = seq![s[k + 1], s[k]];
    assert(s =~= pre + xy + post);
    assert(t =~= pre + yx + post);
    lemma_at_price_concat(pre + xy, post, p);
    lemma_at_price_concat(pre, xy, p);
    lemma_at_price_concat(pre + yx, post, p);
    lemma_at_price_concat(pre, yx, p);
    let x = s[k];
    let y = s[k + 1];
    let e = Seq::<(i128, u32)>::empty();
    assert(at_price(e, p) == e);
    assert(seq![x].drop_last() =~= e);
    assert(seq![y].drop_last() =~= e);
    assert(seq![x].last() == x);
    assert(seq![y].last() == y);
    assert(xy.drop_last() =~= seq![x]);
    assert(yx.drop_last() =~= seq![y]);
    assert(xy.last() == y);
    assert(yx.last() == x);
    let sx = at_price(seq![x], p);
    let sy = at_price(seq![y], p);
    if x.0 == p {
        assert(sx =~= seq![x]);
        assert(sy =~= e);
        assert(at_price(xy, p) =~= seq![x]);
        assert(at_price(yx, p) =~= seq![x]);
    } else if y.0 == p {
        assert(sx =~= e);
        assert(sy =~= seq![y]);
        assert(at_price(xy, p) =~= seq![y]);
        assert(at_price(yx, p) =~= seq![y]);
    } else {
        assert(at_price(xy, p) =~= e);
        assert(at_price(yx, p) =~= e);
    }
}

/// Two sequences that agree from `n` on, and select the same buckets at
/// every price, select the same buckets at every price before `n`.
pub proof fn lemma_at_price_prefix(a: Seq<(i128, u32)>, b: Seq<(i128, u32)>, n: int, p: i128)
    requires
        0 <= n <= a.len(),
        a.len() == b.len(),
        at_price(a, p) == at_price(b, p),
        a.skip(n) == b.skip(n),
    ensures
        at_price(a.take(n), p) == at_price(b.take(n), p),
{
    assert(a =~= a.take(n) + a.skip(n));
    assert(b =~= b.take(n) + b.skip(n));
    lemma_at_price_concat(a.take(n), a.skip(n), p);
    lemma_at_price_concat(b.take(n), b.skip(n), p);
    let x = at_price(a.take(n), p);
    let y = at_price(b.take(n), p);
    let z = at_price(a.skip(n), p);
    assert(x + z == y + z);
    assert((x + z).len() == (y + z).len());
    assert(x.len() == y.len());
    assert forall|k: int| 0 <= k < x.len() implies x[k] == y[k] by {
        assert((x + z)[k] == (y + z)[k]);
    }
    assert(x =~= y);
}

/// Insertion sort of the first `len` buckets of `buf` by price, in place;
/// the buckets from `len` on are left as they are.
pub fn sort_stack_pairs(buf: &mut [(i128, u32)], len: usize)
    requires
        len <= old(buf)@.len(),
    ensures
        final(buf)@.len() == old(buf)@.len(),
        sorted_by(final(buf)@.take(len as int), buckets_ascending()),
        final(buf)@.take(len as int).to_multiset() == old(buf)@.take(len as int).to_multiset(),
        forall|p: i128|
            #[trigger] at_price(final(buf)@.take(len as int), p) == at_price(
                old(buf)@.take(len as int),
                p,
            ),
        final(buf)@.skip(len as int) == old(buf)@.skip(len as int),
{
    let ghost orig = buf@;
    if len == 0 {
        assert(buf@.take(0) =~= Seq::<(i128, u32)>::empty());
        assert(orig.take(0) =~= Seq::<(i128, u32)>::empty());
        return;
    }
    let mut i: usize = 1;
    while i < len
        invariant
            1 <= i <= len <= buf@.len(),
            buf@.len() == orig.len(),
            sorted_by(buf@.take(i as int), buckets_ascending()),
            buf@.to_multiset() == orig.to_multiset(),
            forall|p: i128| #[trigger] at_price(buf@, p) == at_price(orig, p),
            buf@.skip(len as int) == orig.skip(len as int),
        decreases len - i,
    {
        let ghost pre = buf@;
        let key = buf[i];
        let mut j: usize = i;
        assert(buf@.update(j as int, key) =~= pre);
        while j > 0 && buf[j - 1].0 > key.0
            invariant
                0 <= j <= i < len <= buf@.len(),
                buf@.len() == pre.len(),
                key == pre[i as int],
                sorted_by(pre.take(i as int), buckets_ascending()),
                forall|k: int| 0 <= k < j ==> buf@[k] == pre[k],
                forall|k: int| j < k <= i ==> buf@[k] == pre[k - 1],
                forall|k: int| j < k <= i ==> key.0 < (#[trigger] buf@[k]).0,
                forall|k: int| i < k < buf@.len() ==> buf@[k] == pre[k],
                buf@.update(j as int, key).to_multiset() == pre.to_multiset(),
                forall|p: i128| #[trigger] at_price(buf@.update(j as int, key), p) == at_price(pre, p),
            decreases j,
        {
            proof {
                let g = buf@.update(j as int, key);
                lemma_swap_multiset(g, j - 1, j as int);
                assert(g.update(j - 1, g[j as int]).update(j as int, g[j - 1]) =~= buf@.update(
                    j as int,
                    buf@[j - 1],
                ).update(j - 1, key));
                assert forall|p: i128| #[trigger] at_price(
                    buf@.update(j as int, buf@[j - 1]).update(j - 1, key),
                    p,
                ) == at_price(pre, p) by {
                    lemma_at_price_swap(g, j - 1, p);
                }
            }
            let prev = buf[j - 1];
            buf[j] = prev;
            j -= 1;
        }
        buf[j] = key;
        proof {
            lemma_insertion_step_sorted(pre, buf@, key, i as int, j as int, buckets_ascending());
            assert(buf@.skip(len as int) =~= pre.skip(len as int));
        }
        i += 1;
    }
    proof {
        lemma_prefix_multiset(buf@, orig, len as int);
        assert forall|p: i128| #[trigger] at_price(buf@.take(len as int), p) == at_price(
            orig.take(len as int),
            p,
        ) by {
            lemma_at_price_prefix(buf@, orig, len as int, p);
        }
    }
}


/// One more bucket extends the expansion by its price, `count` times.
proof fn lemma_expanded_push(b: Seq<(i128, u32)>, i: int)
    requires
        0 <= i < b.len(),
    ensures
        expanded(b.take(i + 1)) == expanded(b.take(i)) + Seq::new(b[i].1 as nat, |_k: int| b[i].0),
{
    assert(b.take(i + 1).drop_last() =~= b.take(i));
    assert(b.take(i + 1).last() == b[i]);
}

/// Price at multiset index `target` (0-based) in the expansion of the first
/// `len` buckets, located via cumulative counts; the running count must fit
/// in a `u64` up to the bucket that holds `target`. Past the end it falls back
/// to the price of the last bucket, or 0 when there is none.
pub fn value_at_stack(buf: &[(i128, u32)], len: usize, target: u64) -> (v: i128)
    requires
        len <= buf@.len(),
        forall|i: int|
            0 <= i < len && target >= expanded(buf@.take(i)).len() ==> #[trigger] expanded(
                buf@.take(i + 1),
            ).len() <= u64::MAX,
    ensures
        target < expanded(buf@.take(len as int)).len() ==> v == expanded(
            buf@.take(len as int),
        )[target as int],
        target >= expanded(buf@.take(len as int)).len() ==> v == (if len == 0 {
            0
        } else {
            buf@[len - 1].0
        }),
{
    let mut cum: u64 = 0;
    let mut last: i128 = 0;
    let mut i: usize = 0;
    assert(buf@.take(0) =~= Seq::<(i128, u32)>::empty());
    while i < len
        invariant
            i <= len <= buf@.len(),
            forall|i: int|
                0 <= i < len && target >= expanded(buf@.take(i)).len() ==> #[trigger] expanded(
                    buf@.take(i + 1),
                ).len() <= u64::MAX,
            cum == expanded(buf@.take(i as int)).len(),
            target >= cum,
            last == (if i == 0 {
                0
            } else {
                buf@[i - 1].0
            }),
        decreases len - i,
    {
        let (v, c) = buf[i];
        proof {
            lemma_expanded_push(buf@, i as int);
            lemma_expanded_concat(buf@.take(i + 1), buf@.subrange(i + 1, len as int));
            assert(buf@.take(i + 1) + buf@.subrange(i + 1, len as int) =~= buf@.take(len as int));
        }
        last = v;
        cum += c as u64;
        if target < cum {
            proof {
                assert(expanded(buf@.take(i + 1))[target as int] == v);
                assert(expanded(buf@.take(len as int))[target as int] == expanded(
                    buf@.take(i + 1),
                )[target as int]);
            }
            return v;
        }
        i += 1;
    }
    assert(buf@.take(i as int) =~= buf@.take(len as int));
    last
}

/// The bucket that a stored row encodes: a host vector of exactly two
/// items, a price (`i128`) and then a count (`u32`), as the SDK stores a
/// `(i128, u32)` pair; `None` for any other row.
pub open spec fn decoded_bucket(row: Option<soroban_sdk::Vec<soroban_sdk::Val>>) -> Option<(i128, u32)> {
    match row {
        Some(w) => {
            let prices = held_i128s(i128_view_of(w));
            let counts = held_u32s(u32_view_of(w));
            if prices.len() == 2 && counts.len() == 2 && prices[0] is Some && counts[1] is Some {
                Some((prices[0]->0, counts[1]->0))
            } else {
                None
            }
        },
        None => None,
    }
}

/// The entries of a vector of `(price, count)` buckets, in order, each as
/// the bucket it encodes, or `None` where it encodes none.
pub open spec fn bucket_entries(pairs: soroban_sdk::Vec<(i128, u32)>) -> Seq<Option<(i128, u32)>> {
    held_rows(rows_of(pairs)).map_values(
        |row: Option<soroban_sdk::Vec<soroban_sdk::Val>>| decoded_bucket(row),
    )
}

/// Read the bucket stored at `i` of `rows`, checking its shape before any
/// conversion: `None` where the entry is not a two-item host vector of a
/// price and a count.
fn read_bucket(rows: &soroban_sdk::Vec<soroban_sdk::Vec<soroban_sdk::Val>>, i: u32) -> (b: Option<(i128, u32)>)
    requires
        i < held_rows(*rows).len(),
    ensures
        b == decoded_bucket(held_rows(*rows)[i as int]),
{
    let row = match rows_try_get(rows, i) {
        Ok(w) => w.unwrap(),
        Err(_) => return None,
    };
    let prices = row_as_i128s(&row);
    let counts = row_as_u32s(&row);
    if i128s_len(&prices) != 2 || u32s_len(&counts) != 2 {
        return None;
    }
    let price = match i128s_try_get(&prices, 0) {
        Ok(p) => p.unwrap(),
        Err(_) => return None,
    };
    let count = match u32s_try_get(&counts, 1) {
        Ok(c) => c.unwrap(),
        Err(_) => return None,
    };
    Some((price, count))
}

/// Median of a multiset represented as `(price, count)` buckets.
///
/// The insertion sort runs only over the distinct buckets, while each count
/// keeps its price's multiplicity, so the result equals the median of the
/// fully expanded multiset. The buckets are copied once into a stack buffer
/// of `MAX_VALIDATORS` entries; no heap allocation occurs.
///
/// # Errors
/// - `MedianError::EmptyInput`: no buckets, or all counts are zero.
/// - `MedianError::InputTooLarge`: more than `MAX_VALIDATORS` buckets.
/// - `MedianError::InvalidEntry`: a stored entry is not a `(price, count)`
///   pair. Each entry's shape is checked before it is converted, so a
///   malformed entry gives this error rather than a trap.
/// - `MedianError::ArithmeticOverflow`: the count total or the sum of the two
///   middle prices overflows.
pub fn calculate_median_compacted(pairs: soroban_sdk::Vec<(i128, u32)>) -> (r: Result<
    i128,
    MedianError,
>)
    ensures
        bucket_entries(pairs).len() == 0 ==> r == Err::<i128, MedianError>(MedianError::EmptyInput),
        bucket_entries(pairs).len() > MAX_VALIDATORS ==> r == Err::<i128, MedianError>(
            MedianError::InputTooLarge,
        ),
        0 < bucket_entries(pairs).len() <= MAX_VALIDATORS && !all_present(bucket_entries(pairs))
            ==> r == Err::<i128, MedianError>(MedianError::InvalidEntry),
        0 < bucket_entries(pairs).len() <= MAX_VALIDATORS && all_present(bucket_entries(pairs))
            && expanded(unwrapped(bucket_entries(pairs))).len() == 0 ==> r == Err::<
            i128,
            MedianError,
        >(MedianError::EmptyInput),
        0 < bucket_entries(pairs).len() <= MAX_VALIDATORS && all_present(bucket_entries(pairs))
            && expanded(unwrapped(bucket_entries(pairs))).len() > 0 ==> r == median_of(
            expanded(unwrapped(bucket_entries(pairs))),
        ),
{
    let rows = bucket_rows(&pairs);
    let len = rows_len(&rows) as usize;
    if len == 0 {
        return Err(MedianError::EmptyInput);
    }
    if len > MAX_VALIDATORS {
        return Err(MedianError::InputTooLarge);
    }
    let ghost held = bucket_entries(pairs);
    let ghost items = unwrapped(held);
    let mut buf = [(0i128, 0u32); MAX_VALIDATORS];
    let mut total: u64 = 0;
    let mut i: usize = 0;
    while i < len
        invariant
            len == held.len() <= MAX_VALIDATORS,
            held == bucket_entries(pairs),
            held.len() == held_rows(rows).len(),
            rows == rows_of(pairs),
            items == unwrapped(held),
            buf@.len() == MAX_VALIDATORS,
            i <= len,
            forall|k: int| 0 <= k < i ==> #[trigger] held[k] is Some,
            buf@.take(i as int) == items.take(i as int),
            total == expanded(items.take(i as int)).len(),
        decreases len - i,
    {
        let (v, c) = match read_bucket(&rows, i as u32) {
            Some(b) => b,
            None => return Err(MedianError::InvalidEntry),
        };
        proof {
            lemma_expanded_push(items, i as int);
            lemma_expanded_len_bound(items.take(i + 1));
        }
        buf[i] = (v, c);
        total = match total.checked_add(c as u64) {
            Some(t) => t,
            None => return Err(MedianError::ArithmeticOverflow),
        };
        i += 1;
        assert(buf@.take(i as int) =~= items.take(i as int));
    }
    assert(items.take(len as int) =~= items);
    if total == 0 {
        return Err(MedianError::EmptyInput);
    }
    let ghost copied = buf@;
    sort_stack_pairs(&mut buf, len);
    proof {
        let sorted = buf@.take(len as int);
        lemma_expanded_multiset(sorted, items);
        lemma_expanded_sorted(sorted);
        lemma_ascending_order_unique(expanded(items), expanded(sorted));
        assert(expanded(sorted).to_multiset().len() == expanded(items).to_multiset().len());
        assert(expanded(sorted).len() == total);
        assert forall|i: int| 0 <= i < len implies #[trigger] expanded(buf@.take(i + 1)).len()
            <= u64::MAX by {
            lemma_expanded_len_bound(buf@.take(i + 1));
        }
    }
    if total % 2 == 1 {
        Ok(value_at_stack(&buf, len, total / 2))
    } else {
        let lo = value_at_stack(&buf, len, total / 2 - 1);
        let hi = value_at_stack(&buf, len, total / 2);
        let sum = match lo.checked_add(hi) {
            Some(s) => s,
            None => return Err(MedianError::ArithmeticOverflow),
        };
        proof {
            lemma_div_toward_zero_fits(sum as int, 2);
        }
        match sum.checked_div(2) {
            Some(q) => Ok(q),
            None => Err(MedianError::ArithmeticOverflow),
        }
    }
}

/// The median depends only on which prices were submitted, not on the order
/// in which they arrived.
pub proof fn lemma_median_ignores_order(a: Seq<i128>, b: Seq<i128>)
    requires
        a.to_multiset() == b.to_multiset(),
    ensures
        median_of(a) == median_of(b),
{
    lemma_ascending_is_total();
    a.lemma_sort_by_ensures(ascending());
    lemma_ascending_order_unique(b, in_ascending_order(a));
}

/// The compacted median depends only on which buckets were submitted, not on
/// their order.
pub proof fn lemma_compacted_median_ignores_bucket_order(a: Seq<(i128, u32)>, b: Seq<(i128, u32)>)
    requires
        a.to_multiset() == b.to_multiset(),
    ensures
        expanded(a).len() == expanded(b).len(),
        median_of(expanded(a)) == median_of(expanded(b)),
{
    lemma_expanded_multiset(a, b);
    assert(expanded(a).to_multiset().len() == expanded(b).to_multiset().len());
    lemma_median_ignores_order(expanded(a), expanded(b));
}

/// The median splits the prices in half: in ascending order, every price
/// below it stands in the lower half and every price above it in the upper
/// half.
pub proof fn lemma_median_splits_prices(values: Seq<i128>)
    requires
        values.len() > 0,
    ensures
        median_of(values) matches Ok(m) ==> forall|k: int|
            0 <= k < values.len() ==> {
                &&& (#[trigger] in_ascending_order(values)[k] < m ==> k < values.len() / 2)
                &&& (in_ascending_order(values)[k] > m ==> k >= values.len() - values.len() / 2)
            },
{
    lemma_ascending_is_total();
    values.lemma_sort_by_ensures(ascending());
    lemma_median_within_range(values);
    let sorted = in_ascending_order(values);
    assert(sorted.to_multiset().len() == values.to_multiset().len());
    let n = sorted.len();
    let mid = n / 2;
    if let Ok(m) = median_of(values) {
        assert forall|k: int| 0 <= k < n implies {
            &&& (#[trigger] sorted[k] < m ==> k < mid)
            &&& (sorted[k] > m ==> k >= n - mid)
        } by {
            if n % 2 == 1 {
                if k > mid {
                    assert((ascending())(sorted[mid as int], sorted[k]));
                } else if k < mid {
                    assert((ascending())(sorted[k], sorted[mid as int]));
                }
            } else {
                let lo = sorted[mid - 1];
                let hi = sorted[mid as int];
                assert((ascending())(lo, hi));
                assert(lo <= div_toward_zero(lo + hi, 2) <= hi);
                if k > mid {
                    assert((ascending())(sorted[mid as int], sorted[k]));
                } else if k < mid - 1 {
                    assert((ascending())(sorted[k], sorted[mid - 1]));
                }
            }
        }
    }
}

/// The median of nonempty prices lies between the smallest and the largest
/// of them.
pub proof fn lemma_median_within_range(values: Seq<i128>)
    requires
        values.len() > 0,
    ensures
        median_of(values) matches Ok(m) ==> in_ascending_order(values)[0] <= m
            <= in_ascending_order(values)[values.len() - 1],
{
    lemma_ascending_is_total();
    values.lemma_sort_by_ensures(ascending());
    let sorted = in_ascending_order(values);
    assert(sorted.to_multiset().len() == values.to_multiset().len());
    let n = sorted.len();
    let mid = n / 2;
    if n % 2 == 1 {
        if mid > 0 {
            assert((ascending())(sorted[0], sorted[mid as int]));
        }
        if mid < n - 1 {
            assert((ascending())(sorted[mid as int], sorted[n - 1]));
        }
    } else {
        let lo = sorted[mid - 1];
        let hi = sorted[mid as int];
        assert((ascending())(lo, hi));
        if mid - 1 > 0 {
            assert((ascending())(sorted[0], lo));
        }
        if mid < n - 1 {
            assert((ascending())(hi, sorted[n - 1]));
        }
        let sum = lo + hi;
        assert(lo <= div_toward_zero(sum, 2) <= hi);
    }
}

} // verus!
