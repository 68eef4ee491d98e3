use vstd::prelude::*;
use std::collections::HashSet;
use std::hash::Hash;
use vstd::std_specs::hash::obeys_key_model;
use vstd::std_specs::iter::IteratorSpec;

verus! {

/// The remainder of `x` divided by `d` with the quotient rounded towards zero:
/// it has the sign of `x` and the magnitude `|x| mod |d|`.
pub open spec fn truncated_remainder(x: int, d: int) -> int {
    let m = if d < 0 {
        -d
    } else {
        d
    };
    if x >= 0 {
        x % m
    } else {
        -((-x) % m)
    }
}

/// The quotient of `x` divided by `d`, rounded towards zero.
pub open spec fn truncated_quotient(x: int, d: int) -> int {
    let m = if d < 0 {
        -d
    } else {
        d
    };
    let q = if x >= 0 {
        x / m
    } else {
        (-x) / m
    };
    if (x >= 0) == (d >= 0) {
        q
    } else {
        -q
    }
}

/// Division rounded towards zero and its remainder put `x` back together.
pub proof fn lemma_truncated_division(x: int, d: int)
    requires
        d != 0,
    ensures
        x == d * truncated_quotient(x, d) + truncated_remainder(x, d),
{
    let m = if d < 0 {
        -d
    } else {
        d
    };
    let ax = if x >= 0 {
        x
    } else {
        -x
    };
    vstd::arithmetic::div_mod::lemma_fundamental_div_mod(ax, m);
    let q = ax / m;
    let r = ax % m;
    assert(ax == m * q + r);
    if x >= 0 {
        if d >= 0 {
        } else {
            assert(d * (-q) == m * q) by (nonlinear_arith)
                requires
                    m == -d,
            ;
        }
    } else {
        if d >= 0 {
            assert(d * (-q) == -(m * q)) by (nonlinear_arith)
                requires
                    m == d,
            ;
        } else {
            assert(d * q == -(m * q)) by (nonlinear_arith)
                requires
                    m == -d,
            ;
        }
    }
}

/// What `remainder(a, b)` returns.
pub open spec fn remainder_spec(a: int, b: int) -> int {
    let rem = truncated_remainder(a, b);
    if rem == 0 {
        0
    } else if a < 0 {
        b + rem
    } else {
        rem
    }
}

/// The remainder of `a` divided by `b`, moved up by `b` when `a` is negative, so that
/// for a positive divisor the result wraps around into `0 .. b`.
pub fn remainder(a: i64, b: i64) -> (r: i64)
    requires
        b != 0,
        !(a == i64::MIN && b == -1),
        a >= 0 || b + truncated_remainder(a as int, b as int) >= i64::MIN,
    ensures
        r == remainder_spec(a as int, b as int),
{
    let rem = match a.checked_rem(b) {
        Some(rem) => rem,
        None => 0,
    };
    assert(rem == truncated_remainder(a as int, b as int));
    if rem == 0 {
        0
    } else if a < 0 {
        b + rem
    } else {
        rem
    }
}

/// For a positive divisor, `remainder` is the mathematical (Euclidean) remainder:
/// it lies in `0 .. b` and differs from `a` by a multiple of `b`.
pub proof fn lemma_remainder_wraps_into_range(a: int, b: int)
    requires
        b > 0,
    ensures
        remainder_spec(a, b) == a % b,
        0 <= remainder_spec(a, b) < b,
{
    if a < 0 {
        let m = (-a) % b;
        vstd::arithmetic::div_mod::lemma_fundamental_div_mod(-a, b);
        vstd::arithmetic::div_mod::lemma_mod_bound(-a, b);
        let q = (-a) / b;
        assert(-a == b * q + m);
        assert(a == b * (-q) + (-m)) by (nonlinear_arith)
            requires
                -a == b * q + m,
        ;
        if m == 0 {
            assert(a == b * (-q));
            vstd::arithmetic::div_mod::lemma_mod_multiples_basic(-q, b);
            assert((-q) * b == b * (-q)) by (nonlinear_arith);
        } else {
            assert(a == b * (-q - 1) + (b - m)) by (nonlinear_arith)
                requires
                    a == b * (-q) + (-m),
            ;
            vstd::arithmetic::div_mod::lemma_fundamental_div_mod_converse(a, b, -q - 1, b - m);
        }
    } else {
        vstd::arithmetic::div_mod::lemma_mod_bound(a, b);
    }
}


/// An iterator over values that are computed only when they are asked for: the `i`-th
/// call of `next` calls the `i`-th closure.
pub struct IterLazy<T, G> {
    closures: Vec<G>,
    index: usize,
    marker: core::marker::PhantomData<T>,
}

impl<T, G: Fn() -> Option<T>> IterLazy<T, G> {
    /// The closures, in the order in which they are called.
    pub closed spec fn closures(&self) -> Seq<G> {
        self.closures@
    }

    /// How many times `next` has been called.
    pub closed spec fn index(&self) -> nat {
        self.index as nat
    }

    /// Every closure may be called.
    pub open spec fn callable(&self) -> bool {
        forall|i: int| 0 <= i < self.closures().len() ==> call_requires(#[trigger] self.closures()[i], ())
    }

    pub fn new(closures: Vec<G>) -> (iter: Self)
        ensures
            iter.closures() == closures@,
            iter.index() == 0,
    {
        IterLazy { closures, index: 0, marker: core::marker::PhantomData }
    }

    /// Calls the next closure and returns what it returns; once every closure has been
    /// called, returns `None`.
    pub fn next(&mut self) -> (item: Option<T>)
        requires
            old(self).callable(),
            old(self).index() < usize::MAX,
        ensures
            lazy_next(*old(self), *final(self), item),
    {
        if self.index < self.closures.len() {
            assert(call_requires(self.closures()[self.index as int], ()));
            let closure = &self.closures[self.index];
            self.index = self.index + 1;
            return closure();
        }
        self.index = self.index + 1;
        None
    }
}

/// What a call of `next` at position `index` of `closures` gives: what that closure
/// returns, or `None` past the last closure.
pub open spec fn lazy_item<T, G: Fn() -> Option<T>>(closures: Seq<G>, index: int, item: Option<T>) -> bool {
    if index < closures.len() {
        call_ensures(closures[index], (), item)
    } else {
        item is None
    }
}

/// One call of `next`, taking `before` to `after` and giving `item`, as its contract says.
pub open spec fn lazy_next<T, G: Fn() -> Option<T>>(
    before: IterLazy<T, G>,
    after: IterLazy<T, G>,
    item: Option<T>,
) -> bool {
    &&& after.closures() == before.closures()
    &&& after.index() == before.index() + 1
    &&& lazy_item(before.closures(), before.index() as int, item)
}

/// Calls of `next` one after another, from a fresh iterator through `states`: the `k`-th
/// call gives what the `k`-th closure gives, and `None` once every closure has been called;
/// a closure that gives `None` does not end the calls that follow.
pub proof fn lemma_lazy_calls_in_order<T, G: Fn() -> Option<T>>(
    states: Seq<IterLazy<T, G>>,
    items: Seq<Option<T>>,
)
    requires
        states.len() == items.len() + 1,
        states[0].index() == 0,
        forall|k: int| #![trigger items[k]] 0 <= k < items.len() ==> lazy_next(states[k], states[k + 1], items[k]),
    ensures
        forall|k: int| #![trigger items[k]] 0 <= k < items.len() ==> lazy_item(states[0].closures(), k, items[k]),
        forall|k: int| #![trigger states[k]] 0 <= k < states.len() ==> states[k].index() == k && states[k].closures()
            == states[0].closures(),
    decreases items.len(),
{
    if items.len() > 0 {
        let n = items.len() - 1;
        let fewer_states = states.drop_last();
        let fewer_items = items.drop_last();
        assert forall|k: int| #![trigger fewer_items[k]] 0 <= k < fewer_items.len() implies lazy_next(
            fewer_states[k],
            fewer_states[k + 1],
            fewer_items[k],
        ) by {
            assert(items[k] == fewer_items[k]);
        }
        lemma_lazy_calls_in_order(fewer_states, fewer_items);
        assert(fewer_states[n] == states[n]);
        assert(lazy_next(states[n], states[n + 1], items[n]));
        assert forall|k: int| #![trigger items[k]] 0 <= k < items.len() implies lazy_item(states[0].closures(), k, items[k]) by {
            if k < n {
                assert(fewer_items[k] == items[k]);
            }
        }
        assert forall|k: int| #![trigger states[k]] 0 <= k < states.len() implies states[k].index() == k && states[k].closures()
            == states[0].closures() by {
            if k <= n {
                assert(fewer_states[k] == states[k]);
            }
        }
    }
}

/// How a provider that had computed `before` answers a request for `index`: it keeps what it
/// had, computes just enough further values to reach `index`, and answers the value there.
pub open spec fn provides<T>(before: Seq<Option<T>>, after: Seq<Option<T>>, index: int, item: Option<T>) -> bool {
    &&& after.len() == if before.len() > index {
        before.len() as int
    } else {
        index + 1
    }
    &&& after.subrange(0, before.len() as int) == before
    &&& item == after[index]
}

/// The value at position `k` of an output that consists of `stream` and then nothing.
pub open spec fn output_at<T>(stream: Seq<T>, k: int) -> Option<T> {
    if 0 <= k < stream.len() {
        Some(stream[k])
    } else {
        None
    }
}

/// `items` from position `from` on are what an iterator that still had `remaining` to give
/// returned, call by call (`None` once it had given everything), and the iterator now has
/// `rest` left.
pub open spec fn continues<T>(remaining: Seq<T>, from: int, items: Seq<Option<T>>, rest: Seq<T>) -> bool {
    &&& forall|k: int| from <= k < items.len() ==> #[trigger] items[k] == output_at(remaining, k - from)
    &&& rest == remaining.skip(
        if items.len() - from < remaining.len() {
            items.len() - from
        } else {
            remaining.len() as int
        },
    )
}

/// One request to a provider, as `get` answers it when the source follows the iterator laws:
/// the provider had computed `before` and its source still had `rest` to give; afterwards it
/// has computed `after`, the source has `rest_after` left, and the answer for `index` is
/// `item`.
pub open spec fn answered<T>(
    before: Seq<Option<T>>,
    after: Seq<Option<T>>,
    rest: Seq<T>,
    rest_after: Seq<T>,
    index: int,
    item: Option<T>,
) -> bool {
    &&& provides(before, after, index, item)
    &&& continues(rest, before.len() as int, after, rest_after)
}

/// How many values a provider has asked its source for after the requests for `indices`,
/// starting with nothing: one more than the furthest position requested.
pub open spec fn pulled(indices: Seq<int>) -> int
    decreases indices.len(),
{
    if indices.len() == 0 {
        0
    } else if pulled(indices.drop_last()) > indices.last() + 1 {
        pulled(indices.drop_last())
    } else {
        indices.last() + 1
    }
}

/// `n` bounded by the length of `s`.
pub open spec fn clamped<T>(n: int, s: Seq<T>) -> int {
    if n < s.len() {
        n
    } else {
        s.len() as int
    }
}

/// A request to a provider that has computed the first values of `stream` keeps that so.
proof fn lemma_request_keeps_stream<T>(
    stream: Seq<T>,
    before: Seq<Option<T>>,
    after: Seq<Option<T>>,
    rest: Seq<T>,
    rest_after: Seq<T>,
    index: int,
    item: Option<T>,
)
    requires
        0 <= index,
        forall|j: int| 0 <= j < before.len() ==> #[trigger] before[j] == output_at(stream, j),
        rest == stream.skip(clamped(before.len() as int, stream)),
        answered(before, after, rest, rest_after, index, item),
    ensures
        item == output_at(stream, index),
        after.len() == if before.len() > index + 1 {
            before.len() as int
        } else {
            index + 1
        },
        forall|j: int| 0 <= j < after.len() ==> #[trigger] after[j] == output_at(stream, j),
        rest_after == stream.skip(clamped(after.len() as int, stream)),
{
    let m = clamped(before.len() as int, stream);
    assert forall|j: int| 0 <= j < after.len() implies #[trigger] after[j] == output_at(stream, j) by {
        if j < before.len() {
            assert(after[j] == after.subrange(0, before.len() as int)[j]);
        } else {
            assert(after[j] == output_at(rest, j - before.len()));
            if before.len() <= stream.len() {
                if j < stream.len() {
                    assert(rest[j - before.len()] == stream[j]);
                }
            }
        }
    }
    let n = after.len() - before.len();
    assert(rest_after =~= stream.skip(clamped(after.len() as int, stream)));
}

/// Requests one after another to a fresh provider whose source gives `stream`: the answer to
/// each is the source's value at the position requested (`None` past its end); values are
/// asked of the source only when first requested, in order and once each, so that after
/// the requests for `indices` the provider has pulled exactly `pulled(indices)` of them and
/// the source has what follows left.
pub proof fn lemma_provider_requests<T>(
    stream: Seq<T>,
    seen: Seq<Seq<Option<T>>>,
    rests: Seq<Seq<T>>,
    indices: Seq<int>,
    items: Seq<Option<T>>,
)
    requires
        seen.len() == indices.len() + 1,
        rests.len() == indices.len() + 1,
        items.len() == indices.len(),
        seen[0] == Seq::<Option<T>>::empty(),
        rests[0] == stream,
        forall|k: int| #![trigger indices[k]] 0 <= k < indices.len() ==> 0 <= indices[k] && answered(
            seen[k],
            seen[k + 1],
            rests[k],
            rests[k + 1],
            indices[k],
            items[k],
        ),
    ensures
        forall|k: int| #![trigger items[k]] 0 <= k < items.len() ==> items[k] == output_at(stream, indices[k]),
        forall|k: int| #![trigger seen[k]] 0 <= k < seen.len() ==> {
            &&& seen[k].len() == pulled(indices.take(k))
            &&& forall|j: int| 0 <= j < seen[k].len() ==> #[trigger] seen[k][j] == output_at(stream, j)
            &&& rests[k] == stream.skip(clamped(seen[k].len() as int, stream))
        },
    decreases indices.len(),
{
    if indices.len() == 0 {
        assert(stream.skip(0) =~= stream);
        assert(indices.take(0) =~= Seq::<int>::empty());
    } else {
        let n = indices.len() - 1;
        let seen2 = seen.drop_last();
        let rests2 = rests.drop_last();
        let indices2 = indices.drop_last();
        let items2 = items.drop_last();
        assert forall|k: int| #![trigger indices2[k]] 0 <= k < indices2.len() implies 0 <= indices2[k] && answered(
            seen2[k],
            seen2[k + 1],
            rests2[k],
            rests2[k + 1],
            indices2[k],
            items2[k],
        ) by {
            assert(indices[k] == indices2[k]);
        }
        lemma_provider_requests(stream, seen2, rests2, indices2, items2);
        assert(seen2[n] == seen[n]);
        assert(indices[n] == indices[n]);
        assert(indices2.take(n) =~= indices.take(n));
        assert(seen[n].len() == pulled(indices.take(n)));
        lemma_request_keeps_stream(
            stream,
            seen[n],
            seen[n + 1],
            rests[n],
            rests[n + 1],
            indices[n],
            items[n],
        );
        assert(indices.take(n + 1).drop_last() =~= indices.take(n));
        assert(indices.take(n + 1) =~= indices);
        assert forall|k: int| #![trigger items[k]] 0 <= k < items.len() implies items[k] == output_at(
            stream,
            indices[k],
        ) by {
            if k < n {
                assert(items2[k] == items[k]);
                assert(indices2[k] == indices[k]);
            }
        }
        assert forall|k: int| #![trigger seen[k]] 0 <= k < seen.len() implies {
            &&& seen[k].len() == pulled(indices.take(k))
            &&& forall|j: int| 0 <= j < seen[k].len() ==> #[trigger] seen[k][j] == output_at(stream, j)
            &&& rests[k] == stream.skip(clamped(seen[k].len() as int, stream))
        } by {
            if k <= n {
                assert(seen2[k] == seen[k]);
                assert(rests2[k] == rests[k]);
                assert(indices2.take(k) =~= indices.take(k));
            }
        }
    }
}

/// Walking a provider again, from the start over what it has already computed, as a fresh
/// `Marcher` does: the `k`-th step gives the provider's value at `k`, and the provider and its
/// source stay as they were, so that nothing is asked of the source again.
pub proof fn lemma_walk_again<T>(
    seen: Seq<Seq<Option<T>>>,
    rests: Seq<Seq<T>>,
    items: Seq<Option<T>>,
)
    requires
        seen.len() == items.len() + 1,
        rests.len() == items.len() + 1,
        items.len() <= seen[0].len(),
        forall|k: int| #![trigger items[k]] 0 <= k < items.len() ==> answered(
            seen[k],
            seen[k + 1],
            rests[k],
            rests[k + 1],
            k,
            items[k],
        ),
    ensures
        forall|k: int| #![trigger items[k]] 0 <= k < items.len() ==> items[k] == seen[0][k],
        forall|k: int| #![trigger seen[k]] 0 <= k < seen.len() ==> seen[k] == seen[0] && rests[k] == rests[0],
    decreases items.len(),
{
    if items.len() > 0 {
        let n = items.len() - 1;
        let seen2 = seen.drop_last();
        let rests2 = rests.drop_last();
        let items2 = items.drop_last();
        assert forall|k: int| #![trigger items2[k]] 0 <= k < items2.len() implies answered(
            seen2[k],
            seen2[k + 1],
            rests2[k],
            rests2[k + 1],
            k,
            items2[k],
        ) by {
            assert(items[k] == items2[k]);
        }
        lemma_walk_again(seen2, rests2, items2);
        assert(seen2[n] == seen[n]);
        assert(rests2[n] == rests[n]);
        assert(answered(seen[n], seen[n + 1], rests[n], rests[n + 1], n, items[n]));
        assert(seen[n + 1] =~= seen[n]);
        assert(rests[n].skip(0) =~= rests[n]);
        assert forall|k: int| #![trigger items[k]] 0 <= k < items.len() implies items[k] == seen[0][k] by {
            if k < n {
                assert(items2[k] == items[k]);
            }
        }
        assert forall|k: int| #![trigger seen[k]] 0 <= k < seen.len() implies seen[k] == seen[0] && rests[k]
            == rests[0] by {
            if k <= n {
                assert(seen2[k] == seen[k]);
                assert(rests2[k] == rests[k]);
            }
        }
    }
}

broadcast proof fn lemma_skip_nothing<T>(s: Seq<T>)
    ensures
        #[trigger] s.skip(0) == s,
{
    assert(s.skip(0) =~= s);
}

broadcast proof fn lemma_skip_one_more<T>(s: Seq<T>, k: int)
    requires
        0 <= k < s.len(),
    ensures
        #[trigger] s.skip(k).drop_first() == s.skip(k + 1),
{
    assert(s.skip(k).drop_first() =~= s.skip(k + 1));
}

/// A provider gives the same answer whenever it is asked for the same position: once a
/// value is computed, later requests, for any positions, leave it as it was.
pub proof fn lemma_provider_answers_consistently<T>(
    first_before: Seq<Option<T>>,
    first_after: Seq<Option<T>>,
    second_after: Seq<Option<T>>,
    third_after: Seq<Option<T>>,
    index: int,
    other: int,
    first: Option<T>,
    between: Option<T>,
    second: Option<T>,
)
    requires
        0 <= index,
        0 <= other,
        provides(first_before, first_after, index, first),
        provides(first_after, second_after, other, between),
        provides(second_after, third_after, index, second),
    ensures
        second == first,
{
    assert(first_after[index] == second_after.subrange(0, first_after.len() as int)[index]);
    assert(second_after[index] == third_after.subrange(0, second_after.len() as int)[index]);
}

/// Remembers what an iterator has produced, so that any position of its output can be
/// asked for again; positions past the end are remembered as `None`.
pub struct Provider<T, I> {
    items: Vec<Option<T>>,
    iterator: I,
}

impl<T: Copy, I: Iterator<Item = T>> Provider<T, I> {
    /// The results of the calls of the iterator's `next` made so far, in order.
    pub closed spec fn items(&self) -> Seq<Option<T>> {
        self.items@
    }

    /// The iterator that the values come from.
    pub closed spec fn source(&self) -> I {
        self.iterator
    }

    pub fn new(a: I) -> (provider: Self)
        ensures
            provider.items() == Seq::<Option<T>>::empty(),
            provider.source() == a,
    {
        Provider { items: Vec::new(), iterator: a }
    }

    /// The value at `index` of the iterator's output, calling the iterator's `next`
    /// as many times as are needed to reach it.
    pub fn get(&mut self, index: usize) -> (item: Option<T>)
        requires
            index < usize::MAX,
        ensures
            provides(old(self).items(), final(self).items(), index as int, item),
            final(self).source().obeys_prophetic_iter_laws() == old(
                self,
            ).source().obeys_prophetic_iter_laws(),
            old(self).source().obeys_prophetic_iter_laws() ==> answered(
                old(self).items(),
                final(self).items(),
                old(self).source().remaining(),
                final(self).source().remaining(),
                index as int,
                item,
            ),
    {
        let ghost start = self.items@;
        broadcast use {lemma_skip_nothing, lemma_skip_one_more};

        let ghost source = self.iterator;
        while self.items.len() <= index
            invariant
                self.items@.len() >= start.len(),
                self.items@.len() <= if start.len() > index {
                    start.len() as int
                } else {
                    index + 1
                },
                self.items@.subrange(0, start.len() as int) == start,
                self.iterator.obeys_prophetic_iter_laws() == source.obeys_prophetic_iter_laws(),
                source.obeys_prophetic_iter_laws() ==> continues(
                    source.remaining(),
                    start.len() as int,
                    self.items@,
                    self.iterator.remaining(),
                ),
            decreases index + 1 - self.items@.len(),
        {
            let ghost k = self.items@.len() - start.len();
            let next = self.iterator.next();
            self.items.push(next);
            assert(source.obeys_prophetic_iter_laws() ==> self.items@[self.items@.len() - 1]
                == output_at(source.remaining(), k));
            assert(source.obeys_prophetic_iter_laws() ==> self.iterator.remaining()
                == source.remaining().skip(
                if k + 1 < source.remaining().len() {
                    k + 1
                } else {
                    source.remaining().len() as int
                },
            ));
        }
        self.items[index]
    }

    /// The value at `index` of the iterator's output, computed as `get` computes it, to be
    /// changed in place: what is written through the reference is what the provider holds
    /// at `index` afterwards.
    pub fn get_mut(&mut self, index: usize) -> (item: &mut Option<T>)
        requires
            index < usize::MAX,
        ensures
            provides(
                old(self).items(),
                final(self).items().update(index as int, *item),
                index as int,
                *item,
            ),
            final(self).items()[index as int] == *final(item),
            final(self).source().obeys_prophetic_iter_laws() == old(
                self,
            ).source().obeys_prophetic_iter_laws(),
            old(self).source().obeys_prophetic_iter_laws() ==> continues(
                old(self).source().remaining(),
                old(self).items().len() as int,
                final(self).items().update(index as int, *item),
                final(self).source().remaining(),
            ),
    {
        self.get(index);
        let ghost computed = self.items@;
        let item = &mut self.items[index];
        proof {
            assert(after_borrow(self.items)@.update(index as int, *item) =~= computed);
        }
        item
    }

    /// A cursor that walks the output from its start.
    pub fn iter(&mut self) -> (marcher: Marcher<'_, T, I>)
        ensures
            marcher.index() == 0,
            *marcher.provider() == *old(self),
            *final(self) == *final(marcher.provider()),
    {
        Marcher { index: 0, provider: self }
    }
}

/// A cursor over the output of a `Provider`.
pub struct Marcher<'a, T, I> {
    index: usize,
    provider: &'a mut Provider<T, I>,
}

impl<'a, T: Copy, I: Iterator<Item = T>> Marcher<'a, T, I> {
    pub closed spec fn index(&self) -> nat {
        self.index as nat
    }

    pub closed spec fn provider(&self) -> &'a mut Provider<T, I> {
        self.provider
    }

    /// The value at the cursor, asked of the provider, after which the cursor moves on.
    pub fn next(&mut self) -> (item: Option<T>)
        requires
            old(self).index() < usize::MAX - 1,
        ensures
            final(self).index() == old(self).index() + 1,
            provides(
                old(self).provider().items(),
                final(self).provider().items(),
                old(self).index() as int,
                item,
            ),
            final(self).provider().source().obeys_prophetic_iter_laws() == old(
                self,
            ).provider().source().obeys_prophetic_iter_laws(),
            old(self).provider().source().obeys_prophetic_iter_laws() ==> answered(
                old(self).provider().items(),
                final(self).provider().items(),
                old(self).provider().source().remaining(),
                final(self).provider().source().remaining(),
                old(self).index() as int,
                item,
            ),
    {
        let item = self.provider.get(self.index);
        self.index = self.index + 1;
        item
    }

    /// The value at the cursor, to be changed in place, after which the cursor moves on:
    /// what is written through the reference is what the provider holds there afterwards.
    pub fn next_mut(&mut self) -> (item: &mut Option<T>)
        requires
            old(self).index() < usize::MAX - 1,
        ensures
            final(self).index() == old(self).index() + 1,
            provides(
                old(self).provider().items(),
                final(self).provider().items().update(old(self).index() as int, *item),
                old(self).index() as int,
                *item,
            ),
            final(self).provider().items()[old(self).index() as int] == *final(item),
            final(self).provider().source().obeys_prophetic_iter_laws() == old(
                self,
            ).provider().source().obeys_prophetic_iter_laws(),
            old(self).provider().source().obeys_prophetic_iter_laws() ==> continues(
                old(self).provider().source().remaining(),
                old(self).provider().items().len() as int,
                final(self).provider().items().update(old(self).index() as int, *item),
                final(self).provider().source().remaining(),
            ),
    {
        let index = self.index;
        self.index = self.index + 1;
        self.provider.get_mut(index)
    }
}


/// A token of a generic type such as `Vec<Box<T>>`, as the Rust lexer produces it: a
/// doubled angle bracket is one token.
pub enum Token {
    /// `<`
    Open,
    /// `>`
    Close,
    /// `<<`
    DoubleOpen,
    /// `>>`
    DoubleClose,
    /// Any other token, by its text.
    Other(String),
}

/// `tokens` with each doubled angle bracket split into two single ones.
pub open spec fn split_brackets(tokens: Seq<Token>) -> Seq<Token>
    decreases tokens.len(),
{
    if tokens.len() == 0 {
        Seq::empty()
    } else {
        let head = match tokens[0] {
            Token::DoubleOpen => seq![Token::Open, Token::Open],
            Token::DoubleClose => seq![Token::Close, Token::Close],
            t => seq![t],
        };
        head + split_brackets(tokens.drop_first())
    }
}

/// The bracket-counting walk over single tokens: `depth` counts the open angle brackets,
/// `processed` holds what has been walked over. The walk is done when one bracket is open
/// and exactly one closing bracket remains; a closing bracket with none open is kept as
/// an ordinary token; running out of tokens otherwise is a failure.
pub open spec fn trim_walk(depth: nat, remaining: Seq<Token>, processed: Seq<Token>) -> Option<
    Seq<Token>,
>
    decreases remaining.len(),
{
    if depth == 1 && remaining.len() == 1 && remaining[0] is Close {
        Some(processed)
    } else if remaining.len() == 0 {
        None
    } else {
        match remaining[0] {
            Token::Open => trim_walk(depth + 1, remaining.drop_first(), processed.push(Token::Open)),
            Token::Close => if depth > 0 {
                trim_walk((depth - 1) as nat, remaining.drop_first(), processed.push(Token::Close))
            } else {
                trim_walk(depth, remaining.drop_first(), processed.push(Token::Close))
            },
            t => trim_walk(depth, remaining.drop_first(), processed.push(t)),
        }
    }
}

/// What `remove_surrounding_brackets` returns for `tokens`.
pub open spec fn surrounding_brackets_removed(tokens: Seq<Token>) -> Option<Seq<Token>> {
    if tokens.len() >= 2 && tokens[0] is Open {
        trim_walk(1, split_brackets(tokens.drop_first()), Seq::empty())
    } else {
        None
    }
}

fn clone_token(t: &Token) -> (r: Token)
    ensures
        r == *t,
{
    match t {
        Token::Open => Token::Open,
        Token::Close => Token::Close,
        Token::DoubleOpen => Token::DoubleOpen,
        Token::DoubleClose => Token::DoubleClose,
        Token::Other(s) => Token::Other(s.clone()),
    }
}

fn split_brackets_exec(tokens: &Vec<Token>, from: usize) -> (r: Vec<Token>)
    requires
        from <= tokens.len(),
    ensures
        r@ == split_brackets(tokens@.skip(from as int)),
{
    let mut r: Vec<Token> = Vec::new();
    let mut k = tokens.len();
    proof {
        assert(tokens@.skip(k as int) =~= Seq::<Token>::empty());
    }
    while k > from
        invariant
            from <= k <= tokens.len(),
            r@ == split_brackets(tokens@.skip(k as int)),
        decreases k,
    {
        k = k - 1;
        let ghost rest = tokens@.skip(k as int);
        proof {
            assert(rest.drop_first() =~= tokens@.skip(k + 1));
            assert(rest[0] == tokens@[k as int]);
        }
        let mut head: Vec<Token> = Vec::new();
        match &tokens[k] {
            Token::DoubleOpen => {
                head.push(Token::Open);
                head.push(Token::Open);
            },
            Token::DoubleClose => {
                head.push(Token::Close);
                head.push(Token::Close);
            },
            t => {
                head.push(clone_token(t));
            },
        }
        head.append(&mut r);
        r = head;
        proof {
            assert(r@ =~= split_brackets(rest));
        }
    }
    r
}

/// Takes the angle brackets that surround a generic argument list off it, as in
/// `<Hello<World>>` giving `Hello < World >`. Doubled brackets count as two single ones.
/// Returns `None` when the tokens do not start with `<` or do not end where the first
/// bracket is closed.
pub fn remove_surrounding_brackets(tokens: &Vec<Token>) -> (r: Option<Vec<Token>>)
    ensures
        r matches Some(v) ==> surrounding_brackets_removed(tokens@) == Some(v@),
        r is None ==> surrounding_brackets_removed(tokens@) is None,
{
    if tokens.len() < 2 {
        return None;
    }
    match &tokens[0] {
        Token::Open => {},
        _ => {
            return None;
        },
    }
    let singles = split_brackets_exec(tokens, 1);
    proof {
        assert(tokens@.skip(1) =~= tokens@.drop_first());
    }
    let mut depth: u128 = 1;
    let mut processed: Vec<Token> = Vec::new();
    let mut k: usize = 0;
    proof {
        assert(tokens@.skip(1) =~= tokens@.drop_first());
        assert(singles@.skip(0) =~= singles@);
        assert(processed@ =~= Seq::<Token>::empty());
    }
    while k < singles.len()
        invariant
            k <= singles.len(),
            depth <= k + 1,
            surrounding_brackets_removed(tokens@) == trim_walk(1, singles@, Seq::empty()),
            trim_walk(1, singles@, Seq::empty()) == trim_walk(
                depth as nat,
                singles@.skip(k as int),
                processed@,
            ),
        decreases singles.len() - k,
    {
        let ghost rest = singles@.skip(k as int);
        proof {
            assert(rest.drop_first() =~= singles@.skip(k + 1));
            assert(rest[0] == singles@[k as int]);
        }
        let last = k + 1 == singles.len();
        proof {
            assert(rest.len() == singles@.len() - k);
        }
        match &singles[k] {
            Token::Close => {
                if depth == 1 && last {
                    proof {
                        assert(rest[0] is Close);
                        assert(trim_walk(depth as nat, rest, processed@) == Some(processed@));
                    }
                    return Some(processed);
                }
                if depth > 0 {
                    depth = depth - 1;
                }
                processed.push(Token::Close);
            },
            Token::Open => {
                depth = depth + 1;
                processed.push(Token::Open);
            },
            t => {
                processed.push(clone_token(t));
            },
        }
        k = k + 1;
    }
    proof {
        assert(singles@.skip(k as int) =~= Seq::<Token>::empty());
    }
    None
}

proof fn lemma_trim_walk_keeps_tokens(depth: nat, remaining: Seq<Token>, processed: Seq<Token>)
    ensures
        trim_walk(depth, remaining, processed) matches Some(r) ==> r.push(Token::Close)
            == processed + remaining,
    decreases remaining.len(),
{
    if depth == 1 && remaining.len() == 1 && remaining[0] is Close {
        assert(processed.push(Token::Close) =~= processed + remaining);
    } else if remaining.len() > 0 {
        let next = match remaining[0] {
            Token::Open => depth + 1,
            Token::Close => if depth > 0 {
                (depth - 1) as nat
            } else {
                depth
            },
            _ => depth,
        };
        lemma_trim_walk_keeps_tokens(next, remaining.drop_first(), processed.push(remaining[0]));
        assert(processed.push(remaining[0]) + remaining.drop_first() =~= processed + remaining);
    }
}

/// Removing the surrounding brackets loses nothing but the two brackets: the result,
/// followed by `>`, is the input after its first `<`, with doubled brackets split.
pub proof fn lemma_removed_brackets_keep_the_rest(tokens: Seq<Token>)
    ensures
        surrounding_brackets_removed(tokens) matches Some(r) ==> r.push(Token::Close)
            == split_brackets(tokens.drop_first()),
{
    if tokens.len() >= 2 && tokens[0] is Open {
        lemma_trim_walk_keeps_tokens(1, split_brackets(tokens.drop_first()), Seq::empty());
        assert(Seq::<Token>::empty() + split_brackets(tokens.drop_first()) =~= split_brackets(
            tokens.drop_first(),
        ));
    }
}


/// The text of a token.
pub open spec fn token_text(t: Token) -> Seq<char> {
    match t {
        Token::Open => seq!['<'],
        Token::Close => seq!['>'],
        Token::DoubleOpen => seq!['<', '<'],
        Token::DoubleClose => seq!['>', '>'],
        Token::Other(s) => s@,
    }
}

/// The texts of `tokens`, separated by single spaces.
pub open spec fn joined_text(tokens: Seq<Token>) -> Seq<char>
    decreases tokens.len(),
{
    if tokens.len() == 0 {
        Seq::empty()
    } else if tokens.len() == 1 {
        token_text(tokens[0])
    } else {
        joined_text(tokens.drop_last()) + seq![' '] + token_text(tokens.last())
    }
}

impl Token {
    /// The text of the token.
    pub fn text(&self) -> (s: String)
        ensures
            s@ == token_text(*self),
    {
        proof {
            reveal_strlit("<");
            reveal_strlit(">");
            reveal_strlit("<<");
            reveal_strlit(">>");
        }
        match self {
            Token::Open => String::from_str("<"),
            Token::Close => String::from_str(">"),
            Token::DoubleOpen => String::from_str("<<"),
            Token::DoubleClose => String::from_str(">>"),
            Token::Other(s) => s.clone(),
        }
    }
}

/// The texts of `tokens`, separated by single spaces, as `stringify!` writes a token
/// sequence.
pub fn join_tokens(tokens: &Vec<Token>) -> (s: String)
    ensures
        s@ == joined_text(tokens@),
{
    let mut s = String::new();
    let mut k: usize = 0;
    proof {
        reveal_strlit(" ");
    }
    while k < tokens.len()
        invariant
            k <= tokens.len(),
            s@ == joined_text(tokens@.take(k as int)),
        decreases tokens.len() - k,
    {
        proof {
            assert(tokens@.take(k + 1).drop_last() =~= tokens@.take(k as int));
            assert(tokens@.take(k + 1).last() == tokens@[k as int]);
        }
        let ghost before = s@;
        proof {
            reveal_strlit(" ");
        }
        if k > 0 {
            s.append(" ");
        }
        let text = tokens[k].text();
        s.append(text.as_str());
        proof {
            if k == 0 {
                assert(before =~= Seq::<char>::empty());
                assert(s@ =~= token_text(tokens@[0]));
            } else {
                assert(s@ =~= before + seq![' '] + token_text(tokens@[k as int]));
            }
        }
        k = k + 1;
    }
    proof {
        assert(tokens@.take(k as int) =~= tokens@);
    }
    s
}

/// Removing from a collection the items that a predicate picks, and handing them back.
pub trait RemoveIf<T, C>: Sized {
    /// Whether the collection behaves as its specification says for items of type `T`.
    spec fn follows_model() -> bool;

    fn remove_if<F: Fn(&T) -> bool>(&mut self, f: F) -> (removed: C)
        requires
            Self::follows_model(),
            forall|x: &T| #[trigger] f.requires((x,)),
    ;
}

impl<T: Eq + Copy + Hash> RemoveIf<T, HashSet<T>> for HashSet<T> {
    open spec fn follows_model() -> bool {
        obeys_key_model::<T>()
    }

    /// Removes the items for which `f` answers `true` and returns them; the items for
    /// which it answers `false` stay.
    fn remove_if<F: Fn(&T) -> bool>(&mut self, f: F) -> (removed: HashSet<T>)
        ensures
            removed@.union(final(self)@) == old(self)@,
            removed@.disjoint(final(self)@),
            forall|x: T| #[trigger] removed@.contains(x) ==> f.ensures((&x,), true),
            forall|x: T| #[trigger] final(self)@.contains(x) ==> f.ensures((&x,), false),
    {
        broadcast use vstd::std_specs::hash::group_hash_axioms;

        let ghost initial = self@;
        let mut removed: HashSet<T> = HashSet::new();
        let ghost mut done: Set<T> = Set::empty();
        for value in it: self.iter()
            invariant
                self@ == initial,
                done <= initial,
                forall|x: T| #[trigger] done.contains(x) ==> removed@.contains(x) || f.ensures(
                    (&x,),
                    false,
                ),
                forall|x: T| #[trigger]
                    initial.contains(x) ==> done.contains(x) || exists|i: int|
                        it.index() <= i < it.seq().len() && *it.seq()[i] == x,
                obeys_key_model::<T>(),
                forall|x: &T| #[trigger] f.requires((x,)),
                it.seq().unref().to_set() == initial,
                forall|x: T| #[trigger] removed@.contains(x) ==> initial.contains(x) && f.ensures(
                    (&x,),
                    true,
                ),
        {
            if f(value) {
                removed.insert(*value);
            }
            proof {
                done = done.insert(*value);
            }
        }
        assert(initial <= done);
        let ghost chosen = removed@;
        let ghost mut gone: Set<T> = Set::empty();
        for value in rit: removed.iter()
            invariant
                obeys_key_model::<T>(),
                chosen == removed@,
                rit.seq().unref().to_set() == chosen,
                gone <= chosen,
                self@ == initial.difference(gone),
                forall|x: T| #[trigger]
                    chosen.contains(x) ==> gone.contains(x) || exists|i: int|
                        rit.index() <= i < rit.seq().len() && *rit.seq()[i] == x,
        {
            self.remove(value);
            proof {
                gone = gone.insert(*value);
                assert(self@ =~= initial.difference(gone));
            }
        }
        assert(chosen <= gone);
        assert(removed@.union(self@) =~= initial);
        assert(removed@.disjoint(self@));
        removed
    }
}

} // verus!
