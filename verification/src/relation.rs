//! What a left fold, a map and a filter may produce from a sequence.
//!
//! The operations handed to a pipeline are executable closures, so all that is
//! known of one call is its postcondition. Each function here lifts that
//! postcondition from one item to a whole sequence. For an operation that
//! computes a mathematical function the relations collapse to `Seq::fold_left`,
//! `Seq::map_values` and `Seq::filter`.
use vstd::prelude::*;

verus! {

/// `out` is an accumulator that folding `items` left to right with `op`,
/// starting from `init`, may end with.
pub open spec fn fold_reaches<B, T, F: Fn(B, T) -> B>(
    op: F,
    init: B,
    items: Seq<T>,
    out: B,
) -> bool
    decreases items.len(),
{
    if items.len() == 0 {
        out == init
    } else {
        exists|mid: B|
            fold_reaches(op, init, items.drop_last(), mid) && #[trigger] call_ensures(
                op,
                (mid, items.last()),
                out,
            )
    }
}

/// `out` holds, position by position, a value that `op` may return for the
/// item of `items` at that position.
pub open spec fn maps_to<T, R, O: Fn(T) -> R>(op: O, items: Seq<T>, out: Seq<R>) -> bool {
    &&& out.len() == items.len()
    &&& forall|k: int| 0 <= k < items.len() ==> call_ensures(op, (items[k],), #[trigger] out[k])
}

/// `kept` holds, in the order in which they stand in `items`, the items for
/// which one call of `pred` may have answered `true`, every other item being
/// one for which it may have answered `false`.
pub open spec fn filters_to<T, P: Fn(&T) -> bool>(pred: P, items: Seq<T>, kept: Seq<T>) -> bool
    decreases items.len(),
{
    if items.len() == 0 {
        kept.len() == 0
    } else {
        ||| {
            &&& call_ensures(pred, (&items.last(),), true)
            &&& kept.len() > 0
            &&& kept.last() == items.last()
            &&& filters_to(pred, items.drop_last(), kept.drop_last())
        }
        ||| {
            &&& call_ensures(pred, (&items.last(),), false)
            &&& filters_to(pred, items.drop_last(), kept)
        }
    }
}

/// Every result that `op` may return is the value of `f`.
pub open spec fn computes_fold<B, T, F: Fn(B, T) -> B>(op: F, f: spec_fn(B, T) -> B) -> bool {
    forall|acc: B, item: T, out: B| #[trigger]
        call_ensures(op, (acc, item), out) ==> out == f(acc, item)
}

/// Every result that `op` may return is the value of `f`.
pub open spec fn computes_map<T, R, O: Fn(T) -> R>(op: O, f: spec_fn(T) -> R) -> bool {
    forall|item: T, out: R| #[trigger] call_ensures(op, (item,), out) ==> out == f(item)
}

/// Every answer that `pred` may give is the value of `f`.
pub open spec fn computes_pred<T, P: Fn(&T) -> bool>(pred: P, f: spec_fn(T) -> bool) -> bool {
    forall|item: T, keep: bool| #[trigger] call_ensures(pred, (&item,), keep) ==> keep == f(item)
}

/// Two calls of `op` on the same arguments return the same value.
pub open spec fn deterministic_fold<B, T, F: Fn(B, T) -> B>(op: F) -> bool {
    forall|acc: B, item: T, a: B, b: B|
        #[trigger] call_ensures(op, (acc, item), a) && #[trigger] call_ensures(op, (acc, item), b)
            ==> a == b
}

/// Two calls of `op` on the same item return the same value.
pub open spec fn deterministic_map<T, R, O: Fn(T) -> R>(op: O) -> bool {
    forall|item: T, a: R, b: R|
        #[trigger] call_ensures(op, (item,), a) && #[trigger] call_ensures(op, (item,), b) ==> a
            == b
}

/// Two calls of `pred` on the same item give the same answer.
pub open spec fn deterministic_pred<T, P: Fn(&T) -> bool>(pred: P) -> bool {
    forall|item: T| !(#[trigger] call_ensures(pred, (&item,), true) && call_ensures(
        pred,
        (&item,),
        false,
    ))
}

/// Folding nothing leaves the accumulator as it was.
pub proof fn lemma_fold_reaches_empty<B, T, F: Fn(B, T) -> B>(op: F, init: B)
    ensures
        fold_reaches(op, init, Seq::<T>::empty(), init),
{
}

/// One more call of `op` extends a fold by one item.
pub proof fn lemma_fold_reaches_push<B, T, F: Fn(B, T) -> B>(
    op: F,
    init: B,
    items: Seq<T>,
    mid: B,
    item: T,
    out: B,
)
    requires
        fold_reaches(op, init, items, mid),
        call_ensures(op, (mid, item), out),
    ensures
        fold_reaches(op, init, items.push(item), out),
{
    let longer = items.push(item);
    assert(longer.drop_last() =~= items);
    assert(call_ensures(op, (mid, longer.last()), out));
}

/// Folding one run of items and then another is folding their concatenation.
pub proof fn lemma_fold_reaches_concat<B, T, F: Fn(B, T) -> B>(
    op: F,
    init: B,
    first: Seq<T>,
    mid: B,
    second: Seq<T>,
    out: B,
)
    requires
        fold_reaches(op, init, first, mid),
        fold_reaches(op, mid, second, out),
    ensures
        fold_reaches(op, init, first + second, out),
    decreases second.len(),
{
    if second.len() == 0 {
        assert(first + second =~= first);
    } else {
        let before = choose|before: B|
            fold_reaches(op, mid, second.drop_last(), before) && #[trigger] call_ensures(
                op,
                (before, second.last()),
                out,
            );
        lemma_fold_reaches_concat(op, init, first, mid, second.drop_last(), before);
        lemma_fold_reaches_push(op, init, first + second.drop_last(), before, second.last(), out);
        assert((first + second.drop_last()).push(second.last()) =~= first + second);
    }
}

/// A fold with an operation that computes `f` ends with `Seq::fold_left` by `f`.
pub proof fn lemma_fold_reaches_computed<B, T, F: Fn(B, T) -> B>(
    op: F,
    f: spec_fn(B, T) -> B,
    init: B,
    items: Seq<T>,
    out: B,
)
    requires
        computes_fold(op, f),
        fold_reaches(op, init, items, out),
    ensures
        out == items.fold_left(init, f),
    decreases items.len(),
{
    if items.len() > 0 {
        let mid = choose|mid: B|
            fold_reaches(op, init, items.drop_last(), mid) && #[trigger] call_ensures(
                op,
                (mid, items.last()),
                out,
            );
        lemma_fold_reaches_computed(op, f, init, items.drop_last(), mid);
    }
}

/// A fold with a deterministic operation has one outcome.
pub proof fn lemma_fold_reaches_unique<B, T, F: Fn(B, T) -> B>(
    op: F,
    init: B,
    items: Seq<T>,
    a: B,
    b: B,
)
    requires
        deterministic_fold::<B, T, F>(op),
        fold_reaches(op, init, items, a),
        fold_reaches(op, init, items, b),
    ensures
        a == b,
    decreases items.len(),
{
    if items.len() > 0 {
        let mid_a = choose|mid: B|
            fold_reaches(op, init, items.drop_last(), mid) && #[trigger] call_ensures(
                op,
                (mid, items.last()),
                a,
            );
        let mid_b = choose|mid: B|
            fold_reaches(op, init, items.drop_last(), mid) && #[trigger] call_ensures(
                op,
                (mid, items.last()),
                b,
            );
        lemma_fold_reaches_unique(op, init, items.drop_last(), mid_a, mid_b);
    }
}

/// A fold whose operation appends each item to a vector ends with the
/// vector it started from and then the items, in order.
pub proof fn lemma_fold_reaches_appended<T, F: Fn(Vec<T>, T) -> Vec<T>>(
    op: F,
    init: Vec<T>,
    items: Seq<T>,
    out: Vec<T>,
)
    requires
        forall|before: Vec<T>, item: T, after: Vec<T>| #[trigger]
            call_ensures(op, (before, item), after) ==> after@ == before@.push(item),
        fold_reaches(op, init, items, out),
    ensures
        out@ == init@ + items,
    decreases items.len(),
{
    if items.len() == 0 {
        assert(out@ =~= init@ + items);
    } else {
        let mid = choose|mid: Vec<T>|
            fold_reaches(op, init, items.drop_last(), mid) && #[trigger] call_ensures(
                op,
                (mid, items.last()),
                out,
            );
        lemma_fold_reaches_appended(op, init, items.drop_last(), mid);
        assert(out@ =~= init@ + items);
    }
}

/// Mapping nothing gives nothing.
pub proof fn lemma_maps_to_empty<T, R, O: Fn(T) -> R>(op: O)
    ensures
        maps_to(op, Seq::<T>::empty(), Seq::<R>::empty()),
{
}

/// One more call of `op` extends a mapping by one item.
pub proof fn lemma_maps_to_push<T, R, O: Fn(T) -> R>(
    op: O,
    items: Seq<T>,
    out: Seq<R>,
    item: T,
    mapped: R,
)
    requires
        maps_to(op, items, out),
        call_ensures(op, (item,), mapped),
    ensures
        maps_to(op, items.push(item), out.push(mapped)),
{
    let longer = items.push(item);
    let longer_out = out.push(mapped);
    assert forall|k: int| 0 <= k < longer.len() implies call_ensures(
        op,
        (longer[k],),
        #[trigger] longer_out[k],
    ) by {
        if k < items.len() {
            assert(longer[k] == items[k]);
            assert(longer_out[k] == out[k]);
        }
    }
}

/// Mapping one run of items and then another is mapping their concatenation.
pub proof fn lemma_maps_to_concat<T, R, O: Fn(T) -> R>(
    op: O,
    first: Seq<T>,
    first_out: Seq<R>,
    second: Seq<T>,
    second_out: Seq<R>,
)
    requires
        maps_to(op, first, first_out),
        maps_to(op, second, second_out),
    ensures
        maps_to(op, first + second, first_out + second_out),
{
    let items = first + second;
    let out = first_out + second_out;
    assert forall|k: int| 0 <= k < items.len() implies call_ensures(
        op,
        (items[k],),
        #[trigger] out[k],
    ) by {
        if k < first.len() {
            assert(call_ensures(op, (first[k],), first_out[k]));
        } else {
            let j = k - first.len();
            assert(call_ensures(op, (second[j],), second_out[j]));
        }
    }
}

/// A mapping with an operation that computes `f` is `Seq::map_values` by `f`.
pub proof fn lemma_maps_to_computed<T, R, O: Fn(T) -> R>(
    op: O,
    f: spec_fn(T) -> R,
    items: Seq<T>,
    out: Seq<R>,
)
    requires
        computes_map(op, f),
        maps_to(op, items, out),
    ensures
        out == items.map_values(f),
{
    assert forall|k: int| 0 <= k < out.len() implies out[k] == items.map_values(f)[k] by {
        assert(call_ensures(op, (items[k],), out[k]));
    }
    assert(out =~= items.map_values(f));
}

/// A mapping with a deterministic operation has one outcome.
pub proof fn lemma_maps_to_unique<T, R, O: Fn(T) -> R>(op: O, items: Seq<T>, a: Seq<R>, b: Seq<R>)
    requires
        deterministic_map::<T, R, O>(op),
        maps_to(op, items, a),
        maps_to(op, items, b),
    ensures
        a == b,
{
    assert forall|k: int| 0 <= k < a.len() implies a[k] == b[k] by {
        assert(call_ensures(op, (items[k],), a[k]));
        assert(call_ensures(op, (items[k],), b[k]));
    }
    assert(a =~= b);
}

/// Filtering nothing keeps nothing.
pub proof fn lemma_filters_to_empty<T, P: Fn(&T) -> bool>(pred: P)
    ensures
        filters_to(pred, Seq::<T>::empty(), Seq::<T>::empty()),
{
}

/// One more call of `pred` extends a filtering by one item: the item is kept
/// exactly where the answer was `true`.
pub proof fn lemma_filters_to_push<T, P: Fn(&T) -> bool>(
    pred: P,
    items: Seq<T>,
    kept: Seq<T>,
    item: T,
    keep: bool,
)
    requires
        filters_to(pred, items, kept),
        call_ensures(pred, (&item,), keep),
    ensures
        filters_to(
            pred,
            items.push(item),
            if keep {
                kept.push(item)
            } else {
                kept
            },
        ),
{
    let longer = items.push(item);
    assert(longer.drop_last() =~= items);
    assert(longer.last() == item);
    if keep {
        assert(kept.push(item).drop_last() =~= kept);
    }
}

/// Filtering one run of items and then another is filtering their
/// concatenation.
pub proof fn lemma_filters_to_concat<T, P: Fn(&T) -> bool>(
    pred: P,
    first: Seq<T>,
    first_kept: Seq<T>,
    second: Seq<T>,
    second_kept: Seq<T>,
)
    requires
        filters_to(pred, first, first_kept),
        filters_to(pred, second, second_kept),
    ensures
        filters_to(pred, first + second, first_kept + second_kept),
    decreases second.len(),
{
    let items = first + second;
    let kept = first_kept + second_kept;
    if second.len() == 0 {
        assert(items =~= first);
        assert(kept =~= first_kept);
    } else {
        assert(items.drop_last() =~= first + second.drop_last());
        assert(items.last() == second.last());
        if call_ensures(pred, (&second.last(),), true) && second_kept.len() > 0
            && second_kept.last() == second.last() && filters_to(
            pred,
            second.drop_last(),
            second_kept.drop_last(),
        ) {
            lemma_filters_to_concat(
                pred,
                first,
                first_kept,
                second.drop_last(),
                second_kept.drop_last(),
            );
            assert(kept.drop_last() =~= first_kept + second_kept.drop_last());
            assert(kept.last() == second_kept.last());
        } else {
            lemma_filters_to_concat(pred, first, first_kept, second.drop_last(), second_kept);
        }
    }
}

/// A filtering with a predicate that computes `f` is `Seq::filter` by `f`.
pub proof fn lemma_filters_to_computed<T, P: Fn(&T) -> bool>(
    pred: P,
    f: spec_fn(T) -> bool,
    items: Seq<T>,
    kept: Seq<T>,
)
    requires
        computes_pred(pred, f),
        filters_to(pred, items, kept),
    ensures
        kept == items.filter(f),
    decreases items.len(),
{
    reveal(Seq::filter);
    if items.len() == 0 {
        assert(kept =~= items.filter(f));
    } else if call_ensures(pred, (&items.last(),), true) && kept.len() > 0 && kept.last()
        == items.last() && filters_to(pred, items.drop_last(), kept.drop_last()) {
        lemma_filters_to_computed(pred, f, items.drop_last(), kept.drop_last());
        assert(kept =~= kept.drop_last().push(kept.last()));
    } else {
        lemma_filters_to_computed(pred, f, items.drop_last(), kept);
    }
}

/// A filtering with a deterministic predicate has one outcome.
pub proof fn lemma_filters_to_unique<T, P: Fn(&T) -> bool>(
    pred: P,
    items: Seq<T>,
    a: Seq<T>,
    b: Seq<T>,
)
    requires
        deterministic_pred::<T, P>(pred),
        filters_to(pred, items, a),
        filters_to(pred, items, b),
    ensures
        a == b,
    decreases items.len(),
{
    if items.len() == 0 {
        assert(a =~= b);
    } else if call_ensures(pred, (&items.last(),), true) {
        lemma_filters_to_unique(pred, items.drop_last(), a.drop_last(), b.drop_last());
        assert(a =~= a.drop_last().push(a.last()));
        assert(b =~= b.drop_last().push(b.last()));
    } else {
        lemma_filters_to_unique(pred, items.drop_last(), a, b);
    }
}

} // verus!
