//! What holds of every pipeline: a chunked fold gives what one synchronous
//! pass over the same items gives.
//!
//! The terminal operations promise an outcome of the relations `completes`
//! and `folds`. The laws here say what those relations come to where the
//! operations compute mathematical functions: the pipeline then stands for
//! one sequence, built by `Seq::map_values` and `Seq::filter`, and the fold
//! for `Seq::fold_left` over it.
use crate::filter::Filter;
use crate::folder::{BasicFolder, Folder};
use crate::iterator::{
    completes, folds, lemma_completes_with, lemma_folds_with, produces, Pipeline,
};
use crate::map::Mapped;
use crate::relation::{
    computes_fold, computes_map, computes_pred, filters_to, fold_reaches,
    lemma_filters_to_computed, lemma_fold_reaches_computed, lemma_maps_to_computed, maps_to,
};
use crate::source::Iter;
use vstd::prelude::*;

verus! {

/// Folding a pipeline into a basic folder is a left fold over what the
/// pipeline produces: the two relations name the same outcomes.
pub proof fn law_basic_folder_folds<I, T, B, F>(source: I, init: B, op: F, out: B) where
    I: Pipeline<Item = T>,
    F: Fn(B, T) -> B,

    ensures
        completes(source, BasicFolder { init, op }, out) <==> folds(source, init, op, out),
{
    let folder = BasicFolder { init, op };
    if completes(source, folder, out) {
        let (items, end) = choose|items: Seq<T>, end: BasicFolder<B, F>|
            #![trigger source.yields(items), folder.folds_to(items, end)]
            source.yields(items) && folder.folds_to(items, end) && end.result() == out;
        lemma_folds_with(source, init, op, items, out);
    }
    if folds(source, init, op, out) {
        let items = choose|items: Seq<T>| #[trigger]
            source.yields(items) && fold_reaches(op, init, items, out);
        let end = BasicFolder { init: out, op };
        assert(folder.folds_to(items, end));
        lemma_completes_with(source, folder, items, end);
    }
}

/// Equivalence: a chunked fold of a slice with an operation that computes `f`
/// ends with the left fold by `f` over the whole slice. The chunk size does
/// not occur: the law holds of every outcome of `folds`, which is what the
/// fold promises for each chunk size.
pub proof fn law_fold_equivalence<'a, T, B, F>(
    source: Iter<'a, T>,
    init: B,
    op: F,
    f: spec_fn(B, &'a T) -> B,
    out: B,
) where F: Fn(B, &'a T) -> B
    requires
        computes_fold(op, f),
        folds(source, init, op, out),
    ensures
        out == source@.as_ref().fold_left(init, f),
{
    let items = choose|items: Seq<&'a T>| #[trigger]
        source.yields(items) && fold_reaches(op, init, items, out);
    lemma_fold_reaches_computed(op, f, init, items, out);
}

/// An empty slice folds to the initial value, whatever the operation.
pub proof fn law_empty_source<'a, T, B, F>(source: Iter<'a, T>, init: B, op: F, out: B) where
    F: Fn(B, &'a T) -> B,

    requires
        source@.len() == 0,
        folds(source, init, op, out),
    ensures
        out == init,
{
    let items = choose|items: Seq<&'a T>| #[trigger]
        source.yields(items) && fold_reaches(op, init, items, out);
    assert(items.len() == 0);
}

/// A mapped pipeline whose operation computes `f` produces what the pipeline
/// underneath produces, mapped by `f`.
pub proof fn law_map_values<T, R, I, O>(base: I, op: O, f: spec_fn(T) -> R, items: Seq<R>) where
    I: Pipeline<Item = T>,
    O: Fn(T) -> R,

    requires
        computes_map(op, f),
        produces(Mapped { base, op }, items),
    ensures
        exists|inner: Seq<T>| #[trigger] produces(base, inner) && items == inner.map_values(f),
{
    let inner = choose|inner: Seq<T>| #[trigger]
        base.yields(inner) && maps_to(op, inner, items);
    lemma_maps_to_computed(op, f, inner, items);
    assert(produces(base, inner));
}

/// Order preservation: a filtered pipeline whose predicate computes `f`
/// produces exactly the items of the pipeline underneath that satisfy `f`,
/// in the order in which that pipeline produces them.
pub proof fn law_filter_order<T, I, P>(
    base: I,
    pred: P,
    f: spec_fn(T) -> bool,
    items: Seq<T>,
) where I: Pipeline<Item = T>, P: Fn(&T) -> bool
    requires
        computes_pred(pred, f),
        produces(Filter { base, pred }, items),
    ensures
        exists|inner: Seq<T>| #[trigger] produces(base, inner) && items == inner.filter(f),
{
    let inner = choose|inner: Seq<T>| #[trigger]
        base.yields(inner) && filters_to(pred, inner, items);
    lemma_filters_to_computed(pred, f, inner, items);
    assert(produces(base, inner));
}

/// Order preservation over a slice: what a filter on a slice collects is the
/// slice filtered by `f`.
pub proof fn law_filter_collect<'a, T, P>(
    source: Iter<'a, T>,
    pred: P,
    f: spec_fn(&'a T) -> bool,
    items: Seq<&'a T>,
) where P: Fn(&&'a T) -> bool
    requires
        computes_pred(pred, f),
        produces(Filter { base: source, pred }, items),
    ensures
        items == source@.as_ref().filter(f),
{
    law_filter_order(source, pred, f, items);
}

/// Fusion equivalence: mapping a slice, filtering what comes out and folding
/// what is kept, all in one chunked pass, ends with what mapping the whole
/// slice, then filtering the whole result, then folding it, ends with.
pub proof fn law_fusion_equivalence<'a, T, R, B, O, P, G>(
    source: Iter<'a, T>,
    op: O,
    pred: P,
    fold_op: G,
    map_fn: spec_fn(&'a T) -> R,
    pred_fn: spec_fn(R) -> bool,
    fold_fn: spec_fn(B, R) -> B,
    init: B,
    out: B,
) where O: Fn(&'a T) -> R, P: Fn(&R) -> bool, G: Fn(B, R) -> B
    requires
        computes_map(op, map_fn),
        computes_pred(pred, pred_fn),
        computes_fold(fold_op, fold_fn),
        folds(Filter { base: Mapped { base: source, op }, pred }, init, fold_op, out),
    ensures
        out == source@.as_ref().map_values(map_fn).filter(pred_fn).fold_left(init, fold_fn),
{
    let mapped = Mapped { base: source, op };
    let chain = Filter { base: mapped, pred };
    let kept = choose|kept: Seq<R>| #[trigger]
        chain.yields(kept) && fold_reaches(fold_op, init, kept, out);
    law_filter_order(mapped, pred, pred_fn, kept);
    let values = choose|values: Seq<R>| #[trigger]
        mapped.yields(values) && kept == values.filter(pred_fn);
    law_map_values(source, op, map_fn, values);
    lemma_fold_reaches_computed(fold_op, fold_fn, init, kept, out);
}

/// Chunk-size invariance: where every operation of the pipeline and of the
/// folder is deterministic, the fold has one result. Each chunk size gives an
/// outcome of `completes`, so every chunk size gives that result.
pub proof fn law_chunk_size_invariance<I, T, B, F>(source: I, folder: F, first: B, second: B) where
    I: Pipeline<Item = T>,
    F: Folder<T, B = B>,

    requires
        source.deterministic(),
        folder.deterministic(),
        completes(source, folder, first),
        completes(source, folder, second),
    ensures
        first == second,
{
    let (items_a, end_a) = choose|items: Seq<T>, end: F|
        #![trigger source.yields(items), folder.folds_to(items, end)]
        source.yields(items) && folder.folds_to(items, end) && end.result() == first;
    let (items_b, end_b) = choose|items: Seq<T>, end: F|
        #![trigger source.yields(items), folder.folds_to(items, end)]
        source.yields(items) && folder.folds_to(items, end) && end.result() == second;
    source.lemma_yields_unique(items_a, items_b);
    folder.lemma_result_unique(items_a, end_a, end_b);
}

} // verus!
