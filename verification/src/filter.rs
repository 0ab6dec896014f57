//! The filtering adapter: the pipeline node and the folder that it wraps round
//! the folder it is given.
use crate::folder::Folder;
use crate::iterator::{completes, lemma_completes_with, AsyncIterator, Pipeline, Step};
use crate::relation::{
    deterministic_pred, filters_to, lemma_filters_to_concat, lemma_filters_to_empty,
    lemma_filters_to_push, lemma_filters_to_unique,
};
use vstd::prelude::*;
use vstd::std_specs::iter::IteratorSpec;

verus! {

/// A pipeline whose items are those of `base` that satisfy `pred`, in the
/// order in which `base` produces them.
pub struct Filter<I, P> {
    /// The pipeline underneath.
    pub base: I,
    /// The filtering predicate.
    pub pred: P,
}

/// A folder that shows each item to `pred` and feeds those that satisfy it to
/// `folder`.
pub struct FilterFolder<F, P> {
    /// The folder underneath.
    pub folder: F,
    /// The filtering predicate.
    pub pred: P,
}

impl<Item, F, P> Folder<Item> for FilterFolder<F, P> where F: Folder<Item>, P: Fn(&Item) -> bool {
    type B = F::B;

    open spec fn total(&self) -> bool {
        &&& self.folder.total()
        &&& forall|item: Item| call_requires(self.pred, (&item,))
    }

    open spec fn deterministic(&self) -> bool {
        &&& self.folder.deterministic()
        &&& deterministic_pred::<Item, P>(self.pred)
    }

    open spec fn folds_to(&self, items: Seq<Item>, after: Self) -> bool {
        &&& after.pred == self.pred
        &&& exists|kept: Seq<Item>|
            filters_to(self.pred, items, kept) && #[trigger] self.folder.folds_to(
                kept,
                after.folder,
            )
    }

    open spec fn result(&self) -> F::B {
        self.folder.result()
    }

    proof fn lemma_folds_nothing(&self) {
        self.folder.lemma_folds_nothing();
        lemma_filters_to_empty::<Item, P>(self.pred);
    }

    proof fn lemma_folds_concat(
        &self,
        first: Seq<Item>,
        mid: Self,
        second: Seq<Item>,
        end: Self,
    ) {
        let head = choose|kept: Seq<Item>|
            filters_to(self.pred, first, kept) && #[trigger] self.folder.folds_to(
                kept,
                mid.folder,
            );
        let tail = choose|kept: Seq<Item>|
            filters_to(mid.pred, second, kept) && #[trigger] mid.folder.folds_to(
                kept,
                end.folder,
            );
        self.folder.lemma_folds_concat(head, mid.folder, tail, end.folder);
        lemma_filters_to_concat(self.pred, first, head, second, tail);
    }

    proof fn lemma_result_unique(&self, items: Seq<Item>, a: Self, b: Self) {
        let kept_a = choose|kept: Seq<Item>|
            filters_to(self.pred, items, kept) && #[trigger] self.folder.folds_to(kept, a.folder);
        let kept_b = choose|kept: Seq<Item>|
            filters_to(self.pred, items, kept) && #[trigger] self.folder.folds_to(kept, b.folder);
        lemma_filters_to_unique(self.pred, items, kept_a, kept_b);
        self.folder.lemma_result_unique(kept_a, a.folder, b.folder);
    }

    /// Shows `item` to the predicate, by reference, and feeds it to the folder
    /// underneath if the predicate holds of it.
    fn feed(self, item: Item) -> (after: Self) {
        let FilterFolder { folder, pred } = self;
        let keep = pred(&item);
        proof {
            lemma_filters_to_empty::<Item, P>(pred);
            lemma_filters_to_push(pred, Seq::empty(), Seq::empty(), item, keep);
            assert(Seq::<Item>::empty().push(item) =~= seq![item]);
        }
        if keep {
            let inner = folder.feed(item);
            FilterFolder { folder: inner, pred }
        } else {
            proof {
                folder.lemma_folds_nothing();
            }
            FilterFolder { folder, pred }
        }
    }

    /// Shows each item of the batch to the predicate as it is drawn, by
    /// reference, and feeds those of which it holds to the folder underneath.
    /// No filtered batch is built and no item is cloned.
    fn fold<I: Iterator<Item = Item>>(self, chunk: I) -> (after: Self) {
        let FilterFolder { folder, pred } = self;
        let mut inner = folder;
        let mut rest = chunk;
        let ghost mut done: Seq<Item> = Seq::empty();
        let ghost mut kept: Seq<Item> = Seq::empty();
        proof {
            folder.lemma_folds_nothing();
            lemma_filters_to_empty::<Item, P>(pred);
        }
        loop
            invariant
                rest.obeys_prophetic_iter_laws(),
                rest.decrease() is Some,
                inner.total(),
                forall|item: Item| call_requires(pred, (&item,)),
                chunk.remaining() == done + rest.remaining(),
                filters_to(pred, done, kept),
                folder.folds_to(kept, inner),
            ensures
                chunk.remaining() == done,
            decreases rest.decrease()->0,
        {
            match rest.next() {
                Some(item) => {
                    let keep = pred(&item);
                    proof {
                        lemma_filters_to_push(pred, done, kept, item, keep);
                        done = done.push(item);
                    }
                    if keep {
                        let ghost before = inner;
                        inner = inner.feed(item);
                        proof {
                            folder.lemma_folds_concat(kept, before, seq![item], inner);
                            assert(kept + seq![item] =~= kept.push(item));
                            kept = kept.push(item);
                        }
                    }
                },
                None => {
                    break ;
                },
            }
        }
        FilterFolder { folder: inner, pred }
    }

    /// Hands out the result of the folder underneath.
    fn into_result(self) -> (out: F::B) {
        self.folder.into_result()
    }
}

/// What a filtering folder stands for, spelled out over its two fields.
pub proof fn lemma_filter_folder_model<Item, F, P>(folder: FilterFolder<F, P>) where
    F: Folder<Item>,
    P: Fn(&Item) -> bool,

    ensures
        folder.total() <==> folder.folder.total() && forall|item: Item|
            call_requires(folder.pred, (&item,)),
        folder.deterministic() <==> folder.folder.deterministic() && deterministic_pred::<Item, P>(
            folder.pred,
        ),
        folder.result() == folder.folder.result(),
        forall|items: Seq<Item>, after: FilterFolder<F, P>| #[trigger]
            folder.folds_to(items, after) <==> after.pred == folder.pred && exists|
                kept: Seq<Item>,
            |
                filters_to(folder.pred, items, kept) && #[trigger] folder.folder.folds_to(
                    kept,
                    after.folder,
                ),
{
}

/// What a filtered pipeline stands for, spelled out over its two fields.
pub proof fn lemma_filter_model<T, I, P>(node: Filter<I, P>) where
    I: Pipeline<Item = T>,
    P: Fn(&T) -> bool,

    ensures
        node.total() <==> node.base.total() && forall|item: T|
            call_requires(node.pred, (&item,)),
        node.deterministic() <==> node.base.deterministic() && deterministic_pred::<T, P>(
            node.pred,
        ),
        node.pending() == node.base.pending(),
        forall|items: Seq<T>| #[trigger]
            node.yields(items) <==> exists|inner: Seq<T>| #[trigger]
                node.base.yields(inner) && filters_to(node.pred, inner, items),
{
}

/// Fusion of a filter: folding a filtered pipeline into a folder gives what
/// folding the pipeline underneath into that folder, wrapped with the same
/// predicate, gives.
pub proof fn lemma_filter_fusion<T, B, I, P, F>(base: I, pred: P, folder: F, out: B) where
    I: Pipeline<Item = T>,
    P: Fn(&T) -> bool,
    F: Folder<T, B = B>,

    ensures
        completes(Filter { base, pred }, folder, out) <==> completes(
            base,
            FilterFolder { folder, pred },
            out,
        ),
{
    let node = Filter { base, pred };
    let wrapped = FilterFolder { folder, pred };
    if completes(node, folder, out) {
        let (items, end) = choose|items: Seq<T>, end: F|
            #![trigger node.yields(items), folder.folds_to(items, end)]
            node.yields(items) && folder.folds_to(items, end) && end.result() == out;
        let inner = choose|inner: Seq<T>| #[trigger]
            base.yields(inner) && filters_to(pred, inner, items);
        let wrapped_end = FilterFolder { folder: end, pred };
        assert(wrapped.folder.folds_to(items, wrapped_end.folder));
        lemma_completes_with(base, wrapped, inner, wrapped_end);
    }
    if completes(base, wrapped, out) {
        let (inner, wrapped_end) = choose|inner: Seq<T>, wrapped_end: FilterFolder<F, P>|
            #![trigger base.yields(inner), wrapped.folds_to(inner, wrapped_end)]
            base.yields(inner) && wrapped.folds_to(inner, wrapped_end) && wrapped_end.result()
                == out;
        let items = choose|items: Seq<T>|
            filters_to(pred, inner, items) && #[trigger] folder.folds_to(
                items,
                wrapped_end.folder,
            );
        assert(node.base.yields(inner) && filters_to(node.pred, inner, items));
        lemma_completes_with(node, folder, items, wrapped_end.folder);
    }
}

impl<I, P> Pipeline for Filter<I, P> where I: Pipeline, P: Fn(&I::Item) -> bool {
    type Item = I::Item;

    open spec fn total(&self) -> bool {
        &&& self.base.total()
        &&& forall|item: I::Item| call_requires(self.pred, (&item,))
    }

    open spec fn deterministic(&self) -> bool {
        &&& self.base.deterministic()
        &&& deterministic_pred::<I::Item, P>(self.pred)
    }

    open spec fn yields(&self, items: Seq<I::Item>) -> bool {
        exists|inner: Seq<I::Item>| #[trigger]
            self.base.yields(inner) && filters_to(self.pred, inner, items)
    }

    open spec fn pending(&self) -> nat {
        self.base.pending()
    }

    proof fn lemma_yields_unique(&self, a: Seq<I::Item>, b: Seq<I::Item>) {
        let inner_a = choose|inner: Seq<I::Item>| #[trigger]
            self.base.yields(inner) && filters_to(self.pred, inner, a);
        let inner_b = choose|inner: Seq<I::Item>| #[trigger]
            self.base.yields(inner) && filters_to(self.pred, inner, b);
        self.base.lemma_yields_unique(inner_a, inner_b);
        lemma_filters_to_unique(self.pred, inner_a, a, b);
    }
}

impl<I, P> AsyncIterator for Filter<I, P> where I: AsyncIterator, P: Fn(&I::Item) -> bool {
    /// Wraps `folder` with the predicate and hands the chunk down to the
    /// pipeline underneath; what comes back is unwrapped again.
    fn fold_chunk<B, F: Folder<I::Item, B = B>>(self, folder: F, chunk_size: usize) -> (step:
        Step<Self, F, B>)
        ensures
            step matches Step::Yield(rest, _) ==> rest.pred == self.pred,
    {
        let Filter { base, pred } = self;
        match base.fold_chunk(FilterFolder { folder, pred }, chunk_size) {
            Step::Done(out) => {
                proof {
                    lemma_filter_fusion(base, pred, folder, out);
                }
                Step::Done(out)
            },
            Step::Yield(rest, partial) => {
                proof {
                    let chunk = choose|chunk: Seq<I::Item>| #[trigger]
                        (FilterFolder { folder, pred }).folds_to(chunk, partial);
                    let kept = choose|kept: Seq<I::Item>|
                        filters_to(pred, chunk, kept) && #[trigger] folder.folds_to(
                            kept,
                            partial.folder,
                        );
                    assert(folder.folds_to(kept, partial.folder));
                    assert forall|out: B| #[trigger]
                        completes(
                            Filter { base: rest, pred: partial.pred },
                            partial.folder,
                            out,
                        ) implies completes(self, folder, out) by {
                        lemma_filter_fusion(rest, partial.pred, partial.folder, out);
                        assert(completes(rest, partial, out));
                        lemma_filter_fusion(base, pred, folder, out);
                    }
                }
                Step::Yield(Filter { base: rest, pred: partial.pred }, partial.folder)
            },
        }
    }
}

} // verus!
