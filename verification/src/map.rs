//! The mapping adapter: the pipeline node and the folder that it wraps round
//! the folder it is given.
use crate::folder::Folder;
use crate::iterator::{completes, lemma_completes_with, AsyncIterator, Pipeline, Step};
use crate::relation::{
    deterministic_map, lemma_maps_to_concat, lemma_maps_to_empty, lemma_maps_to_push,
    lemma_maps_to_unique, maps_to,
};
use vstd::prelude::*;
use vstd::std_specs::iter::IteratorSpec;

verus! {

/// A pipeline whose items are those of `base`, each passed through `op`.
pub struct Mapped<I, O> {
    /// The pipeline underneath.
    pub base: I,
    /// The mapping operation.
    pub op: O,
}

/// A folder that passes each item through `op` and feeds what comes out to
/// `folder`.
pub struct MapFolder<F, O> {
    /// The folder underneath.
    pub folder: F,
    /// The mapping operation.
    pub op: O,
}

impl<Item, R, F, O> Folder<Item> for MapFolder<F, O> where F: Folder<R>, O: Fn(Item) -> R {
    type B = F::B;

    open spec fn total(&self) -> bool {
        &&& self.folder.total()
        &&& forall|item: Item| call_requires(self.op, (item,))
    }

    open spec fn deterministic(&self) -> bool {
        &&& self.folder.deterministic()
        &&& deterministic_map::<Item, R, O>(self.op)
    }

    open spec fn folds_to(&self, items: Seq<Item>, after: Self) -> bool {
        &&& after.op == self.op
        &&& exists|mapped: Seq<R>|
            maps_to(self.op, items, mapped) && #[trigger] self.folder.folds_to(
                mapped,
                after.folder,
            )
    }

    open spec fn result(&self) -> F::B {
        self.folder.result()
    }

    proof fn lemma_folds_nothing(&self) {
        self.folder.lemma_folds_nothing();
        lemma_maps_to_empty::<Item, R, O>(self.op);
    }

    proof fn lemma_folds_concat(
        &self,
        first: Seq<Item>,
        mid: Self,
        second: Seq<Item>,
        end: Self,
    ) {
        let head = choose|mapped: Seq<R>|
            maps_to(self.op, first, mapped) && #[trigger] self.folder.folds_to(mapped, mid.folder);
        let tail = choose|mapped: Seq<R>|
            maps_to(mid.op, second, mapped) && #[trigger] mid.folder.folds_to(mapped, end.folder);
        self.folder.lemma_folds_concat(head, mid.folder, tail, end.folder);
        lemma_maps_to_concat(self.op, first, head, second, tail);
    }

    proof fn lemma_result_unique(&self, items: Seq<Item>, a: Self, b: Self) {
        let mapped_a = choose|mapped: Seq<R>|
            maps_to(self.op, items, mapped) && #[trigger] self.folder.folds_to(mapped, a.folder);
        let mapped_b = choose|mapped: Seq<R>|
            maps_to(self.op, items, mapped) && #[trigger] self.folder.folds_to(mapped, b.folder);
        lemma_maps_to_unique(self.op, items, mapped_a, mapped_b);
        self.folder.lemma_result_unique(mapped_a, a.folder, b.folder);
    }

    /// Passes `item` through the operation and feeds the value to the folder
    /// underneath.
    fn feed(self, item: Item) -> (after: Self) {
        let MapFolder { folder, op } = self;
        let value = op(item);
        let inner = folder.feed(value);
        proof {
            assert(maps_to(op, seq![item], seq![value]));
        }
        MapFolder { folder: inner, op }
    }

    /// Passes each item of the batch through the operation as it is drawn and
    /// feeds the value to the folder underneath. No mapped batch is built.
    fn fold<I: Iterator<Item = Item>>(self, chunk: I) -> (after: Self) {
        let MapFolder { folder, op } = self;
        let mut inner = folder;
        let mut rest = chunk;
        let ghost mut done: Seq<Item> = Seq::empty();
        let ghost mut mapped: Seq<R> = Seq::empty();
        proof {
            folder.lemma_folds_nothing();
            lemma_maps_to_empty::<Item, R, O>(op);
        }
        loop
            invariant
                rest.obeys_prophetic_iter_laws(),
                rest.decrease() is Some,
                inner.total(),
                forall|item: Item| call_requires(op, (item,)),
                chunk.remaining() == done + rest.remaining(),
                maps_to(op, done, mapped),
                folder.folds_to(mapped, inner),
            ensures
                chunk.remaining() == done,
            decreases rest.decrease()->0,
        {
            match rest.next() {
                Some(item) => {
                    let value = op(item);
                    let ghost before = inner;
                    inner = inner.feed(value);
                    proof {
                        lemma_maps_to_push(op, done, mapped, item, value);
                        folder.lemma_folds_concat(mapped, before, seq![value], inner);
                        assert(mapped + seq![value] =~= mapped.push(value));
                        done = done.push(item);
                        mapped = mapped.push(value);
                    }
                },
                None => {
                    break ;
                },
            }
        }
        MapFolder { folder: inner, op }
    }

    /// Hands out the result of the folder underneath.
    fn into_result(self) -> (out: F::B) {
        self.folder.into_result()
    }
}

/// What a mapping folder stands for, spelled out over its two fields.
pub proof fn lemma_map_folder_model<Item, R, F, O>(folder: MapFolder<F, O>) where
    F: Folder<R>,
    O: Fn(Item) -> R,

    ensures
        Folder::<Item>::total(&folder) <==> folder.folder.total() && forall|item: Item|
            call_requires(folder.op, (item,)),
        Folder::<Item>::deterministic(&folder) <==> folder.folder.deterministic()
            && deterministic_map::<Item, R, O>(folder.op),
        Folder::<Item>::result(&folder) == folder.folder.result(),
        forall|items: Seq<Item>, after: MapFolder<F, O>| #[trigger]
            folder.folds_to(items, after) <==> after.op == folder.op && exists|mapped: Seq<R>|
                maps_to(folder.op, items, mapped) && #[trigger] folder.folder.folds_to(
                    mapped,
                    after.folder,
                ),
{
}

/// What a mapped pipeline stands for, spelled out over its two fields.
pub proof fn lemma_mapped_model<T, R, I, O>(node: Mapped<I, O>) where
    I: Pipeline<Item = T>,
    O: Fn(T) -> R,

    ensures
        node.total() <==> node.base.total() && forall|item: T|
            call_requires(node.op, (item,)),
        node.deterministic() <==> node.base.deterministic() && deterministic_map::<T, R, O>(
            node.op,
        ),
        node.pending() == node.base.pending(),
        forall|items: Seq<R>| #[trigger]
            node.yields(items) <==> exists|inner: Seq<T>| #[trigger]
                node.base.yields(inner) && maps_to(node.op, inner, items),
{
}

/// Fusion of a mapping: folding a mapped pipeline into a folder gives what
/// folding the pipeline underneath into that folder, wrapped with the same
/// operation, gives.
pub proof fn lemma_map_fusion<T, R, B, I, O, F>(base: I, op: O, folder: F, out: B) where
    I: Pipeline<Item = T>,
    O: Fn(T) -> R,
    F: Folder<R, B = B>,

    ensures
        completes(Mapped { base, op }, folder, out) <==> completes(
            base,
            MapFolder { folder, op },
            out,
        ),
{
    let node = Mapped { base, op };
    let wrapped = MapFolder { folder, op };
    if completes(node, folder, out) {
        let (items, end) = choose|items: Seq<R>, end: F|
            #![trigger node.yields(items), folder.folds_to(items, end)]
            node.yields(items) && folder.folds_to(items, end) && end.result() == out;
        let inner = choose|inner: Seq<T>| #[trigger]
            base.yields(inner) && maps_to(op, inner, items);
        let wrapped_end = MapFolder { folder: end, op };
        assert(wrapped.folder.folds_to(items, wrapped_end.folder));
        lemma_completes_with(base, wrapped, inner, wrapped_end);
    }
    if completes(base, wrapped, out) {
        let (inner, wrapped_end) = choose|inner: Seq<T>, wrapped_end: MapFolder<F, O>|
            #![trigger base.yields(inner), wrapped.folds_to(inner, wrapped_end)]
            base.yields(inner) && wrapped.folds_to(inner, wrapped_end) && wrapped_end.result()
                == out;
        let items = choose|items: Seq<R>|
            maps_to(op, inner, items) && #[trigger] folder.folds_to(items, wrapped_end.folder);
        assert(node.base.yields(inner) && maps_to(node.op, inner, items));
        lemma_completes_with(node, folder, items, wrapped_end.folder);
    }
}

impl<R, I, O> Pipeline for Mapped<I, O> where I: Pipeline, O: Fn(I::Item) -> R {
    type Item = R;

    open spec fn total(&self) -> bool {
        &&& self.base.total()
        &&& forall|item: I::Item| call_requires(self.op, (item,))
    }

    open spec fn deterministic(&self) -> bool {
        &&& self.base.deterministic()
        &&& deterministic_map::<I::Item, R, O>(self.op)
    }

    open spec fn yields(&self, items: Seq<R>) -> bool {
        exists|inner: Seq<I::Item>| #[trigger]
            self.base.yields(inner) && maps_to(self.op, inner, items)
    }

    open spec fn pending(&self) -> nat {
        self.base.pending()
    }

    proof fn lemma_yields_unique(&self, a: Seq<R>, b: Seq<R>) {
        let inner_a = choose|inner: Seq<I::Item>| #[trigger]
            self.base.yields(inner) && maps_to(self.op, inner, a);
        let inner_b = choose|inner: Seq<I::Item>| #[trigger]
            self.base.yields(inner) && maps_to(self.op, inner, b);
        self.base.lemma_yields_unique(inner_a, inner_b);
        lemma_maps_to_unique(self.op, inner_a, a, b);
    }
}

impl<R, I, O> AsyncIterator for Mapped<I, O> where I: AsyncIterator, O: Fn(I::Item) -> R {
    /// Wraps `folder` with the mapping operation and hands the chunk down to
    /// the pipeline underneath; what comes back is unwrapped again.
    fn fold_chunk<B, F: Folder<R, B = B>>(self, folder: F, chunk_size: usize) -> (step: Step<
        Self,
        F,
        B,
    >)
        ensures
            step matches Step::Yield(rest, _) ==> rest.op == self.op,
    {
        let Mapped { base, op } = self;
        match base.fold_chunk(MapFolder { folder, op }, chunk_size) {
            Step::Done(out) => {
                proof {
                    lemma_map_fusion(base, op, folder, out);
                }
                Step::Done(out)
            },
            Step::Yield(rest, partial) => {
                proof {
                    let chunk = choose|chunk: Seq<I::Item>| #[trigger]
                        (MapFolder { folder, op }).folds_to(chunk, partial);
                    let mapped = choose|mapped: Seq<R>|
                        maps_to(op, chunk, mapped) && #[trigger] folder.folds_to(
                            mapped,
                            partial.folder,
                        );
                    assert(folder.folds_to(mapped, partial.folder));
                    assert forall|out: B| #[trigger]
                        completes(
                            Mapped { base: rest, op: partial.op },
                            partial.folder,
                            out,
                        ) implies completes(self, folder, out) by {
                        lemma_map_fusion(rest, partial.op, partial.folder, out);
                        assert(completes(rest, partial, out));
                        lemma_map_fusion(base, op, folder, out);
                    }
                }
                Step::Yield(Mapped { base: rest, op: partial.op }, partial.folder)
            },
        }
    }
}

} // verus!
