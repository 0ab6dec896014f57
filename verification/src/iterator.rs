//! The pipeline: a source, the adapters stacked on it, and the operations that
//! drive it chunk by chunk.
use crate::filter::Filter;
use crate::folder::{BasicFolder, Folder};
use crate::map::Mapped;
use crate::relation::{
    deterministic_map, deterministic_pred, fold_reaches, lemma_fold_reaches_appended,
};
use vstd::prelude::*;

verus! {

/// Number of source items that a fold draws between two suspension points
/// where the caller names no other.
pub const BLOCK_SIZE: usize = 1024;

/// Where a fold stands after one chunk.
pub enum Step<I, F, B> {
    /// Items are left. The fold is suspended between two chunks: this is the
    /// point at which a cooperative host lets other work run. It goes on from
    /// the pipeline and the folder held here.
    Yield(I, F),
    /// The last chunk has been folded; this is the result.
    Done(B),
}

/// What a pipeline is, mathematically: the sequences it may produce.
///
/// A pipeline is finite and ordered. Its operations are executable closures,
/// of which only the postconditions are known, so a pipeline is described by
/// the set of sequences that agree with them, not by one sequence. Where
/// every operation is deterministic that set holds one sequence.
pub trait Pipeline: Sized {
    /// The type of the items that the pipeline produces.
    type Item;

    /// Every operation that the pipeline holds may be called on every argument.
    spec fn total(&self) -> bool;

    /// Every operation that the pipeline holds returns one value for one argument.
    spec fn deterministic(&self) -> bool;

    /// `items` is a sequence that the pipeline may produce, in order.
    spec fn yields(&self, items: Seq<Self::Item>) -> bool;

    /// Number of source items that have not been drawn yet.
    spec fn pending(&self) -> nat;

    /// A deterministic pipeline produces one sequence.
    proof fn lemma_yields_unique(&self, a: Seq<Self::Item>, b: Seq<Self::Item>)
        requires
            self.deterministic(),
            self.yields(a),
            self.yields(b),
        ensures
            a == b,
    ;
}

/// `items` is a sequence that `source` may produce, in order.
pub open spec fn produces<I, T>(source: I, items: Seq<T>) -> bool where I: Pipeline<Item = T> {
    source.yields(items)
}

/// `out` is a result that feeding everything `source` produces to `folder`,
/// in one batch, may give.
pub open spec fn completes<I, T, B, F>(source: I, folder: F, out: B) -> bool where
    I: Pipeline<Item = T>,
    F: Folder<T, B = B>,
 {
    exists|items: Seq<T>, end: F|
        #![trigger source.yields(items), folder.folds_to(items, end)]
        source.yields(items) && folder.folds_to(items, end) && end.result() == out
}

/// `out` is a value that one left fold with `op`, starting from `init`, over
/// everything `source` produces may give.
pub open spec fn folds<I, T, B, F>(
    source: I,
    init: B,
    op: F,
    out: B,
) -> bool where I: Pipeline<Item = T>, F: Fn(B, T) -> B {
    exists|items: Seq<T>| #[trigger]
        source.yields(items) && fold_reaches(op, init, items, out)
}

/// A sequence that `source` may produce and a state in which it may leave
/// `folder` make a result of the whole fold.
pub proof fn lemma_completes_with<I, T, F>(
    source: I,
    folder: F,
    items: Seq<T>,
    end: F,
) where I: Pipeline<Item = T>, F: Folder<T>
    requires
        source.yields(items),
        folder.folds_to(items, end),
    ensures
        completes(source, folder, end.result()),
{
}

/// A sequence that `source` may produce and an accumulator that a left fold
/// over it may end with make an outcome of folding `source`.
pub proof fn lemma_folds_with<I, T, B, F>(
    source: I,
    init: B,
    op: F,
    items: Seq<T>,
    out: B,
) where I: Pipeline<Item = T>, F: Fn(B, T) -> B
    requires
        source.yields(items),
        fold_reaches(op, init, items, out),
    ensures
        folds(source, init, op, out),
{
}

/// A lazily evaluated, single-use sequence that is folded in chunks.
///
/// Building a pipeline visits no item. Items are visited only when a terminal
/// operation drives the pipeline, and then every node hands the work down to
/// the source, which is the only place where items are drawn.
pub trait AsyncIterator: Pipeline {
    /// Folds the next chunk, of `chunk_size` source items or of all that are
    /// left if they are fewer, into `folder`.
    ///
    /// The fold is `Done` exactly when this chunk was the last one, an empty
    /// source included. Otherwise the step hands back what is left of the
    /// pipeline and the folder as it stands after the chunk, and whatever the
    /// fold goes on to produce from there is a result of folding the whole
    /// pipeline at once: chunking changes when the work is done, not what
    /// comes out.
    fn fold_chunk<B, F: Folder<Self::Item, B = B>>(self, folder: F, chunk_size: usize) -> (step:
        Step<Self, F, B>)
        requires
            self.total(),
            folder.total(),
            chunk_size >= 1,
        ensures
            match step {
                Step::Done(out) => {
                    &&& self.pending() <= chunk_size
                    &&& completes(self, folder, out)
                },
                Step::Yield(rest, partial) => {
                    &&& self.pending() > chunk_size
                    &&& rest.pending() == self.pending() - chunk_size
                    &&& rest.total()
                    &&& partial.total()
                    &&& exists|chunk: Seq<Self::Item>| #[trigger] folder.folds_to(chunk, partial)
                    &&& forall|out: B| #[trigger]
                        completes(rest, partial, out) ==> completes(self, folder, out)
                },
            },
    ;

    /// `fold_chunk`, with the item type and the result type as parameters of
    /// their own. It takes what `fold_chunk` takes and promises what
    /// `fold_chunk` promises; a caller that holds a pipeline of concrete
    /// closures reads the contract over the types that it wrote itself.
    fn step<T, B, F>(self, folder: F, chunk_size: usize) -> (step: Step<Self, F, B>) where
        Self: Pipeline<Item = T>,
        F: Folder<T, B = B>,

        requires
            self.total(),
            folder.total(),
            chunk_size >= 1,
        ensures
            match step {
                Step::Done(out) => {
                    &&& self.pending() <= chunk_size
                    &&& completes(self, folder, out)
                },
                Step::Yield(rest, partial) => {
                    &&& self.pending() > chunk_size
                    &&& rest.pending() == self.pending() - chunk_size
                    &&& rest.total()
                    &&& partial.total()
                    &&& exists|chunk: Seq<T>| #[trigger] folder.folds_to(chunk, partial)
                    &&& forall|out: B| #[trigger]
                        completes(rest, partial, out) ==> completes(self, folder, out)
                },
            },
    {
        self.fold_chunk(folder, chunk_size)
    }

    /// Folds the whole pipeline into `folder`, `chunk_size` source items at a
    /// time, and hands out the folder's result.
    fn fold_folder_chunked<T, B, F>(self, folder: F, chunk_size: usize) -> (out: B) where
        Self: Pipeline<Item = T>,
        F: Folder<T, B = B>,

        requires
            self.total(),
            folder.total(),
            chunk_size >= 1,
        ensures
            completes(self, folder, out),
    {
        let mut source = self;
        let mut state = folder;
        loop
            invariant
                source.total(),
                state.total(),
                chunk_size >= 1,
                forall|out: B| #[trigger]
                    completes(source, state, out) ==> completes(self, folder, out),
            decreases source.pending(),
        {
            match source.fold_chunk(state, chunk_size) {
                Step::Done(out) => {
                    return out;
                },
                Step::Yield(rest, partial) => {
                    source = rest;
                    state = partial;
                },
            }
        }
    }

    /// Folds the whole pipeline into `folder`, `BLOCK_SIZE` source items at a
    /// time, and hands out the folder's result.
    fn fold_folder<T, B, F>(self, folder: F) -> (out: B) where
        Self: Pipeline<Item = T>,
        F: Folder<T, B = B>,

        requires
            self.total(),
            folder.total(),
        ensures
            completes(self, folder, out),
    {
        self.fold_folder_chunked(folder, BLOCK_SIZE)
    }

    /// Folds everything the pipeline produces, left to right, with `f`,
    /// starting from `init`.
    fn async_fold<B, T, F>(self, init: B, f: F) -> (out: B) where
        Self: Pipeline<Item = T>,
        F: Fn(B, T) -> B,

        requires
            self.total(),
            forall|acc: B, item: T| call_requires(f, (acc, item)),
        ensures
            folds(self, init, f, out),
    {
        let ghost folder = BasicFolder { init, op: f };
        let out = self.fold_folder(BasicFolder { init, op: f });
        proof {
            let (items, end) = choose|items: Seq<T>, end: BasicFolder<B, F>|
                #![trigger self.yields(items), folder.folds_to(items, end)]
                self.yields(items) && folder.folds_to(items, end) && end.result() == out;
            lemma_folds_with(self, init, f, items, out);
        }
        out
    }

    /// Stacks a mapping on the pipeline. Nothing is called and no item is
    /// visited.
    fn map<O, T, R>(self, op: O) -> (mapped: Mapped<Self, O>) where
        Self: Pipeline<Item = T>,
        O: Fn(T) -> R,

        ensures
            mapped.base == self,
            mapped.op == op,
            mapped.pending() == self.pending(),
            mapped.total() <==> self.total() && forall|item: T| call_requires(op, (item,)),
            mapped.deterministic() <==> self.deterministic() && deterministic_map::<T, R, O>(op),
    {
        Mapped { base: self, op }
    }

    /// Stacks a filter on the pipeline. Nothing is called and no item is
    /// visited.
    fn filter<P, T>(self, pred: P) -> (filtered: Filter<Self, P>) where
        Self: Pipeline<Item = T>,
        P: Fn(&T) -> bool,

        ensures
            filtered.base == self,
            filtered.pred == pred,
            filtered.pending() == self.pending(),
            filtered.total() <==> self.total() && forall|item: T| call_requires(pred, (&item,)),
            filtered.deterministic() <==> self.deterministic() && deterministic_pred::<T, P>(pred),
    {
        Filter { base: self, pred }
    }

    /// Collects everything the pipeline produces into a vector, in order.
    fn collect_vec<T>(self) -> (items: Vec<T>) where Self: Pipeline<Item = T>
        requires
            self.total(),
        ensures
            produces(self, items@),
    {
        let append = |collected: Vec<T>, item: T| -> (longer: Vec<T>)
            ensures
                longer@ == collected@.push(item),
            {
                let mut collected = collected;
                collected.push(item);
                collected
            };
        let empty: Vec<T> = Vec::new();
        let items = self.async_fold(empty, append);
        proof {
            let produced = choose|produced: Seq<T>| #[trigger]
                self.yields(produced) && fold_reaches(append, empty, produced, items);
            lemma_fold_reaches_appended(append, empty, produced, items);
            assert(items@ =~= produced);
        }
        items
    }
}

} // verus!
