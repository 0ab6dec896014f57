//! Folders: reductions in progress that take their input one batch at a time.
use crate::relation::{
    deterministic_fold, fold_reaches, lemma_fold_reaches_concat, lemma_fold_reaches_empty,
    lemma_fold_reaches_push, lemma_fold_reaches_unique,
};
use vstd::prelude::*;
use vstd::std_specs::iter::IteratorSpec;

verus! {

/// A reduction in progress over items of type `Item`.
///
/// A folder consumes its input in batches, each batch left to right, and may
/// be asked for its result once. What it has consumed so far is part of its
/// state, so feeding it two batches one after the other is the same as feeding
/// it their concatenation.
pub trait Folder<Item>: Sized {
    /// What the reduction produces.
    type B;

    /// Every operation that the folder holds may be called on every argument.
    spec fn total(&self) -> bool;

    /// Every operation that the folder holds returns one value for one argument.
    spec fn deterministic(&self) -> bool;

    /// `after` is a state that the folder may be in once it has consumed
    /// `items`, in order.
    spec fn folds_to(&self, items: Seq<Item>, after: Self) -> bool;

    /// The value that `into_result` hands out in this state.
    spec fn result(&self) -> Self::B;

    /// Consuming nothing leaves the folder as it is.
    proof fn lemma_folds_nothing(&self)
        ensures
            self.folds_to(Seq::empty(), *self),
    ;

    /// Consuming `first` and then `second` is consuming `first + second`.
    proof fn lemma_folds_concat(
        &self,
        first: Seq<Item>,
        mid: Self,
        second: Seq<Item>,
        end: Self,
    )
        requires
            self.folds_to(first, mid),
            mid.folds_to(second, end),
        ensures
            self.folds_to(first + second, end),
    ;

    /// A deterministic folder has one result for one input.
    proof fn lemma_result_unique(&self, items: Seq<Item>, a: Self, b: Self)
        requires
            self.deterministic(),
            self.folds_to(items, a),
            self.folds_to(items, b),
        ensures
            a.result() == b.result(),
    ;

    /// Consumes one item.
    fn feed(self, item: Item) -> (after: Self)
        requires
            self.total(),
        ensures
            after.total(),
            self.folds_to(seq![item], after),
    ;

    /// Consumes a batch: every item that `chunk` hands out, in the order in
    /// which it hands them out.
    fn fold<I: Iterator<Item = Item>>(self, chunk: I) -> (after: Self)
        requires
            self.total(),
            chunk.obeys_prophetic_iter_laws(),
            chunk.decrease() is Some,
        ensures
            after.total(),
            self.folds_to(chunk.remaining(), after),
    ;

    /// Ends the reduction and hands out its result.
    fn into_result(self) -> (out: Self::B)
        ensures
            out == self.result(),
    ;
}

/// The folder at the bottom of every chain: an accumulator and the binary
/// operation that merges one item into it.
pub struct BasicFolder<B, O> {
    /// The accumulator: the initial value at first, then the fold so far.
    pub init: B,
    /// The folding operation.
    pub op: O,
}

impl<B, O> BasicFolder<B, O> {
    /// A folder that has consumed nothing: its accumulator is `init`.
    pub fn new<Item>(init: B, op: O) -> (folder: Self) where O: Fn(B, Item) -> B
        ensures
            folder.init == init,
            folder.op == op,
            Folder::<Item>::total(&folder) <==> forall|acc: B, item: Item|
                call_requires(op, (acc, item)),
            Folder::<Item>::deterministic(&folder) <==> deterministic_fold::<B, Item, O>(op),
    {
        BasicFolder { init, op }
    }
}

/// What a basic folder stands for, spelled out over its two fields.
pub proof fn lemma_basic_folder_model<Item, B, O>(folder: BasicFolder<B, O>) where
    O: Fn(B, Item) -> B,

    ensures
        Folder::<Item>::total(&folder) <==> forall|acc: B, item: Item|
            call_requires(folder.op, (acc, item)),
        Folder::<Item>::deterministic(&folder) <==> deterministic_fold::<B, Item, O>(folder.op),
        Folder::<Item>::result(&folder) == folder.init,
        forall|items: Seq<Item>, after: BasicFolder<B, O>| #[trigger]
            folder.folds_to(items, after) <==> after.op == folder.op && fold_reaches(
                folder.op,
                folder.init,
                items,
                after.init,
            ),
{
}

impl<Item, B, O> Folder<Item> for BasicFolder<B, O> where O: Fn(B, Item) -> B {
    type B = B;

    open spec fn total(&self) -> bool {
        forall|acc: B, item: Item| call_requires(self.op, (acc, item))
    }

    open spec fn deterministic(&self) -> bool {
        deterministic_fold::<B, Item, O>(self.op)
    }

    open spec fn folds_to(&self, items: Seq<Item>, after: Self) -> bool {
        &&& after.op == self.op
        &&& fold_reaches(self.op, self.init, items, after.init)
    }

    open spec fn result(&self) -> B {
        self.init
    }

    proof fn lemma_folds_nothing(&self) {
        lemma_fold_reaches_empty::<B, Item, O>(self.op, self.init);
    }

    proof fn lemma_folds_concat(
        &self,
        first: Seq<Item>,
        mid: Self,
        second: Seq<Item>,
        end: Self,
    ) {
        lemma_fold_reaches_concat(self.op, self.init, first, mid.init, second, end.init);
    }

    proof fn lemma_result_unique(&self, items: Seq<Item>, a: Self, b: Self) {
        lemma_fold_reaches_unique(self.op, self.init, items, a.init, b.init);
    }

    /// Merges `item` into the accumulator with one call of the operation.
    fn feed(self, item: Item) -> (after: Self) {
        let BasicFolder { init, op } = self;
        let next = op(init, item);
        proof {
            lemma_fold_reaches_push(op, init, Seq::empty(), init, item, next);
            assert(Seq::<Item>::empty().push(item) =~= seq![item]);
        }
        BasicFolder { init: next, op }
    }

    /// Reduces the batch into the accumulator, left to right, with one call of
    /// the operation per item.
    fn fold<I: Iterator<Item = Item>>(self, chunk: I) -> (after: Self) {
        let BasicFolder { init, op } = self;
        let mut acc = init;
        let mut rest = chunk;
        let ghost mut done: Seq<Item> = Seq::empty();
        loop
            invariant
                rest.obeys_prophetic_iter_laws(),
                rest.decrease() is Some,
                forall|acc: B, item: Item| call_requires(op, (acc, item)),
                chunk.remaining() == done + rest.remaining(),
                fold_reaches(op, init, done, acc),
            ensures
                chunk.remaining() == done,
            decreases rest.decrease()->0,
        {
            match rest.next() {
                Some(item) => {
                    let ghost before = acc;
                    acc = op(acc, item);
                    proof {
                        lemma_fold_reaches_push(op, init, done, before, item, acc);
                        done = done.push(item);
                    }
                },
                None => {
                    break ;
                },
            }
        }
        BasicFolder { init: acc, op }
    }

    /// Hands out the accumulator.
    fn into_result(self) -> (out: B) {
        self.init
    }
}

} // verus!
