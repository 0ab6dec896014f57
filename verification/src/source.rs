//! The source: a borrowed slice, the only node of a pipeline that touches
//! data.
use crate::folder::Folder;
use crate::iterator::{completes, lemma_completes_with, AsyncIterator, Pipeline, Step};
use vstd::prelude::*;
use vstd::std_specs::iter::IteratorSpec;

verus! {

/// A pipeline over the items of a slice, in order. The slice is borrowed and
/// cut anew for every chunk; it is never copied or changed.
pub struct Iter<'a, T: 'a> {
    /// The items that have not been drawn yet.
    pub slice: &'a [T],
}

impl<'a, T: 'a> View for Iter<'a, T> {
    type V = Seq<T>;

    /// The items that have not been drawn yet.
    open spec fn view(&self) -> Seq<T> {
        self.slice@
    }
}

impl<'a, T: 'a> Iter<'a, T> {
    /// Cuts the slice in two: a chunk of the first `max_size` items, or of
    /// all of them if they are fewer, and the source over the others. Nothing
    /// is copied, reordered or dropped.
    pub fn take_chunk(self, max_size: usize) -> (cut: (&'a [T], Iter<'a, T>))
        ensures
            cut.0@.len() == if self@.len() < max_size {
                self@.len()
            } else {
                max_size as nat
            },
            cut.0@ == self@.take(cut.0@.len() as int),
            cut.1@ == self@.skip(cut.0@.len() as int),
            cut.0@ + cut.1@ == self@,
    {
        let slice = self.slice;
        let len = if slice.len() < max_size {
            slice.len()
        } else {
            max_size
        };
        let (chunk, rest) = slice.split_at(len);
        (chunk, Iter { slice: rest })
    }
}

impl<'a, T: 'a> IntoIterator for Iter<'a, T> {
    type Item = &'a T;

    type IntoIter = std::slice::Iter<'a, T>;

    /// The standard iterator over the items that have not been drawn yet.
    fn into_iter(self) -> (iter: std::slice::Iter<'a, T>)
        ensures
            iter.remaining() == self@.as_ref(),
            iter.decrease() is Some,
    {
        self.slice.iter()
    }
}

impl<'a, T: 'a> Pipeline for Iter<'a, T> {
    type Item = &'a T;

    open spec fn total(&self) -> bool {
        true
    }

    open spec fn deterministic(&self) -> bool {
        true
    }

    open spec fn yields(&self, items: Seq<&'a T>) -> bool {
        items == self@.as_ref()
    }

    open spec fn pending(&self) -> nat {
        self@.len()
    }

    proof fn lemma_yields_unique(&self, a: Seq<&'a T>, b: Seq<&'a T>) {
    }
}

impl<'a, T: 'a> AsyncIterator for Iter<'a, T> {
    /// Cuts the next chunk off the slice and feeds it to `folder` as one
    /// batch. The chunk holds the first `chunk_size` items, or all of them if
    /// they are fewer; the slice that is handed back holds the others. An
    /// empty slice is `Done` at once, with the folder untouched.
    fn fold_chunk<B, F: Folder<&'a T, B = B>>(self, folder: F, chunk_size: usize) -> (step: Step<
        Self,
        F,
        B,
    >)
        ensures
            self@.len() == 0 ==> step == Step::<Self, F, B>::Done(folder.result()),
            match step {
                Step::Done(out) => exists|end: F| #[trigger]
                    folder.folds_to(self@.as_ref(), end) && out == end.result(),
                Step::Yield(rest, partial) => {
                    &&& rest@ == self@.skip(chunk_size as int)
                    &&& folder.folds_to(self@.take(chunk_size as int).as_ref(), partial)
                },
            },
    {
        let slice = self.slice;
        if slice.len() == 0 {
            proof {
                folder.lemma_folds_nothing();
                assert(self@.as_ref() =~= Seq::empty());
                assert(folder.folds_to(self@.as_ref(), folder));
                lemma_completes_with(self, folder, self@.as_ref(), folder);
            }
            return Step::Done(folder.into_result());
        }
        let (chunk, remainder) = self.take_chunk(chunk_size);
        let rest = remainder.slice;
        let partial = folder.fold(chunk.iter());
        if rest.len() == 0 {
            proof {
                assert(chunk@ =~= self@);
                assert(folder.folds_to(self@.as_ref(), partial));
                lemma_completes_with(self, folder, self@.as_ref(), partial);
            }
            Step::Done(partial.into_result())
        } else {
            proof {
                assert forall|out: B| #[trigger]
                    completes(remainder, partial, out) implies completes(self, folder, out) by {
                    let (items, end) = choose|items: Seq<&'a T>, end: F|
                        #![trigger remainder.yields(items), partial.folds_to(items, end)]
                        remainder.yields(items) && partial.folds_to(items, end) && end.result()
                            == out;
                    folder.lemma_folds_concat(chunk@.as_ref(), partial, items, end);
                    assert(chunk@.as_ref() + rest@.as_ref() =~= self@.as_ref());
                    lemma_completes_with(self, folder, self@.as_ref(), end);
                }
            }
            let step = Step::Yield(remainder, partial);
            assert(folder.folds_to(chunk@.as_ref(), step->Yield_1));
            step
        }
    }
}

} // verus!
