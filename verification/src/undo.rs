//! Byte-snapshot undo/redo history shared by every editor.
//!
//! An editable value implements [`Undo`]: it can write itself out as bytes
//! and read itself back. [`UndoableData`] keeps the current value plus two
//! stacks of byte snapshots; an undo step swaps the current value for the
//! newest snapshot on the undo stack, a redo step does the reverse.
use vstd::prelude::*;

verus! {

/// A value that the undo history can snapshot as bytes.
///
/// `encode` and `decode` state what `to_bytes` and `from_bytes` compute on
/// the value's model; each implementation proves its own round trip.
pub trait Undo: Sized + View {
    /// The bytes `to_bytes` writes for a value.
    spec fn encode(v: Self::V) -> Seq<u8>;

    /// The value `from_bytes` reads back from some bytes.
    spec fn decode(bytes: Seq<u8>) -> Self::V;

    fn from_bytes(bytes: Vec<u8>) -> (r: Self)
        ensures
            r@ == Self::decode(bytes@),
    ;

    fn to_bytes(&self) -> (r: Vec<u8>)
        ensures
            r@ == Self::encode(self@),
    ;

    /// The size a value reports for its snapshot.
    spec fn size(v: Self::V) -> nat;

    fn size_bytes(&self) -> (n: usize)
        requires
            Self::size(self@) <= usize::MAX,
        ensures
            n == Self::size(self@),
    ;
}

/// What an [`UndoableData`] holds, on models: the current value and the two
/// snapshot stacks (newest last).
pub struct History<V> {
    pub current: V,
    pub undo: Seq<Seq<u8>>,
    pub redo: Seq<Seq<u8>>,
}

/// An edit that replaced the current value by `next`, snapshotting `before`.
pub open spec fn commit_spec<T: Undo>(h: History<T::V>, before: T::V, next: T::V) -> History<T::V> {
    History { current: next, undo: h.undo.push(T::encode(before)), redo: Seq::empty() }
}

/// One undo step; nothing happens when the undo stack is empty.
pub open spec fn undo_spec<T: Undo>(h: History<T::V>) -> History<T::V> {
    if h.undo.len() == 0 {
        h
    } else {
        History {
            current: T::decode(h.undo.last()),
            undo: h.undo.drop_last(),
            redo: h.redo.push(T::encode(h.current)),
        }
    }
}

/// One redo step; nothing happens when the redo stack is empty.
pub open spec fn redo_spec<T: Undo>(h: History<T::V>) -> History<T::V> {
    if h.redo.len() == 0 {
        h
    } else {
        History {
            current: T::decode(h.redo.last()),
            undo: h.undo.push(T::encode(h.current)),
            redo: h.redo.drop_last(),
        }
    }
}

/// Undoing an edit brings back the value as it was snapshotted before the
/// edit, leaves the older undo steps as they were, and makes the edit the
/// one step to redo.
pub proof fn lemma_undo_after_commit<T: Undo>(h: History<T::V>, before: T::V, next: T::V)
    ensures
        undo_spec::<T>(commit_spec::<T>(h, before, next)) == (History::<T::V> {
            current: T::decode(T::encode(before)),
            undo: h.undo,
            redo: seq![T::encode(next)],
        }),
{
    let c = commit_spec::<T>(h, before, next);
    assert(c.undo.drop_last() =~= h.undo);
    assert(Seq::<Seq<u8>>::empty().push(T::encode(next)) =~= seq![T::encode(next)]);
}

/// Redoing an undone step brings back the value as it was snapshotted
/// before the undo, and leaves the redo stack as it was before the undo.
pub proof fn lemma_redo_after_undo<T: Undo>(h: History<T::V>)
    requires
        h.undo.len() > 0,
    ensures
        redo_spec::<T>(undo_spec::<T>(h)) == (History::<T::V> {
            current: T::decode(T::encode(h.current)),
            undo: h.undo.drop_last().push(T::encode(T::decode(h.undo.last()))),
            redo: h.redo,
        }),
{
    let u = undo_spec::<T>(h);
    assert(u.redo.drop_last() =~= h.redo);
}

/// A value with an undo/redo history of byte snapshots.
pub struct UndoableData<T> {
    data: T,
    undo_stack: Vec<Vec<u8>>,
    redo_stack: Vec<Vec<u8>>,
}

pub open spec fn stack_view(s: Seq<Vec<u8>>) -> Seq<Seq<u8>> {
    s.map_values(|b: Vec<u8>| b@)
}

impl<T: Undo> UndoableData<T> {
    /// The value being edited.
    pub closed spec fn value(&self) -> T {
        self.data
    }

    pub closed spec fn history(&self) -> History<T::V> {
        History {
            current: self.data@,
            undo: stack_view(self.undo_stack@),
            redo: stack_view(self.redo_stack@),
        }
    }

    /// The history's current value is the model of the value being edited.
    pub proof fn lemma_current(&self)
        ensures
            self.history().current == self.value()@,
    {
    }

    /// A fresh history holding `data` and no undo or redo steps.
    pub fn new(data: T) -> (r: Self)
        ensures
            r.value() == data,
            r.history() == (History { current: data@, undo: Seq::<Seq<u8>>::empty(), redo: Seq::<Seq<u8>>::empty() }),
    {
        let r = UndoableData { data, undo_stack: Vec::new(), redo_stack: Vec::new() };
        proof {
            assert(stack_view(r.undo_stack@) =~= Seq::<Seq<u8>>::empty());
            assert(stack_view(r.redo_stack@) =~= Seq::<Seq<u8>>::empty());
        }
        r
    }

    /// Runs `f` on the current value.
    pub fn read<R, F: FnOnce(&T) -> R>(&self, f: F) -> (r: R)
        requires
            f.requires((&self.value(),)),
        ensures
            f.ensures((&self.value(),), r),
    {
        f(&self.data)
    }

    /// Runs `f` on the current value as one undo step: the value before the
    /// call is snapshotted and the redo stack is cleared.
    pub fn write<F: FnOnce(&mut T)>(&mut self, f: F)
        requires
            forall|d: &mut T| f.requires((d,)),
        ensures
            final(self).history() == commit_spec::<T>(old(self).history(), old(self).value()@, final(self).value()@),
            exists|d: &mut T| *d == old(self).value() && *final(d) == final(self).value() && f.ensures((d,), ()),
    {
        let before = self.data.to_bytes();
        f(&mut self.data);
        self.push_undo(before);
    }

    fn push_undo(&mut self, before: Vec<u8>)
        ensures
            final(self).data == old(self).data,
            final(self).history() == (History {
                current: old(self).data@,
                undo: old(self).history().undo.push(before@),
                redo: Seq::<Seq<u8>>::empty(),
            }),
    {
        self.undo_stack.push(before);
        self.redo_stack = Vec::new();
        proof {
            assert(stack_view(self.undo_stack@) =~= stack_view(old(self).undo_stack@).push(before@));
            assert(stack_view(self.redo_stack@) =~= Seq::<Seq<u8>>::empty());
        }
    }

    /// Direct access to the current value, for an edit spread over several
    /// frames; `commit_change` then records it as one undo step.
    pub fn data_mut(&mut self) -> (r: &mut T)
        ensures
            *r == old(self).value(),
            final(self).value() == *final(r),
            final(self).history().undo == old(self).history().undo,
            final(self).history().redo == old(self).history().redo,
    {
        &mut self.data
    }

    /// Records the edit made through `data_mut` since `before` as one undo
    /// step.
    pub fn commit_change(&mut self, before: &T)
        ensures
            final(self).value() == old(self).value(),
            final(self).history() == commit_spec::<T>(old(self).history(), before@, old(self).value()@),
    {
        let b = before.to_bytes();
        self.push_undo(b);
    }

    pub fn can_undo(&self) -> (b: bool)
        ensures
            b == (self.history().undo.len() > 0),
    {
        self.undo_stack.len() > 0
    }

    pub fn can_redo(&self) -> (b: bool)
        ensures
            b == (self.history().redo.len() > 0),
    {
        self.redo_stack.len() > 0
    }

    /// Steps back to the newest snapshot, if there is one.
    pub fn undo(&mut self)
        ensures
            final(self).history() == undo_spec::<T>(old(self).history()),
    {
        if let Some(snap) = self.undo_stack.pop() {
            let now = self.data.to_bytes();
            self.redo_stack.push(now);
            self.data = T::from_bytes(snap);
            proof {
                assert(stack_view(self.undo_stack@) =~= stack_view(old(self).undo_stack@).drop_last());
                assert(stack_view(self.redo_stack@) =~= stack_view(old(self).redo_stack@).push(
                    T::encode(old(self).data@),
                ));
            }
        }
    }

    /// Steps forward again after an undo, if there is a step to redo.
    pub fn redo(&mut self)
        ensures
            final(self).history() == redo_spec::<T>(old(self).history()),
    {
        if let Some(snap) = self.redo_stack.pop() {
            let now = self.data.to_bytes();
            self.undo_stack.push(now);
            self.data = T::from_bytes(snap);
            proof {
                assert(stack_view(self.redo_stack@) =~= stack_view(old(self).redo_stack@).drop_last());
                assert(stack_view(self.undo_stack@) =~= stack_view(old(self).undo_stack@).push(
                    T::encode(old(self).data@),
                ));
            }
        }
    }
}

} // verus!
