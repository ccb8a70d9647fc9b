//! Sequences with a declared capacity.

use crate::element::Element;
use vstd::arithmetic::div_mod::{lemma_fundamental_div_mod, lemma_mod_bound};
use vstd::prelude::*;

verus! {

/// The bytes of a run of elements, in memory order: byte `i` is byte
/// `i % size` of element `i / size`.
pub open spec fn byte_image<T: Element>(elements: Seq<T>) -> Seq<u8> {
    Seq::new(
        elements.len() * T::size(),
        |i: int| elements[i / (T::size() as int)].bytes()[i % (T::size() as int)],
    )
}

/// The byte of the image at which element `index` begins.
pub open spec fn byte_offset<T: Element>(index: nat) -> int {
    (index * T::size()) as int
}

/// `memory` with the bytes from `at` on replaced by `patch`.
pub open spec fn splice(memory: Seq<u8>, at: int, patch: Seq<u8>) -> Seq<u8> {
    Seq::new(
        memory.len(),
        |i: int|
            if at <= i < at + patch.len() {
                patch[i - at]
            } else {
                memory[i]
            },
    )
}

/// Appending an element appends its bytes to the image.
pub proof fn lemma_image_push<T: Element>(elements: Seq<T>, element: T)
    requires
        element.bytes().len() == T::size(),
        T::size() > 0,
    ensures
        byte_image(elements.push(element)) == byte_image(elements) + element.bytes(),
{
    let size = T::size() as int;
    let count = elements.len() as int;
    let left = byte_image(elements.push(element));
    let right = byte_image(elements) + element.bytes();
    assert((count + 1) * size == count * size + size) by (nonlinear_arith);
    assert(left.len() == right.len());
    assert forall|b: int| 0 <= b < left.len() implies left[b] == right[b] by {
        lemma_fundamental_div_mod(b, size);
        lemma_mod_bound(b, size);
        let index = b / size;
        let position = b % size;
        if b < count * size {
            assert(index < count) by (nonlinear_arith)
                requires
                    b < count * size,
                    b == size * index + position,
                    0 <= position,
                    size > 0,
            ;
            assert(0 <= index) by (nonlinear_arith)
                requires
                    b >= 0,
                    b == size * index + position,
                    position < size,
                    size > 0,
            ;
        } else {
            assert(index == count && position == b - count * size) by (nonlinear_arith)
                requires
                    count * size <= b < count * size + size,
                    b == size * index + position,
                    0 <= position < size,
                    size > 0,
            ;
        }
    }
    assert(left =~= right);
}

/// A sequence of at most `SLICE_BOUND` elements whose storage is committed
/// for exactly `SLICE_BOUND` of them.
///
/// Vector operations rely on the committed storage alone: an access may
/// reach past the elements in use, never past the capacity.
pub struct BoundedSlice<T: Element, const SLICE_BOUND: usize> {
    storage: Vec<T>,
    len: usize,
}

impl<T: Element, const SLICE_BOUND: usize> BoundedSlice<T, SLICE_BOUND> {
    #[verifier::type_invariant]
    spec fn committed(self) -> bool {
        self.storage@.len() == SLICE_BOUND && self.len <= SLICE_BOUND
    }

    /// The committed storage, element by element.
    pub closed spec fn view(self) -> Seq<T> {
        self.storage@
    }

    /// The number of elements in use.
    pub closed spec fn spec_len(self) -> nat {
        self.len as nat
    }

    /// The committed storage as bytes.
    pub open spec fn bytes(self) -> Seq<u8> {
        byte_image(self@)
    }

    /// A sequence that holds `items`, its spare capacity set to `fill`.
    /// `None` exactly when `items` are more than the capacity.
    pub fn new(items: Vec<T>, fill: T) -> (slice: Option<Self>)
        ensures
            slice.is_some() == (items@.len() <= SLICE_BOUND),
            slice matches Some(s) ==> {
                &&& s.spec_len() == items@.len()
                &&& s@.len() == SLICE_BOUND
                &&& s@.subrange(0, items@.len() as int) == items@
                &&& forall|i: int| items@.len() <= i < SLICE_BOUND ==> s@[i] == fill
            },
    {
        let len: usize = items.len();
        if len > SLICE_BOUND {
            return None;
        }
        let mut storage: Vec<T> = items;
        while storage.len() < SLICE_BOUND
            invariant
                len <= storage@.len() <= SLICE_BOUND,
                storage@.subrange(0, len as int) == items@,
                forall|i: int| len <= i < storage@.len() ==> storage@[i] == fill,
            decreases SLICE_BOUND - storage@.len(),
        {
            let ghost before = storage@;
            storage.push(fill);
            assert(storage@.subrange(0, len as int) =~= before.subrange(0, len as int));
        }
        Some(BoundedSlice { storage, len })
    }

    /// The number of elements in use.
    pub fn len(&self) -> (n: usize)
        ensures
            n == self.spec_len(),
            n <= SLICE_BOUND,
    {
        proof {
            use_type_invariant(self);
        }
        self.len
    }

    /// The capacity: the largest length the sequence can have.
    pub fn len_bound(&self) -> (n: usize)
        ensures
            n == SLICE_BOUND,
            n == self@.len(),
    {
        proof {
            use_type_invariant(self);
        }
        SLICE_BOUND
    }

    /// The committed storage: `SLICE_BOUND` elements, those in use first.
    pub fn get_slice(&self) -> (elements: &[T])
        ensures
            elements@ == self@,
            elements@.len() == SLICE_BOUND,
    {
        proof {
            use_type_invariant(self);
        }
        self.storage.as_slice()
    }

    /// The committed storage as bytes: `SLICE_BOUND` times the element
    /// size, whatever the number of elements in use.
    pub fn to_bytes(&self) -> (image: Vec<u8>)
        ensures
            image@ == self.bytes(),
    {
        proof {
            use_type_invariant(self);
        }
        let size: usize = T::byte_size();
        let mut image: Vec<u8> = Vec::new();
        let mut index: usize = 0;
        while index < SLICE_BOUND
            invariant
                index <= SLICE_BOUND,
                self.storage@.len() == SLICE_BOUND,
                size == T::size(),
                image@ == byte_image(self.storage@.subrange(0, index as int)),
            decreases SLICE_BOUND - index,
        {
            let element: &T = &self.storage[index];
            let ghost done = image@;
            let mut position: usize = 0;
            proof {
                element.lemma_layout();
            }
            while position < size
                invariant
                    position <= size,
                    size == T::size(),
                    element.bytes().len() == size,
                    image@ == done + element.bytes().subrange(0, position as int),
                decreases size - position,
            {
                image.push(element.byte(position));
                assert(image@ =~= done + element.bytes().subrange(0, position + 1));
                position += 1;
            }
            proof {
                assert(element.bytes().subrange(0, size as int) =~= element.bytes());
                lemma_image_push(self.storage@.subrange(0, index as int), *element);
                assert(self.storage@.subrange(0, index as int).push(*element)
                    =~= self.storage@.subrange(0, index + 1));
            }
            index += 1;
        }
        assert(self.storage@.subrange(0, SLICE_BOUND as int) =~= self.storage@);
        image
    }

    /// Overwrites the element at `index` of the committed storage.
    pub fn set(&mut self, index: usize, element: T)
        requires
            index < SLICE_BOUND,
        ensures
            final(self)@ == old(self)@.update(index as int, element),
            final(self).spec_len() == old(self).spec_len(),
    {
        proof {
            use_type_invariant(&*self);
        }
        self.storage[index] = element;
    }
}

} // verus!
