//! A fixed-capacity byte buffer with a read offset (`head`) and a write
//! offset (`tail`), `head <= tail <= capacity`.
use vstd::prelude::*;

verus! {

pub struct Buffer<'a> {
    buf: &'a mut [u8],
    head: usize,
    tail: usize,
}

impl<'a> Buffer<'a> {
    pub closed spec fn wf(&self) -> bool {
        self.head <= self.tail <= self.buf@.len()
    }

    /// The whole backing array.
    pub closed spec fn data(&self) -> Seq<u8> {
        self.buf@
    }

    pub closed spec fn head(&self) -> nat {
        self.head as nat
    }

    pub closed spec fn tail(&self) -> nat {
        self.tail as nat
    }

    /// The filled bytes not yet taken.
    pub open spec fn window(&self) -> Seq<u8> {
        self.data().subrange(self.head() as int, self.tail() as int)
    }

    /// An empty buffer over `buf`.
    pub fn new(buf: &'a mut [u8]) -> (r: Self)
        ensures
            r.wf(),
            r.data() == old(buf)@,
            r.head() == 0,
            r.tail() == 0,
    {
        Buffer { buf, head: 0, tail: 0 }
    }

    /// A buffer whose every byte counts as filled.
    pub fn from(buf: &'a mut [u8]) -> (r: Self)
        ensures
            r.wf(),
            r.data() == old(buf)@,
            r.head() == 0,
            r.tail() == old(buf)@.len(),
    {
        let len = buf.len();
        Buffer { buf, head: 0, tail: len }
    }

    pub fn cap(&self) -> (r: usize)
        ensures
            r == self.data().len(),
    {
        self.buf.len()
    }

    pub fn remaining(&self) -> (r: usize)
        requires
            self.wf(),
        ensures
            r == self.data().len() - self.tail(),
    {
        self.buf.len() - self.tail
    }

    pub fn len(&self) -> (r: usize)
        requires
            self.wf(),
        ensures
            r == self.tail() - self.head(),
    {
        self.tail - self.head
    }

    /// The unfilled space after `tail`.
    pub fn as_mut(&mut self) -> (r: &mut [u8])
        requires
            old(self).wf(),
        ensures
            r@ == old(self).data().subrange(old(self).tail() as int, old(self).data().len() as int),
            final(self).wf(),
            final(self).head() == old(self).head(),
            final(self).tail() == old(self).tail(),
            final(self).data() == old(self).data().subrange(0, old(self).tail() as int) + final(r)@,
    {
        let (_filled, free) = self.buf.split_at_mut(self.tail);
        free
    }

    /// Counts `value` more bytes after `tail` as filled.
    pub fn extend(&mut self, value: usize) -> (r: &mut Self)
        requires
            old(self).wf(),
            old(self).tail() + value <= old(self).data().len(),
        ensures
            r.wf(),
            r.data() == old(self).data(),
            r.head() == old(self).head(),
            r.tail() == old(self).tail() + value,
            *final(self) == *final(r),
    {
        proof {
            assert(self.buf@.len() == self.buf.len());
        }
        self.tail += value;
        self
    }

    /// Appends one byte.
    pub fn push(&mut self, b: u8) -> (r: &mut Self)
        requires
            old(self).wf(),
            old(self).tail() < old(self).data().len(),
        ensures
            r.wf(),
            r.data() == old(self).data().update(old(self).tail() as int, b),
            r.head() == old(self).head(),
            r.tail() == old(self).tail() + 1,
            *final(self) == *final(r),
    {
        self.buf[self.tail] = b;
        self.tail += 1;
        self
    }

    /// Takes `value` filled bytes.
    pub fn advance(&mut self, value: usize) -> (r: &mut Self)
        requires
            old(self).wf(),
            old(self).head() + value <= old(self).tail(),
        ensures
            r.wf(),
            r.data() == old(self).data(),
            r.head() == old(self).head() + value,
            r.tail() == old(self).tail(),
            *final(self) == *final(r),
    {
        self.head += value;
        self
    }

    /// The offset of the first zero byte among the filled bytes not yet
    /// taken.
    pub fn next_null(&self) -> (r: Option<usize>)
        requires
            self.wf(),
        ensures
            match r {
                Some(i) => self.head() <= i < self.tail() && self.data()[i as int] == 0 && forall|
                    j: int,
                | self.head() <= j < i ==> self.data()[j] != 0,
                None => forall|j: int| self.head() <= j < self.tail() ==> self.data()[j] != 0,
            },
    {
        let mut i = self.head;
        while i < self.tail
            invariant
                self.wf(),
                self.head <= i <= self.tail,
                forall|j: int| self.head <= j < i ==> self.buf@[j] != 0,
            decreases self.tail - i,
        {
            if self.buf[i] == 0 {
                return Some(i);
            }
            i += 1;
        }
        None
    }

    /// Takes the filled bytes up to the next zero, which is taken too but not
    /// returned.
    pub fn next_packet(&mut self) -> (r: Option<&[u8]>)
        requires
            old(self).wf(),
        ensures
            final(self).wf(),
            final(self).data() == old(self).data(),
            final(self).tail() == old(self).tail(),
            match r {
                Some(p) => {
                    let i = (old(self).head() + p@.len()) as int;
                    &&& i < old(self).tail()
                    &&& p@ == old(self).data().subrange(old(self).head() as int, i)
                    &&& old(self).data()[i] == 0
                    &&& forall|j: int| old(self).head() <= j < i ==> old(self).data()[j] != 0
                    &&& final(self).head() == i + 1
                },
                None => final(self).head() == old(self).head() && forall|j: int|
                    old(self).head() <= j < old(self).tail() ==> old(self).data()[j] != 0,
            },
    {
        match self.next_null() {
            Some(i) => {
                let head = self.head;
                self.head = i + 1;
                Some(&self.buf[head..i])
            },
            None => None,
        }
    }

    /// Once every filled byte has been taken, starts over at the front.
    pub fn compact(&mut self) -> (r: &Self)
        requires
            old(self).wf(),
        ensures
            r.wf(),
            r.data() == old(self).data(),
            old(self).head() == old(self).tail() ==> r.head() == 0 && r.tail() == 0,
            old(self).head() != old(self).tail() ==> r.head() == old(self).head() && r.tail()
                == old(self).tail(),
            *final(self) == *r,
    {
        if self.head == self.tail {
            self.head = 0;
            self.tail = 0;
        }
        self
    }
}

} // verus!
