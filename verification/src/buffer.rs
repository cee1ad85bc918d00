//! An immutable, reference-counted byte region. Many virtual files alias
//! slices of one physical allocation without copying; the region is never
//! mutated after creation.

use vstd::prelude::*;

verus! {

/// An immutable byte sequence with shared ownership.
pub struct SharedBuf {
    data: std::rc::Rc<Vec<u8>>,
}

/// Relies on `Rc::clone`: the returned handle refers to the same
/// allocation, so it carries the same bytes and copies nothing.
#[verifier::external_body]
fn rc_clone_bytes(rc: &std::rc::Rc<Vec<u8>>) -> (r: std::rc::Rc<Vec<u8>>)
    ensures
        r@ == rc@,
{
    std::rc::Rc::clone(rc)
}

impl View for SharedBuf {
    type V = Seq<u8>;

    closed spec fn view(&self) -> Seq<u8> {
        self.data@
    }
}

impl SharedBuf {
    /// Wraps the given bytes in a shared, immutable region.
    pub fn new(bytes: Vec<u8>) -> (r: SharedBuf)
        ensures
            r@ == bytes@,
    {
        SharedBuf { data: std::rc::Rc::new(bytes) }
    }

    /// Hands out another owner of the same region, without copying.
    pub fn share(&self) -> (r: SharedBuf)
        ensures
            r@ == self@,
    {
        SharedBuf { data: rc_clone_bytes(&self.data) }
    }

    pub fn len(&self) -> (n: usize)
        ensures
            n == self@.len(),
    {
        self.data.len()
    }

    pub fn get(&self, i: usize) -> (b: u8)
        requires
            i < self@.len(),
        ensures
            b == self@[i as int],
    {
        self.data[i]
    }
}

} // verus!
