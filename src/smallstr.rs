use vstd::prelude::*;
use vstd::string::StringSliceAdditionalSpecFns;
use vstd::utf8::valid_utf8;

verus! {

/// Number of bytes a `SmallStr` can hold inline.
pub const SMALL_STR_CAP: usize = 19;

/// A byte string of at most `SMALL_STR_CAP` bytes, stored inline.
///
/// Only the first `size` bytes of `data` belong to the string.
#[derive(Clone, Copy, Default)]
pub struct SmallStr {
    pub size: u8,
    pub data: [u8; 19],
}

impl View for SmallStr {
    type V = Seq<u8>;

    open spec fn view(&self) -> Seq<u8> {
        self.data@.subrange(0, self.size as int)
    }
}

impl SmallStr {
    /// The size fits in the inline buffer.
    pub open spec fn wf(&self) -> bool {
        self.size as usize <= SMALL_STR_CAP
    }

    /// An empty string.
    pub fn empty() -> (r: SmallStr)
        ensures
            r.wf(),
            r@ == Seq::<u8>::empty(),
    {
        SmallStr { size: 0, data: [0u8; 19] }
    }

    /// The bytes of the string.
    pub fn as_slice(&self) -> (r: &[u8])
        requires
            self.wf(),
        ensures
            r@ == self@,
    {
        let s: &[u8] = self.data.as_slice();
        &s[0..self.size as usize]
    }

    /// The string as text.
    pub fn as_str(&self) -> (r: &str)
        requires
            self.wf(),
            valid_utf8(self@),
        ensures
            r.spec_bytes() == self@,
    {
        utf8_text(self.as_slice())
    }

    /// Length of the common prefix of this string and `key`, comparing at
    /// most `key.len() - cursor` bytes.
    pub fn common_at(&self, key: &[u8], cursor: usize) -> (r: usize)
        requires
            self.wf(),
            cursor <= key@.len(),
        ensures
            r <= self@.len(),
            r <= key@.len() - cursor,
            forall|i: int| 0 <= i < r ==> self@[i] == key@[i],
            r < self@.len() && r < key@.len() - cursor ==> self@[r as int] != key@[r as int],
    {
        let size = self.size as usize;
        let rest = key.len() - cursor;
        let max = if size < rest { size } else { rest };
        let mut i: usize = 0;
        while i < max
            invariant
                i <= max,
                max <= size,
                max <= rest,
                size == self@.len(),
                rest == key@.len() - cursor,
                self.wf(),
                forall|j: int| 0 <= j < i ==> self@[j] == key@[j],
            decreases max - i,
        {
            if self.data[i] != key[i] {
                return i;
            }
            i = i + 1;
        }
        max
    }

    /// Length of the common prefix of two strings.
    pub fn common_prefix_len(&self, rhs: &SmallStr) -> (r: usize)
        requires
            self.wf(),
            rhs.wf(),
        ensures
            r <= self@.len(),
            r <= rhs@.len(),
            forall|i: int| 0 <= i < r ==> self@[i] == rhs@[i],
            r < self@.len() && r < rhs@.len() ==> self@[r as int] != rhs@[r as int],
    {
        let max: usize = if self.size < rhs.size { self.size as usize } else { rhs.size as usize };
        let mut i: usize = 0;
        while i < max
            invariant
                i <= max,
                max <= self@.len(),
                max <= rhs@.len(),
                self.wf(),
                rhs.wf(),
                forall|j: int| 0 <= j < i ==> self@[j] == rhs@[j],
            decreases max - i,
        {
            if self.data[i] != rhs.data[i] {
                return i;
            }
            i = i + 1;
        }
        max
    }

    /// The first `SMALL_STR_CAP` bytes of `value` (all of them when it is
    /// shorter).
    pub fn from_bytes(value: &[u8]) -> (r: SmallStr)
        ensures
            r.wf(),
            r@ == value@.subrange(0, r@.len() as int),
            r@.len() == if value@.len() < SMALL_STR_CAP { value@.len() } else { SMALL_STR_CAP as nat },
            forall|j: int| r@.len() <= j < SMALL_STR_CAP ==> r.data@[j] == 0,
    {
        let size: usize = if value.len() < SMALL_STR_CAP { value.len() } else { SMALL_STR_CAP };
        let mut data = [0u8; 19];
        let mut i: usize = 0;
        while i < size
            invariant
                i <= size,
                size <= SMALL_STR_CAP,
                size <= value@.len(),
                data@.len() == SMALL_STR_CAP,
                forall|j: int| 0 <= j < i ==> data@[j] == value@[j],
                forall|j: int| size <= j < SMALL_STR_CAP ==> data@[j] == 0,
            decreases size - i,
        {
            data[i] = value[i];
            i = i + 1;
        }
        let r = SmallStr { size: size as u8, data };
        assert(r@ =~= value@.subrange(0, size as int));
        r
    }

    /// Number of bytes in the string.
    pub fn len(&self) -> (r: usize)
        ensures
            r == self.size as usize,
    {
        self.size as usize
    }
}

/// Relies on std::str::from_utf8: valid UTF-8 comes back as a `&str` over the
/// same bytes.
#[verifier::external_body]
fn utf8_text(b: &[u8]) -> (r: &str)
    requires
        valid_utf8(b@),
    ensures
        r.spec_bytes() == b@,
{
    std::str::from_utf8(b).unwrap()
}

} // verus!
