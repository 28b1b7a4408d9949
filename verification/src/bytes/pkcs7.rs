//! PKCS#7 padding.
use vstd::prelude::*;

verus! {

/// The padding can be removed: the data is empty, or its last byte `n` is
/// not zero, at most the data's length, and the last `n` bytes all equal `n`.
pub open spec fn padding_ok(data: Seq<u8>) -> bool {
    data.len() == 0 || {
        let n = data.last() as int;
        &&& 0 < n <= data.len()
        &&& forall|i: int| data.len() - n <= i < data.len() ==> #[trigger] data[i] == n
    }
}

/// The data without its padding (empty data stays empty).
pub open spec fn unpadded(data: Seq<u8>) -> Seq<u8> {
    if data.len() == 0 {
        data
    } else {
        data.take(data.len() - data.last() as int)
    }
}

/// Whether `padding_ok` holds of `data`.
pub fn is_padded(data: &[u8]) -> (r: bool)
    ensures
        r == padding_ok(data@),
{
    let len = data.len();
    if len == 0 {
        return true;
    }
    let n = data[len - 1] as usize;
    if n == 0 || n > len {
        return false;
    }
    let mut i = len - n;
    while i < len
        invariant
            len == data@.len(),
            0 < n <= len,
            n == data@.last() as int,
            len - n <= i <= len,
            forall|k: int| len - n <= k < i ==> #[trigger] data@[k] == n,
        decreases len - i,
    {
        if data[i] as usize != n {
            return false;
        }
        i = i + 1;
    }
    true
}

/// Removes PKCS#7 padding in place; the padding must be well formed.
pub fn unpad(data: &mut Vec<u8>)
    requires
        padding_ok(old(data)@),
    ensures
        final(data)@ == unpadded(old(data)@),
{
    let len = data.len();
    if len > 0 {
        let count = data[len - 1] as usize;
        data.truncate(len - count);
    }
}

/// Removing the padding that PKCS#7 adds gives the data back: after `n`
/// bytes equal to `n` (for `n` from 1 to 255), the padding is well formed
/// and `unpadded` is the data.
pub proof fn lemma_unpad_padded(data: Seq<u8>, n: u8)
    requires
        n >= 1,
    ensures
        padding_ok(data + Seq::new(n as nat, |i: int| n)),
        unpadded(data + Seq::new(n as nat, |i: int| n)) == data,
{
    let p = data + Seq::new(n as nat, |i: int| n);
    assert(p.last() == n);
    assert forall|i: int| p.len() - n <= i < p.len() implies #[trigger] p[i] == n by {}
    assert(p.take(p.len() - n) =~= data);
}

} // verus!
