//! How bytes are taken from a source, and what they stand for.

use vstd::prelude::*;

use super::ByteSource;
use crate::types::IoFailure;

verus! {

/// Two bytes stand for the number whose digits to the base 256 they are, the more significant one
/// first, and so do four.
pub proof fn law_numbers_of_bytes(s: Seq<u8>, i: int)
    ensures
        super::be16(s, i) / 256 == s[i],
        super::be16(s, i) % 256 == s[i + 1],
        super::be32(s, i) / 0x1_0000 == super::be16(s, i),
        super::be32(s, i) % 0x1_0000 == super::be16(s, i + 2),
{
}

/// Bytes are taken in order: what is left is what there was, without what has been taken. Taking
/// bytes in two portions is taking them all at once.
pub proof fn law_bytes_are_taken_in_order<E>(source: ByteSource<E>, m: int, n: int)
    requires
        source.wf(),
        0 <= m,
        0 <= n,
        m + n <= source.rest().len(),
    ensures
        source.rest().len() + source.pos == source.data@.len(),
        forall|i: int|
            0 <= i < source.rest().len() ==> #[trigger] source.rest()[i] == source.data@[source.pos
                + i],
        source.advanced(m).wf(),
        source.advanced(m).rest() == source.rest().skip(m),
        source.advanced(m).advanced(n) == source.advanced(m + n),
        source.advanced(m).fault == source.fault,
{
    assert(source.advanced(m).rest() =~= source.rest().skip(m));
}

/// Whoever asks for more than there is gets the error of the reader once, or else the error that
/// there is no more. Then there is nothing left.
pub proof fn law_end_of_source<E>(source: ByteSource<E>)
    requires
        source.wf(),
    ensures
        source.fault matches Some(f) ==> source.end_failure() == IoFailure::Reader(f),
        source.fault is None ==> source.end_failure() == IoFailure::<E>::UnexpectedEof,
        source.exhausted().wf(),
        source.exhausted().rest().len() == 0,
        source.exhausted().end_failure() == IoFailure::<E>::UnexpectedEof,
{
}

/// A window shows at least one byte where there is one, and no more than it is set to. It shows as
/// many as that allows.
pub proof fn law_windows<E>(source: ByteSource<E>)
    requires
        source.wf(),
    ensures
        source.window_len() <= source.rest().len(),
        source.window_len() <= source.window,
        source.rest().len() > 0 ==> source.window_len() > 0,
        source.window_len() == source.rest().len() || source.window_len() == source.window,
{
}

} // verus!
