//! Reading the chunk list of a RIFF container, such as a WebP image: a
//! 12-byte header, then chunks of a four-byte FourCC, a little-endian
//! 32-bit size and that many payload bytes, padded to an even length.

use vstd::prelude::*;
use vstd::slice::slice_subrange;

verus! {

/// Where the first chunk starts, after the `RIFF`, size and form header.
pub const FIRST_CHUNK: usize = 12;

/// The little-endian 32-bit number in the four bytes at `i`.
pub open spec fn le_u32(b: Seq<u8>, i: int) -> int {
    b[i] + 256 * b[i + 1] + 65536 * b[i + 2] + 16777216 * b[i + 3]
}

/// The chunks from offset `at` on, each as where its FourCC starts and
/// where its payload starts and ends. The walk stops at the first chunk
/// whose header or payload runs past the end.
pub open spec fn chunks_from(b: Seq<u8>, at: int) -> Seq<(int, int, int)>
    decreases b.len() + 1 - at,
{
    if at < 0 || at + 8 > b.len() {
        Seq::empty()
    } else {
        let size = le_u32(b, at + 4);
        let start = at + 8;
        let end = start + size;
        if size < 0 || end > b.len() {
            Seq::empty()
        } else {
            seq![(at, start, end)] + chunks_from(b, end + if size % 2 == 1 { 1int } else { 0int })
        }
    }
}

/// Each chunk's FourCC and payload, in order.
pub fn chunks(bytes: &[u8]) -> (r: Vec<(&[u8], &[u8])>)
    ensures
        r@.len() == chunks_from(bytes@, FIRST_CHUNK as int).len(),
        forall|i: int|
            0 <= i < r@.len() ==> {
                let c = #[trigger] chunks_from(bytes@, FIRST_CHUNK as int)[i];
                &&& r@[i].0@ == bytes@.subrange(c.0, c.0 + 4)
                &&& r@[i].1@ == bytes@.subrange(c.1, c.2)
            },
{
    let ghost b = bytes@;
    let n = bytes.len();
    let mut found: Vec<(&[u8], &[u8])> = Vec::new();
    let mut at: usize = FIRST_CHUNK;
    let ghost mut done: Seq<(int, int, int)> = Seq::empty();
    loop
        invariant
            n == b.len(),
            b == bytes@,
            chunks_from(b, FIRST_CHUNK as int) == done + chunks_from(b, at as int),
            found@.len() == done.len(),
            forall|i: int|
                0 <= i < found@.len() ==> {
                    let c = #[trigger] done[i];
                    &&& found@[i].0@ == b.subrange(c.0, c.0 + 4)
                    &&& found@[i].1@ == b.subrange(c.1, c.2)
                },
        ensures
            chunks_from(b, FIRST_CHUNK as int) == done,
            found@.len() == done.len(),
            forall|i: int|
                0 <= i < found@.len() ==> {
                    let c = #[trigger] done[i];
                    &&& found@[i].0@ == b.subrange(c.0, c.0 + 4)
                    &&& found@[i].1@ == b.subrange(c.1, c.2)
                },
        decreases n + 1 - at,
    {
        if n < 8 || at > n - 8 {
            proof {
                assert(chunks_from(b, at as int) =~= Seq::<(int, int, int)>::empty());
                assert(done + Seq::<(int, int, int)>::empty() =~= done);
            }
            break;
        }
        let size: u64 = bytes[at + 4] as u64 + 256 * (bytes[at + 5] as u64) + 65536 * (bytes[at + 6] as u64)
            + 16777216 * (bytes[at + 7] as u64);
        let start = at + 8;
        if size > (n - start) as u64 {
            proof {
                assert(chunks_from(b, at as int) =~= Seq::<(int, int, int)>::empty());
                assert(done + Seq::<(int, int, int)>::empty() =~= done);
            }
            break;
        }
        let end = start + size as usize;
        let fourcc = slice_subrange(bytes, at, at + 4);
        let payload = slice_subrange(bytes, start, end);
        found.push((fourcc, payload));
        proof {
            let c = (at as int, start as int, end as int);
            let next = end + if size % 2 == 1 { 1int } else { 0int };
            assert(chunks_from(b, at as int) == seq![c] + chunks_from(b, next));
            assert(done + (seq![c] + chunks_from(b, next)) =~= done.push(c) + chunks_from(b, next));
            if size % 2 == 1 && end == n {
                assert(chunks_from(b, next) =~= Seq::<(int, int, int)>::empty());
                assert(chunks_from(b, end as int) =~= Seq::<(int, int, int)>::empty());
            }
            done = done.push(c);
        }
        if size % 2 == 1 && end < n {
            at = end + 1;
        } else {
            at = end;
        }
    }
    found
}

} // verus!
