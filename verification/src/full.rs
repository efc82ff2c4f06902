use vstd::prelude::*;

use crate::sink::lz4_frame_of;
use crate::sink::Sink;
use crate::sink::StreamError;
use crate::MAX_CHUNK_LEN;

verus! {

/// The baseline, non-incremental mode: streams a memory region, in fixed-size
/// chunks, into an output stream with no deduplication.  Returns the bytes
/// for the destination: the region itself when raw, its LZ4 frame when
/// compressed.  A raw dump cannot fail; a stream error is fatal.
pub fn dump_full(region: &[u8], compress: bool) -> (r: Result<Vec<u8>, StreamError>)
    ensures
        r is Ok ==> (r->Ok_0)@ == (if compress {
            lz4_frame_of(region@)
        } else {
            region@
        }),
        !compress ==> r is Ok,
{
    let mut sink = match Sink::new(compress) {
        Ok(s) => s,
        Err(e) => {
            return Err(e);
        },
    };
    let n = region.len();
    let mut pos: usize = 0;
    while pos < n
        invariant
            pos <= n,
            n == region@.len(),
            sink.fed() == region@.take(pos as int),
            sink.is_raw() == !compress,
        decreases n - pos,
    {
        let len = if n - pos >= MAX_CHUNK_LEN {
            MAX_CHUNK_LEN
        } else {
            n - pos
        };
        let data = vstd::slice::slice_subrange(region, pos, pos + len);
        match sink.write(data) {
            Ok(()) => {},
            Err(e) => {
                return Err(e);
            },
        }
        pos = pos + len;
        proof {
            assert(region@.take(pos - len) + region@.subrange(pos - len, pos as int)
                =~= region@.take(pos as int));
        }
    }
    proof {
        assert(region@.take(n as int) =~= region@);
    }
    sink.finish()
}

} // verus!
