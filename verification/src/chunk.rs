use vstd::prelude::*;

use crate::MAX_CHUNK_LEN;

verus! {

/// Number of chunks a region of `n` bytes is split into.
pub open spec fn num_chunks(n: nat) -> nat {
    if n == 0 {
        0
    } else {
        ((n - 1) / (MAX_CHUNK_LEN as int) + 1) as nat
    }
}

/// Length of chunk `i` of a region of `n` bytes: every chunk is full except
/// possibly the last.
pub open spec fn chunk_len(n: nat, i: int) -> nat
    recommends
        0 <= i < num_chunks(n),
{
    if n - i * (MAX_CHUNK_LEN as nat) >= MAX_CHUNK_LEN {
        MAX_CHUNK_LEN as nat
    } else {
        (n - i * (MAX_CHUNK_LEN as nat)) as nat
    }
}

/// The bytes of chunk `i` of region `r`.
pub open spec fn chunk_of(r: Seq<u8>, i: int) -> Seq<u8>
    recommends
        0 <= i < num_chunks(r.len()),
{
    r.subrange(i * (MAX_CHUNK_LEN as int), i * (MAX_CHUNK_LEN as int) + chunk_len(r.len(), i))
}

/// Splits a region of `n` bytes into maximal fixed-size chunks: returns the
/// `(offset, length)` pair of every chunk, in offset order.  The pairs cover
/// `[0, n)` with no gaps or overlaps; every length is at most `MAX_CHUNK_LEN`;
/// the final length is `n % MAX_CHUNK_LEN`, or `MAX_CHUNK_LEN` when that
/// remainder is zero and `n > 0`.
pub fn chunk_bounds(n: usize) -> (r: Vec<(usize, usize)>)
    ensures
        r@.len() == num_chunks(n as nat),
        forall|i: int|
            0 <= i < r@.len() ==> #[trigger] r@[i].0 == i * (MAX_CHUNK_LEN as int) && r@[i].1
                == chunk_len(n as nat, i) && r@[i].0 + r@[i].1 <= n,
        n % MAX_CHUNK_LEN != 0 ==> r@.len() > 0 && r@[r@.len() - 1].1 == n % MAX_CHUNK_LEN,
        n % MAX_CHUNK_LEN == 0 && n > 0 ==> r@[r@.len() - 1].1 == MAX_CHUNK_LEN,
{
    let mut r: Vec<(usize, usize)> = Vec::new();
    let mut pos: usize = 0;
    while pos < n
        invariant
            pos <= n,
            r@.len() <= num_chunks(n as nat),
            r@.len() < num_chunks(n as nat) ==> pos == r@.len() * (MAX_CHUNK_LEN as int),
            r@.len() == num_chunks(n as nat) ==> pos == n,
            forall|j: int|
                0 <= j < r@.len() ==> #[trigger] r@[j].0 == j * (MAX_CHUNK_LEN as int) && r@[j].1
                    == chunk_len(n as nat, j) && r@[j].0 + r@[j].1 <= n,
        decreases n - pos,
    {
        let ghost i: int = r@.len() as int;
        proof {
            assert(i < num_chunks(n as nat)) by (nonlinear_arith)
                requires
                    0 <= i <= num_chunks(n as nat),
                    num_chunks(n as nat) == ((n as nat - 1) / (MAX_CHUNK_LEN as int) + 1),
                    i == num_chunks(n as nat) ==> pos == n,
                    pos < n,
            ;
        }
        let len = if n - pos >= MAX_CHUNK_LEN {
            MAX_CHUNK_LEN
        } else {
            n - pos
        };
        assert(len == chunk_len(n as nat, i));
        r.push((pos, len));
        pos = pos + len;
        assert(r@[i].0 == i * (MAX_CHUNK_LEN as int) && r@[i].1 == chunk_len(n as nat, i));
        assert(r@[i].0 + r@[i].1 <= n);
        assert(forall|j: int|
            0 <= j < r@.len() ==> #[trigger] r@[j].0 == j * (MAX_CHUNK_LEN as int) && r@[j].1
                == chunk_len(n as nat, j) && r@[j].0 + r@[j].1 <= n);
        proof {
            assert((i + 1 < num_chunks(n as nat) ==> pos == (i + 1) * (MAX_CHUNK_LEN as int)) && (i
                + 1 == num_chunks(n as nat) ==> pos == n) && i + 1 <= num_chunks(n as nat))
                by (nonlinear_arith)
                requires
                    0 <= i < num_chunks(n as nat),
                    n > 0,
                    num_chunks(n as nat) == ((n as nat - 1) / (MAX_CHUNK_LEN as int) + 1),
                    pos == i * (MAX_CHUNK_LEN as int) + len,
                    len == chunk_len(n as nat, i),
                    chunk_len(n as nat, i) == (if n - i * (MAX_CHUNK_LEN as nat)
                        >= MAX_CHUNK_LEN {
                        MAX_CHUNK_LEN as nat
                    } else {
                        (n - i * (MAX_CHUNK_LEN as nat)) as nat
                    }),
            ;
        }
    }
    proof {
        assert(r@.len() == num_chunks(n as nat)) by (nonlinear_arith)
            requires
                pos == n,
                r@.len() <= num_chunks(n as nat),
                num_chunks(n as nat) == (if n == 0 {
                    0
                } else {
                    ((n as nat - 1) / (MAX_CHUNK_LEN as int) + 1)
                }),
                r@.len() < num_chunks(n as nat) ==> pos == r@.len() * (MAX_CHUNK_LEN as int),
        ;
        if n > 0 {
            let q = (n as nat - 1) / (MAX_CHUNK_LEN as int);
            assert(r@.len() - 1 == q);
            assert(r@[q].0 == q * (MAX_CHUNK_LEN as int) && r@[q].1 == chunk_len(n as nat, q));
            assert((n % MAX_CHUNK_LEN != 0 ==> chunk_len(n as nat, q) == n % MAX_CHUNK_LEN) && (n
                % MAX_CHUNK_LEN == 0 ==> chunk_len(n as nat, q) == MAX_CHUNK_LEN))
                by (nonlinear_arith)
                requires
                    n > 0,
                    q == (n as nat - 1) / (MAX_CHUNK_LEN as int),
                    chunk_len(n as nat, q) == (if n - q * (MAX_CHUNK_LEN as nat)
                        >= MAX_CHUNK_LEN {
                        MAX_CHUNK_LEN as nat
                    } else {
                        (n - q * (MAX_CHUNK_LEN as nat)) as nat
                    }),
            ;
        }
    }
    r
}

} // verus!
