use vstd::prelude::*;

use crate::chunk::chunk_bounds;
use crate::chunk::chunk_of;
use crate::chunk::num_chunks;
use crate::digest::wyhash_digest;
use crate::digest::digest_of;
use crate::digest::Digest;
use crate::sink::lz4_frame_of;
use crate::sink::Sink;
use crate::sink::StreamError;
use crate::table::tbl_get;
use crate::table::tbl_insert;
use crate::table::BlockTable;
use crate::MAX_CHUNK_LEN;
use vstd::slice::slice_subrange;

verus! {

/// How often a digest occurs in one generation's sequence.
pub open spec fn count_in(s: Seq<Digest>, d: Digest) -> nat
    decreases s.len(),
{
    if s.len() == 0 {
        0
    } else {
        count_in(s.drop_last(), d) + (if s.last() == d {
            1nat
        } else {
            0nat
        })
    }
}

/// How often a digest occurs over all generations.
pub open spec fn count_all(gs: Seq<Seq<Digest>>, d: Digest) -> nat
    decreases gs.len(),
{
    if gs.len() == 0 {
        0
    } else {
        count_all(gs.drop_last(), d) + count_in(gs.last(), d)
    }
}

/// Total number of digests over all generations.
pub open spec fn total_len(gs: Seq<Seq<Digest>>) -> nat
    decreases gs.len(),
{
    if gs.len() == 0 {
        0
    } else {
        total_len(gs.drop_last()) + gs.last().len()
    }
}

/// Concatenation, in sequence order, of the payloads referenced by a digest
/// sequence.  Applied to a generation's manifest it reconstructs that
/// capture; applied to the block creation order it gives the stream content.
pub open spec fn restore(man: Seq<Digest>, pays: Map<Digest, Seq<u8>>) -> Seq<u8>
    decreases man.len(),
{
    if man.len() == 0 {
        Seq::empty()
    } else {
        restore(man.drop_last(), pays) + pays[man.last()]
    }
}

/// The digest of every chunk of a region, in offset order: the manifest a
/// capture of that region appends.
pub open spec fn digest_seq(region: Seq<u8>) -> Seq<Digest> {
    Seq::new(num_chunks(region.len()), |i: int| digest_of(chunk_of(region, i)))
}

/// The set of byte contents of a region's chunks.
pub open spec fn chunk_set(region: Seq<u8>) -> Set<Seq<u8>> {
    Set::new(
        |b: Seq<u8>|
            exists|i: int|
                0 <= i < num_chunks(region.len()) && b == #[trigger] chunk_of(region, i),
    )
}

/// The set of payloads a store holds.
pub open spec fn payload_values(pays: Map<Digest, Seq<u8>>) -> Set<Seq<u8>> {
    Set::new(|b: Seq<u8>| exists|d: Digest| #[trigger] pays.dom().contains(d) && pays[d] == b)
}

/// The digest function tells the members of `bs` apart: no two distinct byte
/// sequences among them share a digest.  Dedup is only faithful under this
/// hypothesis; a collision silently merges distinct content.
pub open spec fn injective_on(bs: Set<Seq<u8>>) -> bool {
    forall|b1: Seq<u8>, b2: Seq<u8>|
        #![trigger bs.contains(b1), bs.contains(b2)]
        bs.contains(b1) && bs.contains(b2) && digest_of(b1) == digest_of(b2) ==> b1 == b2
}

proof fn lemma_count_in_push(s: Seq<Digest>, h: Digest, d: Digest)
    ensures
        count_in(s.push(h), d) == count_in(s, d) + (if h == d {
            1nat
        } else {
            0nat
        }),
{
    assert(s.push(h).drop_last() =~= s);
    assert(s.push(h).last() == h);
}

proof fn lemma_count_in_absent(s: Seq<Digest>, d: Digest)
    requires
        forall|i: int| 0 <= i < s.len() ==> s[i] != d,
    ensures
        count_in(s, d) == 0,
    decreases s.len(),
{
    if s.len() > 0 {
        lemma_count_in_absent(s.drop_last(), d);
    }
}

proof fn lemma_count_all_absent(gs: Seq<Seq<Digest>>, d: Digest)
    requires
        forall|g: int, i: int| 0 <= g < gs.len() && 0 <= i < gs[g].len() ==> gs[g][i] != d,
    ensures
        count_all(gs, d) == 0,
    decreases gs.len(),
{
    if gs.len() > 0 {
        lemma_count_all_absent(gs.drop_last(), d);
        lemma_count_in_absent(gs.last(), d);
    }
}

proof fn lemma_restore_insert_fresh(man: Seq<Digest>, pays: Map<Digest, Seq<u8>>, h: Digest, b: Seq<
    u8,
>)
    requires
        forall|i: int| 0 <= i < man.len() ==> man[i] != h,
    ensures
        restore(man, pays.insert(h, b)) == restore(man, pays),
    decreases man.len(),
{
    if man.len() > 0 {
        lemma_restore_insert_fresh(man.drop_last(), pays, h, b);
        assert(man.last() != h);
    }
}

/// The incremental, content-addressed snapshot store: a deduplicating block
/// store with reference counting, the per-generation manifests, and the
/// backing output stream.
pub struct Incremental {
    /// Digest -> (block sequence id, reference count).
    blocks: BlockTable,
    /// Index of the currently open generation.
    generation: u32,
    /// Manifests of the closed generations, oldest first.
    closed: Vec<Vec<Digest>>,
    /// Manifest of the open generation.
    current: Vec<Digest>,
    /// Number of distinct blocks created so far.
    blocks_total: u64,
    /// Total number of manifest entries over all generations.
    entries: u64,
    /// The output stream unique payloads are appended to, raw or compressed.
    sink: Sink,
    /// Digest -> payload bytes, for every block created so far.
    payloads: Ghost<Map<Digest, Seq<u8>>>,
    /// Digests in block creation order: position equals block sequence id.
    order: Ghost<Seq<Digest>>,
}

impl Incremental {
    /// The digest table: digest -> (block sequence id, reference count).
    pub closed spec fn table(&self) -> Map<Digest, (u64, u64)> {
        self.blocks@
    }

    /// Every generation's manifest, oldest first; the last is the open one.
    pub closed spec fn gens(&self) -> Seq<Seq<Digest>> {
        self.closed@.map_values(|v: Vec<Digest>| v@).push(self.current@)
    }

    /// Index of the open generation.
    pub closed spec fn generation_idx(&self) -> int {
        self.generation as int
    }

    /// Payload bytes of every block created so far, by digest.
    pub closed spec fn payloads(&self) -> Map<Digest, Seq<u8>> {
        self.payloads@
    }

    /// Digests in block creation order: position equals block sequence id.
    pub closed spec fn order(&self) -> Seq<Digest> {
        self.order@
    }

    /// Number of distinct blocks created so far.
    pub closed spec fn num_blocks(&self) -> nat {
        self.order@.len()
    }

    /// Total number of manifest entries over all generations.
    pub closed spec fn entries(&self) -> nat {
        self.entries as nat
    }

    /// Whether the output stream is raw (writes to it cannot fail).
    pub closed spec fn is_raw(&self) -> bool {
        self.sink.is_raw()
    }

    /// The bytes fed to the output stream so far: each distinct payload once,
    /// in block creation order.
    pub open spec fn stream(&self) -> Seq<u8> {
        restore(self.order(), self.payloads())
    }

    /// Well-formedness: the dedup invariants every operation preserves.
    pub closed spec fn wf(&self) -> bool {
        &&& self.closed@.len() == self.generation as int
        &&& self.table().dom() =~= self.payloads@.dom()
        &&& forall|d: Digest| #[trigger]
            self.payloads@.dom().contains(d) ==> digest_of(self.payloads@[d]) == d
        &&& self.order@.no_duplicates()
        &&& self.order@.to_set() =~= self.payloads@.dom()
        &&& self.payloads@.dom().finite()
        &&& self.blocks_total == self.order@.len()
        &&& self.order@.len() <= self.entries
        &&& forall|d: Digest| #[trigger]
            self.table().dom().contains(d) ==> self.table()[d].0 < self.order@.len()
                && self.order@[self.table()[d].0 as int] == d
        &&& forall|d: Digest| #[trigger]
            self.table().dom().contains(d) ==> self.table()[d].1 == count_all(self.gens(), d)
                && self.table()[d].1 <= self.entries
        &&& forall|g: int, i: int|
            0 <= g < self.gens().len() && 0 <= i < self.gens()[g].len()
                ==> self.payloads@.dom().contains(#[trigger] self.gens()[g][i])
        &&& self.entries == total_len(self.gens())
        &&& self.sink.fed() == self.stream()
    }

    /// Opens a capture session: an empty block store, an empty generation 0
    /// manifest, and a fresh output stream, compressed or raw.  Fails only if
    /// the compressor cannot be set up.
    pub fn new(compress: bool) -> (r: Result<Incremental, StreamError>)
        ensures
            r is Ok ==> {
                let s = r->Ok_0;
                &&& s.wf()
                &&& s.generation_idx() == 0
                &&& s.gens() =~= seq![Seq::<Digest>::empty()]
                &&& s.payloads() =~= Map::<Digest, Seq<u8>>::empty()
                &&& s.order() =~= Seq::<Digest>::empty()
                &&& s.entries() == 0
                &&& s.is_raw() == !compress
            },
            !compress ==> r is Ok,
    {
        let sink = match Sink::new(compress) {
            Ok(s) => s,
            Err(e) => {
                return Err(e);
            },
        };
        let incr = Incremental {
            blocks: Default::default(),
            generation: 0,
            closed: Vec::new(),
            current: Vec::new(),
            blocks_total: 0,
            entries: 0,
            sink,
            payloads: Ghost(Map::empty()),
            order: Ghost(Seq::empty()),
        };
        proof {
            assert(incr.gens() =~= seq![Seq::<Digest>::empty()]);
            assert(incr.order@.to_set() =~= incr.payloads@.dom());
            assert(incr.table() =~= Map::<Digest, (u64, u64)>::empty());
            assert(incr.gens().drop_last() =~= Seq::<Seq<Digest>>::empty());
            assert(total_len(Seq::<Seq<Digest>>::empty()) == 0);
            assert(total_len(incr.gens()) == 0);
            assert(incr.stream() == Seq::<u8>::empty());
            assert(incr.wf());
        }
        Ok(incr)
    }

    /// Read-only snapshot for reporting: the open generation's index and the
    /// total number of distinct blocks in the store.
    pub fn stats(&self) -> (r: (u32, u64))
        requires
            self.wf(),
        ensures
            r.0 == self.generation_idx(),
            r.1 == self.num_blocks(),
    {
        (self.generation, self.blocks_total)
    }

    /// Closes the current generation and opens a new, empty one; everything
    /// else — blocks, reference counts, the stream — is untouched.
    pub fn new_generation(&mut self)
        requires
            old(self).wf(),
            old(self).generation_idx() < u32::MAX,
        ensures
            final(self).wf(),
            rotate_ok(*old(self), *final(self)),
    {
        let mut done: Vec<Digest> = Vec::new();
        core::mem::swap(&mut self.current, &mut done);
        self.closed.push(done);
        self.generation = self.generation + 1;
        proof {
            let pre = *old(self);
            assert(self.gens() =~= pre.gens().push(Seq::<Digest>::empty()));
            assert(self.gens().drop_last() =~= pre.gens());
            assert(forall|d: Digest|
                count_all(#[trigger] self.gens(), d) == count_all(pre.gens(), d) + count_in(
                    Seq::<Digest>::empty(),
                    d,
                ));
            assert(total_len(self.gens()) == total_len(pre.gens()));
        }
    }
}

/// Relation between a store before and after one successful chunk
/// resolution: the chunk's digest is appended to the open generation's
/// manifest; a block (payload and table entry) is created only if the digest
/// was unknown; a known digest only gains a reference.
pub open spec fn add_ok(pre: Incremental, post: Incremental, data: Seq<u8>) -> bool {
    let d = digest_of(data);
    let g = pre.generation_idx();
    &&& post.generation_idx() == g
    &&& post.gens() =~= pre.gens().update(g, pre.gens()[g].push(d))
    &&& post.payloads() == (if pre.payloads().dom().contains(d) {
        pre.payloads()
    } else {
        pre.payloads().insert(d, data)
    })
    &&& post.order() == (if pre.payloads().dom().contains(d) {
        pre.order()
    } else {
        pre.order().push(d)
    })
    &&& post.entries() == pre.entries() + 1
    &&& post.is_raw() == pre.is_raw()
}

impl Incremental {
    /// Resolves one already-hashed chunk, in offset order, against the store:
    /// atomically checks the digest, appends the payload to the output stream
    /// and creates a block if and only if the digest is new, increments the
    /// reference count otherwise, and appends the digest to the open
    /// generation's manifest.  A known digest or a raw stream cannot fail; a
    /// failure is a fatal stream error and the store must be dropped.
    pub fn add_hashed_chunk(&mut self, data: &[u8], hash: Digest) -> (r: Result<(), StreamError>)
        requires
            old(self).wf(),
            hash == digest_of(data@),
            old(self).entries() < u64::MAX,
        ensures
            r is Ok ==> final(self).wf() && add_ok(*old(self), *final(self), data@),
            old(self).is_raw() || old(self).payloads().dom().contains(digest_of(data@)) ==> r
                is Ok,
            r is Err ==> final(self).gens() == old(self).gens() && final(self).payloads() == old(
                self,
            ).payloads() && final(self).order() == old(self).order() && final(self).entries()
                == old(self).entries(),
    {
        let ghost pre = *old(self);
        match tbl_get(&self.blocks, hash) {
            Some((id, rc)) => {
                tbl_insert(&mut self.blocks, hash, (id, rc + 1));
                self.current.push(hash);
                self.entries = self.entries + 1;
                proof {
                    assert(self.gens() =~= pre.gens().update(
                        pre.generation_idx(),
                        pre.gens()[pre.generation_idx()].push(hash),
                    ));
                    lemma_gens_update_counts(pre.gens(), self.gens(), pre.generation_idx(), hash);
                    assert(self.table().dom() =~= pre.table().dom());
                    assert(add_ok(pre, *self, data@));
                }
                Ok(())
            },
            None => {
                match self.sink.write(data) {
                    Ok(()) => {},
                    Err(e) => {
                        return Err(e);
                    },
                }
                let id = self.blocks_total;
                tbl_insert(&mut self.blocks, hash, (id, 1));
                self.blocks_total = self.blocks_total + 1;
                self.current.push(hash);
                self.entries = self.entries + 1;
                proof {
                    self.payloads@ = pre.payloads().insert(hash, data@);
                    self.order@ = pre.order().push(hash);
                    assert(self.gens() =~= pre.gens().update(
                        pre.generation_idx(),
                        pre.gens()[pre.generation_idx()].push(hash),
                    ));
                    lemma_gens_update_counts(pre.gens(), self.gens(), pre.generation_idx(), hash);
                    assert forall|g: int, i: int|
                        0 <= g < pre.gens().len() && 0 <= i < pre.gens()[g].len() implies pre.gens()[g][i]
                        != hash by {
                        assert(pre.payloads@.dom().contains(pre.gens()[g][i]));
                    }
                    lemma_count_all_absent(pre.gens(), hash);
                    assert(self.table().dom() =~= self.payloads@.dom());
                    pre.order@.lemma_push_to_set_commute(hash);
                    assert(self.order@.to_set() =~= self.payloads@.dom());
                    assert forall|i: int, j: int|
                        0 <= i < self.order@.len() && 0 <= j < self.order@.len() && i != j implies
                        self.order@[i] != self.order@[j] by {
                        if self.order@[i] == hash && i < pre.order@.len() {
                            assert(pre.order@.contains(hash));
                        }
                        if self.order@[j] == hash && j < pre.order@.len() {
                            assert(pre.order@.contains(hash));
                        }
                    }
                    assert(self.order@.no_duplicates());
                    assert forall|i: int| 0 <= i < pre.order@.len() implies pre.order@[i]
                        != hash by {
                        if pre.order@[i] == hash {
                            assert(pre.order@.contains(hash));
                        }
                    }
                    lemma_restore_insert_fresh(pre.order@, pre.payloads@, hash, data@);
                    assert(restore(self.order@, self.payloads@) == restore(
                        pre.order@,
                        self.payloads@,
                    ) + self.payloads@[hash]) by {
                        assert(self.order@.drop_last() =~= pre.order@);
                    }
                    assert(self.sink.fed() == self.stream());
                    assert(self.wf());
                    assert(add_ok(pre, *self, data@));
                }
                Ok(())
            },
        }
    }
}

/// Counting facts when one digest is appended to the open (last) generation:
/// its count rises by one, every other count and the total rise accordingly.
proof fn lemma_gens_update_counts(gs: Seq<Seq<Digest>>, gs2: Seq<Seq<Digest>>, g: int, d: Digest)
    requires
        gs.len() > 0,
        g == gs.len() - 1,
        gs2 =~= gs.update(g, gs[g].push(d)),
    ensures
        forall|x: Digest|
            count_all(gs2, x) == count_all(gs, x) + (if x == d {
                1nat
            } else {
                0nat
            }),
        total_len(gs2) == total_len(gs) + 1,
{
    assert(gs2.drop_last() =~= gs.drop_last());
    assert(gs2.last() =~= gs.last().push(d));
    assert forall|x: Digest|
        count_all(gs2, x) == count_all(gs, x) + (if x == d {
            1nat
        } else {
            0nat
        }) by {
        lemma_count_in_push(gs.last(), d, x);
    }
}

/// Relation between a store before and after one successful capture of a
/// region: the open generation's manifest gains the region's chunk digests in
/// offset order; the payload table gains exactly the unknown digests; and —
/// provided the digest tells all payloads and chunks involved apart — each
/// appended digest maps to the bytes of a chunk with that digest.
pub open spec fn capture_ok(pre: Incremental, post: Incremental, region: Seq<u8>) -> bool {
    let n = num_chunks(region.len());
    let g = pre.generation_idx();
    let dseq = digest_seq(region);
    &&& post.generation_idx() == g
    &&& post.gens() =~= pre.gens().update(g, pre.gens()[g] + dseq)
    &&& post.payloads().dom() =~= pre.payloads().dom().union(dseq.to_set())
    &&& forall|d: Digest| #[trigger]
        pre.payloads().dom().contains(d) ==> post.payloads().dom().contains(d)
            && post.payloads()[d] == pre.payloads()[d]
    &&& post.entries() == pre.entries() + n
    &&& post.is_raw() == pre.is_raw()
    &&& (injective_on(payload_values(pre.payloads()).union(chunk_set(region))) ==> forall|i: int|
        0 <= i < n ==> post.payloads()[dseq[i]] == chunk_of(region, i))
}

impl Incremental {
    /// One capture cycle over a memory region: splits it into chunks, hashes
    /// each chunk, and resolves every chunk in offset order against the
    /// store, appending its digest to the open generation's manifest.  Each
    /// distinct new payload is written to the output stream exactly once.  A
    /// raw stream cannot fail; on a stream error the session is fatal.
    pub fn capture(&mut self, region: &[u8]) -> (r: Result<(), StreamError>)
        requires
            old(self).wf(),
            old(self).entries() + num_chunks(region@.len()) <= u64::MAX,
        ensures
            r is Ok ==> final(self).wf() && capture_ok(*old(self), *final(self), region@),
            old(self).is_raw() ==> r is Ok,
    {
        let ghost pre = *old(self);
        let ghost g = pre.generation_idx();
        let ghost dseq = digest_seq(region@);
        let ghost hyp = injective_on(payload_values(pre.payloads()).union(chunk_set(region@)));
        let n = region.len();
        let bounds = chunk_bounds(n);
        let mut idx: usize = 0;
        proof {
            assert(dseq.take(0) =~= Seq::<Digest>::empty());
            assert(pre.gens()[g] + dseq.take(0) =~= pre.gens()[g]);
            assert(pre.gens().update(g, pre.gens()[g] + dseq.take(0)) =~= pre.gens());
            assert(pre.payloads().dom().union(dseq.take(0).to_set()) =~= pre.payloads().dom());
        }
        while idx < bounds.len()
            invariant
                pre == *old(self),
                self.wf(),
                region@.len() == n,
                bounds@.len() == num_chunks(n as nat),
                dseq == digest_seq(region@),
                dseq.len() == num_chunks(n as nat),
                g == pre.generation_idx(),
                hyp == injective_on(payload_values(pre.payloads()).union(chunk_set(region@))),
                pre.wf(),
                pre.entries() + num_chunks(n as nat) <= u64::MAX,
                forall|j: int|
                    0 <= j < bounds@.len() ==> #[trigger] bounds@[j].0 == j * (
                    MAX_CHUNK_LEN as int) && bounds@[j].1 == crate::chunk::chunk_len(
                        n as nat,
                        j,
                    ) && bounds@[j].0 + bounds@[j].1 <= n,
                idx <= bounds@.len(),
                self.generation_idx() == g,
                self.gens() =~= pre.gens().update(g, pre.gens()[g] + dseq.take(idx as int)),
                self.payloads().dom() =~= pre.payloads().dom().union(
                    dseq.take(idx as int).to_set(),
                ),
                forall|d: Digest| #[trigger]
                    pre.payloads().dom().contains(d) ==> self.payloads().dom().contains(d)
                        && self.payloads()[d] == pre.payloads()[d],
                self.entries() == pre.entries() + idx,
                self.is_raw() == pre.is_raw(),
                hyp ==> forall|j: int|
                    0 <= j < idx ==> self.payloads()[dseq[j]] == #[trigger] chunk_of(region@, j),
            decreases bounds@.len() - idx,
        {
            let ghost prev = *self;
            let (off, len) = bounds[idx];
            let data = slice_subrange(region, off, off + len);
            proof {
                assert(data@ == chunk_of(region@, idx as int));
            }
            let h = wyhash_digest(data);
            match self.add_hashed_chunk(data, h) {
                Ok(()) => {},
                Err(e) => {
                    return Err(e);
                },
            }
            proof {
                lemma_capture_step(pre, prev, *self, region@, idx as int);
            }
            idx = idx + 1;
        }
        proof {
            assert(dseq.take(dseq.len() as int) =~= dseq);
            assert(capture_ok(pre, *self, region@));
        }
        Ok(())
    }
}

/// Proof that one chunk resolution extends the capture invariants from the
/// first `i` chunks to the first `i + 1`.
proof fn lemma_capture_step(
    pre: Incremental,
    prev: Incremental,
    post: Incremental,
    region: Seq<u8>,
    i: int,
)
    requires
        pre.wf(),
        prev.wf(),
        post.wf(),
        0 <= i < num_chunks(region.len()),
        prev.generation_idx() == pre.generation_idx(),
        prev.gens() =~= pre.gens().update(
            pre.generation_idx(),
            pre.gens()[pre.generation_idx()] + digest_seq(region).take(i),
        ),
        prev.payloads().dom() =~= pre.payloads().dom().union(digest_seq(region).take(i).to_set()),
        forall|d: Digest| #[trigger]
            pre.payloads().dom().contains(d) ==> prev.payloads().dom().contains(d)
                && prev.payloads()[d] == pre.payloads()[d],
        injective_on(payload_values(pre.payloads()).union(chunk_set(region))) ==> forall|j: int|
            0 <= j < i ==> prev.payloads()[digest_seq(region)[j]] == #[trigger] chunk_of(region, j),
        add_ok(prev, post, chunk_of(region, i)),
    ensures
        post.generation_idx() == pre.generation_idx(),
        post.gens() =~= pre.gens().update(
            pre.generation_idx(),
            pre.gens()[pre.generation_idx()] + digest_seq(region).take(i + 1),
        ),
        post.payloads().dom() =~= pre.payloads().dom().union(
            digest_seq(region).take(i + 1).to_set(),
        ),
        forall|d: Digest| #[trigger]
            pre.payloads().dom().contains(d) ==> post.payloads().dom().contains(d)
                && post.payloads()[d] == pre.payloads()[d],
        injective_on(payload_values(pre.payloads()).union(chunk_set(region))) ==> forall|j: int|
            0 <= j < i + 1 ==> post.payloads()[digest_seq(region)[j]] == #[trigger] chunk_of(
                region,
                j,
            ),
{
    let g = pre.generation_idx();
    let dseq = digest_seq(region);
    let d = dseq[i];
    let ck = chunk_of(region, i);
    assert(digest_of(ck) == d);
    assert(dseq.take(i + 1) =~= dseq.take(i).push(d));
    dseq.take(i).lemma_push_to_set_commute(d);
    assert(post.gens() =~= pre.gens().update(g, pre.gens()[g] + dseq.take(i + 1))) by {
        assert(prev.gens()[g] == pre.gens()[g] + dseq.take(i));
        assert((pre.gens()[g] + dseq.take(i)).push(d) =~= pre.gens()[g] + dseq.take(i + 1));
        assert(post.gens() =~= prev.gens().update(g, prev.gens()[g].push(d)));
    }
    if prev.payloads().dom().contains(d) {
        assert(post.payloads() == prev.payloads());
        assert(post.payloads().dom() =~= pre.payloads().dom().union(dseq.take(i + 1).to_set()));
    } else {
        assert(post.payloads() == prev.payloads().insert(d, ck));
        assert(post.payloads().dom() =~= pre.payloads().dom().union(dseq.take(i + 1).to_set()));
    }
    if injective_on(payload_values(pre.payloads()).union(chunk_set(region))) {
        let bs = payload_values(pre.payloads()).union(chunk_set(region));
        assert(bs.contains(ck)) by {
            assert(chunk_set(region).contains(ck));
        }
        assert forall|j: int| 0 <= j < i + 1 implies post.payloads()[dseq[j]] == #[trigger] chunk_of(
            region,
            j,
        ) by {
            if j < i {
                if prev.payloads().dom().contains(d) {
                    assert(post.payloads()[dseq[j]] == prev.payloads()[dseq[j]]);
                } else {
                    assert(dseq.take(i)[j] == dseq[j]);
                    assert(dseq.take(i).to_set().contains(dseq[j])) by {
                        assert(dseq.take(i).contains(dseq[j]));
                    }
                    assert(prev.payloads().dom().contains(dseq[j]));
                    assert(dseq[j] != d);
                    assert(post.payloads()[dseq[j]] == prev.payloads()[dseq[j]]);
                }
            } else {
                if prev.payloads().dom().contains(d) {
                    if pre.payloads().dom().contains(d) {
                        let b = pre.payloads()[d];
                        assert(bs.contains(b)) by {
                            assert(payload_values(pre.payloads()).contains(b));
                        }
                        assert(digest_of(b) == d) by {
                            assert(prev.payloads()[d] == b);
                        }
                        assert(b == ck);
                        assert(post.payloads()[d] == prev.payloads()[d]);
                    } else {
                        assert(dseq.take(i).to_set().contains(d));
                        assert(dseq.take(i).contains(d));
                        let jj = choose|jj: int| 0 <= jj < i && dseq.take(i)[jj] == d;
                        assert(dseq[jj] == d);
                        assert(prev.payloads()[dseq[jj]] == chunk_of(region, jj));
                        assert(bs.contains(chunk_of(region, jj))) by {
                            assert(chunk_set(region).contains(chunk_of(region, jj)));
                        }
                        assert(digest_of(chunk_of(region, jj)) == dseq[jj]);
                        assert(chunk_of(region, jj) == ck);
                        assert(post.payloads()[d] == prev.payloads()[d]);
                    }
                } else {
                    assert(post.payloads()[d] == ck);
                }
            }
        }
    }
}

impl Incremental {
    /// Computes the digest of one chunk: a pure function of the chunk's
    /// bytes, stable across calls and sessions, so that equal content always
    /// resolves to the same block.
    pub fn hash_chunk(data: &[u8]) -> (h: Digest)
        ensures
            h == digest_of(data@),
    {
        wyhash_digest(data)
    }

    /// Number of entries in generation `g`'s manifest.
    pub fn generation_len(&self, g: u32) -> (r: usize)
        requires
            self.wf(),
            g <= self.generation_idx(),
        ensures
            r == self.gens()[g as int].len(),
    {
        if g < self.generation {
            self.closed[g as usize].len()
        } else {
            self.current.len()
        }
    }

    /// Entry `i` of generation `g`'s manifest: the digest of chunk `i` of
    /// that capture.
    pub fn manifest_entry(&self, g: u32, i: usize) -> (r: Digest)
        requires
            self.wf(),
            g <= self.generation_idx(),
            i < self.gens()[g as int].len(),
        ensures
            r == self.gens()[g as int][i as int],
    {
        if g < self.generation {
            self.closed[g as usize][i]
        } else {
            self.current[i]
        }
    }

    /// Total number of manifest entries over all generations so far.
    pub fn entry_count(&self) -> (r: u64)
        ensures
            r == self.entries(),
    {
        self.entries
    }

    /// Looks a digest up in the block table: its block sequence id and
    /// reference count, or `None` for a digest no block is stored under.
    pub fn lookup(&self, hash: Digest) -> (r: Option<(u64, u64)>)
        requires
            self.wf(),
        ensures
            r == (if self.table().dom().contains(hash) {
                Some(self.table()[hash])
            } else {
                None::<(u64, u64)>
            }),
    {
        tbl_get(&self.blocks, hash)
    }

    /// Flush metadata to durable storage.  The manifests are kept in memory
    /// only for the session's lifetime; nothing is written and the store is
    /// unchanged.
    pub fn flush(&mut self)
        ensures
            *final(self) == *old(self),
    {
    }

    /// Ends the session: finalizes the output stream (flush and trailer for
    /// a compressed one) and returns the bytes for the destination — each
    /// distinct payload once, in block creation order, raw or as one LZ4
    /// frame.  Finalization failure is fatal.
    pub fn finish(self) -> (r: Result<Vec<u8>, StreamError>)
        requires
            self.wf(),
        ensures
            r is Ok ==> (r->Ok_0)@ == (if self.is_raw() {
                self.stream()
            } else {
                lz4_frame_of(self.stream())
            }),
            self.is_raw() ==> r is Ok,
    {
        let Incremental { sink, .. } = self;
        sink.finish()
    }
}

/// Dedup law: in a well-formed store every digest owns exactly one block —
/// it sits at exactly one position of the block creation order, its position
/// is its block sequence id — and its reference count equals the number of
/// chunk occurrences of that digest over all generations so far.
pub proof fn lemma_store_dedup(s: Incremental)
    requires
        s.wf(),
    ensures
        forall|d: Digest| #[trigger]
            s.table().dom().contains(d) ==> s.table()[d].1 == count_all(s.gens(), d),
        forall|d: Digest| #[trigger]
            s.table().dom().contains(d) ==> s.table()[d].0 < s.order().len() && s.order()[s.table(
            )[d].0 as int] == d,
        s.order().no_duplicates(),
        s.order().to_set() =~= s.table().dom(),
        s.num_blocks() == s.table().dom().len(),
        forall|g: int, i: int|
            0 <= g < s.gens().len() && 0 <= i < s.gens()[g].len() ==> s.table().dom().contains(
                #[trigger] s.gens()[g][i],
            ),
{
    s.order().unique_seq_to_set();
    assert(s.order().to_set() == s.table().dom());
}

/// Helper for the round-trip law: restoring the first `k` manifest entries
/// rebuilds the region up to the end of chunk `k - 1`.
proof fn lemma_restore_prefix(region: Seq<u8>, pays: Map<Digest, Seq<u8>>, k: int)
    requires
        0 <= k <= num_chunks(region.len()),
        forall|i: int|
            0 <= i < num_chunks(region.len()) ==> pays.dom().contains(
                digest_seq(region)[i],
            ) && pays[digest_seq(region)[i]] == #[trigger] chunk_of(region, i),
    ensures
        restore(digest_seq(region), pays).len() >= 0,
        restore(digest_seq(region).take(k), pays) == region.take(
            if k == num_chunks(region.len()) {
                region.len() as int
            } else {
                k * (MAX_CHUNK_LEN as int)
            },
        ),
    decreases k,
{
    let n = region.len();
    let nc = num_chunks(n) as int;
    let dseq = digest_seq(region);
    let m = MAX_CHUNK_LEN as int;
    if k == 0 {
        assert(dseq.take(0) =~= Seq::<Digest>::empty());
        assert(region.take(0) =~= Seq::<u8>::empty());
        if k == nc {
            assert(n == 0);
            assert(region.take(n as int) =~= Seq::<u8>::empty());
        }
    } else {
        lemma_restore_prefix(region, pays, k - 1);
        let upper_prev = if k - 1 == nc {
            n as int
        } else {
            (k - 1) * m
        };
        let upper = if k == nc {
            n as int
        } else {
            k * m
        };
        assert(k - 1 < nc);
        assert(dseq.take(k).drop_last() =~= dseq.take(k - 1));
        assert(dseq.take(k).last() == dseq[k - 1]);
        assert(restore(dseq.take(k), pays) == restore(dseq.take(k - 1), pays) + pays[dseq[k - 1]]);
        assert(pays[dseq[k - 1]] == chunk_of(region, k - 1));
        assert((k - 1) * m + crate::chunk::chunk_len(n, k - 1) == upper && upper_prev == (k - 1)
            * m && upper <= n) by (nonlinear_arith)
            requires
                0 < k <= nc,
                n > 0,
                nc == (n as int - 1) / m + 1,
                m == MAX_CHUNK_LEN as int,
                upper == (if k == nc {
                    n as int
                } else {
                    k * m
                }),
                upper_prev == (if k - 1 == nc {
                    n as int
                } else {
                    (k - 1) * m
                }),
                crate::chunk::chunk_len(n, k - 1) == (if n - (k - 1) * m >= m {
                    m
                } else {
                    n - (k - 1) * m
                }),
        ;
        assert(chunk_of(region, k - 1) == region.subrange(upper_prev, upper));
        assert(region.take(upper_prev) + region.subrange(upper_prev, upper) =~= region.take(upper));
    }
}

/// Round-trip law: concatenating, in sequence order, the payloads referenced
/// by a generation's manifest reproduces exactly the bytes of the region
/// captured for that generation — provided each manifest entry's payload is
/// the corresponding chunk's bytes, which a capture guarantees whenever the
/// digest tells the payloads and chunks involved apart.
pub proof fn lemma_round_trip(region: Seq<u8>, pays: Map<Digest, Seq<u8>>)
    requires
        forall|i: int|
            0 <= i < num_chunks(region.len()) ==> pays.dom().contains(
                digest_seq(region)[i],
            ) && pays[digest_seq(region)[i]] == #[trigger] chunk_of(region, i),
    ensures
        restore(digest_seq(region), pays) == region,
{
    let nc = num_chunks(region.len()) as int;
    lemma_restore_prefix(region, pays, nc);
    assert(digest_seq(region).take(nc) =~= digest_seq(region));
    assert(region.take(region.len() as int) =~= region);
}

/// Round-trip law at the level of one capture: a capture into a fresh
/// generation leaves a manifest from which the captured region is rebuilt,
/// whenever the digest tells the stored payloads and the region's chunks
/// apart.
pub proof fn lemma_capture_round_trip(pre: Incremental, post: Incremental, region: Seq<u8>)
    requires
        pre.wf(),
        capture_ok(pre, post, region),
        pre.gens()[pre.generation_idx()].len() == 0,
        injective_on(payload_values(pre.payloads()).union(chunk_set(region))),
    ensures
        restore(post.gens()[pre.generation_idx()], post.payloads()) == region,
{
    let g = pre.generation_idx();
    let dseq = digest_seq(region);
    assert(post.gens()[g] == pre.gens()[g] + dseq);
    assert(pre.gens()[g] + dseq =~= dseq);
    assert forall|i: int| 0 <= i < num_chunks(region.len()) implies post.payloads().dom().contains(
        dseq[i],
    ) && post.payloads()[dseq[i]] == #[trigger] chunk_of(region, i) by {
        assert(dseq.to_set().contains(dseq[i])) by {
            assert(dseq.contains(dseq[i]));
        }
    }
    lemma_round_trip(region, post.payloads());
}

/// Idempotence law: capturing two consecutive generations from an unchanged
/// region creates no block in the second capture — the set of stored digests
/// and the total distinct-block count are unchanged between the two — and
/// only reference counts grow, each by that digest's occurrence count in the
/// region's manifest.
pub proof fn lemma_capture_idempotent(
    s0: Incremental,
    s1: Incremental,
    s2: Incremental,
    s3: Incremental,
    region: Seq<u8>,
)
    requires
        s1.wf(),
        s3.wf(),
        capture_ok(s0, s1, region),
        rotate_ok(s1, s2),
        capture_ok(s2, s3, region),
    ensures
        s3.payloads().dom() =~= s1.payloads().dom(),
        s3.num_blocks() == s1.num_blocks(),
        forall|d: Digest| #[trigger]
            s1.table().dom().contains(d) ==> s3.table().dom().contains(d) && s3.table()[d].1
                == s1.table()[d].1 + count_in(digest_seq(region), d),
{
    let dseq = digest_seq(region);
    let g2 = s2.generation_idx();
    assert(s3.payloads().dom() =~= s1.payloads().dom()) by {
        assert(s2.payloads().dom() == s1.payloads().dom());
        assert(s1.payloads().dom() =~= s0.payloads().dom().union(dseq.to_set()));
        assert(s3.payloads().dom() =~= s2.payloads().dom().union(dseq.to_set()));
    }
    assert(s3.num_blocks() == s1.num_blocks()) by {
        s1.order().unique_seq_to_set();
        s3.order().unique_seq_to_set();
        assert(s1.order().to_set() == s1.payloads().dom());
        assert(s3.order().to_set() == s3.payloads().dom());
        assert(s3.payloads().dom() == s1.payloads().dom());
    }
    assert(s3.gens() =~= s1.gens().push(dseq)) by {
        assert(s2.gens() =~= s1.gens().push(Seq::<Digest>::empty()));
        assert(s3.gens() =~= s2.gens().update(g2, s2.gens()[g2] + dseq));
        assert(s2.gens()[g2] + dseq =~= dseq);
    }
    assert forall|d: Digest| #[trigger] s1.table().dom().contains(d) implies s3.table(
    ).dom().contains(d) && s3.table()[d].1 == s1.table()[d].1 + count_in(dseq, d) by {
        assert(s1.payloads().dom().contains(d));
        assert(s3.table().dom() =~= s3.payloads().dom());
        assert(s3.gens().drop_last() =~= s1.gens());
        assert(count_all(s3.gens(), d) == count_all(s1.gens(), d) + count_in(dseq, d));
    }
}

/// Relation between a store before and after one generation rotation.
pub open spec fn rotate_ok(pre: Incremental, post: Incremental) -> bool {
    &&& post.generation_idx() == pre.generation_idx() + 1
    &&& post.gens() =~= pre.gens().push(Seq::<Digest>::empty())
    &&& post.payloads() == pre.payloads()
    &&& post.order() == pre.order()
    &&& post.table() == pre.table()
    &&& post.entries() == pre.entries()
    &&& post.is_raw() == pre.is_raw()
    &&& post.stream() == pre.stream()
}

} // verus!
