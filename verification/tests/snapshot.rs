use rmemdump::Incremental;
use rmemdump::MAX_CHUNK_LEN;

/// A region of `chunks` chunks where chunk `i` is filled with `fill[i]`.
fn region_of(fill: &[u8]) -> Vec<u8> {
    let mut v = Vec::new();
    for &b in fill {
        v.extend(std::iter::repeat(b).take(MAX_CHUNK_LEN));
    }
    v
}

fn decode_lz4(bytes: &[u8]) -> Vec<u8> {
    let mut dec = lz4::Decoder::new(bytes).unwrap();
    let mut out = Vec::new();
    std::io::Read::read_to_end(&mut dec, &mut out).unwrap();
    out
}

#[test]
fn digest_purity_equal_bytes() {
    let a = vec![7u8; 1000];
    let b = vec![7u8; 1000];
    assert_eq!(Incremental::hash_chunk(&a), Incremental::hash_chunk(&b));
    assert_eq!(Incremental::hash_chunk(&a), Incremental::hash_chunk(&a));
    let c = vec![8u8; 1000];
    assert_ne!(Incremental::hash_chunk(&a), Incremental::hash_chunk(&c));
}

#[test]
fn collision_injected_merges() {
    // An artificial digest collision between differing content: the store
    // cannot tell the payloads apart and silently merges them under one
    // block.  This is the flagged dedup trade-off, not correct behavior.
    let mut incr = Incremental::new(false).unwrap();
    let fake_hash = 0xdeadbeefu64;
    incr.add_hashed_chunk(&[1, 2, 3], fake_hash).unwrap();
    incr.add_hashed_chunk(&[9, 9, 9], fake_hash).unwrap();
    let (_, blocks) = incr.stats();
    assert_eq!(blocks, 1);
    assert_eq!(incr.lookup(fake_hash), Some((0, 2)));
    // The stream holds only the first payload; the second is lost.
    assert_eq!(incr.finish().unwrap(), vec![1, 2, 3]);
}

#[test]
fn dedup_refcounts() {
    // Three chunks of identical content anywhere in a session: one stored
    // payload, reference count equal to the number of occurrences.
    let region = region_of(&[5, 5, 5]);
    let mut incr = Incremental::new(false).unwrap();
    incr.capture(&region).unwrap();
    let (generation, blocks) = incr.stats();
    assert_eq!(generation, 0);
    assert_eq!(blocks, 1);
    let h = Incremental::hash_chunk(&region[0..MAX_CHUNK_LEN]);
    assert_eq!(incr.lookup(h), Some((0, 3)));
    assert_eq!(incr.generation_len(0), 3);
    // Metadata flush is a no-op: manifests stay in memory for the session.
    incr.flush();
    assert_eq!(incr.stats(), (0, 1));
    // Exactly one payload copy in the stream.
    assert_eq!(incr.finish().unwrap().len(), MAX_CHUNK_LEN);
}

#[test]
fn boundary_short_final_chunk() {
    // A region length not evenly divisible by MAX_CHUNK_LEN: the final
    // chunk is short, processed without error, in manifest and stream.
    let mut region = region_of(&[1, 2]);
    region.extend(std::iter::repeat(3u8).take(100));
    let mut incr = Incremental::new(false).unwrap();
    incr.capture(&region).unwrap();
    let (_, blocks) = incr.stats();
    assert_eq!(blocks, 3);
    assert_eq!(incr.generation_len(0), 3);
    let h_last = Incremental::hash_chunk(&region[2 * MAX_CHUNK_LEN..]);
    assert_eq!(incr.manifest_entry(0, 2), h_last);
    assert_eq!(incr.lookup(h_last), Some((2, 1)));
    let out = incr.finish().unwrap();
    assert_eq!(out.len(), 2 * MAX_CHUNK_LEN + 100);
    assert_eq!(&out[2 * MAX_CHUNK_LEN..], &region[2 * MAX_CHUNK_LEN..]);
}

#[test]
fn idempotent_recapture() {
    // Two consecutive generations from an unchanged region: no new block,
    // only reference counts grow.
    let region = region_of(&[1, 2, 3]);
    let mut incr = Incremental::new(false).unwrap();
    incr.capture(&region).unwrap();
    let (_, blocks_first) = incr.stats();
    assert_eq!(blocks_first, 3);
    incr.new_generation();
    incr.capture(&region).unwrap();
    let (generation, blocks_second) = incr.stats();
    assert_eq!(generation, 1);
    assert_eq!(blocks_second, blocks_first);
    let h = Incremental::hash_chunk(&region[0..MAX_CHUNK_LEN]);
    assert_eq!(incr.lookup(h), Some((0, 2)));
}

#[test]
fn three_chunks_then_middle_change() {
    // Generation 0 captures all-distinct content (3 new blocks);
    // generation 1 changes only the middle chunk: exactly 1 new block, and
    // a 3-entry manifest sharing the outer entries with generation 0.
    let region1 = region_of(&[1, 2, 3]);
    let mut region2 = region1.clone();
    for b in &mut region2[MAX_CHUNK_LEN..2 * MAX_CHUNK_LEN] {
        *b = 9;
    }
    let mut incr = Incremental::new(false).unwrap();
    incr.capture(&region1).unwrap();
    let (_, blocks1) = incr.stats();
    assert_eq!(blocks1, 3);
    incr.new_generation();
    incr.capture(&region2).unwrap();
    let (_, blocks2) = incr.stats();
    assert_eq!(blocks2, 4);
    assert_eq!(incr.generation_len(1), 3);
    assert_eq!(incr.manifest_entry(1, 0), incr.manifest_entry(0, 0));
    assert_eq!(incr.manifest_entry(1, 2), incr.manifest_entry(0, 2));
    assert_ne!(incr.manifest_entry(1, 1), incr.manifest_entry(0, 1));
}

#[test]
fn round_trip_generation() {
    // Concatenating the blocks referenced by a generation's manifest, in
    // sequence order, reproduces the captured region.
    let region = region_of(&[4, 7, 4, 11]);
    let mut incr = Incremental::new(false).unwrap();
    incr.capture(&region).unwrap();
    let mut ids = Vec::new();
    for i in 0..incr.generation_len(0) {
        let digest = incr.manifest_entry(0, i as u32 as usize);
        let (id, _) = incr.lookup(digest).unwrap();
        ids.push(id as usize);
    }
    let stream = incr.finish().unwrap();
    let mut rebuilt = Vec::new();
    for id in ids {
        rebuilt.extend_from_slice(&stream[id * MAX_CHUNK_LEN..(id + 1) * MAX_CHUNK_LEN]);
    }
    assert_eq!(rebuilt, region);
}

#[test]
fn compressed_and_raw_streams_agree() {
    // The same captures with compress on and off: decoding the compressed
    // output yields exactly the raw output, so reconstruction agrees.
    let region1 = region_of(&[1, 2, 1]);
    let region2 = region_of(&[1, 3, 1]);
    let mut raw = Incremental::new(false).unwrap();
    let mut comp = Incremental::new(true).unwrap();
    raw.capture(&region1).unwrap();
    comp.capture(&region1).unwrap();
    raw.new_generation();
    comp.new_generation();
    raw.capture(&region2).unwrap();
    comp.capture(&region2).unwrap();
    let raw_out = raw.finish().unwrap();
    let comp_out = comp.finish().unwrap();
    assert_eq!(decode_lz4(&comp_out), raw_out);
}
