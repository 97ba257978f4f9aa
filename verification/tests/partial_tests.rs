use merkle_partial::error::Error;
use merkle_partial::overlays::{DeepOverlay, PackedOverlay, TwoLeafOverlay};
use merkle_partial::partial::Partial;
use merkle_partial::path::Path;
use merkle_partial::SerializedPartial;
use sha2::{Digest, Sha256};

fn chunk(last: u8) -> Vec<u8> {
    let mut c = vec![0u8; 32];
    c[31] = last;
    c
}

fn pattern_chunk() -> Vec<u8> {
    (0u8..32u8).collect()
}

fn hash_pair(a: &[u8], b: &[u8]) -> Vec<u8> {
    let mut h = Sha256::new();
    h.update(a);
    h.update(b);
    h.finalize().to_vec()
}

fn sp(indices: Vec<u64>, chunks: Vec<Vec<u8>>) -> SerializedPartial {
    let mut flat = Vec::new();
    for c in &chunks {
        flat.extend_from_slice(c);
    }
    SerializedPartial {
        indices,
        chunks: flat,
    }
}

fn ident(s: &str) -> Vec<Path> {
    vec![Path::Ident(s.to_string())]
}

#[test]
fn empty_path_fails_everywhere() {
    let mut p: Partial<TwoLeafOverlay> = Partial::new(sp(vec![], vec![]));
    assert_eq!(p.extract_partial(vec![]), Err(Error::EmptyPath));
    assert_eq!(p.get_bytes(vec![]), Err(Error::EmptyPath));
    assert_eq!(p.set_bytes(vec![], vec![0u8; 32]), Err(Error::EmptyPath));
}

#[test]
fn unloaded_leaf_reports_its_index() {
    let p: Partial<TwoLeafOverlay> = Partial::new(sp(vec![], vec![]));
    assert_eq!(p.get_bytes(ident("a")), Err(Error::ChunkNotLoaded(1)));
    assert_eq!(p.extract_partial(ident("b")), Err(Error::ChunkNotLoaded(2)));
    let mut q: Partial<PackedOverlay> = Partial::new(sp(vec![], vec![]));
    assert_eq!(
        q.set_bytes(ident("x"), vec![7u8; 8]),
        Err(Error::ChunkNotLoaded(1))
    );
}

#[test]
fn unknown_field_is_invalid_path() {
    let p: Partial<TwoLeafOverlay> = Partial::new(sp(vec![], vec![]));
    assert_eq!(
        p.get_bytes(ident("nope")),
        Err(Error::InvalidPath(Path::Ident("nope".to_string())))
    );
}

#[test]
fn set_then_get_returns_written_bytes() {
    let mut p: Partial<PackedOverlay> =
        Partial::new(sp(vec![1, 2], vec![pattern_chunk(), chunk(9)]));
    p.set_bytes(ident("x"), vec![0xAA; 8]).unwrap();
    assert_eq!(p.get_bytes(ident("x")).unwrap(), vec![0xAA; 8]);
    // the packed neighbour is untouched
    assert_eq!(
        p.get_bytes(ident("y")).unwrap(),
        (8u8..16u8).collect::<Vec<u8>>()
    );
    // numeric steps address packed entries by byte offset
    assert_eq!(
        p.get_bytes(vec![Path::Index(8)]).unwrap(),
        (8u8..16u8).collect::<Vec<u8>>()
    );
    assert_eq!(p.get_bytes(vec![Path::Index(0)]).unwrap(), vec![0xAA; 8]);
}

#[test]
fn whole_chunk_write_needs_no_loaded_chunk() {
    let mut p: Partial<PackedOverlay> = Partial::new(sp(vec![], vec![]));
    let value = chunk(0x5C);
    p.set_bytes(ident("z"), value.clone()).unwrap();
    assert_eq!(p.get_bytes(ident("z")).unwrap(), value);
}

#[test]
fn splice_preserves_untouched_bytes() {
    let mut p: Partial<PackedOverlay> =
        Partial::new(sp(vec![1, 2], vec![pattern_chunk(), chunk(9)]));
    p.set_bytes(ident("x"), vec![0xAA; 8]).unwrap();
    // the whole stored chunk: written range replaced, the rest bit-identical
    let proof = p.extract_partial(ident("x")).unwrap();
    assert_eq!(proof.indices[0], 1);
    let stored = &proof.chunks[0..32];
    assert_eq!(&stored[0..8], &[0xAA; 8]);
    assert_eq!(&stored[8..32], &pattern_chunk()[8..32]);
}

#[test]
fn fill_is_idempotent() {
    let mut once: Partial<TwoLeafOverlay> = Partial::new(sp(vec![1, 2], vec![chunk(1), chunk(2)]));
    once.fill().unwrap();
    let mut twice: Partial<TwoLeafOverlay> =
        Partial::new(sp(vec![1, 2], vec![chunk(1), chunk(2)]));
    twice.fill().unwrap();
    twice.fill().unwrap();
    assert_eq!(once, twice);
    assert_eq!(once.root().unwrap(), twice.root().unwrap());
}

#[test]
fn refresh_is_deterministic() {
    let mut p1: Partial<TwoLeafOverlay> = Partial::new(sp(
        vec![0, 1, 2],
        vec![chunk(0xEE), chunk(1), chunk(2)],
    ));
    let mut p2: Partial<TwoLeafOverlay> = Partial::new(sp(
        vec![0, 1, 2],
        vec![chunk(0x11), chunk(1), chunk(2)],
    ));
    p1.refresh().unwrap();
    p2.refresh().unwrap();
    assert_eq!(p1, p2);
    assert_eq!(p1.root().unwrap(), p2.root().unwrap());
    assert_eq!(
        p1.root().unwrap().clone(),
        hash_pair(&chunk(1), &chunk(2))
    );
}

#[test]
fn refresh_fails_on_missing_sibling() {
    let mut p: Partial<TwoLeafOverlay> = Partial::new(sp(vec![1], vec![chunk(1)]));
    assert_eq!(p.refresh(), Err(Error::ChunkNotLoaded(2)));
}

#[test]
fn later_duplicate_index_wins_on_load() {
    let p: Partial<TwoLeafOverlay> = Partial::new(sp(vec![1, 1], vec![chunk(3), chunk(4)]));
    assert_eq!(p.get_bytes(ident("a")).unwrap(), chunk(4));
}

#[test]
fn root_reports_only_loaded_or_computed_chunk() {
    let p: Partial<TwoLeafOverlay> = Partial::new(sp(vec![1], vec![chunk(1)]));
    assert!(p.root().is_none());
    let q: Partial<TwoLeafOverlay> = Partial::new(sp(vec![0], vec![chunk(7)]));
    assert_eq!(q.root().unwrap().clone(), chunk(7));
}

#[test]
fn fill_leaves_underivable_branches_partial() {
    let mut p: Partial<TwoLeafOverlay> = Partial::new(sp(vec![1], vec![chunk(1)]));
    p.fill().unwrap();
    assert!(p.root().is_none());
}

#[test]
fn validity_detects_any_flipped_byte() {
    let root = hash_pair(&chunk(1), &chunk(2));
    let mut p: Partial<TwoLeafOverlay> = Partial::new(sp(vec![1, 2], vec![chunk(1), chunk(2)]));
    assert!(p.is_valid(root.clone()));
    let mut flipped = chunk(1);
    flipped[0] ^= 0x01;
    p.set_bytes(ident("a"), flipped).unwrap();
    assert!(!p.is_valid(root));
}

#[test]
fn two_leaf_end_to_end() {
    let c1 = chunk(1);
    let c2 = chunk(2);
    let mut p: Partial<TwoLeafOverlay> = Partial::new(sp(vec![1, 2], vec![c1.clone(), c2.clone()]));
    p.refresh().unwrap();
    let root = p.root().unwrap().clone();
    assert_eq!(root, hash_pair(&c1, &c2));

    // the proof for leaf 1 carries the sibling 2 and nothing else
    let proof = p.extract_partial(ident("a")).unwrap();
    assert_eq!(proof.indices, vec![1, 2]);
    assert_eq!(proof.chunks.len(), 64);
    assert_eq!(&proof.chunks[0..32], &c1[..]);
    assert_eq!(&proof.chunks[32..64], &c2[..]);

    // the extracted pair alone, after gap filling, validates against the root
    let mut fresh: Partial<TwoLeafOverlay> = Partial::new(proof);
    fresh.fill().unwrap();
    assert!(fresh.is_valid(root.clone()));
    assert_eq!(fresh.root().unwrap().clone(), root);

    // dropping either chunk makes the root underivable
    let mut short1: Partial<TwoLeafOverlay> = Partial::new(sp(vec![1], vec![c1.clone()]));
    short1.fill().unwrap();
    assert!(!short1.is_valid(root.clone()));
    let mut short2: Partial<TwoLeafOverlay> = Partial::new(sp(vec![2], vec![c2.clone()]));
    short2.fill().unwrap();
    assert!(!short2.is_valid(root));
}

#[test]
fn deep_extract_collects_sibling_chain() {
    let c5 = chunk(5);
    let c6 = chunk(6);
    let c1 = chunk(1);
    let p: Partial<DeepOverlay> = Partial::new(sp(
        vec![5, 6, 1],
        vec![c5.clone(), c6.clone(), c1.clone()],
    ));
    let proof = p.extract_partial(ident("d")).unwrap();
    assert_eq!(proof.indices, vec![5, 6, 1]);
    assert_eq!(&proof.chunks[0..32], &c5[..]);
    assert_eq!(&proof.chunks[32..64], &c6[..]);
    assert_eq!(&proof.chunks[64..96], &c1[..]);

    let expected_root = hash_pair(&c1, &hash_pair(&c5, &c6));
    let mut fresh: Partial<DeepOverlay> = Partial::new(proof);
    fresh.fill().unwrap();
    assert!(fresh.is_valid(expected_root.clone()));
    assert_eq!(fresh.root().unwrap().clone(), expected_root);

    // a missing link in the chain is reported by position
    let q: Partial<DeepOverlay> = Partial::new(sp(vec![5, 1], vec![c5, c1]));
    assert_eq!(q.extract_partial(ident("d")), Err(Error::ChunkNotLoaded(6)));
}

#[test]
fn length_node_reads_its_whole_chunk() {
    let mut p: Partial<PackedOverlay> = Partial::new(sp(vec![2], vec![chunk(3)]));
    assert_eq!(p.get_bytes(ident("count")).unwrap(), chunk(3));
    p.set_bytes(ident("count"), chunk(4)).unwrap();
    assert_eq!(p.get_bytes(ident("z")).unwrap(), chunk(4));
}
