use wirecodec::error::Error;
use wirecodec::generator::{displacements_len, generate_hash, lookup, try_generate_hash};
use wirecodec::writer::{BufferedWriter, Writer};

#[test]
fn phf_lowercase_letters() {
    // Build over the 26 lowercase ASCII letters; every letter must look up
    // to its own entry, and the displacements length is ceil(26 / 5) = 6.
    let keys: Vec<Vec<u8>> = (b'a'..=b'z').map(|c| vec![c]).collect();
    let st = generate_hash(&keys).unwrap();
    assert_eq!(st.displacements.len(), 6);
    assert_eq!(displacements_len(26), 6);
    assert_eq!(st.map.len(), 26);
    for (i, k) in keys.iter().enumerate() {
        let idx = lookup(&st, k);
        assert_eq!(idx, i);
        assert_eq!(&keys[idx], k);
    }
    // A key outside the set resolves to some entry whose key differs.
    let absent = vec![b'A'];
    let idx = lookup(&st, &absent);
    assert!(idx < 26);
    assert_ne!(keys[idx], absent);
}

#[test]
fn phf_deterministic() {
    // The candidate-seed generator starts from a fixed seed, so two builds
    // over the same keys agree on the chosen seed and the map.
    let keys: Vec<Vec<u8>> = (0u32..100)
        .map(|i| i.to_le_bytes().to_vec())
        .collect();
    let a = generate_hash(&keys).unwrap();
    let b = generate_hash(&keys).unwrap();
    assert_eq!(a.key, b.key);
    assert_eq!(a.map, b.map);
    assert_eq!(a.displacements, b.displacements);
    for (i, k) in keys.iter().enumerate() {
        assert_eq!(lookup(&a, k), i);
    }
}

#[test]
fn phf_empty_and_single() {
    let none: Vec<Vec<u8>> = Vec::new();
    let st = generate_hash(&none).unwrap();
    assert_eq!(st.map.len(), 0);
    assert_eq!(st.displacements.len(), 0);

    let one = vec![b"lonely".to_vec()];
    let st = generate_hash(&one).unwrap();
    assert_eq!(st.map.len(), 1);
    assert_eq!(st.displacements.len(), 1);
    assert_eq!(lookup(&st, &one[0]), 0);
}

#[test]
fn phf_duplicate_keys_fail() {
    // Two equal keys can never both be placed: every candidate seed fails
    // and the build gives up.
    let keys = vec![vec![1u8, 2], vec![1u8, 2]];
    let e = generate_hash(&keys).unwrap_err();
    assert!(matches!(e, Error::FailedPhf));
}

#[test]
fn phf_try_single_seed() {
    // The empty key set builds under any seed.
    let none: Vec<Vec<u8>> = Vec::new();
    assert!(try_generate_hash(&none, 7).is_some());

    let keys: Vec<Vec<u8>> = (b'0'..=b'9').map(|c| vec![c]).collect();
    // Whatever one seed does, a returned table is total over the keys.
    if let Some(st) = try_generate_hash(&keys, 12345) {
        assert_eq!(st.key, 12345);
        for (i, k) in keys.iter().enumerate() {
            assert_eq!(lookup(&st, k), i);
        }
    }
}

#[test]
fn buffered_writer_gathers_writes() {
    let mut w: BufferedWriter<8, Vec<u8>> = BufferedWriter::new(Vec::new());
    w.write_bytes(&[1, 2, 3]).unwrap();
    // Still buffered: the inner writer has seen nothing yet.
    assert_eq!(w.writer.len(), 0);
    w.write_bytes(&[4, 5, 6]).unwrap();
    w.write_bytes(&[7, 8, 9]).unwrap();
    let inner = w.finish().unwrap();
    assert_eq!(inner, vec![1, 2, 3, 4, 5, 6, 7, 8, 9]);
}

#[test]
fn buffered_writer_write_buffer() {
    let mut w: BufferedWriter<4, Vec<u8>> = BufferedWriter::new(Vec::new());
    let owned = vec![1u8, 2, 3];
    Writer::write_buffer(&mut w, &owned).unwrap();
    let inner = w.finish().unwrap();
    assert_eq!(inner, vec![1, 2, 3]);
}

#[test]
fn vec_writer_contract() {
    let mut v: Vec<u8> = vec![9];
    Writer::write_bytes(&mut v, &[1, 2]).unwrap();
    Writer::write_buffer(&mut v, &vec![3]).unwrap();
    assert_eq!(v, vec![9, 1, 2, 3]);
}
