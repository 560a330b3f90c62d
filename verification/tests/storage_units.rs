use quanty::blob::{chunk_key, decode_refs, encode_refs, hash_chunk, refs_key, BlobRef};
use quanty::cache::PageCache;
use quanty::encoding::{decode_key, encode_key, Value, TAG_BOOL, TAG_INT, TAG_TEXT};
use quanty::error::{Error, IoError};
use quanty::meta::{recover, Meta};
use quanty::node::{branch_cell_size, leaf_cell_size, Node, ValueRef};
use quanty::page::{
    has_type, init_header, lsn, page_type, seal, valid_page_size, verify, PageType, PAGE_HEADER_LEN,
};
use quanty::refs::{branch_key, branches_prefix, head_key, validate_name, BranchRef};
use quanty::sha256::sha256;
use quanty::storage::{MemStorage, Storage};
use quanty::strings::to_hex;
use std::cmp::Ordering;

// ---------------------------------------------------------------------
// blobs
// ---------------------------------------------------------------------

#[test]
fn a_descriptor_survives_a_round_trip() {
    let blob = BlobRef {
        len: 3_000_000,
        chunks: vec![hash_chunk(b"a"), hash_chunk(b"b"), hash_chunk(b"a")],
    };
    assert_eq!(BlobRef::decode(&blob.encode()).unwrap(), blob);
    assert_eq!(blob.distinct_chunks(), 2);
}

#[test]
fn a_truncated_descriptor_is_refused_rather_than_guessed() {
    let blob = BlobRef {
        len: 10,
        chunks: vec![hash_chunk(b"a")],
    };
    let full = blob.encode();
    for cut in 0..full.len() {
        assert!(
            BlobRef::decode(&full[..cut]).is_err(),
            "accepted {cut} of {} bytes",
            full.len()
        );
    }
}

#[test]
fn a_count_is_eight_bytes_and_nothing_else() {
    assert_eq!(decode_refs(&encode_refs(3)).unwrap(), 3);
    assert!(decode_refs(&[0u8; 4]).is_err());
    assert!(decode_refs(&[0u8; 9]).is_err());
}

#[test]
fn the_bytes_and_the_count_live_at_different_keys() {
    let hash = hash_chunk(b"x");
    assert_ne!(chunk_key(&hash), refs_key(&hash));
}

#[test]
fn the_same_bytes_land_on_the_same_key() {
    let a = hash_chunk(b"hello");
    let b = hash_chunk(b"hello");
    assert_eq!(chunk_key(&a), chunk_key(&b));
    assert_ne!(chunk_key(&a), chunk_key(&hash_chunk(b"hellp")));
}

#[test]
fn sha256_gives_the_published_digests() {
    assert_eq!(
        to_hex(&sha256(b"")),
        "e3b0c44298fc1c149afbf4c8996fb92427ae41e4649b934ca495991b7852b855"
    );
    assert_eq!(
        to_hex(&sha256(b"abc")),
        "ba7816bf8f01cfea414140de5dae2223b00361a396177a9cb410ff61f20015ad"
    );
    assert_eq!(
        to_hex(&sha256(
            b"abcdbcdecdefdefgefghfghighijhijkijkljklmklmnlmnomnopnopq"
        )),
        "248d6a61d20638b8e5c026930c3e6039a33ce45964ff2167f6ecedd419db06c1"
    );
}

// ---------------------------------------------------------------------
// cache
// ---------------------------------------------------------------------

fn page(byte: u8) -> Vec<u8> {
    vec![byte; 32]
}

#[test]
fn hit_and_miss() {
    let mut cache = PageCache::new(8);
    cache.insert(3, page(3));
    assert_eq!(cache.get(3).unwrap()[0], 3);
    assert!(cache.get(4).is_none());
}

#[test]
fn eviction_keeps_capacity_bounded_and_correct() {
    let mut cache = PageCache::new(8);
    for id in 0..100u64 {
        cache.insert(id, page(id as u8));
    }
    assert_eq!(cache.len(), 8);
    // Whatever survived must map to its own content.
    for id in 0..100u64 {
        if let Some(buf) = cache.get(id) {
            assert_eq!(buf[0], id as u8);
        }
    }
}

#[test]
fn a_full_cache_drops_the_first_page_at_rest() {
    let mut cache = PageCache::new(8);
    for id in 0..8u64 {
        cache.insert(id, page(id as u8));
        assert_eq!(cache.len(), id as usize + 1, "nothing leaves while there is room");
    }
    // all are marked, so the sweep goes round once and takes the first
    cache.insert(8, page(8));
    assert!(cache.get(0).is_none());
    // a second chance for the page at the hand, none for the one after it
    assert!(cache.get(1).is_some());
    cache.insert(9, page(9));
    assert!(cache.get(2).is_none());
    assert_eq!(cache.len(), 8);
    for id in [1u64, 3, 4, 5, 6, 7, 8, 9] {
        assert_eq!(cache.get(id).expect("kept")[0], id as u8);
    }
    // a page that is there is replaced and drops nothing
    cache.insert(3, page(33));
    assert_eq!(cache.get(3).expect("kept")[0], 33);
    assert_eq!(cache.len(), 8);
}

// ---------------------------------------------------------------------
// key encoding
// ---------------------------------------------------------------------

fn rank(v: &Value) -> u8 {
    match v {
        Value::Null => 1,
        Value::Bool(_) => 2,
        Value::Int(_) => 3,
        Value::Float(_) => 4,
        Value::Text(_) => 5,
        Value::Bytes(_) => 6,
    }
}

/// Logical order, defined independently of the encoding so the property
/// test cannot cheat.
fn logical_order(a: &[Value], b: &[Value]) -> Ordering {
    for (x, y) in a.iter().zip(b.iter()) {
        let ord = match (x, y) {
            (Value::Bool(p), Value::Bool(q)) => p.cmp(q),
            (Value::Int(p), Value::Int(q)) => p.cmp(q),
            (Value::Float(p), Value::Float(q)) => {
                f64::from_bits(*p).total_cmp(&f64::from_bits(*q))
            }
            (Value::Text(p), Value::Text(q)) => p.as_bytes().cmp(q.as_bytes()),
            (Value::Bytes(p), Value::Bytes(q)) => p.cmp(q),
            _ => rank(x).cmp(&rank(y)),
        };
        if ord != Ordering::Equal {
            return ord;
        }
    }
    a.len().cmp(&b.len())
}

struct Rng(u64);

impl Rng {
    fn next(&mut self) -> u64 {
        self.0 ^= self.0 << 13;
        self.0 ^= self.0 >> 7;
        self.0 ^= self.0 << 17;
        self.0
    }
}

fn random_int(rng: &mut Rng) -> i64 {
    match rng.next() % 4 {
        0 => i64::MIN,
        1 => i64::MAX,
        2 => (rng.next() % 100) as i64 - 50,
        _ => rng.next() as i64,
    }
}

fn random_float(rng: &mut Rng) -> f64 {
    let nasty_floats = [
        0.0f64,
        -0.0,
        f64::INFINITY,
        f64::NEG_INFINITY,
        f64::NAN,
        -f64::NAN,
        f64::MIN_POSITIVE,
        -f64::MIN_POSITIVE,
        1.5e-310, // subnormal
    ];
    match rng.next() % 3 {
        0 => nasty_floats[(rng.next() % nasty_floats.len() as u64) as usize],
        1 => (rng.next() as i64 as f64) / 1e6,
        _ => f64::from_bits(rng.next()),
    }
}

fn random_value(rng: &mut Rng) -> Value {
    match rng.next() % 6 {
        0 => Value::Null,
        1 => Value::Bool(rng.next() % 2 == 0),
        2 => Value::Int(random_int(rng)),
        3 => Value::Float(random_float(rng).to_bits()),
        4 => {
            let pool = ["", "a", "ab", "a\u{0}b", "\u{0}", "zz", "gr\u{fc}ezi", "\u{1f980}"];
            Value::Text(pool[(rng.next() % pool.len() as u64) as usize].to_string())
        }
        _ => {
            let len = (rng.next() % 6) as usize;
            let mut b = Vec::with_capacity(len);
            for _ in 0..len {
                // heavy on 0x00 and 0xFF to stress the escaping
                b.push(match rng.next() % 4 {
                    0 => 0x00,
                    1 => 0xFF,
                    _ => rng.next() as u8,
                });
            }
            Value::Bytes(b)
        }
    }
}

fn random_tuple(rng: &mut Rng) -> Vec<Value> {
    let len = (rng.next() % 4) as usize;
    (0..len).map(|_| random_value(rng)).collect()
}

#[test]
fn byte_order_equals_logical_order() {
    let mut rng = Rng(0xDEAD_BEEF_CAFE_1234);
    for i in 0..200_000u64 {
        let a = random_tuple(&mut rng);
        let b = random_tuple(&mut rng);
        let ea = encode_key(&a);
        let eb = encode_key(&b);
        assert_eq!(
            ea.cmp(&eb),
            logical_order(&a, &b),
            "order mismatch at case {i}: {a:?} vs {b:?} ({ea:02x?} vs {eb:02x?})",
        );
    }
}

#[test]
fn encoding_encode_decode_roundtrips() {
    let mut rng = Rng(0x0123_4567_89AB_CDEF);
    for i in 0..100_000u64 {
        let tuple = random_tuple(&mut rng);
        let encoded = encode_key(&tuple);
        let decoded = decode_key(&encoded).unwrap_or_else(|e| panic!("case {i}: {e:?}"));
        // NaN != NaN under PartialEq, so compare via the total order
        assert_eq!(
            logical_order(&tuple, &decoded),
            Ordering::Equal,
            "roundtrip mismatch at case {i}: {tuple:?} vs {decoded:?}",
        );
    }
}

#[test]
fn truncated_and_garbage_keys_error_cleanly() {
    for bad in [
        &[TAG_INT][..],
        &[TAG_INT, 1, 2, 3][..],
        &[TAG_TEXT, b'a'][..],
        &[TAG_TEXT, 0xC0, 0x00][..], // invalid utf-8
        &[TAG_BOOL, 7][..],
        &[0x77][..],
    ] {
        assert!(decode_key(bad).is_err(), "accepted garbage {bad:02x?}");
    }
}

#[test]
fn tuple_prefix_property_holds() {
    // an encoded tuple is a strict byte prefix of its extensions,
    // which is what makes prefix range scans work
    let base = encode_key(&[Value::Int(42)]);
    let ext = encode_key(&[Value::Int(42), Value::Text("x".into())]);
    assert!(ext.starts_with(&base));
}

#[test]
fn keys_have_the_layout_they_promise() {
    assert_eq!(encode_key(&[Value::Null]), vec![1]);
    assert_eq!(encode_key(&[Value::Bool(true)]), vec![2, 1]);
    assert_eq!(
        encode_key(&[Value::Int(1)]),
        vec![3, 0x80, 0, 0, 0, 0, 0, 0, 1]
    );
    assert_eq!(
        encode_key(&[Value::Text("a\u{0}".into())]),
        vec![5, b'a', 0, 0xFF, 0]
    );
    assert_eq!(encode_key(&[Value::Bytes(vec![9])]), vec![6, 9, 0]);
}

// ---------------------------------------------------------------------
// meta
// ---------------------------------------------------------------------

const OFF_MAGIC: usize = PAGE_HEADER_LEN;
const OFF_TXID: usize = OFF_MAGIC + 16;

fn sample(txid: u64) -> Meta {
    Meta {
        page_size: 512,
        txid,
        data_root: 0,
        catalog_root: 0,
        freelist_root: 0,
        page_count: 2,
        unix_ts_ms: 123,
        commit_page: 0,
        refs_root: 0,
    }
}

#[test]
fn meta_encode_decode_roundtrips() {
    let meta = sample(9);
    let mut buf = vec![0u8; 512];
    meta.encode(&mut buf);
    assert_eq!(Meta::decode(&buf, 0).unwrap(), meta);
}

#[test]
fn a_meta_of_any_page_count_decodes() {
    let meta = Meta {
        page_count: u64::MAX,
        ..sample(3)
    };
    let mut buf = vec![0u8; 512];
    meta.encode(&mut buf);
    assert_eq!(Meta::decode(&buf, 0).unwrap(), meta);
}

#[test]
fn decode_rejects_wrong_magic() {
    let mut buf = vec![0u8; 512];
    sample(1).encode(&mut buf);
    buf[OFF_MAGIC] = b'X';
    // magic is covered by the checksum, so re-seal to isolate the check
    seal(&mut buf, 1);
    assert!(matches!(
        Meta::decode(&buf, 0),
        Err(Error::InvalidFormat(_))
    ));
}

#[test]
fn decode_rejects_flipped_bit() {
    let mut buf = vec![0u8; 512];
    sample(1).encode(&mut buf);
    buf[OFF_TXID] ^= 0x80;
    assert!(matches!(
        Meta::decode(&buf, 0),
        Err(Error::Corrupted { .. })
    ));
}

#[test]
fn recovery_prefers_the_newer_meta_and_survives_a_torn_one() {
    let mut first = vec![0u8; 512];
    sample(4).encode(&mut first);
    let mut second = vec![0u8; 512];
    sample(5).encode(&mut second);

    let mut whole = first.clone();
    whole.extend_from_slice(&second);
    let storage = MemStorage::from_bytes(whole.clone());
    assert_eq!(recover(&storage).unwrap(), sample(5));

    whole[512 + 50] ^= 1;
    let storage = MemStorage::from_bytes(whole);
    assert_eq!(recover(&storage).unwrap(), sample(4));
}

// ---------------------------------------------------------------------
// nodes
// ---------------------------------------------------------------------

#[test]
fn leaf_roundtrips() {
    let node = Node::Leaf {
        entries: vec![
            (b"a".to_vec(), ValueRef::Inline(b"hello".to_vec())),
            (
                b"b".to_vec(),
                ValueRef::Overflow {
                    head: 42,
                    len: 100_000,
                },
            ),
            (b"c\x00d".to_vec(), ValueRef::Inline(vec![])),
        ],
    };
    assert!(node.encoded_size() <= 512);
    let buf = node.encode(512);
    assert_eq!(Node::decode(&buf, 5).unwrap(), node);
}

#[test]
fn branch_roundtrips() {
    let node = Node::Branch {
        first_child: 7,
        entries: vec![(b"m".to_vec(), 8), (b"t".to_vec(), 9)],
    };
    let buf = node.encode(512);
    assert_eq!(Node::decode(&buf, 5).unwrap(), node);
}

#[test]
fn encoded_size_is_exact() {
    let node = Node::Leaf {
        entries: vec![
            (b"key".to_vec(), ValueRef::Inline(b"value".to_vec())),
            // len chosen so its most significant (= last LE) byte is
            // non-zero, otherwise the rposition trick below undershoots
            (
                b"key2".to_vec(),
                ValueRef::Overflow {
                    head: 3,
                    len: 0xAB00_0000_0000_0009,
                },
            ),
        ],
    };
    // encode into a page and find the last non-zero byte; it must sit
    // exactly at encoded_size
    let buf = node.encode(512);
    let used = buf.iter().rposition(|&b| b != 0).unwrap() + 1;
    assert_eq!(used, node.encoded_size());
}

#[test]
fn unsorted_leaf_is_rejected() {
    let node = Node::Leaf {
        entries: vec![
            (b"b".to_vec(), ValueRef::Inline(vec![1])),
            (b"a".to_vec(), ValueRef::Inline(vec![2])),
        ],
    };
    let buf = node.encode(512);
    assert!(Node::decode(&buf, 5).is_err());
}

#[test]
fn a_bad_node_names_its_page() {
    let node = Node::Leaf {
        entries: vec![
            (b"b".to_vec(), ValueRef::Inline(vec![1])),
            (b"a".to_vec(), ValueRef::Inline(vec![2])),
        ],
    };
    assert!(matches!(
        Node::decode(&node.encode(512), 5),
        Err(Error::Corrupted { page: Some(5), .. })
    ));
}

#[test]
fn cell_sizes_add_up_to_the_node() {
    let value = ValueRef::Inline(b"hello".to_vec());
    let empty = Node::Leaf { entries: vec![] };
    let one = Node::Leaf {
        entries: vec![(b"a".to_vec(), value.clone())],
    };
    assert_eq!(
        one.encoded_size() - empty.encoded_size(),
        leaf_cell_size(b"a", &value)
    );
    let none = Node::Branch {
        first_child: 7,
        entries: vec![],
    };
    let some = Node::Branch {
        first_child: 7,
        entries: vec![(b"mm".to_vec(), 8)],
    };
    assert_eq!(
        some.encoded_size() - none.encoded_size(),
        branch_cell_size(b"mm")
    );
}

// ---------------------------------------------------------------------
// pages
// ---------------------------------------------------------------------

#[test]
fn seal_then_verify_roundtrips() {
    let mut page = vec![0u8; 512];
    init_header(&mut page, PageType::Leaf);
    page[100] = 42;
    seal(&mut page, 7);
    verify(&page, 3).unwrap();
    assert_eq!(lsn(&page), 7);
    assert_eq!(page_type(&page).unwrap(), PageType::Leaf);
}

#[test]
fn verify_catches_a_single_flipped_bit() {
    let mut page = vec![0u8; 512];
    init_header(&mut page, PageType::Leaf);
    seal(&mut page, 1);
    page[300] ^= 0x01;
    assert!(verify(&page, 3).is_err());
}

#[test]
fn the_checksum_is_crc32c() {
    // the checksum of a page sits in its first four bytes and covers the
    // rest; crc32c of a known text pins the polynomial down
    assert_eq!(crc32c::crc32c(b"123456789"), 0xE306_9283);
    let mut page = vec![0u8; 512];
    init_header(&mut page, PageType::Leaf);
    seal(&mut page, 1);
    let stored = u32::from_le_bytes([page[0], page[1], page[2], page[3]]);
    assert_eq!(stored, crc32c::crc32c(&page[4..]));
}

#[test]
fn the_checksum_is_a_castagnoli_remainder() {
    let mut page: Vec<u8> = (0..512u32).map(|i| (i * 7) as u8).collect();
    init_header(&mut page, PageType::Leaf);
    seal(&mut page, 9);
    let mut sum = 0xFFFF_FFFFu32;
    for byte in &page[4..] {
        sum ^= u32::from(*byte);
        for _ in 0..8 {
            sum = if sum & 1 == 1 {
                (sum >> 1) ^ 0x82F6_3B78
            } else {
                sum >> 1
            };
        }
    }
    let stored = u32::from_le_bytes([page[0], page[1], page[2], page[3]]);
    assert_eq!(stored, sum ^ 0xFFFF_FFFF);
}

#[test]
fn page_sizes_are_powers_of_two_in_range() {
    for good in [512u32, 1024, 2048, 4096, 8192, 16384, 32768, 65536] {
        assert!(valid_page_size(good));
    }
    for bad in [0u32, 256, 513, 1000, 131072] {
        assert!(!valid_page_size(bad));
    }
}

#[test]
fn page_types_have_their_codes() {
    for code in 0..=255u8 {
        match PageType::try_from(code) {
            Ok(t) => assert_eq!(t.code(), code),
            Err(c) => assert_eq!(c, code),
        }
    }
    let mut page = vec![0u8; 512];
    init_header(&mut page, PageType::Overflow);
    assert!(has_type(&page, PageType::Overflow));
    assert!(!has_type(&page, PageType::Leaf));
}

// ---------------------------------------------------------------------
// refs
// ---------------------------------------------------------------------

#[test]
fn branch_ref_roundtrips() {
    let r = BranchRef {
        head_id: 7,
        head_page: 42,
        floor_id: 3,
    };
    assert_eq!(BranchRef::decode(&r.encode()).unwrap(), r);
    assert!(BranchRef::decode(&[0u8; 10]).is_err());
}

#[test]
fn name_validation() {
    for good in ["main", "feature-1", "a", "x_y", "B2"] {
        validate_name(good).unwrap();
    }
    for bad in [
        "",
        "-lead",
        "_lead",
        "has space",
        "\u{fc}mlaut",
        &"x".repeat(65),
    ] {
        assert!(validate_name(bad).is_err(), "accepted {bad:?}");
    }
}

#[test]
fn branch_keys_differ_and_share_their_prefix() {
    assert_ne!(branch_key("a"), branch_key("b"));
    assert!(branch_key("a").starts_with(&branches_prefix()));
    assert!(!head_key().starts_with(&branches_prefix()));
}

// ---------------------------------------------------------------------
// storage and errors
// ---------------------------------------------------------------------

#[test]
fn memory_storage_reads_back_and_ends_where_it_ends() {
    let mut s = MemStorage::new();
    s.write_at(3, b"abc").unwrap();
    assert_eq!(s.len().unwrap(), 6);
    let mut buf = [9u8; 6];
    s.read_at(0, &mut buf).unwrap();
    assert_eq!(&buf, b"\0\0\0abc");
    let mut more = [0u8; 2];
    assert_eq!(
        s.read_at(5, &mut more),
        Err(Error::Io(IoError::UnexpectedEof))
    );
}

#[test]
fn errors_say_what_happened() {
    assert_eq!(
        Error::corrupted(Some(7), "bad checksum").message(),
        "corrupted database (page 7): bad checksum"
    );
}
