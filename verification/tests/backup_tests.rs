use lbp_archive_dl::archive::{make_savearchive, ArchiveError};
use lbp_archive_dl::backup::{
    backup_name, build_attributes, build_backup, make_pfd, make_slotlist, plan_backup,
    BackupError, BackupFile,
};
use lbp_archive_dl::cipher::{decrypt, encrypt};
use lbp_archive_dl::content_map::{hash_is_lt, ContentMap};
use lbp_archive_dl::parser::{
    ParseError, ResrcDependency, ResrcDescriptor, ResrcId, ResrcMethod,
};
use lbp_archive_dl::resolver::{resolve_from_store, Resolver};
use lbp_archive_dl::revision::{GameVersion, ResrcRevision};

fn hash(seed: u8) -> [u8; 20] {
    let mut h = [0u8; 20];
    for i in 0..20 {
        h[i] = seed.wrapping_add(i as u8);
    }
    h
}

fn binary_id(tag: [u8; 3], head: u32, bid: u16, brev: u16, deps: Vec<ResrcDependency>) -> ResrcId {
    ResrcId {
        resrc_type: tag,
        method: ResrcMethod::Binary {
            is_encrypted: false,
            revision: ResrcRevision {
                head,
                branch_id: bid,
                branch_revision: brev,
            },
            dependencies: deps,
        },
    }
}

// Round trip: serialize then parse gives the header back, for the null
// method and the binary method, with and without a dependency table and
// with and without branch fields.
#[test]
fn round_trip_null_method() {
    let id = ResrcId {
        resrc_type: *b"PLN",
        method: ResrcMethod::Null,
    };
    let bytes = id.serialize();
    assert_eq!(ResrcId::new(&bytes).unwrap(), id);
}

#[test]
fn round_trip_binary_no_table() {
    let id = binary_id(*b"PLN", 0x100, 0, 0, vec![]);
    let bytes = id.serialize();
    assert_eq!(ResrcId::new(&bytes).unwrap(), id);
}

#[test]
fn round_trip_binary_table_no_branch() {
    let deps = vec![
        ResrcDependency {
            desc: ResrcDescriptor::Sha1(hash(7)),
            resrc_type: 5,
        },
        ResrcDependency {
            desc: ResrcDescriptor::Guid(0xCAFE),
            resrc_type: 9,
        },
    ];
    let id = binary_id(*b"PLN", 0x200, 0, 0, deps);
    let bytes = id.serialize();
    assert_eq!(ResrcId::new(&bytes).unwrap(), id);
}

#[test]
fn round_trip_binary_with_branch() {
    let deps = vec![ResrcDependency {
        desc: ResrcDescriptor::Sha1(hash(40)),
        resrc_type: 1,
    }];
    let id = binary_id(*b"PLN", 0x397, 0x4C44, 0x0017, deps);
    let bytes = id.serialize();
    assert_eq!(ResrcId::new(&bytes).unwrap(), id);
}

#[test]
fn round_trip_smh_has_no_branch_fields() {
    let id = binary_id(*b"SMH", 0x300, 0, 0, vec![]);
    let bytes = id.serialize();
    // The SMH tag never carries branch fields, so the encoding is four
    // bytes shorter than for any other tag at the same revision.
    let other = binary_id(*b"PLN", 0x300, 0, 0, vec![]);
    assert_eq!(bytes.len() + 4, other.serialize().len());
    assert_eq!(ResrcId::new(&bytes).unwrap(), id);
}

// A dependency entry with kind tag `0` occupies exactly five bytes and
// yields no record: the entry after it is still read correctly.
#[test]
fn zero_tag_entry_is_skipped() {
    let mut bytes = vec![];
    bytes.extend_from_slice(b"PLN");
    bytes.push(b'b');
    bytes.extend_from_slice(&0x200u32.to_be_bytes());
    bytes.extend_from_slice(&12u32.to_be_bytes()); // table offset
    bytes.extend_from_slice(&2u32.to_be_bytes()); // entry count
    bytes.push(0); // the anomalous kind tag
    bytes.extend_from_slice(&7u32.to_be_bytes()); // its resource type, still consumed
    bytes.push(1); // a hash entry follows at exactly five bytes' distance
    let h = hash(3);
    bytes.extend_from_slice(&h);
    bytes.extend_from_slice(&21u32.to_be_bytes());
    let id = ResrcId::new(&bytes).unwrap();
    match id.method {
        ResrcMethod::Binary { dependencies, .. } => {
            assert_eq!(dependencies.len(), 1);
            assert_eq!(
                dependencies[0],
                ResrcDependency {
                    desc: ResrcDescriptor::Sha1(h),
                    resrc_type: 21,
                }
            );
        }
        _ => panic!("expected the binary method"),
    }
}

#[test]
fn unknown_descriptor_tag_is_refused() {
    let mut bytes = vec![];
    bytes.extend_from_slice(b"PLN");
    bytes.push(b'b');
    bytes.extend_from_slice(&0x200u32.to_be_bytes());
    bytes.extend_from_slice(&12u32.to_be_bytes());
    bytes.extend_from_slice(&1u32.to_be_bytes());
    bytes.push(9);
    assert_eq!(ResrcId::new(&bytes), Err(ParseError::BadDescriptorTag));
}

#[test]
fn truncated_input_is_refused() {
    assert_eq!(ResrcId::new(&[1, 2, 3]), Err(ParseError::Truncated));
    let mut bytes = vec![];
    bytes.extend_from_slice(b"PLN");
    bytes.push(b'b');
    bytes.extend_from_slice(&[0, 0]);
    assert_eq!(ResrcId::new(&bytes), Err(ParseError::Truncated));
}

#[test]
fn encrypted_method_byte_sets_the_flag() {
    let mut bytes = vec![];
    bytes.extend_from_slice(b"PLN");
    bytes.push(b'e');
    bytes.extend_from_slice(&0x100u32.to_be_bytes());
    let id = ResrcId::new(&bytes).unwrap();
    match id.method {
        ResrcMethod::Binary { is_encrypted, .. } => assert!(is_encrypted),
        _ => panic!("expected the binary method"),
    }
}

// Generation classification boundaries.
#[test]
fn generation_boundaries() {
    let r272 = ResrcRevision { head: 0x272, branch_id: 0, branch_revision: 0 };
    let r273 = ResrcRevision { head: 0x273, branch_id: 0, branch_revision: 0 };
    let r65536 = ResrcRevision { head: 0x10000, branch_id: 0, branch_revision: 0 };
    assert_eq!(r272.get_gameversion(), GameVersion::Lbp1);
    assert_eq!(r273.get_gameversion(), GameVersion::Lbp2);
    assert_eq!(r65536.get_gameversion(), GameVersion::Lbp3);
}

#[test]
fn revision_fields() {
    let r = ResrcRevision { head: 0x021803F9, branch_id: 1, branch_revision: 2 };
    assert_eq!(r.get_version(), 0x03F9);
    assert_eq!(r.get_subversion(), 0x0218);
    assert!(r.is_lbp3());
    assert!(!r.is_lbp1());
}

#[test]
fn latest_revision_classifies_as_its_own_generation() {
    for gv in [GameVersion::Lbp1, GameVersion::Lbp2, GameVersion::Lbp3] {
        assert_eq!(gv.get_latest_revision().get_gameversion(), gv);
    }
}

// Decrypting then re-encrypting a block-aligned payload gives the payload
// back, and encryption actually changes the bytes.
#[test]
fn cipher_round_trip() {
    let data: Vec<u8> = (0u8..48).collect();
    let dec = decrypt(&data);
    assert_eq!(dec.len(), data.len());
    assert_ne!(dec, data);
    let back = encrypt(&dec);
    assert_eq!(back, data);
    // And the other way round.
    let enc = encrypt(&data);
    assert_ne!(enc, data);
    assert_eq!(decrypt(&enc), data);
}

// The archive's index is sorted strictly ascending by content hash,
// regardless of insertion order.
#[test]
fn archive_index_sorted() {
    let mut map = ContentMap::new();
    let hashes = [hash(200), hash(3), hash(90), hash(47), hash(150)];
    for h in hashes.iter() {
        map.insert_resolved(*h, vec![1, 2, 3]);
    }
    assert_eq!(map.len(), 5);
    let archive = make_savearchive(&map, &hash(3)).unwrap();
    // count, then 5 index entries of 28 bytes each, then the blocks
    assert_eq!(&archive[0..4], &5u32.to_be_bytes());
    let mut prev: Option<[u8; 20]> = None;
    for i in 0..5usize {
        let at = 4 + i * 28;
        let mut h = [0u8; 20];
        h.copy_from_slice(&archive[at..at + 20]);
        if let Some(p) = prev {
            assert!(hash_is_lt(&p, &h));
        }
        prev = Some(h);
    }
    assert_eq!(archive.len(), 4 + 5 * 28 + 5 * 3);
}

#[test]
fn archive_missing_root_is_fatal() {
    let mut map = ContentMap::new();
    map.insert_resolved(hash(1), vec![9]);
    assert_eq!(make_savearchive(&map, &hash(2)), Err(ArchiveError::MissingRoot));
}

fn drive<F: FnMut(&[u8; 20]) -> Option<Vec<u8>>>(r: &mut Resolver, mut fetch: F) {
    while let Some(h) = r.next_fetch() {
        match fetch(&h) {
            Some(bytes) => r.on_fetch_success(h, bytes),
            None => r.on_fetch_failure(h),
        }
    }
}

fn dep(h: [u8; 20]) -> ResrcDependency {
    ResrcDependency {
        desc: ResrcDescriptor::Sha1(h),
        resrc_type: 1,
    }
}

// A cyclic graph resolves: each hash is fetched once and appears once.
#[test]
fn cyclic_dependencies_terminate() {
    let a = hash(10);
    let b = hash(60);
    let res_a = binary_id(*b"LVL", 0x200, 0, 0, vec![dep(b)]).serialize();
    let res_b = binary_id(*b"GFX", 0x200, 0, 0, vec![dep(a)]).serialize();
    let mut r = Resolver::new();
    r.enqueue_root(a);
    let mut fetches = 0;
    drive(&mut r, |h| {
        fetches += 1;
        if *h == a {
            Some(res_a.clone())
        } else if *h == b {
            Some(res_b.clone())
        } else {
            None
        }
    });
    assert_eq!(fetches, 2);
    let (dl, fail) = r.counters();
    assert_eq!((dl, fail), (2, 0));
    let map = r.into_map();
    assert_eq!(map.len(), 2);
    assert!(map.get(&a).unwrap().is_some());
    assert!(map.get(&b).unwrap().is_some());
}

// A self-referencing resource is fetched exactly once.
#[test]
fn self_reference_is_fetched_once() {
    let a = hash(10);
    let res_a = binary_id(*b"LVL", 0x200, 0, 0, vec![dep(a)]).serialize();
    let mut r = Resolver::new();
    r.enqueue_root(a);
    let mut fetches = 0;
    drive(&mut r, |_| {
        fetches += 1;
        Some(res_a.clone())
    });
    assert_eq!(fetches, 1);
    assert_eq!(r.into_map().len(), 1);
}

// A failed non-root fetch neither stops the run nor hides its siblings;
// the failure counter counts the distinct hashes that failed.
#[test]
fn non_root_failure_is_tolerated() {
    let a = hash(10);
    let b = hash(60);
    let c = hash(120);
    let res_a = binary_id(*b"LVL", 0x200, 0, 0, vec![dep(b), dep(c)]).serialize();
    let res_c = binary_id(*b"GFX", 0x200, 0, 0, vec![]).serialize();
    let mut r = Resolver::new();
    r.enqueue_root(a);
    drive(&mut r, |h| {
        if *h == a {
            Some(res_a.clone())
        } else if *h == c {
            Some(res_c.clone())
        } else {
            None
        }
    });
    let (dl, fail) = r.counters();
    assert_eq!((dl, fail), (2, 1));
    let map = r.into_map();
    assert_eq!(map.len(), 3);
    assert!(map.get(&c).unwrap().is_some());
    assert!(map.get(&b).unwrap().is_none());
}

// A failed root fetch is fatal: the archive cannot be assembled.
#[test]
fn root_failure_is_fatal() {
    let a = hash(10);
    let mut r = Resolver::new();
    r.enqueue_root(a);
    drive(&mut r, |_| None);
    let (dl, fail) = r.counters();
    assert_eq!((dl, fail), (0, 1));
    let map = r.into_map();
    assert_eq!(make_savearchive(&map, &a), Err(ArchiveError::MissingRoot));
}

// An unresolved non-root entry must fail the assembly loudly.
#[test]
fn unresolved_entry_fails_assembly() {
    let a = hash(10);
    let b = hash(60);
    let res_a = binary_id(*b"LVL", 0x200, 0, 0, vec![dep(b)]).serialize();
    let mut r = Resolver::new();
    r.enqueue_root(a);
    drive(&mut r, |h| if *h == a { Some(res_a.clone()) } else { None });
    let map = r.into_map();
    assert_eq!(make_savearchive(&map, &a), Err(ArchiveError::UnresolvedEntry));
}

#[test]
fn plan_rejects_non_binary_root() {
    let root = ResrcId {
        resrc_type: *b"PLN",
        method: ResrcMethod::Null,
    }
    .serialize();
    assert_eq!(
        plan_backup(&root, GameVersion::Lbp2, false, 1, false).unwrap_err(),
        BackupError::RootNotBinary
    );
    assert_eq!(
        plan_backup(&vec![1, 2], GameVersion::Lbp2, false, 1, false).unwrap_err(),
        BackupError::RootParse(ParseError::Truncated)
    );
}

#[test]
fn plan_keeps_or_coerces_on_mismatch() {
    // A generation-2 root recorded as a generation-1 level.
    let root = binary_id(*b"LVL", 0x300, 0, 0, vec![]).serialize();
    let kept = plan_backup(&root, GameVersion::Lbp1, true, 1, false).unwrap();
    assert!(kept.mismatch);
    assert_eq!(kept.gameversion, GameVersion::Lbp2);
    assert_eq!(kept.revision.head, 0x300);
    let coerced = plan_backup(&root, GameVersion::Lbp1, false, 1, false).unwrap();
    assert!(coerced.mismatch);
    assert_eq!(coerced.gameversion, GameVersion::Lbp1);
    assert_eq!(coerced.revision, GameVersion::Lbp1.get_latest_revision());
}

#[test]
fn backup_names() {
    assert_eq!(
        backup_name(GameVersion::Lbp2, 1234, false),
        b"BCES00850LEVEL000004D2".to_vec()
    );
    assert_eq!(
        backup_name(GameVersion::Lbp3, 0xABCDEF01, true),
        b"BCES01663ADVLBP3AAZABCDEF01".to_vec()
    );
}

// The wrapper embeds the digest of each listed file; the digest of b"abc"
// is a known value, so a wrapper that did anything else would differ.
#[test]
fn wrapper_embeds_file_digests() {
    let sfo = vec![1u8, 2, 3];
    let files = vec![BackupFile {
        name: b"x".to_vec(),
        data: b"abc".to_vec(),
    }];
    let pfd = make_pfd(3, &sfo, &files);
    let expected_digest: [u8; 20] = [
        0xa9, 0x99, 0x3e, 0x36, 0x47, 0x06, 0x81, 0x6a, 0xba, 0x3e, 0x25, 0x71, 0x78, 0x50, 0xc2,
        0x6c, 0x9c, 0xd0, 0xd8, 0x9d,
    ];
    assert_eq!(&pfd[0..4], &3u32.to_be_bytes());
    assert_eq!(&pfd[4..8], &1u32.to_be_bytes());
    assert_eq!(&pfd[8..10], &1u16.to_be_bytes());
    assert_eq!(pfd[10], b'x');
    assert_eq!(&pfd[11..31], &expected_digest);
    assert_eq!(&pfd[31..35], &3u32.to_be_bytes());
    assert_eq!(&pfd[35..38], &sfo[..]);
    // The newer variant widens the name length field.
    let pfd4 = make_pfd(4, &sfo, &files);
    assert_eq!(&pfd4[4..8], &1u32.to_be_bytes());
    assert_eq!(&pfd4[8..12], &1u32.to_be_bytes());
    assert_eq!(pfd4.len(), pfd.len() + 2);
}

#[test]
fn attributes_hold_the_required_keys() {
    let name = b"BCES00850LEVEL000004D2".to_vec();
    let title = b"Some Level".to_vec();
    let sfo = build_attributes(&name, &title, GameVersion::Lbp2);
    assert_eq!(&sfo[0..4], &6u32.to_be_bytes());
    for key in [
        &b"APP_VER"[..],
        &b"CATEGORY"[..],
        &b"PARENTAL_LEVEL"[..],
        &b"SAVEDATA_DIRECTORY"[..],
        &b"TITLE"[..],
        &b"TITLE_ID"[..],
    ] {
        assert!(
            sfo.windows(key.len()).any(|w| w == key),
            "missing attribute key"
        );
    }
    assert!(sfo.windows(name.len()).any(|w| w == &name[..]));
    assert!(sfo.windows(title.len()).any(|w| w == &title[..]));
}

// End-to-end: a binary root at revision 0x300 with no dependencies gives a
// one-entry map, a two-entry archive (root plus the generated listing),
// and a generation-2 backup name.
#[test]
fn end_to_end_single_root() {
    let a = hash(10);
    let res_a = binary_id(*b"LVL", 0x300, 0, 0, vec![]).serialize();
    assert_eq!(res_a[3], b'b');
    let mut r = Resolver::new();
    r.enqueue_root(a);
    drive(&mut r, |h| if *h == a { Some(res_a.clone()) } else { None });
    let (dl, fail) = r.counters();
    assert_eq!((dl, fail), (1, 0));
    let map = r.into_map();
    assert_eq!(map.len(), 1);

    let root_bytes = map.get(&a).unwrap().clone().unwrap();
    let plan = plan_backup(&root_bytes, GameVersion::Lbp2, false, 77, false).unwrap();
    assert!(!plan.mismatch);
    assert!(plan.bkp_name.starts_with(b"BCES00850"));
    assert_eq!(plan.bkp_name, b"BCES00850LEVEL0000004D".to_vec());

    let title = b"Level Seventy-Seven".to_vec();
    let out = build_backup(map, &a, &plan, &title).unwrap();
    // root + generated listing
    assert_eq!(&out.archive[0..4], &2u32.to_be_bytes());
    assert_eq!(out.map.len(), 2);

    // The generated listing is in the map under its own content hash and
    // references the root.
    let slt = make_slotlist(&plan.revision, &a);
    let slt_hash = if *out.map.hash_at(0) == a {
        *out.map.hash_at(1)
    } else {
        *out.map.hash_at(0)
    };
    assert_eq!(out.map.get(&slt_hash).unwrap().clone().unwrap(), slt);
    let slt_id = ResrcId::new(&slt).unwrap();
    match slt_id.method {
        ResrcMethod::Binary { dependencies, .. } => {
            assert_eq!(dependencies.len(), 1);
            assert_eq!(dependencies[0].desc, ResrcDescriptor::Sha1(a));
        }
        _ => panic!("expected the binary method"),
    }
}


// The work-list walk against a finite store: a cycle terminates, missing
// hashes are counted as failures, everything reachable is resolved.
#[test]
fn store_resolution_handles_cycles_and_misses() {
    let a = hash(10);
    let b = hash(60);
    let c = hash(120);
    let mut store = ContentMap::new();
    store.insert_resolved(a, binary_id(*b"LVL", 0x200, 0, 0, vec![dep(b), dep(c)]).serialize());
    store.insert_resolved(b, binary_id(*b"GFX", 0x200, 0, 0, vec![dep(a)]).serialize());
    let r = resolve_from_store(&vec![a], &store);
    let (dl, fail) = r.counters();
    assert_eq!((dl, fail), (2, 1));
    let map = r.into_map();
    assert_eq!(map.len(), 3);
    assert!(map.get(&a).unwrap().is_some());
    assert!(map.get(&b).unwrap().is_some());
    assert!(map.get(&c).unwrap().is_none());
}


// A payload whose header marks the body encrypted has its dependency
// table read from the decrypted bytes: the dependency is discovered only
// because the resolver decrypts before parsing.
#[test]
fn encrypted_payload_dependencies_are_discovered() {
    let a = hash(10);
    let b = hash(60);
    let mut id = binary_id(*b"LVL", 0x200, 0, 0, vec![dep(b)]);
    if let ResrcMethod::Binary {
        ref mut is_encrypted,
        ..
    } = id.method
    {
        *is_encrypted = true;
    }
    let mut plain = id.serialize();
    assert_eq!(plain[3], b'e');
    while (plain.len() - 4) % 4 != 0 {
        plain.push(0); // the parser ignores trailing bytes
    }
    let body: Vec<u8> = plain[4..].to_vec();
    let enc_body = encrypt(&body);
    let mut fetched = plain[0..4].to_vec();
    fetched.extend_from_slice(&enc_body);
    assert_ne!(fetched, plain);

    let res_b = binary_id(*b"GFX", 0x200, 0, 0, vec![]).serialize();
    let mut r = Resolver::new();
    r.enqueue_root(a);
    drive(&mut r, |h| {
        if *h == a {
            Some(fetched.clone())
        } else if *h == b {
            Some(res_b.clone())
        } else {
            None
        }
    });
    let (dl, fail) = r.counters();
    assert_eq!((dl, fail), (2, 0));
    let map = r.into_map();
    assert_eq!(map.len(), 2);
    // The payload is stored as fetched, still encrypted.
    assert_eq!(map.get(&a).unwrap().clone().unwrap(), fetched);
}
