use gitty::cli::{cat_file, run, CatFileArgs, CatFileMode, Cli, CliError, Commands};
use gitty::error::{GetError, ParseErrorKind};
use gitty::ident::ObjectId;
use gitty::store::delta::resolve_delta;
use gitty::store::loose::{get_loose_object, read_loose_raw, split_loose};
use gitty::store::object::{parse_tree, parse_tree_entry};
use gitty::store::pack::{
    get_packed_object, parse_packed_object_and_size, read_packed_entry, ObjectKind,
    PackedObjectKind,
};
use gitty::store::util::{
    find_backend, resolve_id, visit_loose_ids, visit_pack_ids, visit_pack_oids, ResolveError,
};
use gitty::store::inflate::{Inflated, Stream};
use gitty::store::{
    parse_object, GitObjectData, GitObjectStore, LooseDir, LooseFile, PackFile, RawObject,
    StoreBackend, TreeEntry,
};
use std::io::Read;

fn adler32(data: &[u8]) -> u32 {
    let mut a: u32 = 1;
    let mut b: u32 = 0;
    for x in data {
        a = (a + *x as u32) % 65521;
        b = (b + a) % 65521;
    }
    (b << 16) | a
}

/// A zlib stream that keeps the data in stored blocks.
fn deflate(data: &[u8]) -> Vec<u8> {
    let mut out = vec![0x78, 0x01];
    let mut rest = data;
    loop {
        let take = rest.len().min(0xffff);
        let last = take == rest.len();
        out.push(if last { 1 } else { 0 });
        out.push(take as u8);
        out.push((take >> 8) as u8);
        out.push(!(take as u8));
        out.push(!((take >> 8) as u8));
        out.extend(&rest[..take]);
        rest = &rest[take..];
        if last {
            break;
        }
    }
    let sum = adler32(data);
    out.extend([(sum >> 24) as u8, (sum >> 16) as u8, (sum >> 8) as u8, sum as u8]);
    out
}

/// What the decoder gives for a stream of the store.
fn inflate(store: &GitObjectStore, stream: Stream) -> Option<Vec<u8>> {
    match stream {
        Stream::Loose { dir, file } => {
            let data = &store.loose[dir].files[file].data;
            let mut out = Vec::new();
            match compress::zlib::Decoder::new(&data[..]).read_to_end(&mut out) {
                Ok(_) => Some(out),
                Err(_) => None,
            }
        }
        Stream::Packed { pack, at, len } => {
            let data = &store.packs[pack].pack[at..];
            let mut out = vec![0u8; len];
            match compress::zlib::Decoder::new(data).read_exact(&mut out) {
                Ok(()) => Some(out),
                Err(_) => None,
            }
        }
    }
}

fn copy_of(store: &GitObjectStore) -> GitObjectStore {
    GitObjectStore {
        loose: store
            .loose
            .iter()
            .map(|dir| LooseDir {
                name: dir.name.clone(),
                files: dir
                    .files
                    .iter()
                    .map(|f| LooseFile { name: f.name.clone(), data: f.data.clone() })
                    .collect(),
            })
            .collect(),
        packs: store
            .packs
            .iter()
            .map(|p| PackFile { name: p.name.clone(), idx: p.idx.clone(), pack: p.pack.clone() })
            .collect(),
        inflated: Vec::new(),
    }
}

/// Asks until every stream that the answer needs has been inflated.
fn settled<T>(
    store: &GitObjectStore,
    ask: impl Fn(&GitObjectStore) -> Result<T, GetError>,
) -> Result<T, GetError> {
    let mut work = copy_of(store);
    loop {
        match ask(&work) {
            Err(GetError::NotInflated(stream)) => {
                assert!(work.inflated.iter().all(|e| e.stream != stream));
                let data = inflate(&work, stream);
                work.inflated.push(Inflated { stream, data });
            }
            other => return other,
        }
    }
}

fn packed(bytes: &[u8]) -> GitObjectStore {
    GitObjectStore {
        loose: vec![],
        packs: vec![PackFile { name: "p".to_string(), idx: vec![], pack: bytes.to_vec() }],
        inflated: vec![],
    }
}

fn delta(bytes: &[u8], at: usize) -> Result<(PackedObjectKind, Vec<u8>), GetError> {
    settled(&packed(bytes), |s| resolve_delta(&s.packs[0].pack, &s.inflated, 0, at))
}

fn entry(bytes: &[u8], at: usize) -> Result<RawObject, GetError> {
    settled(&packed(bytes), |s| read_packed_entry(&s.packs[0].pack, &s.inflated, 0, at))
}

fn command(store: &GitObjectStore, cli: &Cli) -> Result<Vec<u8>, CliError> {
    let mut work = copy_of(store);
    loop {
        match run(&work, cli) {
            Err(CliError::NotInflated(stream)) => {
                let data = inflate(&work, stream);
                work.inflated.push(Inflated { stream, data });
            }
            other => return other,
        }
    }
}

fn cat(store: &GitObjectStore, args: &CatFileArgs) -> Result<Vec<u8>, CliError> {
    let mut work = copy_of(store);
    loop {
        match cat_file(&work, args) {
            Err(CliError::NotInflated(stream)) => {
                let data = inflate(&work, stream);
                work.inflated.push(Inflated { stream, data });
            }
            other => return other,
        }
    }
}

fn word(n: u32) -> Vec<u8> {
    vec![(n >> 24) as u8, (n >> 16) as u8, (n >> 8) as u8, n as u8]
}

fn loose(kind: &str, data: &[u8]) -> Vec<u8> {
    let mut content = format!("{} {}\0", kind, data.len()).into_bytes();
    content.extend(data);
    deflate(&content)
}

fn hex(id: &[u8; 20]) -> String {
    ObjectId(*id).to_hex()
}

fn store_of(objects: &[([u8; 20], Vec<u8>)], packs: Vec<PackFile>) -> GitObjectStore {
    let mut dirs: Vec<LooseDir> = Vec::new();
    for (id, data) in objects {
        let text = hex(id);
        let name = text[..2].to_string();
        let file = LooseFile { name: text[2..].to_string(), data: data.clone() };
        match dirs.iter_mut().find(|d| d.name == name) {
            Some(dir) => dir.files.push(file),
            None => dirs.push(LooseDir { name, files: vec![file] }),
        }
    }
    GitObjectStore { loose: dirs, packs, inflated: Vec::new() }
}

fn entry_header(kind: u8, size: usize) -> Vec<u8> {
    let mut out = Vec::new();
    let mut byte = (kind << 4) | (size & 0x0f) as u8;
    let mut rest = size >> 4;
    while rest > 0 {
        out.push(byte | 0x80);
        byte = (rest & 0x7f) as u8;
        rest >>= 7;
    }
    out.push(byte);
    out
}

fn back(distance: u64) -> Vec<u8> {
    let mut out = vec![(distance & 0x7f) as u8];
    let mut rest = distance >> 7;
    while rest > 0 {
        rest -= 1;
        out.insert(0, 0x80 | (rest & 0x7f) as u8);
        rest >>= 7;
    }
    out
}

struct Pack {
    bytes: Vec<u8>,
}

impl Pack {
    fn new() -> Pack {
        let mut bytes = b"PACK".to_vec();
        bytes.extend(word(2));
        bytes.extend(word(0));
        Pack { bytes }
    }

    fn whole(&mut self, kind: u8, data: &[u8]) -> usize {
        let at = self.bytes.len();
        self.bytes.extend(entry_header(kind, data.len()));
        self.bytes.extend(deflate(data));
        at
    }

    fn delta(&mut self, base_at: usize, payload: &[u8]) -> usize {
        let at = self.bytes.len();
        self.bytes.extend(entry_header(6, payload.len()));
        self.bytes.extend(back((at - base_at) as u64));
        self.bytes.extend(deflate(payload));
        at
    }
}

fn index(entries: &[([u8; 20], u64)], wide_from: u64) -> Vec<u8> {
    let mut out = vec![0xff, 0x74, 0x4f, 0x63];
    out.extend(word(2));
    for first in 0..256usize {
        let count = entries.iter().filter(|(id, _)| id[0] as usize <= first).count();
        out.extend(word(count as u32));
    }
    for (id, _) in entries {
        out.extend(id.iter());
    }
    for _ in entries {
        out.extend(word(0));
    }
    let mut wide: Vec<u64> = Vec::new();
    for (_, offset) in entries {
        if *offset >= wide_from {
            out.extend(word(0x8000_0000 | wide.len() as u32));
            wide.push(*offset);
        } else {
            out.extend(word(*offset as u32));
        }
    }
    for value in wide {
        out.extend(word((value >> 32) as u32));
        out.extend(word(value as u32));
    }
    out
}

const BASE: &[u8] = b"0123456789";

/// `hello world\n` twice, compressed.
const PACKED_HELLO: [u8; 23] = [
    0x78, 0xda, 0xcb, 0x48, 0xcd, 0xc9, 0xc9, 0x57, 0x28, 0xcf, 0x2f, 0xca, 0x49, 0xe1, 0xca, 0x40,
    0x62, 0x03, 0x00, 0x71, 0xac, 0x08, 0xcd,
];

/// A pack with a blob and three deltas, each against the one before.
fn chained_pack() -> (Vec<u8>, [usize; 4]) {
    let mut pack = Pack::new();
    let base = pack.whole(3, BASE);
    let one = pack.delta(base, &[10, 8, 0x90, 5, 3, b'a', b'b', b'c']);
    let two = pack.delta(one, &[8, 7, 0x91, 5, 3, 2, b'X', b'Y', 0x90, 2]);
    let three = pack.delta(two, &[7, 5, 1, b'Z', 0x91, 3, 4]);
    (pack.bytes, [base, one, two, three])
}

fn chained_store() -> GitObjectStore {
    let (bytes, at) = chained_pack();
    let entries = [
        ([0x10; 20], at[0] as u64),
        ([0x20; 20], at[1] as u64),
        ([0x30; 20], at[2] as u64),
        ([0x40; 20], at[3] as u64),
    ];
    let pack = PackFile { name: "pack-a".to_string(), idx: index(&entries, u64::MAX), pack: bytes };
    store_of(&[([0x50; 20], loose("blob", b"ZXY01"))], vec![pack])
}

fn blob_of(store: &GitObjectStore, id: [u8; 20]) -> Vec<u8> {
    match settled(store, |s| s.get(ObjectId(id))).unwrap().data {
        GitObjectData::Blob { data } => data,
        other => panic!("not a blob: {:?}", other),
    }
}

#[test]
fn empty_blob_is_read_from_its_loose_file() {
    let id = ObjectId::from_hex("e69de29bb2d1d6434b8b29ae775ad8c2e48c5391").unwrap();
    let store = GitObjectStore {
        loose: vec![LooseDir {
            name: "e6".to_string(),
            files: vec![LooseFile {
                name: "9de29bb2d1d6434b8b29ae775ad8c2e48c5391".to_string(),
                data: deflate(b"blob 0\0"),
            }],
        }],
        packs: vec![],
        inflated: vec![],
    };
    let object = settled(&store, |s| s.get(id)).unwrap();
    assert_eq!(object.data, GitObjectData::Blob { data: Vec::new() });
    assert_eq!(object.id, id);
    assert_eq!(object.size, 0);
    assert_eq!(object.render(), Vec::<u8>::new());
    assert_eq!(object.type_str(), "blob");
}

#[test]
fn tree_of_two_entries_keeps_their_order() {
    let a = [0xaa; 20];
    let b = [0xbb; 20];
    let mut body = b"100644 file.txt\0".to_vec();
    body.extend(a);
    body.extend(b"40000 sub\0");
    body.extend(b);
    assert_eq!(body.len(), 66);
    let store = store_of(
        &[
            ([0x11; 20], loose("tree", &body)),
            (a, loose("blob", b"content")),
            (b, loose("tree", b"")),
        ],
        vec![],
    );
    let object = settled(&store, |s| s.get(ObjectId([0x11; 20]))).unwrap();
    assert_eq!(object.size, 66);
    assert_eq!(
        object.data,
        GitObjectData::Tree {
            entries: vec![
                TreeEntry {
                    mode: 0o100644,
                    kind: "blob".to_string(),
                    path: b"file.txt".to_vec(),
                    id: ObjectId(a),
                },
                TreeEntry {
                    mode: 0o40000,
                    kind: "tree".to_string(),
                    path: b"sub".to_vec(),
                    id: ObjectId(b),
                },
            ]
        }
    );
    assert_eq!(
        object.render(),
        format!("100644 blob {} file.txt\n040000 tree {} sub\n", hex(&a), hex(&b)).into_bytes()
    );
}

#[test]
fn tree_entry_takes_the_kind_of_what_it_names() {
    let (bytes, at) = chained_pack();
    let pack = PackFile {
        name: "p".to_string(),
        idx: index(&[([0x40; 20], at[3] as u64)], u64::MAX),
        pack: bytes,
    };
    let commit = b"tree 1111111111111111111111111111111111111111\nauthor A\ncommitter C\n\n";
    let store = store_of(
        &[([0xc0; 20], loose("commit", commit)), ([0xd0; 20], loose("tag", b"not parsed"))],
        vec![pack],
    );
    let mut body = b"160000 module\0".to_vec();
    body.extend([0xc0; 20]);
    body.extend(b"100755 delta\xff\0");
    body.extend([0x40; 20]);
    body.extend(b"+644 tag\0");
    body.extend([0xd0; 20]);
    match settled(&store, |s| parse_tree(s, &body)).unwrap() {
        GitObjectData::Tree { entries } => {
            assert_eq!(entries.len(), 3);
            assert_eq!(entries[0].kind, "commit");
            assert_eq!(entries[0].mode, 0o160000);
            assert_eq!(entries[1].kind, "blob");
            assert_eq!(entries[1].path, b"delta\xff".to_vec());
            assert_eq!(entries[2].kind, "tag");
            assert_eq!(entries[2].mode, 0o644);
        }
        other => panic!("not a tree: {:?}", other),
    }
    let (entry, next) = settled(&store, |s| parse_tree_entry(s, &body, 0)).unwrap();
    assert_eq!(entry.id, ObjectId([0xc0; 20]));
    assert_eq!(next, 34);
}

#[test]
fn tree_that_names_itself_is_read() {
    let mut body = b"40000 me\0".to_vec();
    body.extend([0x11; 20]);
    let store = store_of(&[([0x11; 20], loose("tree", &body))], vec![]);
    match settled(&store, |s| s.get(ObjectId([0x11; 20]))).unwrap().data {
        GitObjectData::Tree { entries } => {
            assert_eq!(entries.len(), 1);
            assert_eq!(entries[0].kind, "tree");
        }
        other => panic!("not a tree: {:?}", other),
    }
}

#[test]
fn tree_refuses_malformed_entries() {
    let store = store_of(&[([0xaa; 20], loose("blob", b"x"))], vec![]);
    let mut bad_mode = b"10x644 f\0".to_vec();
    bad_mode.extend([0xaa; 20]);
    assert_eq!(
        settled(&store, |s| parse_tree(s, &bad_mode)),
        Err(GetError::ParseError(ParseErrorKind::BadMode))
    );
    let mut no_mode = b" f\0".to_vec();
    no_mode.extend([0xaa; 20]);
    assert_eq!(settled(&store, |s| parse_tree(s, &no_mode)), Err(GetError::ParseError(ParseErrorKind::BadMode)));
    let mut wide = b"40000000000 f\0".to_vec();
    wide.extend([0xaa; 20]);
    assert_eq!(settled(&store, |s| parse_tree(s, &wide)), Err(GetError::ParseError(ParseErrorKind::BadMode)));
    let mut short = b"100644 f\0".to_vec();
    short.extend([0xaa; 19]);
    assert_eq!(settled(&store, |s| parse_tree(s, &short)), Err(GetError::ParseError(ParseErrorKind::BadObjectId)));
    assert_eq!(
        settled(&store, |s| parse_tree(s, b"100644 f")),
        Err(GetError::ParseError(ParseErrorKind::BadObjectId))
    );
    let mut absent = b"100644 f\0".to_vec();
    absent.extend([0xab; 20]);
    assert_eq!(settled(&store, |s| parse_tree(s, &absent)), Err(GetError::NotFound));
    assert_eq!(settled(&store, |s| parse_tree(s, b"")), Ok(GitObjectData::Tree { entries: vec![] }));
}

#[test]
fn object_is_parsed_as_its_kind() {
    let store = store_of(&[], vec![]);
    assert_eq!(
        settled(&store, |s| parse_object(s, ObjectKind::Blob, b"tree x")),
        Ok(GitObjectData::Blob { data: b"tree x".to_vec() })
    );
    assert_eq!(
        settled(&store, |s| parse_object(s, ObjectKind::Commit, b"x")),
        Err(GetError::ParseError(ParseErrorKind::Truncated))
    );
    assert_eq!(
        settled(&store, |s| parse_object(s, ObjectKind::Tag, b"\n")),
        Err(GetError::ParseError(ParseErrorKind::MissingHeader))
    );
    assert_eq!(
        settled(&store, |s| parse_object(s, ObjectKind::Tree, b"x")),
        Err(GetError::ParseError(ParseErrorKind::BadMode))
    );
}

#[test]
fn abbreviation_shared_by_two_ids_is_ambiguous() {
    let one = ObjectId::from_hex("abcde00000000000000000000000000000000000").unwrap();
    let two = ObjectId::from_hex("abcde10000000000000000000000000000000000").unwrap();
    let store =
        store_of(&[(one.0, loose("blob", b"1")), (two.0, loose("blob", b"2"))], vec![]);
    assert_eq!(resolve_id(&store, "abcde"), Err(ResolveError::Ambiguous(vec![one, two])));
    assert_eq!(resolve_id(&store, "abcd"), Err(ResolveError::Ambiguous(vec![one, two])));
    assert_eq!(resolve_id(&store, "abcde0"), Ok(one));
    assert_eq!(resolve_id(&store, "ABCDE1"), Ok(two));
    assert_eq!(resolve_id(&store, "abcde10"), Ok(two));
}

#[test]
fn last_digit_of_an_odd_abbreviation_is_not_looked_at() {
    let one = ObjectId::from_hex("abcde00000000000000000000000000000000000").unwrap();
    let store = store_of(&[(one.0, loose("blob", b"1"))], vec![]);
    assert_eq!(resolve_id(&store, "abcdf"), Ok(one));
    assert_eq!(resolve_id(&store, "abcdx"), Ok(one));
    assert_eq!(resolve_id(&store, "abcdf0"), Err(ResolveError::NotFound));
}

#[test]
fn abbreviation_must_be_4_to_40_hex_digits() {
    let one = ObjectId::from_hex("abcde00000000000000000000000000000000000").unwrap();
    let store = store_of(&[(one.0, loose("blob", b"1"))], vec![]);
    assert_eq!(resolve_id(&store, "abc"), Err(ResolveError::TooShort));
    assert_eq!(resolve_id(&store, ""), Err(ResolveError::TooShort));
    assert_eq!(resolve_id(&store, "xyz"), Err(ResolveError::TooShort));
    assert_eq!(resolve_id(&store, "abcx"), Err(ResolveError::InvalidHex));
    assert_eq!(resolve_id(&store, "ab\u{e9}d"), Err(ResolveError::InvalidHex));
    assert_eq!(
        resolve_id(&store, "abcde000000000000000000000000000000000000"),
        Err(ResolveError::InvalidHex)
    );
    assert_eq!(resolve_id(&store, "abcde00000000000000000000000000000000000"), Ok(one));
    assert_eq!(resolve_id(&store, "abcd"), Ok(one));
    assert_eq!(resolve_id(&store, "abce"), Err(ResolveError::NotFound));
    assert_eq!(resolve_id(&store, "1234"), Err(ResolveError::NotFound));
}

#[test]
fn abbreviation_finds_packed_ids_and_lists_each_id_once() {
    let store = chained_store();
    assert_eq!(resolve_id(&store, "4040"), Ok(ObjectId([0x40; 20])));
    assert_eq!(resolve_id(&store, "5050"), Ok(ObjectId([0x50; 20])));
    let (bytes, at) = chained_pack();
    let entries = [([0xab; 20], at[0] as u64), ([0xab; 20], at[0] as u64)];
    let mut other = [0xab; 20];
    other[19] = 0;
    let both = store_of(
        &[([0xab; 20], loose("blob", BASE)), (other, loose("blob", b"o"))],
        vec![PackFile { name: "p".to_string(), idx: index(&entries, u64::MAX), pack: bytes }],
    );
    assert_eq!(
        resolve_id(&both, "abab"),
        Err(ResolveError::Ambiguous(vec![ObjectId([0xab; 20]), ObjectId(other)]))
    );
    assert_eq!(resolve_id(&both, &"ab".repeat(20)), Ok(ObjectId([0xab; 20])));
    assert_eq!(find_backend(&both, ObjectId([0xab; 20])), Some(StoreBackend::Loose));
    assert_eq!(settled(&both, |s| s.get(ObjectId([0xab; 20]))).unwrap().id, ObjectId([0xab; 20]));
}

#[test]
fn loose_ids_are_visited_in_directory_order() {
    let store = GitObjectStore {
        loose: vec![
            LooseDir {
                name: "ab".to_string(),
                files: vec![
                    LooseFile { name: "cd".repeat(19), data: vec![] },
                    LooseFile { name: "EF".repeat(19), data: vec![] },
                    LooseFile { name: "tmp_obj_1".to_string(), data: vec![] },
                    LooseFile { name: "01".repeat(19), data: vec![] },
                ],
            },
            LooseDir {
                name: "00".to_string(),
                files: vec![LooseFile { name: "11".repeat(19), data: vec![] }],
            },
        ],
        packs: vec![],
        inflated: vec![],
    };
    let mut first = [0xcd; 20];
    first[0] = 0xab;
    let mut second = [0xef; 20];
    second[0] = 0xab;
    let mut third = [0x11; 20];
    third[0] = 0;
    assert_eq!(
        visit_loose_ids(&store, Some(0xab)),
        (vec![ObjectId(first), ObjectId(second)], false)
    );
    assert_eq!(visit_loose_ids(&store, Some(0x00)), (vec![ObjectId(third)], true));
    assert_eq!(visit_loose_ids(&store, Some(0x01)), (vec![], false));
    assert_eq!(visit_loose_ids(&store, None), (vec![ObjectId(first), ObjectId(second)], false));
    let tidy = GitObjectStore {
        loose: vec![
            LooseDir {
                name: "00".to_string(),
                files: vec![LooseFile { name: "11".repeat(19), data: vec![] }],
            },
            LooseDir { name: "ab".to_string(), files: vec![] },
            LooseDir {
                name: "AB".to_string(),
                files: vec![LooseFile { name: "cd".repeat(19), data: vec![] }],
            },
        ],
        packs: vec![],
        inflated: vec![],
    };
    assert_eq!(visit_loose_ids(&tidy, None), (vec![ObjectId(third), ObjectId(first)], true));
    assert_eq!(visit_loose_ids(&tidy, Some(0xab)), (vec![], true));
}

#[test]
fn packed_ids_are_visited_pack_after_pack() {
    let one = PackFile {
        name: "pack-1".to_string(),
        idx: index(&[([1; 20], 12), ([2; 20], 40)], u64::MAX),
        pack: vec![],
    };
    let two =
        PackFile { name: "pack-2".to_string(), idx: index(&[([3; 20], 12)], u64::MAX), pack: vec![] };
    let broken = PackFile { name: "pack-3".to_string(), idx: vec![1, 2, 3], pack: vec![] };
    let three =
        PackFile { name: "pack-4".to_string(), idx: index(&[([4; 20], 12)], u64::MAX), pack: vec![] };
    let store = GitObjectStore { loose: vec![], packs: vec![one, two, broken, three], inflated: vec![] };
    let (named, complete) = visit_pack_ids(&store, true);
    assert!(!complete);
    assert_eq!(named.len(), 3);
    assert_eq!(named[0].oid, ObjectId([1; 20]));
    assert_eq!(named[0].pack_name, Some("pack-1".to_string()));
    assert_eq!(named[1].oid, ObjectId([2; 20]));
    assert_eq!(named[1].pack_name, Some("pack-1".to_string()));
    assert_eq!(named[2].oid, ObjectId([3; 20]));
    assert_eq!(named[2].pack_name, Some("pack-2".to_string()));
    let (bare, _) = visit_pack_ids(&store, false);
    assert_eq!(bare.len(), 3);
    assert_eq!(bare[2].oid, ObjectId([3; 20]));
    assert_eq!(bare[2].pack_name, None);
    assert_eq!(
        visit_pack_oids(&store),
        vec![ObjectId([1; 20]), ObjectId([2; 20]), ObjectId([3; 20])]
    );
    assert_eq!(find_backend(&store, ObjectId([3; 20])), Some(StoreBackend::Packed));
    assert_eq!(find_backend(&store, ObjectId([4; 20])), None);
    let whole = GitObjectStore { loose: vec![], packs: vec![], inflated: vec![] };
    assert_eq!(visit_pack_ids(&whole, true).1, true);
}

#[test]
fn backend_is_loose_before_packed() {
    let store = chained_store();
    assert_eq!(find_backend(&store, ObjectId([0x50; 20])), Some(StoreBackend::Loose));
    assert_eq!(find_backend(&store, ObjectId([0x40; 20])), Some(StoreBackend::Packed));
    assert_eq!(find_backend(&store, ObjectId([0x60; 20])), None);
    assert_eq!(settled(&store, |s| s.get(ObjectId([0x60; 20]))).unwrap_err(), GetError::NotFound);
    assert_eq!(settled(&store, |s| s.read_raw(&ObjectId([0x60; 20]))).unwrap_err(), GetError::NotFound);
}

#[test]
fn delta_chain_of_depth_three_gives_the_bytes_of_the_loose_copy() {
    let store = chained_store();
    assert_eq!(blob_of(&store, [0x10; 20]), BASE.to_vec());
    assert_eq!(blob_of(&store, [0x20; 20]), b"01234abc".to_vec());
    assert_eq!(blob_of(&store, [0x30; 20]), b"abcXY01".to_vec());
    assert_eq!(blob_of(&store, [0x40; 20]), b"ZXY01".to_vec());
    assert_eq!(blob_of(&store, [0x40; 20]), blob_of(&store, [0x50; 20]));
    let packed = settled(&store, |s| s.get(ObjectId([0x40; 20]))).unwrap();
    assert_eq!(packed.id, ObjectId([0x40; 20]));
    assert_eq!(packed.size, 5);
    assert_eq!(packed.type_str(), "blob");
    assert_eq!(packed.render(), b"ZXY01".to_vec());
}

#[test]
fn resolved_delta_has_the_length_it_declares() {
    let (bytes, at) = chained_pack();
    let (kind, data) = delta(&bytes, at[3]).unwrap();
    assert_eq!(kind, PackedObjectKind::Object(ObjectKind::Blob));
    assert_eq!(data, b"ZXY01".to_vec());
    assert_eq!(data.len(), 5);
    let (_, middle) = delta(&bytes, at[2]).unwrap();
    assert_eq!(middle.len(), 7);
    assert_eq!(delta(&bytes, at[0]).unwrap_err(), GetError::MalformedHeader);
    assert_eq!(delta(&bytes, bytes.len()).unwrap_err(), GetError::MalformedHeader);
}

#[test]
fn packed_entry_is_read_whole_or_through_its_chain() {
    let (bytes, at) = chained_pack();
    let raw = entry(&bytes, at[0]).unwrap();
    assert_eq!(raw.kind, ObjectKind::Blob);
    assert_eq!(raw.data, BASE.to_vec());
    let top = entry(&bytes, at[3]).unwrap();
    assert_eq!(top.kind, ObjectKind::Blob);
    assert_eq!(top.data, b"ZXY01".to_vec());
    let store = store_of(&[], vec![]);
    assert_eq!(
        settled(&packed(&bytes), |s| parse_packed_object_and_size(s, 0, at[1])),
        Ok((GitObjectData::Blob { data: b"01234abc".to_vec() }, 8))
    );
    assert_eq!(
        settled(&packed(&bytes), |s| parse_packed_object_and_size(s, 0, 4)),
        Err(GetError::MalformedHeader)
    );
    assert_eq!(
        settled(&packed(&bytes), |s| parse_packed_object_and_size(s, 0, 3)),
        Err(GetError::CorruptCompression)
    );
}

#[test]
fn delta_must_fit_its_base_and_its_result() {
    let mut pack = Pack::new();
    let base = pack.whole(3, BASE);
    let wrong_base = pack.delta(base, &[9, 5, 0x90, 5]);
    let wrong_result = pack.delta(base, &[10, 6, 0x90, 5]);
    let beyond = pack.delta(base, &[10, 5, 0x91, 8, 5]);
    let fine = pack.delta(base, &[10, 5, 0x90, 5]);
    let inner = pack.delta(wrong_result, &[6, 1, 0x90, 1]);
    assert_eq!(delta(&pack.bytes, wrong_base).unwrap_err(), GetError::DeltaMismatch);
    assert_eq!(delta(&pack.bytes, wrong_result).unwrap_err(), GetError::DeltaMismatch);
    assert_eq!(delta(&pack.bytes, beyond).unwrap_err(), GetError::DeltaMismatch);
    assert_eq!(delta(&pack.bytes, inner).unwrap_err(), GetError::DeltaMismatch);
    assert_eq!(delta(&pack.bytes, fine).unwrap().1, b"01234".to_vec());
}

#[test]
fn delta_base_must_lie_before_the_delta() {
    let mut pack = Pack::new();
    let base = pack.whole(3, BASE);
    let at = pack.bytes.len();
    pack.bytes.extend(entry_header(6, 4));
    pack.bytes.extend(back(0));
    pack.bytes.extend(deflate(&[10, 5, 0x90, 5]));
    assert_eq!(delta(&pack.bytes, at).unwrap_err(), GetError::MalformedHeader);
    let far = pack.bytes.len();
    pack.bytes.extend(entry_header(6, 4));
    pack.bytes.extend(back(far as u64 + 1));
    pack.bytes.extend(deflate(&[10, 5, 0x90, 5]));
    assert_eq!(delta(&pack.bytes, far).unwrap_err(), GetError::MalformedHeader);
    let into_header = pack.bytes.len();
    pack.bytes.extend(entry_header(6, 4));
    pack.bytes.extend(back(into_header as u64));
    pack.bytes.extend(deflate(&[10, 5, 0x90, 5]));
    assert_eq!(delta(&pack.bytes, into_header).unwrap_err(), GetError::MalformedHeader);
    assert_eq!(base, 12);
}

#[test]
fn delta_by_id_is_unsupported() {
    let mut pack = Pack::new();
    let at = pack.bytes.len();
    pack.bytes.extend(entry_header(7, 4));
    pack.bytes.extend([0x10; 20]);
    pack.bytes.extend(deflate(&[10, 5, 0x90, 5]));
    assert_eq!(delta(&pack.bytes, at).unwrap_err(), GetError::UnsupportedFormat);
    let store = store_of(
        &[],
        vec![PackFile {
            name: "p".to_string(),
            idx: index(&[([7; 20], at as u64)], u64::MAX),
            pack: pack.bytes,
        }],
    );
    assert_eq!(settled(&store, |s| s.get(ObjectId([7; 20]))).unwrap_err(), GetError::UnsupportedFormat);
}

#[test]
fn delta_chain_is_bounded() {
    let mut pack = Pack::new();
    let base = pack.whole(3, BASE);
    let mut at = base;
    let mut places = Vec::new();
    for _ in 0..51 {
        at = pack.delta(at, &[10, 10, 0x90, 10]);
        places.push(at);
    }
    assert_eq!(delta(&pack.bytes, places[49]).unwrap().1, BASE.to_vec());
    assert_eq!(delta(&pack.bytes, places[50]).unwrap_err(), GetError::DeltaMismatch);
}

#[test]
fn delta_data_must_inflate_and_hold_two_sizes() {
    let mut pack = Pack::new();
    let base = pack.whole(3, BASE);
    let at = pack.bytes.len();
    pack.bytes.extend(entry_header(6, 4));
    pack.bytes.extend(back((at - base) as u64));
    pack.bytes.extend([0x00, 0x00, 0x00]);
    assert_eq!(delta(&pack.bytes, at).unwrap_err(), GetError::CorruptCompression);
    let sizes = pack.delta(base, &[0x8a]);
    assert_eq!(delta(&pack.bytes, sizes).unwrap_err(), GetError::MalformedHeader);
    let cut = pack.bytes.len();
    pack.bytes.extend(entry_header(6, 4));
    pack.bytes.push(0x80);
    assert_eq!(delta(&pack.bytes, cut).unwrap_err(), GetError::MalformedHeader);
}

#[test]
fn wide_offset_is_read_from_the_table_of_the_index() {
    let (bytes, at) = chained_pack();
    let entries = [([0x10; 20], at[0] as u64), ([0x40; 20], at[3] as u64)];
    let idx = index(&entries, at[3] as u64);
    assert_eq!(idx.len(), 8 + 1024 + 2 * 28 + 8);
    let store =
        store_of(&[], vec![PackFile { name: "wide".to_string(), idx, pack: bytes }]);
    assert_eq!(blob_of(&store, [0x40; 20]), b"ZXY01".to_vec());
    assert_eq!(blob_of(&store, [0x10; 20]), BASE.to_vec());
    let object = settled(&store, |s| get_packed_object(s, ObjectId([0x40; 20]))).unwrap();
    assert_eq!(object.id, ObjectId([0x40; 20]));
}

#[test]
fn first_pack_that_holds_the_id_is_read() {
    let (bytes, at) = chained_pack();
    let first = PackFile {
        name: "first".to_string(),
        idx: index(&[([0x77; 20], at[1] as u64)], u64::MAX),
        pack: bytes.clone(),
    };
    let second = PackFile {
        name: "second".to_string(),
        idx: index(&[([0x77; 20], at[0] as u64)], u64::MAX),
        pack: bytes,
    };
    let store = store_of(&[], vec![first, second]);
    assert_eq!(blob_of(&store, [0x77; 20]), b"01234abc".to_vec());
}

#[test]
fn pack_must_open_with_its_magic() {
    let (mut bytes, at) = chained_pack();
    bytes[0] = b'p';
    let idx = index(&[([0x10; 20], at[0] as u64)], u64::MAX);
    let store =
        store_of(&[], vec![PackFile { name: "p".to_string(), idx: idx.clone(), pack: bytes }]);
    assert_eq!(settled(&store, |s| s.get(ObjectId([0x10; 20]))).unwrap_err(), GetError::MalformedHeader);
    let absent = store_of(&[], vec![PackFile { name: "p".to_string(), idx, pack: vec![] }]);
    assert_eq!(settled(&absent, |s| s.get(ObjectId([0x10; 20]))).unwrap_err(), GetError::MalformedHeader);
    assert_eq!(
        settled(&absent, |s| get_packed_object(s, ObjectId([0x11; 20]))).unwrap_err(),
        GetError::NotFound
    );
}

#[test]
fn packed_offset_must_lie_in_the_pack() {
    let (bytes, _) = chained_pack();
    let idx = index(&[([0x10; 20], 1 << 40), ([0x11; 20], bytes.len() as u64)], 1 << 31);
    let store = store_of(&[], vec![PackFile { name: "p".to_string(), idx, pack: bytes }]);
    assert_eq!(settled(&store, |s| s.get(ObjectId([0x10; 20]))).unwrap_err(), GetError::MalformedHeader);
    assert_eq!(settled(&store, |s| s.get(ObjectId([0x11; 20]))).unwrap_err(), GetError::MalformedHeader);
}

#[test]
fn packed_data_must_inflate_to_the_declared_length() {
    let mut pack = Pack::new();
    let at = pack.bytes.len();
    pack.bytes.extend(entry_header(3, 11));
    pack.bytes.extend(deflate(BASE));
    assert_eq!(entry(&pack.bytes, at).unwrap_err(), GetError::CorruptCompression);
    let short = pack.bytes.len();
    pack.bytes.extend(entry_header(3, 4));
    pack.bytes.extend(deflate(BASE));
    assert_eq!(entry(&pack.bytes, short).unwrap().data, b"0123".to_vec());
    let empty = pack.bytes.len();
    pack.bytes.extend(entry_header(3, 0));
    assert_eq!(entry(&pack.bytes, empty).unwrap().data, Vec::<u8>::new());
}

#[test]
fn packed_commit_and_tag_are_parsed() {
    let commit = b"tree 1111111111111111111111111111111111111111\nauthor A\ncommitter C\n\nm";
    let tag = b"object 1111111111111111111111111111111111111111\ntype commit\ntag v\ntagger T\n\n";
    let mut pack = Pack::new();
    let commit_at = pack.whole(1, commit);
    let tag_at = pack.whole(4, tag);
    let tree_at = pack.whole(2, b"");
    let idx = index(
        &[([1; 20], commit_at as u64), ([2; 20], tag_at as u64), ([3; 20], tree_at as u64)],
        u64::MAX,
    );
    let store = store_of(&[], vec![PackFile { name: "p".to_string(), idx, pack: pack.bytes }]);
    let object = settled(&store, |s| s.get(ObjectId([1; 20]))).unwrap();
    assert_eq!(object.type_str(), "commit");
    assert_eq!(object.size, commit.len());
    assert_eq!(object.render(), commit.to_vec());
    assert_eq!(settled(&store, |s| s.get(ObjectId([2; 20]))).unwrap().type_str(), "tag");
    assert_eq!(settled(&store, |s| s.get(ObjectId([2; 20]))).unwrap().render(), tag.to_vec());
    assert_eq!(settled(&store, |s| s.get(ObjectId([3; 20]))).unwrap().type_str(), "tree");
    assert_eq!(settled(&store, |s| s.read_raw(&ObjectId([3; 20]))).unwrap().kind, ObjectKind::Tree);
}

#[test]
fn loose_content_is_split_at_the_first_nul() {
    let raw = split_loose(b"blob 3\0a\0b").unwrap();
    assert_eq!(raw.kind, ObjectKind::Blob);
    assert_eq!(raw.data, b"a\0b".to_vec());
    assert_eq!(split_loose(b"commit 0\0").unwrap().kind, ObjectKind::Commit);
    assert_eq!(split_loose(b"tree +1\0x").unwrap().kind, ObjectKind::Tree);
    assert_eq!(split_loose(b"tag 2\0xy").unwrap().kind, ObjectKind::Tag);
}

#[test]
fn loose_header_must_conform() {
    let malformed = GetError::MalformedHeader;
    assert_eq!(split_loose(b"blob 3 abc").unwrap_err(), malformed);
    assert_eq!(split_loose(b"blob3\0abc").unwrap_err(), malformed);
    assert_eq!(split_loose(b"blub 3\0abc").unwrap_err(), malformed);
    assert_eq!(split_loose(b"Blob 3\0abc").unwrap_err(), malformed);
    assert_eq!(split_loose(b"blob 4\0abc").unwrap_err(), malformed);
    assert_eq!(split_loose(b"blob 2\0abc").unwrap_err(), malformed);
    assert_eq!(split_loose(b"blob x\0abc").unwrap_err(), malformed);
    assert_eq!(split_loose(b"blob \0").unwrap_err(), malformed);
    assert_eq!(split_loose(b"blob 3 \0abc").unwrap_err(), malformed);
    assert_eq!(split_loose(b"blob  3\0abc").unwrap_err(), malformed);
    assert_eq!(split_loose(b" 3\0abc").unwrap_err(), malformed);
    assert_eq!(split_loose(b"").unwrap_err(), malformed);
    assert_eq!(split_loose(b"\0").unwrap_err(), malformed);
    assert_eq!(split_loose(b"blob 99999999999999999999999\0").unwrap_err(), malformed);
}

#[test]
fn loose_file_must_inflate() {
    let id = [0x12; 20];
    let store = store_of(&[(id, vec![0x00, 0x01, 0x02])], vec![]);
    assert_eq!(settled(&store, |s| s.get(ObjectId(id))).unwrap_err(), GetError::CorruptCompression);
    let empty = store_of(&[(id, vec![])], vec![]);
    assert_eq!(settled(&empty, |s| s.get(ObjectId(id))).unwrap_err(), GetError::CorruptCompression);
    let mut cut = loose("blob", b"some content");
    cut.truncate(12);
    let short = store_of(&[(id, cut)], vec![]);
    assert_eq!(settled(&short, |s| read_loose_raw(s, &ObjectId(id))).unwrap_err(), GetError::CorruptCompression);
    let whole = store_of(&[(id, deflate(b"blob 5\0abc"))], vec![]);
    assert_eq!(settled(&whole, |s| get_loose_object(s, ObjectId(id))).unwrap_err(), GetError::MalformedHeader);
    assert_eq!(settled(&whole, |s| get_loose_object(s, ObjectId([0x13; 20]))).unwrap_err(), GetError::NotFound);
}

#[test]
fn loose_blob_holds_what_was_compressed() {
    let mut content = Vec::new();
    for i in 0..70000u32 {
        content.push((i % 253) as u8);
    }
    let id = [0x21; 20];
    let store = store_of(&[(id, loose("blob", &content))], vec![]);
    let object = settled(&store, |s| s.get(ObjectId(id))).unwrap();
    assert_eq!(object.id, ObjectId(id));
    assert_eq!(object.size, 70000);
    assert_eq!(object.data, GitObjectData::Blob { data: content.clone() });
    assert_eq!(object.render(), content);
    let raw = settled(&store, |s| s.read_raw(&ObjectId(id))).unwrap();
    assert_eq!(raw.kind, ObjectKind::Blob);
    assert_eq!(raw.data.len(), 70000);
}

#[test]
fn loose_commit_body_must_parse() {
    let id = [0x31; 20];
    let store = store_of(&[(id, loose("commit", b"tree 12\n\n"))], vec![]);
    assert_eq!(
        settled(&store, |s| s.get(ObjectId(id))).unwrap_err(),
        GetError::ParseError(ParseErrorKind::BadObjectId)
    );
    assert_eq!(settled(&store, |s| s.read_raw(&ObjectId(id))).unwrap().kind, ObjectKind::Commit);
}

#[test]
fn cat_file_prints_text_or_kind() {
    let store = chained_store();
    let print = CatFileArgs {
        mode: CatFileMode { print: true, kind: false },
        id: "4040404".to_string(),
    };
    assert_eq!(cat(&store, &print), Ok(b"ZXY01".to_vec()));
    let kind =
        CatFileArgs { mode: CatFileMode { print: false, kind: true }, id: "5050".to_string() };
    assert_eq!(cat(&store, &kind), Ok(b"blob\n".to_vec()));
    let both =
        CatFileArgs { mode: CatFileMode { print: true, kind: true }, id: "5050".to_string() };
    assert_eq!(command(&store, &Cli { command: Commands::CatFile(both) }), Ok(b"ZXY01blob\n".to_vec()));
    let neither =
        CatFileArgs { mode: CatFileMode { print: false, kind: false }, id: "5050".to_string() };
    assert_eq!(cat(&store, &neither), Ok(Vec::new()));
}

#[test]
fn cat_file_reports_what_it_cannot_find() {
    let id = [0x12; 20];
    let store = store_of(&[(id, vec![0x00, 0x01, 0x02])], vec![]);
    let mode = CatFileMode { print: true, kind: false };
    let short = CatFileArgs { mode, id: "12".to_string() };
    assert_eq!(cat(&store, &short), Err(CliError::InvalidObjectId));
    let absent = CatFileArgs { mode, id: "3456".to_string() };
    assert_eq!(cat(&store, &absent), Err(CliError::InvalidObjectId));
    let corrupt = CatFileArgs { mode, id: "1212".to_string() };
    assert_eq!(cat(&store, &corrupt), Err(CliError::ObjectNotFound));
}

#[test]
fn empty_blob_is_inflated_from_a_compressed_file() {
    let file = vec![
        0x78, 0x01, 0x4b, 0xca, 0xc9, 0x4f, 0x52, 0x30, 0x60, 0x00, 0x00, 0x09, 0xb0, 0x01, 0xf0,
    ];
    let id = ObjectId::from_hex("e69de29bb2d1d6434b8b29ae775ad8c2e48c5391").unwrap();
    let store = store_of(&[(id.0, file)], vec![]);
    assert_eq!(resolve_id(&store, "e69de29b"), Ok(id));
    let object = settled(&store, |s| s.get(id)).unwrap();
    assert_eq!(object.data, GitObjectData::Blob { data: Vec::new() });
    assert_eq!(object.type_str(), "blob");
}

#[test]
fn blob_is_inflated_from_a_stream_with_matches() {
    let file = vec![
        0x78, 0xda, 0x4b, 0xca, 0xc9, 0x4f, 0x52, 0x30, 0x31, 0x60, 0x48, 0x4c, 0x4a, 0x4e, 0x21,
        0x06, 0x03, 0x00, 0x9d, 0x0b, 0x11, 0x88,
    ];
    let store = store_of(&[([0x61; 20], file)], vec![]);
    let object = settled(&store, |s| s.get(ObjectId::from([0x61; 20]))).unwrap();
    assert_eq!(object.size, 40);
    assert_eq!(object.data, GitObjectData::Blob { data: b"abcdabcd".repeat(5) });
}

#[test]
fn packed_blob_is_inflated_from_a_compressed_entry() {
    let stream = PACKED_HELLO;
    let mut pack = Pack::new();
    let at = pack.bytes.len();
    pack.bytes.extend(entry_header(3, 24));
    pack.bytes.extend(stream);
    let next = pack.whole(3, b"after");
    let raw = entry(&pack.bytes, at).unwrap();
    assert_eq!(raw.data, b"hello world\nhello world\n".to_vec());
    assert_eq!(entry(&pack.bytes, next).unwrap().data, b"after".to_vec());
}

#[test]
fn visit_lists_an_id_once_for_each_index_that_names_it() {
    let twice = PackFile {
        name: "twice".to_string(),
        idx: index(&[([1; 20], 12), ([2; 20], 40), ([1; 20], 60)], u64::MAX),
        pack: vec![],
    };
    let again =
        PackFile { name: "again".to_string(), idx: index(&[([1; 20], 12)], u64::MAX), pack: vec![] };
    let store = GitObjectStore { loose: vec![], packs: vec![twice, again], inflated: vec![] };
    let (descs, complete) = visit_pack_ids(&store, true);
    assert!(complete);
    assert_eq!(descs.len(), 3);
    assert_eq!(descs[0].oid, ObjectId([1; 20]));
    assert_eq!(descs[0].pack_name, Some("twice".to_string()));
    assert_eq!(descs[1].oid, ObjectId([2; 20]));
    assert_eq!(descs[2].oid, ObjectId([1; 20]));
    assert_eq!(descs[2].pack_name, Some("again".to_string()));
    assert_eq!(
        visit_pack_oids(&store),
        vec![ObjectId([1; 20]), ObjectId([2; 20]), ObjectId([1; 20])]
    );
    assert_eq!(resolve_id(&store, "0101"), Ok(ObjectId([1; 20])));
}

#[test]
fn object_names_the_stream_that_is_not_inflated_yet() {
    let id = ObjectId([0x21; 20]);
    let mut store = store_of(&[(id.0, loose("blob", b"abc"))], vec![]);
    let stream = Stream::Loose { dir: 0, file: 0 };
    assert_eq!(store.get(id).unwrap_err(), GetError::NotInflated(stream));
    assert_eq!(store.read_raw(&id).unwrap_err(), GetError::NotInflated(stream));
    store.inflated.push(Inflated { stream: Stream::Loose { dir: 0, file: 1 }, data: None });
    assert_eq!(store.get(id).unwrap_err(), GetError::NotInflated(stream));
    store.inflated.push(Inflated { stream, data: Some(b"blob 3\0abc".to_vec()) });
    assert_eq!(store.get(id).unwrap().data, GitObjectData::Blob { data: b"abc".to_vec() });
    store.inflated.push(Inflated { stream, data: None });
    assert_eq!(store.get(id).unwrap().size, 3);
    let args = CatFileArgs { mode: CatFileMode { print: true, kind: false }, id: "2121".to_string() };
    assert_eq!(cat_file(&store, &args), Ok(b"abc".to_vec()));
    store.inflated.clear();
    assert_eq!(cat_file(&store, &args), Err(CliError::NotInflated(stream)));
    store.inflated.push(Inflated { stream, data: None });
    assert_eq!(store.get(id).unwrap_err(), GetError::CorruptCompression);
    assert_eq!(cat_file(&store, &args), Err(CliError::ObjectNotFound));
}

#[test]
fn packed_object_names_each_stream_of_its_chain_in_turn() {
    let (bytes, at) = chained_pack();
    let mut store = packed(&bytes);
    let mut asked = Vec::new();
    let out = loop {
        match resolve_delta(&store.packs[0].pack, &store.inflated, 0, at[3]) {
            Err(GetError::NotInflated(stream)) => {
                asked.push(stream);
                let data = inflate(&store, stream);
                store.inflated.push(Inflated { stream, data });
            }
            other => break other,
        }
    };
    assert_eq!(out.unwrap().1, b"ZXY01".to_vec());
    assert_eq!(asked.len(), 4);
    assert_eq!(asked[0], Stream::Packed { pack: 0, at: at[3] + 2, len: 7 });
    assert_eq!(asked[3], Stream::Packed { pack: 0, at: at[0] + 1, len: 10 });
    let stream = asked[3];
    let mut wrong = packed(&bytes);
    wrong.inflated.push(Inflated { stream, data: Some(b"012345678".to_vec()) });
    assert_eq!(
        read_packed_entry(&wrong.packs[0].pack, &wrong.inflated, 0, at[0]).unwrap_err(),
        GetError::CorruptCompression
    );
    let mut right = packed(&bytes);
    right.inflated.push(Inflated { stream, data: Some(b"abcdefghij".to_vec()) });
    assert_eq!(
        read_packed_entry(&right.packs[0].pack, &right.inflated, 0, at[0]).unwrap().data,
        b"abcdefghij".to_vec()
    );
    assert_eq!(
        read_packed_entry(&right.packs[0].pack, &right.inflated, 1, at[0]).unwrap_err(),
        GetError::NotInflated(Stream::Packed { pack: 1, at: at[0] + 1, len: 10 })
    );
}
