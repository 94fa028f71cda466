use vstd::prelude::*;

use crate::archive::ArchiveError;
use crate::archive::make_savearchive;
use crate::archive::spec_archive;
use crate::bytes::push_slice;
use crate::bytes::push_u16_be;
use crate::bytes::push_u32_be;
use crate::bytes::u16_be_bytes;
use crate::bytes::u32_be_bytes;
use crate::content_map::ContentMap;
use crate::parser::ParseError;
use crate::parser::ResrcDependencyView;
use crate::parser::ResrcDescriptorView;
use crate::parser::ResrcId;
use crate::parser::ResrcIdView;
use crate::parser::ResrcMethodView;
use crate::parser::SpecParse;
use crate::parser::spec_parse;
use crate::parser::spec_serialize;
use crate::revision::GameVersion;
use crate::revision::ResrcRevision;

verus! {

// ---------------------------------------------------------------------------
// Outside computations the builders rely on.
// ---------------------------------------------------------------------------

/// The 20-byte digest of a byte string. It depends on the bytes alone; what
/// it is on given bytes is not stated here.
pub uninterp spec fn sha1_of(data: Seq<u8>) -> Seq<u8>;

/// Relies on sha1::Sha1::digest: the 20-byte digest depends on the input
/// bytes alone.
#[verifier::external_body]
pub(crate) fn sha1_digest(data: &Vec<u8>) -> (r: [u8; 20])
    ensures
        r@ == sha1_of(data@),
{
    let d = <sha1::Sha1 as sha1::Digest>::digest(data.as_slice());
    d.into()
}

/// The uppercase hexadecimal digit of a value below 16.
pub open spec fn hex_upper_digit(n: u8) -> u8 {
    if n < 10 {
        (48 + n) as u8
    } else {
        (55 + n) as u8
    }
}

/// The uppercase hexadecimal encoding: two digits per byte, high nibble
/// first.
pub open spec fn hex_upper_of(s: Seq<u8>) -> Seq<u8> {
    Seq::new(
        2 * s.len(),
        |i: int|
            if i % 2 == 0 {
                hex_upper_digit(s[i / 2] / 16)
            } else {
                hex_upper_digit(s[i / 2] % 16)
            },
    )
}

/// Relies on hex::encode_upper: two uppercase digits per byte, high nibble
/// first.
#[verifier::external_body]
pub(crate) fn hex_encode_upper(b: &[u8; 4]) -> (r: Vec<u8>)
    ensures
        r@ == hex_upper_of(b@),
{
    hex::encode_upper(b).into_bytes()
}

// ---------------------------------------------------------------------------
// The generated directory-listing resource.
// ---------------------------------------------------------------------------

/// The header of the generated directory-listing resource: a binary-method
/// `SLT` resource whose one dependency is the root hash. The revision is
/// the root's, brought into serializable shape: the head is lifted to the
/// lowest revision that carries a dependency table, and branch fields are
/// cleared where the format would not write them.
pub open spec fn slotlist_view(rev: ResrcRevision, root: Seq<u8>) -> ResrcIdView {
    let head: u32 = if rev.head < 0x109 {
        0x109u32
    } else {
        rev.head
    };
    ResrcIdView {
        resrc_type: seq![83u8, 76u8, 84u8],
        method: ResrcMethodView::Binary {
            is_encrypted: false,
            revision: ResrcRevision {
                head,
                branch_id: if head >= 0x271 {
                    rev.branch_id
                } else {
                    0
                },
                branch_revision: if head >= 0x271 {
                    rev.branch_revision
                } else {
                    0
                },
            },
            dependencies: seq![
                ResrcDependencyView { desc: ResrcDescriptorView::Sha1(root), resrc_type: 1u32 },
            ],
        },
    }
}

/// Builds the directory-listing resource that the archive carries beside
/// the fetched content: it references the root by hash.
pub fn make_slotlist(rev: &ResrcRevision, root: &[u8; 20]) -> (r: Vec<u8>)
    ensures
        r@ == spec_serialize(slotlist_view(*rev, root@)),
{
    let head: u32 = if rev.head < 0x109 {
        0x109
    } else {
        rev.head
    };
    let id = ResrcId {
        resrc_type: [83u8, 76u8, 84u8],
        method: crate::parser::ResrcMethod::Binary {
            is_encrypted: false,
            revision: ResrcRevision {
                head,
                branch_id: if head >= 0x271 {
                    rev.branch_id
                } else {
                    0
                },
                branch_revision: if head >= 0x271 {
                    rev.branch_revision
                } else {
                    0
                },
            },
            dependencies: vec![
                crate::parser::ResrcDependency {
                    desc: crate::parser::ResrcDescriptor::Sha1(*root),
                    resrc_type: 1u32,
                },
            ],
        },
    };
    proof {
        assert(id@ =~~= slotlist_view(*rev, root@));
        assert(crate::parser::serializable(id@));
    }
    id.serialize()
}

// ---------------------------------------------------------------------------
// The attribute container.
// ---------------------------------------------------------------------------

/// One attribute: key length, key, a type byte (0 for strings, 1 for
/// integers), value length, value.
pub open spec fn spec_attr(key: Seq<u8>, typ: u8, val: Seq<u8>) -> Seq<u8> {
    u16_be_bytes(key.len() as u16) + key + seq![typ] + u32_be_bytes(val.len() as u32) + val
}

pub open spec fn app_ver_key() -> Seq<u8> {
    seq![65u8, 80u8, 80u8, 95u8, 86u8, 69u8, 82u8]
}

pub open spec fn category_key() -> Seq<u8> {
    seq![67u8, 65u8, 84u8, 69u8, 71u8, 79u8, 82u8, 89u8]
}

pub open spec fn parental_key() -> Seq<u8> {
    seq![80u8, 65u8, 82u8, 69u8, 78u8, 84u8, 65u8, 76u8, 95u8, 76u8, 69u8, 86u8, 69u8, 76u8]
}

pub open spec fn savedata_dir_key() -> Seq<u8> {
    seq![
        83u8, 65u8, 86u8, 69u8, 68u8, 65u8, 84u8, 65u8, 95u8, 68u8, 73u8, 82u8, 69u8, 67u8, 84u8,
        79u8, 82u8, 89u8,
    ]
}

pub open spec fn title_key() -> Seq<u8> {
    seq![84u8, 73u8, 84u8, 76u8, 69u8]
}

pub open spec fn title_id_key() -> Seq<u8> {
    seq![84u8, 73u8, 84u8, 76u8, 69u8, 95u8, 73u8, 68u8]
}

/// The whole attribute container: its count, then the closed set of
/// attributes in fixed (ascending) key order — application version,
/// category, parental level, backup directory, title, title identifier.
/// Every required key is present by construction.
pub open spec fn spec_attributes(bkp_name: Seq<u8>, title: Seq<u8>, gv: GameVersion) -> Seq<u8> {
    u32_be_bytes(6u32) + spec_attr(app_ver_key(), 0u8, seq![48u8, 49u8, 46u8, 48u8, 48u8])
        + spec_attr(category_key(), 0u8, seq![83u8, 68u8]) + spec_attr(
        parental_key(),
        1u8,
        u32_be_bytes(0u32),
    ) + spec_attr(savedata_dir_key(), 0u8, bkp_name) + spec_attr(title_key(), 0u8, title)
        + spec_attr(title_id_key(), 0u8, gv.spec_titleid())
}

/// Appends one attribute.
fn push_attr(out: &mut Vec<u8>, key: &[u8], typ: u8, val: &[u8])
    requires
        key@.len() <= 0xFFFF,
        val@.len() <= 0xFFFFFFFF,
    ensures
        final(out)@ == old(out)@ + spec_attr(key@, typ, val@),
{
    push_u16_be(out, key.len() as u16);
    push_slice(out, key);
    out.push(typ);
    push_u32_be(out, val.len() as u32);
    push_slice(out, val);
    proof {
        assert(out@ =~= old(out)@ + spec_attr(key@, typ, val@));
    }
}

/// Builds the key/value attribute container describing the backup.
pub fn build_attributes(bkp_name: &Vec<u8>, title: &Vec<u8>, gv: GameVersion) -> (r: Vec<u8>)
    requires
        bkp_name@.len() <= 0xFFFFFFFF,
        title@.len() <= 0xFFFFFFFF,
    ensures
        r@ == spec_attributes(bkp_name@, title@, gv),
{
    let mut out: Vec<u8> = Vec::new();
    push_u32_be(&mut out, 6);
    let app_ver: [u8; 7] = [65, 80, 80, 95, 86, 69, 82];
    let app_ver_val: [u8; 5] = [48, 49, 46, 48, 48];
    proof {
        assert(app_ver@ =~= app_ver_key());
        assert(app_ver_val@ =~= seq![48u8, 49u8, 46u8, 48u8, 48u8]);
    }
    push_attr(&mut out, &app_ver, 0, &app_ver_val);
    let category: [u8; 8] = [67, 65, 84, 69, 71, 79, 82, 89];
    let category_val: [u8; 2] = [83, 68];
    proof {
        assert(category@ =~= category_key());
        assert(category_val@ =~= seq![83u8, 68u8]);
    }
    push_attr(&mut out, &category, 0, &category_val);
    let parental: [u8; 14] = [80, 65, 82, 69, 78, 84, 65, 76, 95, 76, 69, 86, 69, 76];
    let parental_val: [u8; 4] = [0, 0, 0, 0];
    proof {
        assert(parental@ =~= parental_key());
        assert(parental_val@ =~= u32_be_bytes(0u32));
    }
    push_attr(&mut out, &parental, 1, &parental_val);
    let savedata: [u8; 18] = [
        83,
        65,
        86,
        69,
        68,
        65,
        84,
        65,
        95,
        68,
        73,
        82,
        69,
        67,
        84,
        79,
        82,
        89,
    ];
    proof {
        assert(savedata@ =~= savedata_dir_key());
    }
    push_attr(&mut out, &savedata, 0, bkp_name.as_slice());
    let title_k: [u8; 5] = [84, 73, 84, 76, 69];
    proof {
        assert(title_k@ =~= title_key());
    }
    push_attr(&mut out, &title_k, 0, title.as_slice());
    let title_id_k: [u8; 8] = [84, 73, 84, 76, 69, 95, 73, 68];
    let tid = gv.get_titleid();
    proof {
        assert(title_id_k@ =~= title_id_key());
        assert(tid@.len() == 9);
    }
    push_attr(&mut out, &title_id_k, 0, tid.as_slice());
    proof {
        assert(out@ =~= spec_attributes(bkp_name@, title@, gv));
    }
    out
}

// ---------------------------------------------------------------------------
// The signed wrapper container.
// ---------------------------------------------------------------------------

/// One file going into the backup, to be digested by the signed wrapper.
pub struct BackupFile {
    pub name: Vec<u8>,
    pub data: Vec<u8>,
}

pub struct BackupFileView {
    pub name: Seq<u8>,
    pub data: Seq<u8>,
}

impl View for BackupFile {
    type V = BackupFileView;

    open spec fn view(&self) -> BackupFileView {
        BackupFileView { name: self.name@, data: self.data@ }
    }
}

/// The wrapper's format version for a target generation: one variant for
/// the third generation, another for the rest.
pub open spec fn spec_pfd_version(gv: GameVersion) -> u32 {
    if gv is Lbp3 {
        4u32
    } else {
        3u32
    }
}

pub fn pfd_version_for(gv: GameVersion) -> (r: u32)
    ensures
        r == spec_pfd_version(gv),
{
    match gv {
        GameVersion::Lbp3 => 4,
        _ => 3,
    }
}

/// One per-file record: the name behind its length — two length bytes in
/// the older variant, four in the newer — then the 20-byte digest of the
/// file's content.
pub open spec fn spec_pfd_file(version: u32, f: BackupFileView) -> Seq<u8> {
    (if version == 4 {
        u32_be_bytes(f.name.len() as u32)
    } else {
        u16_be_bytes(f.name.len() as u16)
    }) + f.name + sha1_of(f.data)
}

pub open spec fn spec_pfd_files(version: u32, files: Seq<BackupFileView>) -> Seq<u8>
    decreases files.len(),
{
    if files.len() == 0 {
        Seq::<u8>::empty()
    } else {
        spec_pfd_file(version, files[0]) + spec_pfd_files(version, files.drop_first())
    }
}

/// The whole signed wrapper container: format version, file count, the
/// per-file digest records, then the enveloped attribute container behind
/// its length. The two variants differ only in the width of the name
/// length field.
pub open spec fn spec_pfd(version: u32, sfo: Seq<u8>, files: Seq<BackupFileView>) -> Seq<u8> {
    u32_be_bytes(version) + u32_be_bytes(files.len() as u32) + spec_pfd_files(version, files)
        + u32_be_bytes(sfo.len() as u32) + sfo
}

fn push_pfd_files(version: u32, files: &Vec<BackupFile>, i: usize, out: &mut Vec<u8>)
    requires
        version == 3 || version == 4,
        i <= files@.len(),
        forall|k: int|
            0 <= k < files@.len() ==> (#[trigger] files@[k])@.name.len() <= 0xFFFF,
    ensures
        final(out)@ == old(out)@ + spec_pfd_files(
            version,
            files@.skip(i as int).map_values(|f: BackupFile| f@),
        ),
    decreases files@.len() - i,
{
    let ghost rest = files@.skip(i as int).map_values(|f: BackupFile| f@);
    if i == files.len() {
        proof {
            assert(rest =~= Seq::<BackupFileView>::empty());
            assert(out@ =~= out@ + Seq::<u8>::empty());
        }
        return ;
    }
    let ghost pre = out@;
    let f = &files[i];
    if version == 4 {
        push_u32_be(out, f.name.len() as u32);
    } else {
        push_u16_be(out, f.name.len() as u16);
    }
    push_slice(out, f.name.as_slice());
    let digest = sha1_digest(&f.data);
    push_slice(out, digest.as_slice());
    proof {
        assert(out@ =~= pre + spec_pfd_file(version, f@));
    }
    push_pfd_files(version, files, i + 1, out);
    proof {
        assert(rest[0] == f@);
        assert(rest.drop_first() =~= files@.skip(i + 1).map_values(|f: BackupFile| f@));
        assert(out@ =~= pre + spec_pfd_files(version, rest));
    }
}

/// Builds the signed wrapper container around the attribute container and
/// the backup's files.
pub fn make_pfd(version: u32, sfo: &Vec<u8>, files: &Vec<BackupFile>) -> (r: Vec<u8>)
    requires
        version == 3 || version == 4,
        sfo@.len() <= 0xFFFFFFFF,
        files@.len() <= 0xFFFFFFFF,
        forall|k: int|
            0 <= k < files@.len() ==> (#[trigger] files@[k])@.name.len() <= 0xFFFF,
    ensures
        r@ == spec_pfd(version, sfo@, files@.map_values(|f: BackupFile| f@)),
{
    let mut out: Vec<u8> = Vec::new();
    push_u32_be(&mut out, version);
    push_u32_be(&mut out, files.len() as u32);
    push_pfd_files(version, files, 0, &mut out);
    push_u32_be(&mut out, sfo.len() as u32);
    push_slice(&mut out, sfo.as_slice());
    proof {
        assert(files@.skip(0) =~= files@);
        assert(out@ =~= spec_pfd(version, sfo@, files@.map_values(|f: BackupFile| f@)));
    }
    out
}

// ---------------------------------------------------------------------------
// The backup's directory name.
// ---------------------------------------------------------------------------

/// The name of the backup directory: the generation's title identifier,
/// a scheme infix — `LEVEL` for a standard level, `ADVLBP3AAZ` for an
/// adventure-planet level — and the big-endian hex encoding of the level
/// identifier.
pub open spec fn spec_backup_name(gv: GameVersion, level_id: u32, is_adventure: bool) -> Seq<u8> {
    gv.spec_titleid() + (if is_adventure {
        seq![65u8, 68u8, 86u8, 76u8, 66u8, 80u8, 51u8, 65u8, 65u8, 90u8]
    } else {
        seq![76u8, 69u8, 86u8, 69u8, 76u8]
    }) + hex_upper_of(u32_be_bytes(level_id))
}

fn u32_be_array(x: u32) -> (r: [u8; 4])
    ensures
        r@ == u32_be_bytes(x),
{
    let mut r = [0u8; 4];
    r[0] = (x >> 24) as u8;
    r[1] = ((x >> 16) & 0xFF) as u8;
    r[2] = ((x >> 8) & 0xFF) as u8;
    r[3] = (x & 0xFF) as u8;
    proof {
        assert((x >> 24) as u8 == (x / 0x1000000) as u8 && ((x >> 16) & 0xFF) as u8 == ((x
            / 0x10000) % 0x100) as u8 && ((x >> 8) & 0xFF) as u8 == ((x / 0x100) % 0x100) as u8 && (
        x & 0xFF) as u8 == (x % 0x100) as u8) by (bit_vector);
        assert(r@ =~= u32_be_bytes(x));
    }
    r
}

/// Builds the backup directory's name.
pub fn backup_name(gv: GameVersion, level_id: u32, is_adventure: bool) -> (r: Vec<u8>)
    ensures
        r@ == spec_backup_name(gv, level_id, is_adventure),
{
    let mut out = gv.get_titleid();
    if is_adventure {
        let infix: [u8; 10] = [65, 68, 86, 76, 66, 80, 51, 65, 65, 90];
        proof {
            assert(infix@ =~= seq![65u8, 68u8, 86u8, 76u8, 66u8, 80u8, 51u8, 65u8, 65u8, 90u8]);
        }
        push_slice(&mut out, &infix);
    } else {
        let infix: [u8; 5] = [76, 69, 86, 69, 76];
        proof {
            assert(infix@ =~= seq![76u8, 69u8, 86u8, 69u8, 76u8]);
        }
        push_slice(&mut out, &infix);
    }
    let idb = u32_be_array(level_id);
    let hexed = hex_encode_upper(&idb);
    push_slice(&mut out, hexed.as_slice());
    proof {
        assert(out@ =~= spec_backup_name(gv, level_id, is_adventure));
    }
    out
}

// ---------------------------------------------------------------------------
// Planning the backup from the resolved root resource.
// ---------------------------------------------------------------------------

/// Why no backup can be made of this root: the root's bytes do not parse,
/// or its serialization method is not the binary method.
#[derive(Debug, PartialEq, Eq, Clone, Copy)]
pub enum BackupError {
    RootParse(ParseError),
    RootNotBinary,
}

/// What the backup will look like: the format revision and generation to
/// write, whether the recorded generation disagreed with the fetched root,
/// and the backup directory's name.
#[derive(Debug)]
pub struct BackupPlan {
    pub revision: ResrcRevision,
    pub gameversion: GameVersion,
    pub mismatch: bool,
    pub bkp_name: Vec<u8>,
}

/// Decides the backup's target from the fetched root resource and the
/// level's recorded metadata. The root must parse and use the binary
/// method. When the root's generation disagrees with the recorded one, the
/// mismatch is reported; with `fix_backup_version` the root's own revision
/// is kept, otherwise the backup is coerced to the recorded generation's
/// latest revision.
pub fn plan_backup(
    root_bytes: &Vec<u8>,
    slot_game: GameVersion,
    fix_backup_version: bool,
    level_id: u32,
    is_adventure: bool,
) -> (r: Result<BackupPlan, BackupError>)
    ensures
        (match r {
            Ok(plan) => spec_parse(root_bytes@) matches SpecParse::Parsed(id)
                && id.method matches ResrcMethodView::Binary { revision, .. } && {
                let root_gv = revision.spec_gameversion();
                &&& plan.mismatch == (slot_game != root_gv)
                &&& (!plan.mismatch || fix_backup_version) ==> (plan.revision == revision
                    && plan.gameversion == root_gv)
                &&& (plan.mismatch && !fix_backup_version) ==> (plan.revision
                    == slot_game.spec_latest_revision() && plan.gameversion == slot_game)
                &&& plan.bkp_name@ == spec_backup_name(plan.gameversion, level_id, is_adventure)
            },
            Err(BackupError::RootParse(e)) => (e is Truncated && spec_parse(root_bytes@)
                is Truncated) || (e is BadDescriptorTag && spec_parse(root_bytes@) is BadTag),
            Err(BackupError::RootNotBinary) => spec_parse(root_bytes@) matches SpecParse::Parsed(
                id,
            ) && id.method is Null,
        }),
{
    let id = match ResrcId::new(root_bytes.as_slice()) {
        Ok(id) => id,
        Err(e) => {
            return Err(BackupError::RootParse(e));
        },
    };
    let revision = match id.method {
        crate::parser::ResrcMethod::Binary { revision, .. } => revision,
        crate::parser::ResrcMethod::Null => {
            return Err(BackupError::RootNotBinary);
        },
    };
    let root_gv = revision.get_gameversion();
    let mismatch = slot_game != root_gv;
    let (gameversion, revision) = if mismatch && !fix_backup_version {
        (slot_game, slot_game.get_latest_revision())
    } else {
        (root_gv, revision)
    };
    let bkp_name = backup_name(gameversion, level_id, is_adventure);
    Ok(BackupPlan { revision, gameversion, mismatch, bkp_name })
}

// ---------------------------------------------------------------------------
// Building the backup's files.
// ---------------------------------------------------------------------------

/// The finished backup: the completed content map, and the three file
/// bodies to write — the archive container, the attribute container and
/// the signed wrapper.
pub struct BackupOutput {
    pub map: ContentMap,
    pub archive: Vec<u8>,
    pub attributes: Vec<u8>,
    pub wrapper: Vec<u8>,
}

pub open spec fn archive_file_name() -> Seq<u8> {
    seq![65u8, 82u8, 67u8, 72u8, 73u8, 86u8, 69u8, 46u8, 70u8, 65u8, 82u8]
}

pub open spec fn attributes_file_name() -> Seq<u8> {
    seq![80u8, 65u8, 82u8, 65u8, 77u8, 46u8, 83u8, 70u8, 79u8]
}

/// Assembles the three backup files from the resolved content map: the
/// generated directory listing is inserted under its own content hash,
/// the archive is packed with its index ascending by hash, and the two
/// metadata containers are built around it. On failure the archive error
/// is handed through, each exactly when its condition holds of the map
/// with the listing: the root missing or unresolved, an entry that never
/// resolved, or contents whose count or total length overflows a 4-byte
/// field. The bound on the name and title is what the wrapper's 4-byte
/// length field for the attribute container (126 bytes plus the two
/// values) forces.
#[verifier::rlimit(100)]
pub fn build_backup(map: ContentMap, root: &[u8; 20], plan: &BackupPlan, title: &Vec<u8>) -> (r:
    Result<BackupOutput, ArchiveError>)
    requires
        map.wf(),
        plan.bkp_name@.len() + title@.len() <= 0xFFFFFFFF - 126,
    ensures
        ({
            let slt = spec_serialize(slotlist_view(plan.revision, root@));
            let m2 = map@.insert(sha1_of(slt), Some(slt));
            match r {
                Ok(o) => {
                    &&& o.map.wf()
                    &&& o.map@ == m2
                    &&& o.map@.contains_key(root@) && o.map@[root@] is Some
                    &&& crate::archive::all_resolved(o.map)
                    &&& o.archive@ == spec_archive(o.map)
                    &&& o.attributes@ == spec_attributes(plan.bkp_name@, title@, plan.gameversion)
                    &&& o.wrapper@ == spec_pfd(
                        spec_pfd_version(plan.gameversion),
                        o.attributes@,
                        seq![
                            BackupFileView { name: archive_file_name(), data: o.archive@ },
                            BackupFileView { name: attributes_file_name(), data: o.attributes@ },
                        ],
                    )
                },
                Err(ArchiveError::MissingRoot) => !(m2.contains_key(root@) && m2[root@] is Some),
                Err(ArchiveError::UnresolvedEntry) => exists|k: Seq<u8>|
                    m2.contains_key(k) && m2[k] is None,
                Err(ArchiveError::TooLarge) => crate::archive::view_overflows(m2),
            }
        }),
{
    let mut map = map;
    let slt = make_slotlist(&plan.revision, root);
    let slt_hash = sha1_digest(&slt);
    map.insert_resolved(slt_hash, slt);
    let archive = match make_savearchive(&map, root) {
        Ok(a) => a,
        Err(e) => {
            proof {
                if e is UnresolvedEntry {
                    crate::archive::lemma_all_resolved_iff(map);
                }
                if e is TooLarge {
                    assert(map.wf() && !crate::archive::fits_u32(map));
                    assert(crate::archive::view_overflows(map@));
                }
            }
            return Err(e);
        },
    };
    let attributes = build_attributes(&plan.bkp_name, title, plan.gameversion);
    let version = pfd_version_for(plan.gameversion);
    let mut archive_name: Vec<u8> = Vec::new();
    let an: [u8; 11] = [65, 82, 67, 72, 73, 86, 69, 46, 70, 65, 82];
    push_slice(&mut archive_name, &an);
    let mut attributes_name: Vec<u8> = Vec::new();
    let pn: [u8; 9] = [80, 65, 82, 65, 77, 46, 83, 70, 79];
    push_slice(&mut attributes_name, &pn);
    let mut files: Vec<BackupFile> = Vec::new();
    let archive_copy = clone_bytes(&archive);
    let attributes_copy = clone_bytes(&attributes);
    files.push(BackupFile { name: archive_name, data: archive_copy });
    files.push(BackupFile { name: attributes_name, data: attributes_copy });
    proof {
        assert(an@ =~= archive_file_name());
        assert(pn@ =~= attributes_file_name());
        assert(Seq::<u8>::empty() + an@ =~= an@);
        assert(Seq::<u8>::empty() + pn@ =~= pn@);
        assert(files@.map_values(|f: BackupFile| f@) =~= seq![
            BackupFileView { name: archive_file_name(), data: archive@ },
            BackupFileView { name: attributes_file_name(), data: attributes@ },
        ]);
    }
    proof {
        assert(attributes@.len() <= 0xFFFFFFFF);
    }
    let wrapper = make_pfd(version, &attributes, &files);
    Ok(BackupOutput { map, archive, attributes, wrapper })
}

/// A private copy of a byte string.
fn clone_bytes(v: &Vec<u8>) -> (r: Vec<u8>)
    ensures
        r@ == v@,
{
    let mut r: Vec<u8> = Vec::new();
    push_slice(&mut r, v.as_slice());
    proof {
        assert(Seq::<u8>::empty() + v@ =~= v@);
    }
    r
}

} // verus!
