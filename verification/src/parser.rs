use vstd::prelude::*;

use crate::bytes::be16;
use crate::bytes::be32;
use crate::bytes::lemma_be16_of_u16_be_bytes;
use crate::bytes::lemma_be32_of_u32_be_bytes;
use crate::bytes::push_u16_be;
use crate::bytes::push_u32_be;
use crate::bytes::read_u16_be;
use crate::bytes::read_u32_be;
use crate::bytes::u16_be_bytes;
use crate::bytes::u32_be_bytes;
use crate::revision::ResrcRevision;

verus! {

broadcast use vstd::array::group_array_axioms;

/// A resource identity: its 3-byte type tag and how its body is serialized.
#[derive(Debug, PartialEq, Eq)]
pub struct ResrcId {
    pub resrc_type: [u8; 3],
    pub method: ResrcMethod,
}

/// How a resource's body is serialized. The binary method carries an
/// encryption flag, a format revision and an ordered dependency table.
#[derive(Debug, PartialEq, Eq)]
pub enum ResrcMethod {
    Null,
    Binary { is_encrypted: bool, revision: ResrcRevision, dependencies: Vec<ResrcDependency> },
}

/// One entry of a resource's dependency table.
#[derive(Debug, PartialEq, Eq, Clone, Copy)]
pub struct ResrcDependency {
    pub desc: ResrcDescriptor,
    pub resrc_type: u32,
}

/// Identifies a resource either by its 20-byte content hash or by a 4-byte
/// numeric reference.
#[derive(Debug, PartialEq, Eq, Clone, Copy)]
pub enum ResrcDescriptor {
    Sha1([u8; 20]),
    Guid(u32),
}

/// Why parsing was refused: a fixed-size read ran past the end of the input,
/// or a dependency entry carried an unknown descriptor-kind tag.
#[derive(Debug, PartialEq, Eq, Clone, Copy)]
pub enum ParseError {
    Truncated,
    BadDescriptorTag,
}

// ---------------------------------------------------------------------------
// Mathematical models of the parsed structures.
// ---------------------------------------------------------------------------

pub enum ResrcDescriptorView {
    Sha1(Seq<u8>),
    Guid(u32),
}

#[verifier::ext_equal]
pub struct ResrcDependencyView {
    pub desc: ResrcDescriptorView,
    pub resrc_type: u32,
}

#[verifier::ext_equal]
pub enum ResrcMethodView {
    Null,
    Binary { is_encrypted: bool, revision: ResrcRevision, dependencies: Seq<ResrcDependencyView> },
}

#[verifier::ext_equal]
pub struct ResrcIdView {
    pub resrc_type: Seq<u8>,
    pub method: ResrcMethodView,
}

impl View for ResrcDescriptor {
    type V = ResrcDescriptorView;

    open spec fn view(&self) -> ResrcDescriptorView {
        match self {
            ResrcDescriptor::Sha1(h) => ResrcDescriptorView::Sha1(h@),
            ResrcDescriptor::Guid(g) => ResrcDescriptorView::Guid(*g),
        }
    }
}

impl View for ResrcDependency {
    type V = ResrcDependencyView;

    open spec fn view(&self) -> ResrcDependencyView {
        ResrcDependencyView { desc: self.desc@, resrc_type: self.resrc_type }
    }
}

impl View for ResrcMethod {
    type V = ResrcMethodView;

    open spec fn view(&self) -> ResrcMethodView {
        match self {
            ResrcMethod::Null => ResrcMethodView::Null,
            ResrcMethod::Binary { is_encrypted, revision, dependencies } => ResrcMethodView::Binary {
                is_encrypted: *is_encrypted,
                revision: *revision,
                dependencies: dependencies@.map_values(|d: ResrcDependency| d@),
            },
        }
    }
}

impl View for ResrcId {
    type V = ResrcIdView;

    open spec fn view(&self) -> ResrcIdView {
        ResrcIdView { resrc_type: self.resrc_type@, method: self.method@ }
    }
}

// ---------------------------------------------------------------------------
// The functional parsing specification.
// ---------------------------------------------------------------------------

/// What parsing a byte string yields: a header, or one of the two refusals.
#[verifier::ext_equal]
pub enum SpecParse {
    Parsed(ResrcIdView),
    Truncated,
    BadTag,
}

/// What parsing a dependency table region yields.
#[verifier::ext_equal]
pub enum SpecDeps {
    DepsParsed(Seq<ResrcDependencyView>),
    DepsTruncated,
    DepsBadTag,
}

/// The 3-byte type tag whose headers never carry branch fields.
pub open spec fn smh_tag() -> Seq<u8> {
    seq![83u8, 77u8, 72u8]
}

/// Parses `count` dependency entries starting at `pos`. A `0` kind tag
/// occupies five bytes (one tag plus four type-tag bytes) and yields no
/// entry; kind `1` carries a 20-byte content hash; kind `2` a 4-byte
/// numeric reference; anything else is refused.
pub open spec fn spec_parse_deps(b: Seq<u8>, pos: int, count: nat) -> SpecDeps
    decreases count,
{
    if count == 0 {
        SpecDeps::DepsParsed(seq![])
    } else if pos < 0 || pos + 1 > b.len() {
        SpecDeps::DepsTruncated
    } else {
        let tag = b[pos];
        if tag == 0 {
            if pos + 5 > b.len() {
                SpecDeps::DepsTruncated
            } else {
                spec_parse_deps(b, pos + 5, (count - 1) as nat)
            }
        } else if tag == 1 {
            if pos + 25 > b.len() {
                SpecDeps::DepsTruncated
            } else {
                let dep = ResrcDependencyView {
                    desc: ResrcDescriptorView::Sha1(b.subrange(pos + 1, pos + 21)),
                    resrc_type: be32(b[pos + 21], b[pos + 22], b[pos + 23], b[pos + 24]),
                };
                match spec_parse_deps(b, pos + 25, (count - 1) as nat) {
                    SpecDeps::DepsParsed(rest) => SpecDeps::DepsParsed(seq![dep] + rest),
                    e => e,
                }
            }
        } else if tag == 2 {
            if pos + 9 > b.len() {
                SpecDeps::DepsTruncated
            } else {
                let dep = ResrcDependencyView {
                    desc: ResrcDescriptorView::Guid(be32(b[pos + 1], b[pos + 2], b[pos + 3], b[pos + 4])),
                    resrc_type: be32(b[pos + 5], b[pos + 6], b[pos + 7], b[pos + 8]),
                };
                match spec_parse_deps(b, pos + 9, (count - 1) as nat) {
                    SpecDeps::DepsParsed(rest) => SpecDeps::DepsParsed(seq![dep] + rest),
                    e => e,
                }
            }
        } else {
            SpecDeps::DepsBadTag
        }
    }
}

/// Parses the out-of-line dependency table whose absolute offset is
/// `table_offset`: a 4-byte entry count followed by the entries.
pub open spec fn spec_parse_table(b: Seq<u8>, table_offset: int) -> SpecDeps {
    if table_offset < 0 || table_offset + 4 > b.len() {
        SpecDeps::DepsTruncated
    } else {
        spec_parse_deps(
            b,
            table_offset + 4,
            be32(
                b[table_offset],
                b[table_offset + 1],
                b[table_offset + 2],
                b[table_offset + 3],
            ) as nat,
        )
    }
}

/// Parses a whole resource header: 3-byte type tag, method byte (`b` or `e`
/// select the binary method, `e` marking the body encrypted; anything else
/// the null method), then for the binary method the 4-byte big-endian
/// revision head, a dependency table when `head >= 0x109` (reached through a
/// 4-byte absolute offset and read without moving the header cursor), and
/// 2+2 bytes of branch fields when the tag is not `SMH` and `head >= 0x271`.
pub open spec fn spec_parse(b: Seq<u8>) -> SpecParse {
    if b.len() < 4 {
        SpecParse::Truncated
    } else {
        let tag = b.subrange(0, 3);
        let m = b[3];
        if m == 98 || m == 101 {
            if b.len() < 8 {
                SpecParse::Truncated
            } else {
                let head = be32(b[4], b[5], b[6], b[7]);
                if head >= 0x109 {
                    if b.len() < 12 {
                        SpecParse::Truncated
                    } else {
                        let toff = be32(b[8], b[9], b[10], b[11]);
                        match spec_parse_table(b, toff as int) {
                            SpecDeps::DepsParsed(deps) => {
                                if tag != smh_tag() && head >= 0x271 {
                                    if b.len() < 16 {
                                        SpecParse::Truncated
                                    } else {
                                        SpecParse::Parsed(ResrcIdView {
                                            resrc_type: tag,
                                            method: ResrcMethodView::Binary {
                                                is_encrypted: m == 101,
                                                revision: ResrcRevision {
                                                    head,
                                                    branch_id: be16(b[12], b[13]),
                                                    branch_revision: be16(b[14], b[15]),
                                                },
                                                dependencies: deps,
                                            },
                                        })
                                    }
                                } else {
                                    SpecParse::Parsed(ResrcIdView {
                                        resrc_type: tag,
                                        method: ResrcMethodView::Binary {
                                            is_encrypted: m == 101,
                                            revision: ResrcRevision {
                                                head,
                                                branch_id: 0,
                                                branch_revision: 0,
                                            },
                                            dependencies: deps,
                                        },
                                    })
                                }
                            },
                            SpecDeps::DepsTruncated => SpecParse::Truncated,
                            SpecDeps::DepsBadTag => SpecParse::BadTag,
                        }
                    }
                } else {
                    SpecParse::Parsed(ResrcIdView {
                        resrc_type: tag,
                        method: ResrcMethodView::Binary {
                            is_encrypted: m == 101,
                            revision: ResrcRevision { head, branch_id: 0, branch_revision: 0 },
                            dependencies: seq![],
                        },
                    })
                }
            }
        } else {
            SpecParse::Parsed(ResrcIdView { resrc_type: tag, method: ResrcMethodView::Null })
        }
    }
}

/// Appends already-parsed entries in front of the outcome of parsing the
/// remainder of a table.
pub open spec fn spec_deps_compose(acc: Seq<ResrcDependencyView>, tail: SpecDeps) -> SpecDeps {
    match tail {
        SpecDeps::DepsParsed(rest) => SpecDeps::DepsParsed(acc + rest),
        e => e,
    }
}

impl ResrcDependency {
    /// Reads the 4-byte table offset found at `pos`, parses the out-of-line
    /// dependency table it points at, and leaves the header cursor where it
    /// was, so a caller goes on reading at `pos + 4`.
    pub fn parse_table(res: &[u8], pos: usize) -> (r: Result<Vec<ResrcDependency>, ParseError>)
        requires
            pos + 4 <= res@.len(),
        ensures
            (match r {
                Ok(deps) => spec_parse_table(
                    res@,
                    be32(res@[pos as int], res@[pos + 1], res@[pos + 2], res@[pos + 3]) as int,
                ) == SpecDeps::DepsParsed(deps@.map_values(|d: ResrcDependency| d@)),
                Err(ParseError::Truncated) => spec_parse_table(
                    res@,
                    be32(res@[pos as int], res@[pos + 1], res@[pos + 2], res@[pos + 3]) as int,
                ) is DepsTruncated,
                Err(ParseError::BadDescriptorTag) => spec_parse_table(
                    res@,
                    be32(res@[pos as int], res@[pos + 1], res@[pos + 2], res@[pos + 3]) as int,
                ) is DepsBadTag,
            }),
    {
        let len = res.len();
        let table_offset = read_u32_be(res, pos);
        if table_offset as usize > len || len - (table_offset as usize) < 4 {
            return Err(ParseError::Truncated);
        }
        let toff = table_offset as usize;
        let count = read_u32_be(res, toff);
        let ghost b = res@;
        let ghost total = count as nat;
        let mut deps: Vec<ResrcDependency> = Vec::new();
        let mut p: usize = toff + 4;
        let mut i: u32 = 0;
        proof {
            assert(spec_parse_table(b, toff as int) == spec_parse_deps(b, toff + 4, total));
            assert(spec_deps_compose(deps@.map_values((|d: ResrcDependency| d@)), spec_parse_deps(b, p as int, total))
                =~= spec_parse_deps(b, toff + 4, total));
        }
        while i < count
            invariant
                b == res@,
                len == b.len(),
                i <= count,
                total == count as nat,
                p <= b.len(),
                pos + 4 <= b.len(),
                toff + 4 <= b.len(),
                spec_parse_table(b, toff as int) == spec_parse_deps(b, toff + 4, total),
                toff == be32(b[pos as int], b[pos + 1], b[pos + 2], b[pos + 3]),
                spec_deps_compose(
                    deps@.map_values((|d: ResrcDependency| d@)),
                    spec_parse_deps(b, p as int, (count - i) as nat),
                ) == spec_parse_deps(b, toff + 4, total),
            decreases count - i,
        {
            let ghost rem = (count - i) as nat;
            let ghost acc0 = deps@.map_values((|d: ResrcDependency| d@));
            if p >= len {
                return Err(ParseError::Truncated);
            }
            let tag = res[p];
            if tag == 0 {
                if len - p < 5 {
                    return Err(ParseError::Truncated);
                }
                proof {
                    assert(spec_parse_deps(b, p as int, rem) == spec_parse_deps(
                        b,
                        p + 5,
                        (rem - 1) as nat,
                    ));
                }
                p = p + 5;
            } else if tag == 1 {
                if len - p < 25 {
                    return Err(ParseError::Truncated);
                }
                let mut sha = [0u8; 20];
                let mut j: usize = 0;
                while j < 20
                    invariant
                        b == res@,
                        len == b.len(),
                        j <= 20,
                        p + 25 <= b.len(),
                        forall|k: int| 0 <= k < j ==> sha@[k] == b[p + 1 + k],
                    decreases 20 - j,
                {
                    sha[j] = res[p + 1 + j];
                    j = j + 1;
                }
                let rt = read_u32_be(res, p + 21);
                let dep = ResrcDependency { desc: ResrcDescriptor::Sha1(sha), resrc_type: rt };
                proof {
                    assert(sha@ =~= b.subrange(p + 1, p + 21));
                    let tail = spec_parse_deps(b, p + 25, (rem - 1) as nat);
                    assert(spec_parse_deps(b, p as int, rem) == spec_deps_compose(
                        seq![dep@],
                        tail,
                    ));
                    deps@.lemma_push_map_commute(|d: ResrcDependency| d@, dep);
                    assert(acc0.push(dep@) =~= acc0 + seq![dep@]);
                    if let SpecDeps::DepsParsed(rest) = tail {
                        assert((acc0 + seq![dep@]) + rest =~= acc0 + (seq![dep@] + rest));
                    }
                    assert(spec_deps_compose(acc0 + seq![dep@], tail) =~= spec_deps_compose(
                        acc0,
                        spec_deps_compose(seq![dep@], tail),
                    ));
                }
                deps.push(dep);
                p = p + 25;
            } else if tag == 2 {
                if len - p < 9 {
                    return Err(ParseError::Truncated);
                }
                let guid = read_u32_be(res, p + 1);
                let rt = read_u32_be(res, p + 5);
                let dep = ResrcDependency { desc: ResrcDescriptor::Guid(guid), resrc_type: rt };
                proof {
                    let tail = spec_parse_deps(b, p + 9, (rem - 1) as nat);
                    assert(spec_parse_deps(b, p as int, rem) == spec_deps_compose(
                        seq![dep@],
                        tail,
                    ));
                    deps@.lemma_push_map_commute(|d: ResrcDependency| d@, dep);
                    assert(acc0.push(dep@) =~= acc0 + seq![dep@]);
                    if let SpecDeps::DepsParsed(rest) = tail {
                        assert((acc0 + seq![dep@]) + rest =~= acc0 + (seq![dep@] + rest));
                    }
                    assert(spec_deps_compose(acc0 + seq![dep@], tail) =~= spec_deps_compose(
                        acc0,
                        spec_deps_compose(seq![dep@], tail),
                    ));
                }
                deps.push(dep);
                p = p + 9;
            } else {
                return Err(ParseError::BadDescriptorTag);
            }
            i = i + 1;
        }
        proof {
            assert(spec_parse_deps(b, p as int, 0) == SpecDeps::DepsParsed(
                Seq::<ResrcDependencyView>::empty(),
            ));
            assert(deps@.map_values((|d: ResrcDependency| d@)) + Seq::<ResrcDependencyView>::empty() =~= deps@
                .map_values((|d: ResrcDependency| d@)));
        }
        Ok(deps)
    }
}

impl ResrcId {
    /// Parses a resource header from raw bytes, exactly as the parsing
    /// specification says: the type tag, the serialization method, and for
    /// the binary method the revision, dependency table and branch fields.
    pub fn new(res: &[u8]) -> (r: Result<ResrcId, ParseError>)
        ensures
            (match r {
                Ok(id) => spec_parse(res@) == SpecParse::Parsed(id@),
                Err(ParseError::Truncated) => spec_parse(res@) is Truncated,
                Err(ParseError::BadDescriptorTag) => spec_parse(res@) is BadTag,
            }),
    {
        if res.len() < 4 {
            return Err(ParseError::Truncated);
        }
        let mut resrc_type = [0u8; 3];
        resrc_type[0] = res[0];
        resrc_type[1] = res[1];
        resrc_type[2] = res[2];
        proof {
            assert(resrc_type@ =~= res@.subrange(0, 3));
        }
        let m = res[3];
        if m == 98 || m == 101 {
            if res.len() < 8 {
                return Err(ParseError::Truncated);
            }
            let head = read_u32_be(res, 4);
            let mut rev = ResrcRevision { head, branch_id: 0, branch_revision: 0 };
            let dependencies: Vec<ResrcDependency>;
            if head >= 0x109 {
                if res.len() < 12 {
                    return Err(ParseError::Truncated);
                }
                dependencies = match ResrcDependency::parse_table(res, 8) {
                    Ok(d) => d,
                    Err(e) => {
                        return Err(e);
                    },
                };
            } else {
                dependencies = Vec::new();
                proof {
                    assert(dependencies@.map_values(|d: ResrcDependency| d@)
                        =~= Seq::<ResrcDependencyView>::empty());
                }
            }
            let is_smh = resrc_type[0] == 83 && resrc_type[1] == 77 && resrc_type[2] == 72;
            proof {
                if is_smh {
                    assert(res@.subrange(0, 3) =~= smh_tag());
                } else {
                    assert(res@.subrange(0, 3) == smh_tag() ==> (res@.subrange(0, 3)[0] == 83
                        && res@.subrange(0, 3)[1] == 77 && res@.subrange(0, 3)[2] == 72));
                }
            }
            if !is_smh && head >= 0x271 {
                if res.len() < 16 {
                    return Err(ParseError::Truncated);
                }
                rev.branch_id = read_u16_be(res, 12);
                rev.branch_revision = read_u16_be(res, 14);
            }
            let id = ResrcId {
                resrc_type,
                method: ResrcMethod::Binary {
                    is_encrypted: m == 101,
                    revision: rev,
                    dependencies,
                },
            };
            proof {
                assert(spec_parse(res@) =~~= SpecParse::Parsed(id@));
            }
            Ok(id)
        } else {
            let id = ResrcId { resrc_type, method: ResrcMethod::Null };
            proof {
                assert(spec_parse(res@) =~~= SpecParse::Parsed(id@));
            }
            Ok(id)
        }
    }
}

// ---------------------------------------------------------------------------
// Serialization, the inverse of parsing.
// ---------------------------------------------------------------------------

/// A hash descriptor must carry exactly 20 bytes.
pub open spec fn dep_view_wf(d: ResrcDependencyView) -> bool {
    match d.desc {
        ResrcDescriptorView::Sha1(h) => h.len() == 20,
        ResrcDescriptorView::Guid(_) => true,
    }
}

/// The headers that have a serialized form at all: a 3-byte tag, a count
/// that fits its 4-byte field, no dependency table for revisions below
/// `0x109`, and zero branch fields wherever the format does not write them.
pub open spec fn serializable(v: ResrcIdView) -> bool {
    &&& v.resrc_type.len() == 3
    &&& match v.method {
        ResrcMethodView::Null => true,
        ResrcMethodView::Binary { is_encrypted, revision, dependencies } => {
            &&& dependencies.len() <= 0xFFFFFFFF
            &&& forall|i: int| 0 <= i < dependencies.len() ==> dep_view_wf(#[trigger] dependencies[i])
            &&& (revision.head < 0x109 ==> dependencies.len() == 0)
            &&& ((v.resrc_type == smh_tag() || revision.head < 0x271) ==> revision.branch_id == 0
                && revision.branch_revision == 0)
        },
    }
}

/// The bytes of one dependency entry.
pub open spec fn spec_ser_dep(d: ResrcDependencyView) -> Seq<u8> {
    match d.desc {
        ResrcDescriptorView::Sha1(h) => seq![1u8] + h + u32_be_bytes(d.resrc_type),
        ResrcDescriptorView::Guid(g) => seq![2u8] + u32_be_bytes(g) + u32_be_bytes(d.resrc_type),
    }
}

/// The bytes of a dependency table body, entries in order.
pub open spec fn spec_ser_deps(deps: Seq<ResrcDependencyView>) -> Seq<u8>
    decreases deps.len(),
{
    if deps.len() == 0 {
        Seq::<u8>::empty()
    } else {
        spec_ser_dep(deps[0]) + spec_ser_deps(deps.drop_first())
    }
}

/// The serialized resource header. The dependency table is written last,
/// and the 4-byte table offset points at it: right behind the branch
/// fields when those are written, else right behind the offset field.
pub open spec fn spec_serialize(v: ResrcIdView) -> Seq<u8> {
    match v.method {
        ResrcMethodView::Null => v.resrc_type + seq![110u8],
        ResrcMethodView::Binary { is_encrypted, revision, dependencies } => {
            let mbyte: u8 = if is_encrypted {
                101u8
            } else {
                98u8
            };
            if revision.head >= 0x109 {
                let branch = v.resrc_type != smh_tag() && revision.head >= 0x271;
                v.resrc_type + seq![mbyte] + u32_be_bytes(revision.head) + u32_be_bytes(
                    if branch {
                        16u32
                    } else {
                        12u32
                    },
                ) + (if branch {
                    u16_be_bytes(revision.branch_id) + u16_be_bytes(revision.branch_revision)
                } else {
                    Seq::<u8>::empty()
                }) + u32_be_bytes(dependencies.len() as u32) + spec_ser_deps(dependencies)
            } else {
                v.resrc_type + seq![mbyte] + u32_be_bytes(revision.head)
            }
        },
    }
}

impl ResrcId {
    /// Writes `deps[i..]` behind `out`.
    fn ser_deps_into(deps: &Vec<ResrcDependency>, i: usize, out: &mut Vec<u8>)
        requires
            i <= deps@.len(),
        ensures
            final(out)@ == old(out)@ + spec_ser_deps(
                deps@.skip(i as int).map_values(|d: ResrcDependency| d@),
            ),
        decreases deps@.len() - i,
    {
        if i == deps.len() {
            proof {
                assert(deps@.skip(i as int).map_values(|d: ResrcDependency| d@)
                    =~= Seq::<ResrcDependencyView>::empty());
                assert(out@ =~= out@ + Seq::<u8>::empty());
            }
            return ;
        }
        let ghost pre = out@;
        let ghost rest = deps@.skip(i as int).map_values(|d: ResrcDependency| d@);
        let d = &deps[i];
        match &d.desc {
            ResrcDescriptor::Sha1(h) => {
                out.push(1u8);
                let mut j: usize = 0;
                while j < 20
                    invariant
                        j <= 20,
                        out@ == pre + seq![1u8] + h@.subrange(0, j as int),
                    decreases 20 - j,
                {
                    out.push(h[j]);
                    j = j + 1;
                    proof {
                        assert(out@ =~= pre + seq![1u8] + h@.subrange(0, j as int));
                    }
                }
                push_u32_be(out, d.resrc_type);
                proof {
                    assert(h@.subrange(0, 20) =~= h@);
                    assert(out@ =~= pre + spec_ser_dep(d@));
                }
            },
            ResrcDescriptor::Guid(g) => {
                out.push(2u8);
                push_u32_be(out, *g);
                push_u32_be(out, d.resrc_type);
                proof {
                    assert(out@ =~= pre + spec_ser_dep(d@));
                }
            },
        }
        Self::ser_deps_into(deps, i + 1, out);
        proof {
            assert(rest[0] == d@);
            assert(rest.drop_first() =~= deps@.skip(i + 1).map_values(|d: ResrcDependency| d@));
            assert(spec_ser_deps(rest) == spec_ser_dep(d@) + spec_ser_deps(rest.drop_first()));
            assert(out@ =~= pre + spec_ser_deps(rest));
        }
    }

    /// Serializes the header back to bytes, the exact inverse of parsing.
    pub fn serialize(&self) -> (out: Vec<u8>)
        requires
            serializable(self@),
        ensures
            out@ == spec_serialize(self@),
    {
        let mut out: Vec<u8> = Vec::new();
        out.push(self.resrc_type[0]);
        out.push(self.resrc_type[1]);
        out.push(self.resrc_type[2]);
        match &self.method {
            ResrcMethod::Null => {
                out.push(110u8);
                proof {
                    assert(out@ =~= spec_serialize(self@));
                }
            },
            ResrcMethod::Binary { is_encrypted, revision, dependencies } => {
                out.push(if *is_encrypted {
                    101u8
                } else {
                    98u8
                });
                push_u32_be(&mut out, revision.head);
                if revision.head >= 0x109 {
                    let is_smh = self.resrc_type[0] == 83 && self.resrc_type[1] == 77
                        && self.resrc_type[2] == 72;
                    proof {
                        if is_smh {
                            assert(self.resrc_type@ =~= smh_tag());
                        } else {
                            assert(self.resrc_type@ == smh_tag() ==> (self.resrc_type@[0] == 83
                                && self.resrc_type@[1] == 77 && self.resrc_type@[2] == 72));
                        }
                    }
                    let branch = !is_smh && revision.head >= 0x271;
                    push_u32_be(
                        &mut out,
                        if branch {
                            16u32
                        } else {
                            12u32
                        },
                    );
                    if branch {
                        push_u16_be(&mut out, revision.branch_id);
                        push_u16_be(&mut out, revision.branch_revision);
                    }
                    push_u32_be(&mut out, dependencies.len() as u32);
                    let ghost pre = out@;
                    Self::ser_deps_into(dependencies, 0, &mut out);
                    proof {
                        assert(dependencies@.skip(0) =~= dependencies@);
                        assert(out@ =~= spec_serialize(self@));
                    }
                } else {
                    proof {
                        assert(out@ =~= spec_serialize(self@));
                    }
                }
            },
        }
        out
    }
}

// ---------------------------------------------------------------------------
// Laws of the parser.
// ---------------------------------------------------------------------------

/// A dependency entry with kind tag `0` occupies exactly five bytes — the
/// tag plus the four type-tag bytes — and contributes no dependency record:
/// the table parses exactly as if the entry were not there.
pub proof fn lemma_zero_tag_entry(b: Seq<u8>, pos: int, count: nat)
    requires
        count > 0,
        0 <= pos,
        pos + 5 <= b.len(),
        b[pos] == 0,
    ensures
        spec_parse_deps(b, pos, count) == spec_parse_deps(b, pos + 5, (count - 1) as nat),
{
}

/// Bytes of a final segment, read through the whole string.
proof fn lemma_tail_bytes(b: Seq<u8>, pos: int, s: Seq<u8>)
    requires
        0 <= pos <= b.len(),
        b.len() == pos + s.len(),
        b.subrange(pos, b.len() as int) == s,
    ensures
        forall|j: int| 0 <= j < s.len() ==> b[pos + j] == s[j],
{
    assert forall|j: int| 0 <= j < s.len() implies b[pos + j] == s[j] by {
        assert(b.subrange(pos, b.len() as int)[j] == s[j]);
    }
}

/// Parsing a serialized dependency table that sits at the end of the byte
/// string gives back exactly the entries that were written.
#[verifier::rlimit(60)]
proof fn lemma_parse_ser_deps(b: Seq<u8>, pos: int, deps: Seq<ResrcDependencyView>)
    requires
        forall|i: int| 0 <= i < deps.len() ==> dep_view_wf(#[trigger] deps[i]),
        0 <= pos <= b.len(),
        b.len() == pos + spec_ser_deps(deps).len(),
        b.subrange(pos, b.len() as int) == spec_ser_deps(deps),
    ensures
        spec_parse_deps(b, pos, deps.len() as nat) == SpecDeps::DepsParsed(deps),
    decreases deps.len(),
{
    let ser = spec_ser_deps(deps);
    lemma_tail_bytes(b, pos, ser);
    if deps.len() == 0 {
        assert(spec_parse_deps(b, pos, 0) =~= SpecDeps::DepsParsed(deps));
    } else {
        let d = deps[0];
        let rest = deps.drop_first();
        let dser = spec_ser_dep(d);
        let rest_ser = spec_ser_deps(rest);
        assert(ser == dser + rest_ser);
        assert(b[pos + 0] == ser[0]);
        match d.desc {
            ResrcDescriptorView::Sha1(h) => {
                let rt = d.resrc_type;
                assert(dser == seq![1u8] + h + u32_be_bytes(rt));
                assert(dser.len() == 25);
                assert(ser[0] == dser[0]);
                assert(dser[0] == (seq![1u8] + h)[0]);
                assert((seq![1u8] + h)[0] == 1);
                assert(b[pos] == 1);
                assert(pos + 25 <= b.len());
                assert forall|k: int| 0 <= k < 20 implies b.subrange(pos + 1, pos + 21)[k]
                    == h[k] by {
                    assert(b[pos + (1 + k)] == ser[1 + k]);
                    assert(ser[1 + k] == dser[1 + k]);
                    assert(dser[1 + k] == (seq![1u8] + h)[1 + k]);
                    assert((seq![1u8] + h)[1 + k] == h[k]);
                    assert(b.subrange(pos + 1, pos + 21)[k] == b[pos + 1 + k]);
                }
                assert(b.subrange(pos + 1, pos + 21) =~= h);
                lemma_be32_of_u32_be_bytes(rt);
                assert(b[pos + 21] == ser[21] && ser[21] == dser[21] && dser[21] == u32_be_bytes(
                    rt,
                )[0]);
                assert(b[pos + 22] == ser[22] && ser[22] == dser[22] && dser[22] == u32_be_bytes(
                    rt,
                )[1]);
                assert(b[pos + 23] == ser[23] && ser[23] == dser[23] && dser[23] == u32_be_bytes(
                    rt,
                )[2]);
                assert(b[pos + 24] == ser[24] && ser[24] == dser[24] && dser[24] == u32_be_bytes(
                    rt,
                )[3]);
                assert(be32(b[pos + 21], b[pos + 22], b[pos + 23], b[pos + 24]) == rt);
                assert forall|k: int| 0 <= k < rest_ser.len() implies b.subrange(
                    pos + 25,
                    b.len() as int,
                )[k] == rest_ser[k] by {
                    assert(b[pos + (25 + k)] == ser[25 + k]);
                    assert(ser[25 + k] == rest_ser[k]);
                    assert(b.subrange(pos + 25, b.len() as int)[k] == b[pos + 25 + k]);
                }
                assert(b.subrange(pos + 25, b.len() as int) =~= rest_ser);
                lemma_parse_ser_deps(b, pos + 25, rest);
                assert(seq![d] + rest =~= deps);
                assert(spec_parse_deps(b, pos, deps.len() as nat) =~= SpecDeps::DepsParsed(deps));
            },
            ResrcDescriptorView::Guid(g) => {
                let rt = d.resrc_type;
                assert(dser == seq![2u8] + u32_be_bytes(g) + u32_be_bytes(rt));
                assert(dser.len() == 9);
                assert(ser[0] == dser[0]);
                assert(dser[0] == (seq![2u8] + u32_be_bytes(g))[0]);
                assert((seq![2u8] + u32_be_bytes(g))[0] == 2);
                assert(b[pos] == 2);
                assert(pos + 9 <= b.len());
                lemma_be32_of_u32_be_bytes(g);
                lemma_be32_of_u32_be_bytes(rt);
                assert(b[pos + 1] == ser[1] && ser[1] == dser[1] && dser[1] == (seq![2u8]
                    + u32_be_bytes(g))[1] && (seq![2u8] + u32_be_bytes(g))[1] == u32_be_bytes(
                    g,
                )[0]);
                assert(b[pos + 2] == ser[2] && ser[2] == dser[2] && dser[2] == (seq![2u8]
                    + u32_be_bytes(g))[2] && (seq![2u8] + u32_be_bytes(g))[2] == u32_be_bytes(
                    g,
                )[1]);
                assert(b[pos + 3] == ser[3] && ser[3] == dser[3] && dser[3] == (seq![2u8]
                    + u32_be_bytes(g))[3] && (seq![2u8] + u32_be_bytes(g))[3] == u32_be_bytes(
                    g,
                )[2]);
                assert(b[pos + 4] == ser[4] && ser[4] == dser[4] && dser[4] == (seq![2u8]
                    + u32_be_bytes(g))[4] && (seq![2u8] + u32_be_bytes(g))[4] == u32_be_bytes(
                    g,
                )[3]);
                assert(be32(b[pos + 1], b[pos + 2], b[pos + 3], b[pos + 4]) == g);
                assert(b[pos + 5] == ser[5] && ser[5] == dser[5] && dser[5] == u32_be_bytes(rt)[0]);
                assert(b[pos + 6] == ser[6] && ser[6] == dser[6] && dser[6] == u32_be_bytes(rt)[1]);
                assert(b[pos + 7] == ser[7] && ser[7] == dser[7] && dser[7] == u32_be_bytes(rt)[2]);
                assert(b[pos + 8] == ser[8] && ser[8] == dser[8] && dser[8] == u32_be_bytes(rt)[3]);
                assert(be32(b[pos + 5], b[pos + 6], b[pos + 7], b[pos + 8]) == rt);
                assert forall|k: int| 0 <= k < rest_ser.len() implies b.subrange(
                    pos + 9,
                    b.len() as int,
                )[k] == rest_ser[k] by {
                    assert(b[pos + (9 + k)] == ser[9 + k]);
                    assert(ser[9 + k] == rest_ser[k]);
                    assert(b.subrange(pos + 9, b.len() as int)[k] == b[pos + 9 + k]);
                }
                assert(b.subrange(pos + 9, b.len() as int) =~= rest_ser);
                lemma_parse_ser_deps(b, pos + 9, rest);
                assert(seq![d] + rest =~= deps);
                assert(spec_parse_deps(b, pos, deps.len() as nat) =~= SpecDeps::DepsParsed(deps));
            },
        }
    }
}

/// Round trip for a binary-method header with a dependency table.
#[verifier::rlimit(100)]
proof fn lemma_parse_serialize_table(v: ResrcIdView)
    requires
        serializable(v),
        v.method is Binary,
        v.method->Binary_revision.head >= 0x109,
    ensures
        spec_parse(spec_serialize(v)) == SpecParse::Parsed(v),
{
    let b = spec_serialize(v);
    match v.method {
        ResrcMethodView::Binary { is_encrypted, revision, dependencies } => {
            let mbyte: u8 = if is_encrypted {
                101u8
            } else {
                98u8
            };
            let head = revision.head;
            let branch = v.resrc_type != smh_tag() && head >= 0x271;
            let toff32: u32 = if branch {
                16u32
            } else {
                12u32
            };
            let bb = if branch {
                u16_be_bytes(revision.branch_id) + u16_be_bytes(revision.branch_revision)
            } else {
                Seq::<u8>::empty()
            };
            let cnt = dependencies.len() as u32;
            let dd = spec_ser_deps(dependencies);
            let s1 = v.resrc_type + seq![mbyte];
            let s2 = s1 + u32_be_bytes(head);
            let s3 = s2 + u32_be_bytes(toff32);
            let s4 = s3 + bb;
            let s5 = s4 + u32_be_bytes(cnt);
            assert(b == s5 + dd);
            assert(s4.len() == toff32);
            assert(s5.len() == toff32 + 4);
            assert(forall|j: int| 0 <= j < s5.len() ==> b[j] == s5[j]);
            assert(forall|j: int| 0 <= j < s4.len() ==> s5[j] == s4[j]);
            assert(forall|j: int| 0 <= j < s3.len() ==> s4[j] == s3[j]);
            assert(forall|j: int| 0 <= j < s2.len() ==> s3[j] == s2[j]);
            assert(forall|j: int| 0 <= j < s1.len() ==> s2[j] == s1[j]);
            assert(b.subrange(0, 3) =~= v.resrc_type) by {
                assert(forall|j: int| 0 <= j < 3 ==> s1[j] == v.resrc_type[j]);
                assert(forall|j: int| 0 <= j < 3 ==> b.subrange(0, 3)[j] == b[j]);
            }
            assert(s1[3] == mbyte);
            assert(b[3] == mbyte);
            lemma_be32_of_u32_be_bytes(head);
            assert(s2[4] == u32_be_bytes(head)[0] && s2[5] == u32_be_bytes(head)[1] && s2[6]
                == u32_be_bytes(head)[2] && s2[7] == u32_be_bytes(head)[3]);
            assert(be32(b[4], b[5], b[6], b[7]) == head);
            lemma_be32_of_u32_be_bytes(toff32);
            assert(s3[8] == u32_be_bytes(toff32)[0] && s3[9] == u32_be_bytes(toff32)[1] && s3[10]
                == u32_be_bytes(toff32)[2] && s3[11] == u32_be_bytes(toff32)[3]);
            assert(be32(b[8], b[9], b[10], b[11]) == toff32);
            lemma_be32_of_u32_be_bytes(cnt);
            let toff = toff32 as int;
            assert(s5[toff + 0] == u32_be_bytes(cnt)[0] && s5[toff + 1] == u32_be_bytes(cnt)[1]
                && s5[toff + 2] == u32_be_bytes(cnt)[2] && s5[toff + 3] == u32_be_bytes(cnt)[3]);
            assert(b[toff + 0] == u32_be_bytes(cnt)[0] && b[toff + 1] == u32_be_bytes(cnt)[1]
                && b[toff + 2] == u32_be_bytes(cnt)[2] && b[toff + 3] == u32_be_bytes(cnt)[3]);
            assert(be32(b[toff + 0], b[toff + 1], b[toff + 2], b[toff + 3]) == cnt);
            assert(cnt as nat == dependencies.len());
            assert(b.len() == toff + 4 + dd.len());
            assert forall|k: int| 0 <= k < dd.len() implies b.subrange(toff + 4, b.len() as int)[k]
                == dd[k] by {
                assert(b[(toff + 4) + k] == (s5 + dd)[(toff + 4) + k]);
                assert((s5 + dd)[(toff + 4) + k] == dd[k]);
                assert(b.subrange(toff + 4, b.len() as int)[k] == b[(toff + 4) + k]);
            }
            assert(b.subrange(toff + 4, b.len() as int) =~= dd);
            lemma_parse_ser_deps(b, toff + 4, dependencies);
            assert(spec_parse_table(b, toff) == SpecDeps::DepsParsed(dependencies));
            if branch {
                lemma_be16_of_u16_be_bytes(revision.branch_id);
                lemma_be16_of_u16_be_bytes(revision.branch_revision);
                assert(bb[0] == u16_be_bytes(revision.branch_id)[0] && bb[1] == u16_be_bytes(
                    revision.branch_id,
                )[1] && bb[2] == u16_be_bytes(revision.branch_revision)[0] && bb[3]
                    == u16_be_bytes(revision.branch_revision)[1]);
                assert(s4[12] == bb[0] && s4[13] == bb[1] && s4[14] == bb[2] && s4[15] == bb[3]);
                assert(be16(b[12], b[13]) == revision.branch_id);
                assert(be16(b[14], b[15]) == revision.branch_revision);
                assert(b.len() >= 16);
                assert(spec_parse(b) =~~= SpecParse::Parsed(v));
            } else {
                assert(revision.branch_id == 0 && revision.branch_revision == 0);
                assert(spec_parse(b) =~~= SpecParse::Parsed(v));
            }
        },
        ResrcMethodView::Null => {},
    }
}

/// Round trip: parsing a serialized header gives the header back, for every
/// header that has a serialized form — binary or null method, with or
/// without a dependency table, with or without branch fields.
pub proof fn lemma_parse_serialize(v: ResrcIdView)
    requires
        serializable(v),
    ensures
        spec_parse(spec_serialize(v)) == SpecParse::Parsed(v),
{
    let b = spec_serialize(v);
    match v.method {
        ResrcMethodView::Null => {
            assert(b.len() == 4);
            assert(b[3] == 110);
            assert(b.subrange(0, 3) =~= v.resrc_type);
            assert(spec_parse(b) =~~= SpecParse::Parsed(v));
        },
        ResrcMethodView::Binary { is_encrypted, revision, dependencies } => {
            let mbyte: u8 = if is_encrypted {
                101u8
            } else {
                98u8
            };
            let head = revision.head;
            if head >= 0x109 {
                lemma_parse_serialize_table(v);
            } else {
                let s1 = v.resrc_type + seq![mbyte];
                let s2 = s1 + u32_be_bytes(head);
                assert(b == s2);
                assert(b.len() == 8);
                assert(b.subrange(0, 3) =~= v.resrc_type) by {
                    assert(forall|j: int| 0 <= j < 3 ==> s1[j] == v.resrc_type[j]);
                    assert(forall|j: int| 0 <= j < 4 ==> s2[j] == s1[j]);
                    assert(forall|j: int| 0 <= j < 3 ==> b.subrange(0, 3)[j] == b[j]);
                }
                assert(s1[3] == mbyte);
                assert(b[3] == mbyte);
                lemma_be32_of_u32_be_bytes(head);
                assert(s2[4] == u32_be_bytes(head)[0] && s2[5] == u32_be_bytes(head)[1] && s2[6]
                    == u32_be_bytes(head)[2] && s2[7] == u32_be_bytes(head)[3]);
                assert(be32(b[4], b[5], b[6], b[7]) == head);
                assert(dependencies =~= Seq::<ResrcDependencyView>::empty());
                assert(revision.branch_id == 0 && revision.branch_revision == 0);
                assert(spec_parse(b) =~~= SpecParse::Parsed(v));
            }
        },
    }
}

} // verus!
