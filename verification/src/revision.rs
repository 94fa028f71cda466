use vstd::prelude::*;

verus! {

/// Which console software era a resource targets. The three eras have
/// distinct archive and metadata layout requirements.
#[derive(Clone, Copy, Debug, PartialEq, Eq, Structural)]
pub enum GameVersion {
    Lbp1,
    Lbp2,
    Lbp3,
}

/// A packed format revision: a 32-bit `head` plus two 16-bit branch fields.
/// Branch fields are only present in serialized form for revisions at or
/// above `0x271` on resource types other than `SMH`.
#[derive(Clone, Copy, Debug, PartialEq, Eq, Structural)]
pub struct ResrcRevision {
    pub head: u32,
    pub branch_id: u16,
    pub branch_revision: u16,
}

impl ResrcRevision {
    /// Generation classification: generation 1 if `head <= 0x272`,
    /// generation 3 if the high 16 bits are non-zero, otherwise generation 2.
    pub open spec fn spec_gameversion(self) -> GameVersion {
        if self.head <= 0x272 {
            GameVersion::Lbp1
        } else if self.head >= 0x10000 {
            GameVersion::Lbp3
        } else {
            GameVersion::Lbp2
        }
    }

    pub fn get_version(&self) -> (v: u16)
        ensures
            v == self.head % 0x10000,
    {
        proof {
            let h = self.head;
            assert((h & 0xFFFF) as u16 == h % 0x10000) by (bit_vector);
        }
        (self.head & 0xFFFF) as u16
    }

    pub fn get_subversion(&self) -> (v: u16)
        ensures
            v == self.head / 0x10000,
    {
        proof {
            let h = self.head;
            assert(((h >> 16) & 0xFFFF) as u16 == h / 0x10000) by (bit_vector);
        }
        ((self.head >> 16) & 0xFFFF) as u16
    }

    pub fn is_lbp1(&self) -> (r: bool)
        ensures
            r == (self.head <= 0x272),
    {
        self.head <= 0x272
    }

    pub fn is_lbp3(&self) -> (r: bool)
        ensures
            r == (self.head >= 0x10000),
    {
        proof {
            let h = self.head;
            assert((h >> 0x10 != 0) == (h >= 0x10000)) by (bit_vector);
        }
        self.head >> 0x10 != 0
    }

    pub fn get_gameversion(&self) -> (r: GameVersion)
        ensures
            r == self.spec_gameversion(),
    {
        if self.is_lbp1() {
            GameVersion::Lbp1
        } else if self.is_lbp3() {
            GameVersion::Lbp3
        } else {
            GameVersion::Lbp2
        }
    }
}

impl GameVersion {
    /// The platform title identifier whose backup directory names start with it.
    pub open spec fn spec_titleid(self) -> Seq<u8> {
        match self {
            GameVersion::Lbp1 => seq![66u8, 67u8, 69u8, 83u8, 48u8, 48u8, 49u8, 52u8, 49u8],
            GameVersion::Lbp2 => seq![66u8, 67u8, 69u8, 83u8, 48u8, 48u8, 56u8, 53u8, 48u8],
            GameVersion::Lbp3 => seq![66u8, 67u8, 69u8, 83u8, 48u8, 49u8, 54u8, 54u8, 51u8],
        }
    }

    pub fn get_titleid(&self) -> (r: Vec<u8>)
        ensures
            r@ == self.spec_titleid(),
    {
        let r: Vec<u8> = match self {
            GameVersion::Lbp1 => vec![66u8, 67u8, 69u8, 83u8, 48u8, 48u8, 49u8, 52u8, 49u8],
            GameVersion::Lbp2 => vec![66u8, 67u8, 69u8, 83u8, 48u8, 48u8, 56u8, 53u8, 48u8],
            GameVersion::Lbp3 => vec![66u8, 67u8, 69u8, 83u8, 48u8, 49u8, 54u8, 54u8, 51u8],
        };
        proof {
            assert(r@ =~= self.spec_titleid());
        }
        r
    }

    /// The newest format revision this generation understands; used when a
    /// backup is coerced to the generation recorded for the level.
    pub open spec fn spec_latest_revision(self) -> ResrcRevision {
        match self {
            GameVersion::Lbp1 => (ResrcRevision { head: 0x272, branch_id: 0, branch_revision: 0 }),
            GameVersion::Lbp2 => (ResrcRevision { head: 0x3F8, branch_id: 0, branch_revision: 0 }),
            GameVersion::Lbp3 => (ResrcRevision {
                head: 0x21803F9,
                branch_id: 0,
                branch_revision: 0,
            }),
        }
    }

    pub fn get_latest_revision(&self) -> (r: ResrcRevision)
        ensures
            r == self.spec_latest_revision(),
            r.spec_gameversion() == *self,
    {
        match self {
            GameVersion::Lbp1 => ResrcRevision { head: 0x272, branch_id: 0, branch_revision: 0 },
            GameVersion::Lbp2 => ResrcRevision { head: 0x3F8, branch_id: 0, branch_revision: 0 },
            GameVersion::Lbp3 => ResrcRevision {
                head: 0x21803F9,
                branch_id: 0,
                branch_revision: 0,
            },
        }
    }
}

} // verus!
