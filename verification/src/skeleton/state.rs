//! Everything that a Skeleton stream says, and how its packets are told apart.
use crate::bytes::matches_at;
use crate::skeleton::bone::{FisBone, FisBoneView, FISBONE_MAGIC};
use crate::skeleton::head::{FisHead, FisHeadView, Version, FISHEAD_MAGIC};
use crate::skeleton::index::{SkelIndex, SkelIndexView, INDEX_MAGIC};
use vstd::prelude::*;

verus! {

/// What a Skeleton stream says of a physical stream.
#[derive(Clone, Debug)]
pub struct Skeleton {
    /// The `fishead` packet, once there is one.
    pub head: Option<FisHead>,
    /// The `fisbone` packets in their order.
    pub bones: Vec<FisBone>,
    /// The `index` packets in their order.
    pub indexes: Vec<SkelIndex>,
    /// Serial of the Skeleton stream itself.
    pub serial: Option<u32>,
}

/// What a [`Skeleton`] stands for.
#[verifier::ext_equal]
pub struct SkeletonView {
    pub head: Option<FisHeadView>,
    pub bones: Seq<FisBoneView>,
    pub indexes: Seq<SkelIndexView>,
    pub serial: Option<u32>,
}

impl View for Skeleton {
    type V = SkeletonView;

    open spec fn view(&self) -> SkeletonView {
        SkeletonView {
            head: match self.head {
                Some(h) => Some(h@),
                None => None,
            },
            bones: self.bones@.map_values(|b: FisBone| b@),
            indexes: self.indexes@.map_values(|x: SkelIndex| x@),
            serial: self.serial,
        }
    }
}

/// A Skeleton that says nothing.
pub open spec fn blank() -> SkeletonView {
    SkeletonView { head: None, bones: Seq::empty(), indexes: Seq::empty(), serial: None }
}

/// The first packet on the stream `serial`.
pub open spec fn bone_for(bones: Seq<FisBoneView>, serial: u32) -> Option<FisBoneView>
    decreases bones.len(),
{
    if bones.len() == 0 {
        None
    } else if bones[0].serial == serial {
        Some(bones[0])
    } else {
        bone_for(bones.skip(1), serial)
    }
}

/// The first index of the stream `serial`.
pub open spec fn index_for(indexes: Seq<SkelIndexView>, serial: u32) -> Option<SkelIndexView>
    decreases indexes.len(),
{
    if indexes.len() == 0 {
        None
    } else if indexes[0].serial == serial {
        Some(indexes[0])
    } else {
        index_for(indexes.skip(1), serial)
    }
}

impl Skeleton {
    /// A Skeleton that says nothing.
    pub fn new() -> (s: Self)
        ensures
            s@ == blank(),
    {
        let s = Skeleton { head: None, bones: Vec::new(), indexes: Vec::new(), serial: None };
        assert(s@ =~= blank());
        s
    }

    /// Whether there is a `fishead` packet.
    pub fn is_parsed(&self) -> (r: bool)
        ensures
            r == (self@.head is Some),
    {
        self.head.is_some()
    }

    /// The version of the `fishead` packet, 4.0 where there is none.
    pub fn version(&self) -> (r: Version)
        ensures
            r == (match self@.head {
                Some(h) => h.version,
                None => Version::v4_0(),
            }),
    {
        match &self.head {
            Some(h) => h.version,
            None => Version::v4_0(),
        }
    }

    /// Sets the `fishead` packet.
    pub fn set_head(&mut self, head: FisHead)
        ensures
            final(self)@ == (SkeletonView { head: Some(head@), ..old(self)@ }),
    {
        self.head = Some(head);
    }

    /// Appends a `fisbone` packet.
    pub fn push_bone(&mut self, bone: FisBone)
        ensures
            final(self)@ == (SkeletonView { bones: old(self)@.bones.push(bone@), ..old(self)@ }),
    {
        self.bones.push(bone);
        assert(self@.bones =~= old(self)@.bones.push(bone@));
    }

    /// Appends an `index` packet.
    pub fn push_index(&mut self, index: SkelIndex)
        ensures
            final(self)@ == (SkeletonView {
                indexes: old(self)@.indexes.push(index@),
                ..old(self)@
            }),
    {
        self.indexes.push(index);
        assert(self@.indexes =~= old(self)@.indexes.push(index@));
    }

    /// The first `fisbone` packet on the stream `serial`.
    pub fn bone_for_serial(&self, serial: u32) -> (r: Option<&FisBone>)
        ensures
            match r {
                Some(b) => bone_for(self@.bones, serial) == Some(b@),
                None => bone_for(self@.bones, serial) is None,
            },
    {
        let ghost all = self@.bones;
        let mut i: usize = 0;
        assert(all.skip(0) =~= all);
        while i < self.bones.len()
            invariant
                i <= self.bones@.len(),
                all == self@.bones,
                bone_for(all, serial) == bone_for(all.skip(i as int), serial),
            decreases self.bones@.len() - i,
        {
            assert(all.skip(i as int).skip(1) =~= all.skip(i + 1));
            if self.bones[i].serial == serial {
                return Some(&self.bones[i]);
            }
            i += 1;
        }
        None
    }

    /// The first `index` packet of the stream `serial`.
    pub fn index_for_serial(&self, serial: u32) -> (r: Option<&SkelIndex>)
        ensures
            match r {
                Some(x) => index_for(self@.indexes, serial) == Some(x@),
                None => index_for(self@.indexes, serial) is None,
            },
    {
        let ghost all = self@.indexes;
        let mut i: usize = 0;
        assert(all.skip(0) =~= all);
        while i < self.indexes.len()
            invariant
                i <= self.indexes@.len(),
                all == self@.indexes,
                index_for(all, serial) == index_for(all.skip(i as int), serial),
            decreases self.indexes@.len() - i,
        {
            assert(all.skip(i as int).skip(1) =~= all.skip(i + 1));
            if self.indexes[i].serial == serial {
                return Some(&self.indexes[i]);
            }
            i += 1;
        }
        None
    }
}

impl Default for Skeleton {
    fn default() -> (s: Self)
        ensures
            s@ == blank(),
    {
        Skeleton::new()
    }
}

/// `p` begins with `magic`.
pub open spec fn begins(p: Seq<u8>, magic: Seq<u8>) -> bool {
    p.len() >= magic.len() && p.take(magic.len() as int) == magic
}

fn has_magic(packet: &[u8], magic: &[u8]) -> (r: bool)
    ensures
        r == begins(packet@, magic@),
{
    if packet.len() < magic.len() {
        return false;
    }
    assert(packet@.subrange(0, magic@.len() as int) =~= packet@.take(magic@.len() as int));
    matches_at(packet, 0, magic)
}

/// Whether a packet is a `fishead` packet.
pub fn is_fishead(packet: &[u8]) -> (r: bool)
    ensures
        r == begins(packet@, FISHEAD_MAGIC@),
{
    has_magic(packet, &FISHEAD_MAGIC)
}

/// Whether a packet is a `fisbone` packet.
pub fn is_fisbone(packet: &[u8]) -> (r: bool)
    ensures
        r == begins(packet@, FISBONE_MAGIC@),
{
    has_magic(packet, &FISBONE_MAGIC)
}

/// Whether a packet is an `index` packet.
pub fn is_index(packet: &[u8]) -> (r: bool)
    ensures
        r == begins(packet@, INDEX_MAGIC@),
{
    has_magic(packet, &INDEX_MAGIC)
}

/// No packet is of two kinds.
pub proof fn law_kinds_exclude(p: Seq<u8>)
    ensures
        !(begins(p, FISHEAD_MAGIC@) && begins(p, FISBONE_MAGIC@)),
        !(begins(p, FISHEAD_MAGIC@) && begins(p, INDEX_MAGIC@)),
        !(begins(p, FISBONE_MAGIC@) && begins(p, INDEX_MAGIC@)),
{
    if begins(p, FISHEAD_MAGIC@) {
        assert(p.take(8)[3] == FISHEAD_MAGIC@[3]);
        assert(p.take(8)[0] == FISHEAD_MAGIC@[0]);
    }
    if begins(p, FISBONE_MAGIC@) {
        assert(p.take(8)[3] == FISBONE_MAGIC@[3]);
        assert(p.take(8)[0] == FISBONE_MAGIC@[0]);
    }
    if begins(p, INDEX_MAGIC@) {
        assert(p.take(6)[0] == INDEX_MAGIC@[0]);
    }
}

} // verus!
