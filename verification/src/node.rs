//! The eight-byte node record of the octree pool.

use vstd::prelude::*;

verus! {

/// One record of the pool: a word of flags and a word of data.
///
/// With `PARENT` set, `data` is the pool index of the first of eight
/// children. With `SOLID` set, `data` is a colour packed as `0x00BBGGRR`.
#[derive(Clone, Copy, Debug, PartialEq, Eq, Structural)]
pub struct Node {
    pub flags: u32,
    pub data: u32,
}

impl Node {
    pub const SOLID_BIT: u32 = 1;
    pub const PARENT_BIT: u32 = 2;
    pub const SHADOW_BIT: u32 = 4;
    pub const EMPTY_MASK: u32 = 3;

    /// The colour word that packs three channels as `0x00BBGGRR`.
    pub open spec fn spec_pack(r: u8, g: u8, b: u8) -> int {
        r as int + 256 * (g as int) + 65536 * (b as int)
    }

    /// The node is an interior node: `data` points at its children.
    pub open spec fn spec_is_parent(&self) -> bool {
        self.flags & 2 != 0
    }

    /// The node is a leaf that holds matter.
    pub open spec fn spec_is_solid(&self) -> bool {
        self.flags & 1 != 0
    }

    /// The leaf casts and receives shadows.
    pub open spec fn spec_is_shadow(&self) -> bool {
        self.flags & 4 != 0
    }

    /// The node is neither an interior node nor solid.
    pub open spec fn spec_is_empty(&self) -> bool {
        self.flags & 3 == 0
    }

    /// The all-zero node: an empty leaf.
    pub open spec fn spec_empty() -> Node {
        Node { flags: 0, data: 0 }
    }

    /// The blank node: an empty leaf without flags or data.
    #[verifier::when_used_as_spec(spec_empty)]
    pub fn empty() -> (node: Node)
        ensures
            node == Node::spec_empty(),
            node.spec_is_empty(),
            !node.spec_is_parent(),
            !node.spec_is_solid(),
    {
        assert(0u32 & 3 == 0 && 0u32 & 2 == 0 && 0u32 & 1 == 0) by (bit_vector);
        Node { flags: 0, data: 0 }
    }

    fn pack(r: u8, g: u8, b: u8) -> (data: u32)
        ensures
            data == Node::spec_pack(r, g, b),
    {
        let data: u32 = ((b as u32) << 16) | ((g as u32) << 8) | (r as u32);
        assert(((b as u32) << 16) | ((g as u32) << 8) | (r as u32) == (r as u32) + 256 * (g as u32)
            + 65536 * (b as u32)) by (bit_vector);
        data
    }

    /// A solid leaf of the given colour that casts and receives shadows.
    pub fn solid(r: u8, g: u8, b: u8) -> (node: Node)
        ensures
            node.flags == 5,
            node.data == Node::spec_pack(r, g, b),
            node.spec_is_solid(),
            node.spec_is_shadow(),
            !node.spec_is_parent(),
            !node.spec_is_empty(),
    {
        assert(5u32 & 1 != 0 && 5u32 & 4 != 0 && 5u32 & 2 == 0 && 5u32 & 3 != 0 && 1u32 | 4u32 == 5u32)
            by (bit_vector);
        Node { flags: Node::SOLID_BIT | Node::SHADOW_BIT, data: Node::pack(r, g, b) }
    }

    /// A solid leaf of the given colour that casts no shadow.
    pub fn translucent(r: u8, g: u8, b: u8) -> (node: Node)
        ensures
            node.flags == 1,
            node.data == Node::spec_pack(r, g, b),
            node.spec_is_solid(),
            !node.spec_is_shadow(),
            !node.spec_is_parent(),
            !node.spec_is_empty(),
    {
        assert(1u32 & 1 != 0 && 1u32 & 4 == 0 && 1u32 & 2 == 0 && 1u32 & 3 != 0) by (bit_vector);
        Node { flags: Node::SOLID_BIT, data: Node::pack(r, g, b) }
    }

    /// A solid leaf of the given colour that casts and receives shadows.
    pub fn rgb8(r: u8, g: u8, b: u8) -> (node: Node)
        ensures
            node.flags == 5,
            node.data == Node::spec_pack(r, g, b),
            node.spec_is_solid(),
            node.spec_is_shadow(),
            !node.spec_is_parent(),
            !node.spec_is_empty(),
    {
        Node::solid(r, g, b)
    }

    /// A solid leaf of the given colour that casts no shadow.
    pub fn rgb8_translucent(r: u8, g: u8, b: u8) -> (node: Node)
        ensures
            node.flags == 1,
            node.data == Node::spec_pack(r, g, b),
            node.spec_is_solid(),
            !node.spec_is_shadow(),
            !node.spec_is_parent(),
            !node.spec_is_empty(),
    {
        Node::translucent(r, g, b)
    }

    /// An interior node whose eight children start at `pointer`.
    pub open spec fn spec_parent(pointer: u32) -> Node {
        Node { flags: 2, data: pointer }
    }

    /// An interior node whose eight children start at `pointer`.
    #[verifier::when_used_as_spec(spec_parent)]
    pub fn parent(pointer: u32) -> (node: Node)
        ensures
            node == Node::spec_parent(pointer),
            node.spec_is_parent(),
            !node.spec_is_solid(),
            !node.spec_is_empty(),
    {
        assert(2u32 & 2 != 0 && 2u32 & 1 == 0 && 2u32 & 3 != 0) by (bit_vector);
        Node { flags: Node::PARENT_BIT, data: pointer }
    }

    /// Whether the node is an interior node.
    #[verifier::when_used_as_spec(spec_is_parent)]
    pub fn is_parent(&self) -> (yes: bool)
        ensures
            yes == self.spec_is_parent(),
    {
        self.flags & Node::PARENT_BIT != 0
    }

    /// Whether the node is a leaf that holds matter.
    #[verifier::when_used_as_spec(spec_is_solid)]
    pub fn is_solid(&self) -> (yes: bool)
        ensures
            yes == self.spec_is_solid(),
    {
        self.flags & Node::SOLID_BIT != 0
    }

    /// Whether the leaf casts and receives shadows.
    #[verifier::when_used_as_spec(spec_is_shadow)]
    pub fn is_shadow(&self) -> (yes: bool)
        ensures
            yes == self.spec_is_shadow(),
    {
        self.flags & Node::SHADOW_BIT != 0
    }

    /// Whether the node is neither an interior node nor solid.
    #[verifier::when_used_as_spec(spec_is_empty)]
    pub fn is_empty(&self) -> (yes: bool)
        ensures
            yes == self.spec_is_empty(),
    {
        self.flags & Node::EMPTY_MASK == 0
    }

    /// The index of the first child of an interior node.
    pub open spec fn spec_pointer(&self) -> u32 {
        self.data
    }

    /// The index of the first child of an interior node.
    #[verifier::when_used_as_spec(spec_pointer)]
    pub fn pointer(&self) -> (pointer: u32)
        ensures
            pointer == self.data,
    {
        self.data
    }

    /// The red channel: the lowest byte of the colour word.
    pub fn r(&self) -> (channel: u8)
        ensures
            channel == self.data % 256,
    {
        let d: u32 = self.data;
        assert(d & 0xff == d % 256 && d & 0xff < 256) by (bit_vector);
        (d & 0xff) as u8
    }

    /// The green channel: the second byte of the colour word.
    pub fn g(&self) -> (channel: u8)
        ensures
            channel == (self.data / 256) % 256,
    {
        let d: u32 = self.data;
        assert((d >> 8) & 0xff == (d / 256) % 256 && (d >> 8) & 0xff < 256) by (bit_vector);
        ((d >> 8) & 0xff) as u8
    }

    /// The blue channel: the third byte of the colour word.
    pub fn b(&self) -> (channel: u8)
        ensures
            channel == (self.data / 65536) % 256,
    {
        let d: u32 = self.data;
        assert((d >> 16) & 0xff == (d / 65536) % 256 && (d >> 16) & 0xff < 256) by (bit_vector);
        ((d >> 16) & 0xff) as u8
    }

    /// Flags the node as an interior node; the other flags and the data stay.
    pub fn set_parent(&mut self)
        ensures
            final(self).flags == old(self).flags | 2,
            final(self).data == old(self).data,
            final(self).spec_is_parent(),
            final(self).spec_is_solid() == old(self).spec_is_solid(),
            final(self).spec_is_shadow() == old(self).spec_is_shadow(),
    {
        let f: u32 = self.flags;
        assert((f | 2) & 2 != 0 && (f | 2) & 1 == f & 1 && (f | 2) & 4 == f & 4) by (bit_vector);
        self.flags = f | Node::PARENT_BIT;
    }

    /// Sets the data; the flags stay.
    pub fn set_pointer(&mut self, pointer: u32)
        ensures
            final(self).flags == old(self).flags,
            final(self).data == pointer,
    {
        self.data = pointer;
    }

    /// Flags the node as solid; the other flags and the data stay.
    pub fn set_solid(&mut self)
        ensures
            final(self).flags == old(self).flags | 1,
            final(self).data == old(self).data,
            final(self).spec_is_solid(),
            final(self).spec_is_parent() == old(self).spec_is_parent(),
            final(self).spec_is_shadow() == old(self).spec_is_shadow(),
    {
        let f: u32 = self.flags;
        assert((f | 1) & 1 != 0 && (f | 1) & 2 == f & 2 && (f | 1) & 4 == f & 4) by (bit_vector);
        self.flags = f | Node::SOLID_BIT;
    }

    /// Clears `PARENT` and `SOLID`; the other flags and the data stay.
    pub fn set_empty(&mut self)
        ensures
            final(self).flags == old(self).flags & !3u32,
            final(self).data == old(self).data,
            final(self).spec_is_empty(),
            !final(self).spec_is_parent(),
            !final(self).spec_is_solid(),
            final(self).spec_is_shadow() == old(self).spec_is_shadow(),
    {
        let f: u32 = self.flags;
        assert((f & !3u32) & 3 == 0 && (f & !3u32) & 2 == 0 && (f & !3u32) & 1 == 0 && (f & !3u32)
            & 4 == f & 4) by (bit_vector);
        self.flags = f & !Node::EMPTY_MASK;
    }

    /// What the flags of the blank node and of an interior node say.
    pub proof fn lemma_flags()
        ensures
            Node::spec_empty().spec_is_empty(),
            !Node::spec_empty().spec_is_parent(),
            !Node::spec_empty().spec_is_solid(),
            forall|pointer: u32| (#[trigger] Node::spec_parent(pointer)).spec_is_parent(),
            forall|pointer: u32| !(#[trigger] Node::spec_parent(pointer)).spec_is_solid(),
            forall|pointer: u32| !(#[trigger] Node::spec_parent(pointer)).spec_is_empty(),
    {
        assert(0u32 & 3 == 0 && 0u32 & 2 == 0 && 0u32 & 1 == 0 && 2u32 & 2 != 0 && 2u32 & 1 == 0
            && 2u32 & 3 != 0) by (bit_vector);
    }

    /// The channels of a packed colour come back as they went in.
    pub proof fn lemma_pack_channels(r: u8, g: u8, b: u8)
        ensures
            0 <= Node::spec_pack(r, g, b) < 0x100_0000,
            Node::spec_pack(r, g, b) % 256 == r,
            (Node::spec_pack(r, g, b) / 256) % 256 == g,
            (Node::spec_pack(r, g, b) / 65536) % 256 == b,
    {
    }

    /// A node is empty exactly when it is neither an interior node nor solid.
    pub proof fn lemma_empty_iff(self)
        ensures
            self.spec_is_empty() <==> !self.spec_is_parent() && !self.spec_is_solid(),
    {
        let f: u32 = self.flags;
        assert((f & 3 == 0) <==> (f & 2 == 0 && f & 1 == 0)) by (bit_vector);
    }
}

} // verus!
