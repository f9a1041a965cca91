//! The entities that the codec reads and writes, and their mathematical views.

use vstd::prelude::*;

verus! {

/// Width of a tree key in bytes.
pub const KEY_SIZE: usize = 32;

/// Width of a hash in bytes.
pub const HASH_SIZE: usize = 32;

/// Number of child slots of an internal node.
pub const CHILD_COUNT: usize = 16;

/// A tree key: a 256-bit unsigned integer, held as its big-endian bytes.
#[derive(Clone, Copy, Debug, PartialEq, Eq, Hash)]
pub struct Key(pub [u8; KEY_SIZE]);

/// A hash of a value or of a node.
#[derive(Clone, Copy, Debug, PartialEq, Eq, Hash)]
pub struct ValueHash(pub [u8; HASH_SIZE]);

impl View for Key {
    type V = Seq<u8>;

    open spec fn view(&self) -> Seq<u8> {
        self.0@
    }
}

impl View for ValueHash {
    type V = Seq<u8>;

    open spec fn view(&self) -> Seq<u8> {
        self.0@
    }
}

/// The big-endian bytes of `v` as a key: 24 zero bytes, then the 8 bytes of `v`.
pub open spec fn key_bytes_of_u64(v: u64) -> Seq<u8> {
    Seq::new(
        KEY_SIZE as nat,
        |i: int|
            if i < 24 {
                0u8
            } else {
                ((v >> ((8 * (31 - i)) as u64)) & 0xff) as u8
            },
    )
}

/// Copies 32 bytes into an array.
fn array_from_slice(bytes: &[u8]) -> (r: [u8; 32])
    requires
        bytes@.len() == 32,
    ensures
        r@ == bytes@,
{
    let mut r = [0u8; 32];
    let mut i: usize = 0;
    while i < 32
        invariant
            i <= 32,
            bytes@.len() == 32,
            forall|j: int| 0 <= j < i ==> r@[j] == bytes@[j],
        decreases 32 - i,
    {
        r[i] = bytes[i];
        i = i + 1;
    }
    assert(r@ =~= bytes@);
    r
}

impl Key {
    /// The key whose integer value is `v`.
    pub fn from_u64(v: u64) -> (r: Key)
        ensures
            r@ == key_bytes_of_u64(v),
    {
        let mut bytes = [0u8; KEY_SIZE];
        let mut i: usize = 24;
        while i < 32
            invariant
                24 <= i <= 32,
                forall|j: int| 0 <= j < 24 ==> bytes@[j] == 0,
                forall|j: int| 24 <= j < i ==> bytes@[j] == key_bytes_of_u64(v)[j],
            decreases 32 - i,
        {
            let shift: u64 = (8 * (31 - i)) as u64;
            bytes[i] = ((v >> shift) & 0xff) as u8;
            i = i + 1;
        }
        assert(bytes@ =~= key_bytes_of_u64(v));
        Key(bytes)
    }

    /// The key whose big-endian bytes are `bytes`.
    pub fn from_big_endian(bytes: &[u8]) -> (r: Key)
        requires
            bytes@.len() == KEY_SIZE,
        ensures
            r@ == bytes@,
    {
        Key(array_from_slice(bytes))
    }
}

impl ValueHash {
    /// The hash made of `bytes`.
    pub fn from_slice(bytes: &[u8]) -> (r: ValueHash)
        requires
            bytes@.len() == HASH_SIZE,
        ensures
            r@ == bytes@,
    {
        ValueHash(array_from_slice(bytes))
    }

    /// The hash of all zero bytes.
    pub fn zero() -> (r: ValueHash)
        ensures
            r@ == Seq::new(HASH_SIZE as nat, |i: int| 0u8),
    {
        let r = ValueHash([0u8; HASH_SIZE]);
        assert(r@ =~= Seq::new(HASH_SIZE as nat, |i: int| 0u8));
        r
    }
}

/// A leaf of the tree.
#[derive(Clone, Copy, Debug, PartialEq, Eq)]
pub struct LeafNode {
    pub full_key: Key,
    pub value_hash: ValueHash,
    pub leaf_index: u64,
}

/// The view of a leaf: its key and hash as byte sequences.
pub struct LeafView {
    pub full_key: Seq<u8>,
    pub value_hash: Seq<u8>,
    pub leaf_index: u64,
}

impl View for LeafNode {
    type V = LeafView;

    open spec fn view(&self) -> LeafView {
        LeafView { full_key: self.full_key@, value_hash: self.value_hash@, leaf_index: self.leaf_index }
    }
}

impl LeafNode {
    pub fn new(full_key: Key, value_hash: ValueHash, leaf_index: u64) -> (r: LeafNode)
        ensures
            r == (LeafNode { full_key, value_hash, leaf_index }),
    {
        LeafNode { full_key, value_hash, leaf_index }
    }
}

/// A reference from an internal node to a child stored elsewhere.
#[derive(Clone, Copy, Debug, PartialEq, Eq)]
pub struct ChildRef {
    pub hash: ValueHash,
    pub version: u64,
    /// Whether the child is a leaf. The parent's bitmap carries this, not the reference.
    pub is_leaf: bool,
}

/// The view of a child reference.
pub struct ChildRefView {
    pub hash: Seq<u8>,
    pub version: u64,
    pub is_leaf: bool,
}

impl View for ChildRef {
    type V = ChildRefView;

    open spec fn view(&self) -> ChildRefView {
        ChildRefView { hash: self.hash@, version: self.version, is_leaf: self.is_leaf }
    }
}

/// What occupies a child slot, as two bits of an internal node's bitmap.
#[derive(Clone, Copy, Debug, PartialEq, Eq)]
pub enum ChildKind {
    /// `00`: the slot is empty.
    Empty,
    /// `01`: the slot holds an internal node.
    Internal,
    /// `10`: the slot holds a leaf.
    Leaf,
}

/// The two bits that stand for a kind.
pub open spec fn kind_bits(kind: ChildKind) -> u32 {
    match kind {
        ChildKind::Empty => 0,
        ChildKind::Internal => 1,
        ChildKind::Leaf => 2,
    }
}

/// The kind of a slot's content.
pub open spec fn slot_kind(slot: Option<ChildRefView>) -> ChildKind {
    match slot {
        None => ChildKind::Empty,
        Some(c) => if c.is_leaf {
            ChildKind::Leaf
        } else {
            ChildKind::Internal
        },
    }
}

impl ChildKind {
    /// The two bits of the bitmap that stand for this kind.
    pub fn bits(self) -> (r: u32)
        ensures
            r == kind_bits(self),
    {
        match self {
            ChildKind::Empty => 0,
            ChildKind::Internal => 1,
            ChildKind::Leaf => 2,
        }
    }
}

impl ChildRef {
    /// A reference to an internal node of the given version, with a zero hash.
    pub fn internal(version: u64) -> (r: ChildRef)
        ensures
            r@ == (ChildRefView { hash: Seq::new(HASH_SIZE as nat, |i: int| 0u8), version, is_leaf: false }),
    {
        ChildRef { hash: ValueHash::zero(), version, is_leaf: false }
    }

    /// A reference to a leaf of the given version, with a zero hash.
    pub fn leaf(version: u64) -> (r: ChildRef)
        ensures
            r@ == (ChildRefView { hash: Seq::new(HASH_SIZE as nat, |i: int| 0u8), version, is_leaf: true }),
    {
        ChildRef { hash: ValueHash::zero(), version, is_leaf: true }
    }

    /// The kind under which the parent's bitmap records this child.
    pub fn kind(&self) -> (r: ChildKind)
        ensures
            r == slot_kind(Some(self@)),
    {
        if self.is_leaf {
            ChildKind::Leaf
        } else {
            ChildKind::Internal
        }
    }
}

/// An internal node: up to sixteen children, one per slot.
#[derive(Clone, Copy, Debug, PartialEq, Eq)]
pub struct InternalNode {
    children: [Option<ChildRef>; CHILD_COUNT],
}

/// The view of an optional child.
pub open spec fn slot_view(slot: Option<ChildRef>) -> Option<ChildRefView> {
    match slot {
        Some(c) => Some(c@),
        None => None,
    }
}

/// Every child in `slots` has a hash of `HASH_SIZE` bytes.
pub open spec fn slots_sized(slots: Seq<Option<ChildRefView>>) -> bool {
    forall|i: int| 0 <= i < slots.len() && #[trigger] slots[i] is Some ==> slots[i]->Some_0.hash.len() == HASH_SIZE
}

/// The number of occupied slots in `slots`.
pub open spec fn occupied_count(slots: Seq<Option<ChildRefView>>) -> nat
    decreases slots.len(),
{
    if slots.len() == 0 {
        0
    } else {
        occupied_count(slots.drop_last()) + if slots.last() is Some {
            1nat
        } else {
            0nat
        }
    }
}

impl View for InternalNode {
    type V = Seq<Option<ChildRefView>>;

    /// The sixteen slots in order.
    closed spec fn view(&self) -> Seq<Option<ChildRefView>> {
        Seq::new(CHILD_COUNT as nat, |i: int| slot_view(self.children@[i]))
    }
}

impl InternalNode {
    /// A node has one entry per slot, and each child's hash has the width of a hash.
    pub proof fn lemma_view_len(&self)
        ensures
            self@.len() == CHILD_COUNT,
            slots_sized(self@),
    {
    }

    /// A node with no children.
    pub fn new() -> (r: InternalNode)
        ensures
            r@.len() == CHILD_COUNT,
            r@ == Seq::new(CHILD_COUNT as nat, |i: int| None::<ChildRefView>),
    {
        let r = InternalNode { children: [None; CHILD_COUNT] };
        assert(r@ =~= Seq::new(CHILD_COUNT as nat, |i: int| None::<ChildRefView>));
        r
    }

    /// Puts `child_ref` in slot `nibble`, replacing what was there.
    pub fn insert_child_ref(&mut self, nibble: u8, child_ref: ChildRef)
        requires
            nibble < CHILD_COUNT,
        ensures
            final(self)@.len() == CHILD_COUNT,
            final(self)@ == old(self)@.update(nibble as int, Some(child_ref@)),
    {
        self.children[nibble as usize] = Some(child_ref);
        assert(final(self)@ =~= old(self)@.update(nibble as int, Some(child_ref@)));
    }

    /// The child in slot `nibble`, if any.
    pub fn child_ref(&self, nibble: u8) -> (r: Option<ChildRef>)
        requires
            nibble < CHILD_COUNT,
        ensures
            slot_view(r) == self@[nibble as int],
    {
        self.children[nibble as usize]
    }

    /// The number of children.
    pub fn child_count(&self) -> (r: usize)
        ensures
            r == occupied_count(self@),
            r <= CHILD_COUNT,
    {
        let mut count: usize = 0;
        let mut i: usize = 0;
        while i < CHILD_COUNT
            invariant
                i <= CHILD_COUNT,
                count == occupied_count(self@.take(i as int)),
                count <= i,
            decreases CHILD_COUNT - i,
        {
            assert(self@.take(i as int + 1).drop_last() =~= self@.take(i as int));
            if self.children[i].is_some() {
                count = count + 1;
            }
            i = i + 1;
        }
        assert(self@.take(CHILD_COUNT as int) =~= self@);
        count
    }
}

impl Default for InternalNode {
    fn default() -> (r: InternalNode)
        ensures
            r@ == Seq::new(CHILD_COUNT as nat, |i: int| None::<ChildRefView>),
    {
        InternalNode::new()
    }
}

/// A node of the tree.
#[derive(Clone, Copy, Debug, PartialEq, Eq)]
pub enum Node {
    Internal(InternalNode),
    Leaf(LeafNode),
}

/// The view of a node.
pub enum NodeView {
    Internal(Seq<Option<ChildRefView>>),
    Leaf(LeafView),
}

impl View for Node {
    type V = NodeView;

    open spec fn view(&self) -> NodeView {
        match self {
            Node::Internal(n) => NodeView::Internal(n@),
            Node::Leaf(l) => NodeView::Leaf(l@),
        }
    }
}

/// The root of one version of the tree.
#[derive(Clone, Copy, Debug, PartialEq, Eq)]
pub enum Root {
    /// The tree holds no leaves.
    Empty,
    /// The tree holds `leaf_count` leaves (at least one) under `node`.
    Filled { leaf_count: u64, node: Node },
}

/// The view of a root.
pub enum RootView {
    Empty,
    Filled { leaf_count: u64, node: NodeView },
}

impl View for Root {
    type V = RootView;

    open spec fn view(&self) -> RootView {
        match self {
            Root::Empty => RootView::Empty,
            Root::Filled { leaf_count, node } => RootView::Filled {
                leaf_count: *leaf_count,
                node: node@,
            },
        }
    }
}

impl Root {
    /// The root of a tree with `leaf_count` leaves under `node`.
    pub fn new(leaf_count: u64, node: Node) -> (r: Root)
        requires
            leaf_count >= 1,
        ensures
            r == (Root::Filled { leaf_count, node }),
    {
        Root::Filled { leaf_count, node }
    }
}

/// The tags of a tree, kept in its manifest.
#[derive(Clone, Debug, PartialEq, Eq)]
pub struct TreeTags {
    pub architecture: String,
    pub hasher: String,
    pub depth: usize,
    pub is_recovering: bool,
    /// Tags of the tree's users, in insertion order, each key at most once.
    pub custom: Vec<(String, String)>,
}

/// The view of a tag set.
pub struct TagsView {
    pub architecture: Seq<char>,
    pub hasher: Seq<char>,
    pub depth: usize,
    pub is_recovering: bool,
    pub custom: Seq<(Seq<char>, Seq<char>)>,
}

/// The view of a list of string pairs.
pub open spec fn pairs_view(pairs: Seq<(String, String)>) -> Seq<(Seq<char>, Seq<char>)> {
    pairs.map_values(|p: (String, String)| (p.0@, p.1@))
}

/// No key occurs twice in `pairs`.
pub open spec fn keys_unique(pairs: Seq<(Seq<char>, Seq<char>)>) -> bool {
    forall|i: int, j: int| 0 <= i < j < pairs.len() ==> pairs[i].0 != pairs[j].0
}

impl View for TreeTags {
    type V = TagsView;

    open spec fn view(&self) -> TagsView {
        TagsView {
            architecture: self.architecture@,
            hasher: self.hasher@,
            depth: self.depth,
            is_recovering: self.is_recovering,
            custom: pairs_view(self.custom@),
        }
    }
}

impl TreeTags {
    /// The tags of a new radix-16 tree of depth 256 hashed with `hasher`.
    pub fn new(hasher: &str) -> (r: TreeTags)
        ensures
            r@ == (TagsView {
                architecture: "AR16MT"@,
                hasher: hasher@,
                depth: 256,
                is_recovering: false,
                custom: Seq::empty(),
            }),
    {
        let r = TreeTags {
            architecture: "AR16MT".to_owned(),
            hasher: hasher.to_owned(),
            depth: 256,
            is_recovering: false,
            custom: Vec::new(),
        };
        assert(pairs_view(r.custom@) =~= Seq::empty());
        r
    }
}

/// The manifest of a tree: how many versions it has, and its tags.
#[derive(Clone, Debug, PartialEq, Eq)]
pub struct Manifest {
    pub version_count: u64,
    pub tags: Option<TreeTags>,
}

/// The view of a manifest.
pub struct ManifestView {
    pub version_count: u64,
    pub tags: Option<TagsView>,
}

impl View for Manifest {
    type V = ManifestView;

    open spec fn view(&self) -> ManifestView {
        ManifestView {
            version_count: self.version_count,
            tags: match self.tags {
                Some(t) => Some(t@),
                None => None,
            },
        }
    }
}

impl Manifest {
    /// The manifest of a tree with `version_count` versions, tagged as a new tree
    /// hashed with `hasher`.
    pub fn new(version_count: u64, hasher: &str) -> (r: Manifest)
        ensures
            r@ == (ManifestView {
                version_count,
                tags: Some(
                    TagsView {
                        architecture: "AR16MT"@,
                        hasher: hasher@,
                        depth: 256,
                        is_recovering: false,
                        custom: Seq::empty(),
                    },
                ),
            }),
    {
        Manifest { version_count, tags: Some(TreeTags::new(hasher)) }
    }
}

} // verus!
