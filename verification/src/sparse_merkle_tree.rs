//! The sparse Merkle tree engine: the hash primitive, the address model
//! (levels, indices, siblings), the lazily-defaulted storage, the leaf
//! update walk and the self-contained proof verification.
use std::collections::HashMap;

use vstd::prelude::*;

verus! {

use vstd::arithmetic::power2::pow2;

broadcast use vstd::std_specs::hash::group_hash_axioms;

/// The value stored at every tree node and carried by proofs.
pub type Data = u64;

/// Number of levels in the tree: level 0 holds the leaves, level
/// `DEPTH - 1` holds the root.
pub const DEPTH: u8 = 32;

/// `DEPTH` as a `usize`, for sizing the per-level ladder.
pub const DEPTH_SIZE: usize = 32;

/// The value of the node compression function on a pair of inputs.
///
/// The function itself is a fixed cryptographic digest computed by an
/// outside crate; nothing here states which value it takes on given
/// arguments, only that it depends on the arguments alone.
pub uninterp spec fn hash_of(l: u64, r: u64) -> u64;

/// Relies on `sha3::Sha3_256` (through `sha3::Digest::digest`): digests
/// the 16-byte buffer made of the little-endian encodings of `l` then `r`,
/// and reads the first 8 digest bytes back as a little-endian `u64`. The
/// digest depends on the input bytes alone, so the result is a function of
/// `(l, r)` and is named `hash_of`.
#[verifier::external_body]
pub fn hash(l: Data, r: Data) -> (result: Data)
    ensures
        result == hash_of(l, r),
{
    let mut buffer = [0u8; 16];
    buffer[..8].copy_from_slice(&l.to_le_bytes());
    buffer[8..].copy_from_slice(&r.to_le_bytes());
    let digest = <sha3::Sha3_256 as sha3::Digest>::digest(buffer);
    let mut first = [0u8; 8];
    first.copy_from_slice(&digest[..8]);
    u64::from_le_bytes(first)
}

/// A depth coordinate: level 0 is the leaf level, level `DEPTH - 1` the
/// root level. A `Level` is always strictly below `DEPTH`.
#[derive(Debug, Clone, Copy, PartialEq, Eq, Hash, Structural)]
pub struct Level(u8);

impl Level {
    /// The level as a mathematical integer.
    pub closed spec fn spec_get(self) -> int {
        self.0 as int
    }

    /// Every constructed `Level` lies in `[0, DEPTH)`.
    pub open spec fn inv(self) -> bool {
        0 <= self.spec_get() < DEPTH
    }

    /// Some level iff `level < DEPTH`.
    pub fn new(level: u8) -> (r: Option<Self>)
        ensures
            r is Some <==> level < DEPTH,
            r matches Some(l) ==> l.spec_get() == level && l.inv(),
    {
        if level < DEPTH {
            Some(Level(level))
        } else {
            None
        }
    }

    /// The leaf level.
    pub fn zero() -> (r: Self)
        ensures
            r.spec_get() == 0,
            r.inv(),
    {
        Level(0)
    }

    /// The root level, `DEPTH - 1`.
    pub fn root() -> (r: Self)
        ensures
            r.spec_get() == DEPTH - 1,
            r.inv(),
    {
        Level(DEPTH - 1)
    }

    /// True iff this is the root level.
    pub fn is_root(&self) -> (r: bool)
        ensures
            r == (self.spec_get() == DEPTH - 1),
    {
        self.0 == DEPTH - 1
    }

    /// The level as a `usize`, for indexing per-level tables.
    pub fn get(&self) -> (r: usize)
        ensures
            r == self.spec_get(),
    {
        self.0 as usize
    }

    /// The level one step closer to the root; `None` at the root level.
    pub fn checked_next(&self) -> (r: Option<Self>)
        requires
            self.inv(),
        ensures
            r is Some <==> self.spec_get() < DEPTH - 1,
            r matches Some(l) ==> l.spec_get() == self.spec_get() + 1 && l.inv(),
    {
        Self::new(self.0 + 1)
    }

    /// The level one step closer to the leaves, clamped at 0.
    pub fn saturating_prev(&self) -> (r: Self)
        requires
            self.inv(),
        ensures
            r.spec_get() == if self.spec_get() == 0 {
                0int
            } else {
                self.spec_get() - 1
            },
            r.inv(),
    {
        if self.0 == 0 {
            Level(0)
        } else {
            Level(self.0 - 1)
        }
    }

    /// All levels in order, from the leaf level up to the root level.
    pub fn iter_all() -> (r: Vec<Self>)
        ensures
            r@.len() == DEPTH,
            forall|k: int| 0 <= k < DEPTH ==> (#[trigger] r@[k]).spec_get() == k && r@[k].inv(),
    {
        let mut levels: Vec<Level> = Vec::new();
        let mut next: u8 = 0;
        while next < DEPTH
            invariant
                0 <= next <= DEPTH,
                levels@.len() == next,
                forall|k: int| 0 <= k < next ==> (#[trigger] levels@[k]).spec_get() == k,
            decreases DEPTH - next,
        {
            levels.push(Level(next));
            next = next + 1;
        }
        levels
    }
}

/// Largest number of addressable positions within one level: indices are
/// 31-bit values.
pub const INDEX_LIMIT: u32 = 0x8000_0000;

/// A node coordinate: a level together with a 31-bit position inside it.
#[derive(Debug, Clone, Copy, PartialEq, Eq, Hash, Structural)]
pub struct Index {
    pub(crate) level: Level,
    pub(crate) index: u32,
}

/// The position a sibling of position `i` occupies in the same level: the
/// other child of the shared parent.
pub open spec fn spec_sibling_of(i: int) -> int {
    if i % 2 == 0 {
        i + 1
    } else {
        i - 1
    }
}

impl Index {
    /// The depth coordinate as a mathematical integer.
    pub closed spec fn spec_level(self) -> int {
        self.level.spec_get()
    }

    /// The position within the level as a mathematical integer.
    pub closed spec fn spec_index(self) -> int {
        self.index as int
    }

    /// Every constructed `Index` has a valid level and a 31-bit position.
    pub open spec fn inv(self) -> bool {
        &&& 0 <= self.spec_level() < DEPTH
        &&& 0 <= self.spec_index() < INDEX_LIMIT
    }

    /// Some coordinate iff the position fits in 31 bits.
    pub fn new(index: u32, level: Level) -> (r: Option<Self>)
        requires
            level.inv(),
        ensures
            r is Some <==> index < INDEX_LIMIT,
            r matches Some(ix) ==> ix.spec_level() == level.spec_get() && ix.spec_index() == index
                && ix.inv(),
    {
        if index < INDEX_LIMIT {
            Some(Index { index, level })
        } else {
            None
        }
    }

    /// The root coordinate: position 0 of the root level.
    pub fn root() -> (r: Self)
        ensures
            r.spec_level() == DEPTH - 1,
            r.spec_index() == 0,
            r.inv(),
    {
        Index { level: Level::root(), index: 0 }
    }

    /// True iff this is the root coordinate.
    pub fn is_root(&self) -> (r: bool)
        ensures
            r == (self.spec_level() == DEPTH - 1 && self.spec_index() == 0),
    {
        self.index == 0 && self.level.is_root()
    }

    /// The parent coordinate: one level up, half the position. `None` at
    /// the root level, where no further level exists.
    pub fn next_level(&self) -> (r: Option<Self>)
        requires
            self.inv(),
        ensures
            r is Some <==> self.spec_level() < DEPTH - 1,
            r matches Some(p) ==> p.spec_level() == self.spec_level() + 1 && p.spec_index()
                == self.spec_index() / 2 && p.inv(),
    {
        match self.level.checked_next() {
            Some(level) => Some(Index { level, index: self.index / 2 }),
            None => None,
        }
    }

    /// The sibling coordinate, tagged with the side it lies on: an even
    /// position has its sibling to the right, an odd one to the left.
    pub fn get_sibling(&self) -> (r: Sibling<Self>)
        requires
            self.inv(),
        ensures
            r.value().spec_level() == self.spec_level(),
            r.value().spec_index() == spec_sibling_of(self.spec_index()),
            r is Left <==> self.spec_index() % 2 == 1,
            r.value().inv(),
    {
        let level = self.level;
        if self.index % 2 == 0 {
            Sibling::Right(Index { level, index: self.index + 1 })
        } else {
            Sibling::Left(Index { level, index: self.index - 1 })
        }
    }
}

/// A value lying beside a node, tagged with the side it lies on. The tag
/// fixes hash argument order: a left sibling is the left hash operand.
#[derive(Debug, Clone)]
pub enum Sibling<V> {
    Left(V),
    Right(V),
}

impl<V> Sibling<V> {
    /// The carried value, with the tag forgotten.
    pub open spec fn value(self) -> V {
        match self {
            Sibling::Left(v) => v,
            Sibling::Right(v) => v,
        }
    }

    /// Applies `f` to the carried value, keeping the tag.
    pub fn map<T, F: FnOnce(V) -> T>(self, f: F) -> (r: Sibling<T>)
        requires
            call_requires(f, (self.value(),)),
        ensures
            r is Left <==> self is Left,
            call_ensures(f, (self.value(),), r.value()),
    {
        match self {
            Sibling::Left(l) => Sibling::Left(f(l)),
            Sibling::Right(r) => Sibling::Right(f(r)),
        }
    }

    /// The carried value, with the tag forgotten.
    pub fn unwrap(self) -> (r: V)
        ensures
            r == self.value(),
    {
        match self {
            Sibling::Left(l) => l,
            Sibling::Right(r) => r,
        }
    }
}

/// The position `leaf` projects to at level `k`: each step towards the
/// root halves the position, because children `2j` and `2j + 1` share the
/// parent position `j`.
pub open spec fn path_index(leaf: u32, k: int) -> int
    decreases k,
{
    if k <= 0 {
        leaf as int
    } else {
        path_index(leaf, k - 1) / 2
    }
}

/// The position of the sibling of `leaf`'s path node at level `k`.
pub open spec fn sibling_index(leaf: u32, k: int) -> int {
    spec_sibling_of(path_index(leaf, k))
}

/// Whether `(l, i)` addresses a node: a level below `DEPTH`, a 31-bit
/// position.
pub open spec fn valid_coords(l: int, i: int) -> bool {
    &&& 0 <= l < DEPTH
    &&& 0 <= i < INDEX_LIMIT
}

/// The storage key a coordinate maps to: level and position packed into
/// one word. Injective over valid coordinates.
pub open spec fn node_key_spec(l: int, i: int) -> u64 {
    (l * 0x1_0000_0000 + i) as u64
}

/// Packing coordinates into a storage key loses nothing: distinct valid
/// coordinates take distinct keys.
proof fn lemma_key_injective(l1: int, i1: int, l2: int, i2: int)
    requires
        valid_coords(l1, i1),
        valid_coords(l2, i2),
    ensures
        node_key_spec(l1, i1) == node_key_spec(l2, i2) <==> (l1 == l2 && i1 == i2),
{
    assert(0 <= l1 * 0x1_0000_0000 + i1 < 0x1_0000_0000_0000_0000);
    assert(0 <= l2 * 0x1_0000_0000 + i2 < 0x1_0000_0000_0000_0000);
}

/// A sparse Merkle tree of `DEPTH` levels.
///
/// Only nodes that an update has touched are stored; every other node
/// takes the default value of its level, the hash of an all-empty subtree
/// of that height.
pub struct Tree {
    filled_nodes: HashMap<u64, Data>,
    default_values: Vec<Data>,
}

impl Tree {
    /// The default value of a level: the value of a node all of whose
    /// leaves are empty.
    pub closed spec fn default_at(self, level: int) -> Data {
        self.default_values@[level]
    }

    /// The default ladder, one value per level.
    pub closed spec fn ladder(self) -> Seq<Data> {
        self.default_values@
    }

    /// The ladder holds one value for each of the `DEPTH` levels.
    pub open spec fn ladder_full(self) -> bool {
        self.ladder().len() == DEPTH
    }

    /// The ladder starts from the empty leaf digest and each level doubles
    /// the one below it.
    pub open spec fn ladder_wf(self) -> bool {
        &&& self.ladder_full()
        &&& self.default_at(0) == hash_of(0, 0)
        &&& forall|k: int|
            1 <= k < DEPTH ==> #[trigger] self.default_at(k) == hash_of(
                self.default_at(k - 1),
                self.default_at(k - 1),
            )
    }

    /// The effective value of the node at `(level, index)`: the stored
    /// value if the node was ever written, the level default otherwise.
    pub closed spec fn node_at(self, level: int, index: int) -> Data {
        if self.filled_nodes@.contains_key(node_key_spec(level, index)) {
            self.filled_nodes@[node_key_spec(level, index)]
        } else {
            self.default_values@[level]
        }
    }

    /// Every parent holds the hash of its two children: the Merkle
    /// invariant, over every coordinate whose children exist.
    pub open spec fn consistent(self) -> bool {
        forall|l: int, i: int|
            0 <= l < DEPTH - 1 && 0 <= i < 0x4000_0000 ==> #[trigger] self.node_at(l + 1, i)
                == hash_of(self.node_at(l, 2 * i), self.node_at(l, 2 * i + 1))
    }

    /// A well-formed tree: a full default ladder and the Merkle invariant.
    pub open spec fn wf(self) -> bool {
        &&& self.ladder_wf()
        &&& self.consistent()
    }

    /// The current root value.
    pub fn get_root(&self) -> (r: Data)
        requires
            self.ladder_full(),
        ensures
            r == self.node_at(DEPTH - 1, 0),
    {
        self.get_node(Index::root())
    }

    /// The default value of a level.
    pub fn get_default_value(&self, level: &Level) -> (r: Data)
        requires
            self.ladder_full(),
            level.inv(),
        ensures
            r == self.default_at(level.spec_get()),
    {
        self.default_values[level.get()]
    }

    /// The effective value of the node at `index`.
    pub fn get_node(&self, index: Index) -> (r: Data)
        requires
            self.ladder_full(),
            index.inv(),
        ensures
            r == self.node_at(index.spec_level(), index.spec_index()),
    {
        let key = node_key(&index);
        match self.filled_nodes.get(&key) {
            Some(v) => *v,
            None => self.default_values[index.level.get()],
        }
    }

    /// Writes `new_value` at `index` and returns the prior effective
    /// value: the stored value if the node had been written before, the
    /// level default otherwise. No other node changes.
    pub fn update_node(&mut self, index: Index, new_value: Data) -> (old_value: Data)
        requires
            old(self).ladder_full(),
            index.inv(),
        ensures
            old_value == old(self).node_at(index.spec_level(), index.spec_index()),
            final(self).node_at(index.spec_level(), index.spec_index()) == new_value,
            forall|l: int, i: int|
                valid_coords(l, i) && !(l == index.spec_level() && i == index.spec_index())
                    ==> #[trigger] final(self).node_at(l, i) == old(self).node_at(l, i),
            final(self).ladder() == old(self).ladder(),
    {
        let key = node_key(&index);
        let prior = self.filled_nodes.insert(key, new_value);
        proof {
            assert forall|l: int, i: int|
                valid_coords(l, i) && !(l == index.spec_level() && i
                    == index.spec_index()) implies #[trigger] self.node_at(l, i) == old(
                self,
            ).node_at(l, i) by {
                lemma_key_injective(l, i, index.spec_level(), index.spec_index());
            }
        }
        match prior {
            Some(v) => v,
            None => self.default_values[index.level.get()],
        }
    }
}

/// The storage key of a coordinate.
fn node_key(index: &Index) -> (r: u64)
    requires
        index.inv(),
    ensures
        r == node_key_spec(index.spec_level(), index.spec_index()),
{
    (index.level.get() as u64) * 0x1_0000_0000u64 + (index.index as u64)
}

impl Default for Tree {
    /// A fresh tree: nothing stored, every node at its level default, the
    /// ladder computed once from the empty leaf digest upward.
    fn default() -> (result: Self)
        ensures
            result.wf(),
            forall|l: int, i: int|
                valid_coords(l, i) ==> #[trigger] result.node_at(l, i) == result.default_at(l),
    {
        let first = hash(0, 0);
        let mut default_values: Vec<Data> = Vec::new();
        default_values.push(first);
        let mut level: usize = 1;
        while level < DEPTH_SIZE
            invariant
                1 <= level <= DEPTH_SIZE,
                default_values@.len() == level,
                default_values@[0] == hash_of(0, 0),
                forall|k: int|
                    1 <= k < level ==> #[trigger] default_values@[k] == hash_of(
                        default_values@[k - 1],
                        default_values@[k - 1],
                    ),
            decreases DEPTH_SIZE - level,
        {
            let prev = default_values[level - 1];
            default_values.push(hash(prev, prev));
            level = level + 1;
        }
        let result = Tree { filled_nodes: HashMap::new(), default_values };
        proof {
            assert forall|l: int, i: int| valid_coords(l, i) implies #[trigger] result.node_at(
                l,
                i,
            ) == result.default_at(l) by {
                assert(!result.filled_nodes@.contains_key(node_key_spec(l, i)));
            }
        }
        result
    }
}

/// One level of a proof: the position within the level (the level itself
/// is the record's place in the path), the value there before and after
/// the update, and the sibling value hashed with this node to form the
/// next level.
#[derive(Debug, Clone, Copy)]
pub struct NodeUpdate {
    /// Position of the node within its level.
    pub index: u32,
    /// Value before the update.
    pub old: Data,
    /// Value after the update.
    pub new: Data,
    /// Sibling value used to compute the next level; present at every
    /// level, unused past the root.
    pub sibling: Option<Data>,
}

/// A full root-to-leaf audit trail: one `NodeUpdate` per level, leaf level
/// first. It is self-contained: verification replays the hashing along
/// the path and needs no access to the tree.
#[derive(Debug, Clone)]
pub struct Proof {
    pub path: Vec<NodeUpdate>,
}

/// The value a node takes when hashed with its sibling: a sibling of an
/// even position lies to the right, of an odd one to the left, and a left
/// sibling is the left hash operand.
pub open spec fn spec_combine(position: int, v: Data, s: Data) -> Data {
    if position % 2 == 0 {
        hash_of(v, s)
    } else {
        hash_of(s, v)
    }
}

/// Whether record `b` is the correct successor of record `a`: hashing
/// `a`'s old and new values with `a`'s sibling, in the order its position
/// dictates, reproduces `b`'s old and new values. A record without a
/// sibling has no valid successor.
pub open spec fn link_ok(a: NodeUpdate, b: NodeUpdate) -> bool {
    match a.sibling {
        Some(s) => {
            &&& b.old == spec_combine(a.index as int, a.old, s)
            &&& b.new == spec_combine(a.index as int, a.new, s)
        },
        None => false,
    }
}

impl Proof {
    /// A proof verifies iff it has one record per level and every
    /// adjacent pair of records is linked by the hashing rule.
    pub open spec fn valid(self) -> bool {
        &&& self.path@.len() == DEPTH
        &&& forall|k: int| 0 <= k < DEPTH - 1 ==> link_ok(#[trigger] self.path@[k], self.path@[k + 1])
    }
}

impl Proof {
    /// Replays the hashing along the path and checks every adjacent pair
    /// of records, exactly as [`Proof::valid`] states: true iff the path
    /// is one record per level and internally consistent. A missing
    /// sibling below the root, like any mismatch, fails verification.
    pub fn verify(&self) -> (r: bool)
        ensures
            r == self.valid(),
    {
        if self.path.len() != DEPTH_SIZE {
            return false;
        }
        let mut k: usize = 0;
        while k < DEPTH_SIZE - 1
            invariant
                self.path@.len() == DEPTH,
                0 <= k <= DEPTH - 1,
                forall|j: int| 0 <= j < k ==> link_ok(#[trigger] self.path@[j], self.path@[j + 1]),
            decreases DEPTH_SIZE - 1 - k,
        {
            let a = self.path[k];
            let b = self.path[k + 1];
            let s = match a.sibling {
                Some(s) => s,
                None => {
                    return false;
                },
            };
            let (old_next_value, new_next_value) = if a.index % 2 == 0 {
                (hash(a.old, s), hash(a.new, s))
            } else {
                (hash(s, a.old), hash(s, a.new))
            };
            if b.old != old_next_value {
                return false;
            }
            if b.new != new_next_value {
                return false;
            }
            k = k + 1;
        }
        true
    }

    /// The root-level record, the last of the path.
    pub fn root(&self) -> (r: &NodeUpdate)
        requires
            self.path@.len() > 0,
        ensures
            *r == self.path@[self.path@.len() - 1],
    {
        &self.path[self.path.len() - 1]
    }

    /// The leaf-level record, the first of the path.
    pub fn start_root(&self) -> (r: &NodeUpdate)
        requires
            self.path@.len() > 0,
        ensures
            *r == self.path@[0],
    {
        &self.path[0]
    }

    /// The records of the path, each paired with its level, leaf level
    /// first.
    pub fn iter(&self) -> (r: Vec<(Level, NodeUpdate)>)
        ensures
            r@.len() == if self.path@.len() < DEPTH {
                self.path@.len() as int
            } else {
                DEPTH as int
            },
            forall|k: int|
                0 <= k < r@.len() ==> (#[trigger] r@[k]).0.spec_get() == k && r@[k].1
                    == self.path@[k],
    {
        let mut pairs: Vec<(Level, NodeUpdate)> = Vec::new();
        let mut k: usize = 0;
        while k < self.path.len() && k < DEPTH_SIZE
            invariant
                0 <= k <= DEPTH,
                k <= self.path@.len(),
                pairs@.len() == k,
                forall|j: int|
                    0 <= j < k ==> (#[trigger] pairs@[j]).0.spec_get() == j && pairs@[j].1
                        == self.path@[j],
            decreases self.path@.len() - k,
        {
            let level = Level::new(k as u8).unwrap();
            pairs.push((level, self.path[k]));
            k = k + 1;
        }
        pairs
    }

    /// The records of the path with their levels, consuming the proof.
    pub fn into_iter_with_level(self) -> (r: Vec<(Level, NodeUpdate)>)
        ensures
            r@.len() == if self.path@.len() < DEPTH {
                self.path@.len() as int
            } else {
                DEPTH as int
            },
            forall|k: int|
                0 <= k < r@.len() ==> (#[trigger] r@[k]).0.spec_get() == k && r@[k].1
                    == self.path@[k],
    {
        self.iter()
    }
}

impl NodeUpdate {
    /// Applies `f` to every value of the record: the old and new node
    /// values and the sibling, if one is present. The position is kept.
    pub fn map<F: Fn(Data) -> Data>(self, f: F) -> (r: NodeUpdate)
        requires
            call_requires(f, (self.old,)),
            call_requires(f, (self.new,)),
            self.sibling matches Some(s) ==> call_requires(f, (s,)),
        ensures
            r.index == self.index,
            call_ensures(f, (self.old,), r.old),
            call_ensures(f, (self.new,), r.new),
            match (self.sibling, r.sibling) {
                (Some(s), Some(rs)) => call_ensures(f, (s,), rs),
                (None, None) => true,
                _ => false,
            },
    {
        NodeUpdate {
            index: self.index,
            old: f(self.old),
            new: f(self.new),
            sibling: match self.sibling {
                Some(s) => Some(f(s)),
                None => None,
            },
        }
    }

    /// Applies a fallible `f` to every value of the record, stopping at
    /// the first error: old value first, then new, then the sibling.
    pub fn try_map<E, F: Fn(Data) -> Result<Data, E>>(self, f: F) -> (r: Result<NodeUpdate, E>)
        requires
            call_requires(f, (self.old,)),
            call_requires(f, (self.new,)),
            self.sibling matches Some(s) ==> call_requires(f, (s,)),
        ensures
            r matches Ok(u) ==> {
                &&& u.index == self.index
                &&& call_ensures(f, (self.old,), Ok(u.old))
                &&& call_ensures(f, (self.new,), Ok(u.new))
                &&& match (self.sibling, u.sibling) {
                    (Some(s), Some(us)) => call_ensures(f, (s,), Ok(us)),
                    (None, None) => true,
                    _ => false,
                }
            },
            r matches Err(e) ==> {
                ||| call_ensures(f, (self.old,), Err(e))
                ||| call_ensures(f, (self.new,), Err(e))
                ||| exists|s: Data|
                    self.sibling == Some(s) && call_ensures(f, (s,), Err(e))
            },
    {
        let old = match f(self.old) {
            Ok(v) => v,
            Err(e) => {
                return Err(e);
            },
        };
        let new = match f(self.new) {
            Ok(v) => v,
            Err(e) => {
                return Err(e);
            },
        };
        let sibling = match self.sibling {
            Some(s) => match f(s) {
                Ok(v) => Some(v),
                Err(e) => {
                    return Err(e);
                },
            },
            None => None,
        };
        Ok(NodeUpdate { index: self.index, old, new, sibling })
    }
}

/// The new value a leaf update writes at level `k` of the walk: the leaf
/// commitment doubled at level 0, then each level the combination of the
/// value below with the sibling the pre-update tree held there.
pub open spec fn update_chain(pre: Tree, leaf: u32, input: Data, k: int) -> Data
    decreases k,
{
    if k <= 0 {
        hash_of(input, input)
    } else {
        spec_combine(
            path_index(leaf, k - 1),
            update_chain(pre, leaf, input, k - 1),
            pre.node_at(k - 1, sibling_index(leaf, k - 1)),
        )
    }
}

/// What the record at level `k` of an update proof holds, in terms of the
/// pre-update tree: the path position, the prior value there, the new
/// value of the chain, and the sibling value the tree held.
pub open spec fn record_ok(pre: Tree, leaf: u32, input: Data, rec: NodeUpdate, k: int) -> bool {
    &&& rec.index == path_index(leaf, k)
    &&& rec.old == pre.node_at(k, path_index(leaf, k))
    &&& rec.new == update_chain(pre, leaf, input, k)
    &&& rec.sibling == Some(pre.node_at(k, sibling_index(leaf, k)))
}

/// The full effect of `Tree::update_leaf`: every proof record reports the
/// pre-update tree, and the post-update tree differs from the pre-update
/// tree exactly on the walked path, where it holds the new chain values.
pub open spec fn update_leaf_post(pre: Tree, post: Tree, proof: Proof, leaf: u32, input: Data) -> bool {
    &&& proof.path@.len() == DEPTH
    &&& forall|k: int| 0 <= k < DEPTH ==> record_ok(pre, leaf, input, #[trigger] proof.path@[k], k)
    &&& forall|l: int, i: int|
        valid_coords(l, i) ==> #[trigger] post.node_at(l, i) == if i == path_index(leaf, l) {
            update_chain(pre, leaf, input, l)
        } else {
            pre.node_at(l, i)
        }
    &&& post.ladder() == pre.ladder()
}

/// A leaf position projects, level by level, to ever smaller positions:
/// at level `k` it lies below `2^(31 - k)`, so at the root level it is 0.
pub proof fn lemma_path_index_bound(leaf: u32, k: int)
    requires
        leaf < INDEX_LIMIT,
        0 <= k <= 31,
    ensures
        0 <= path_index(leaf, k) <= leaf,
        path_index(leaf, k) < pow2((31 - k) as nat),
    decreases k,
{
    if k == 0 {
        assert(pow2(31) == 0x80000000) by {
            vstd::arithmetic::power2::lemma2_to64();
        }
    } else {
        lemma_path_index_bound(leaf, k - 1);
        assert(pow2((32 - k) as nat) == 2 * pow2((31 - k) as nat)) by {
            vstd::arithmetic::power2::lemma_pow2_unfold((32 - k) as nat);
        }
    }
}

impl Tree {
    /// Updates the leaf at `index` to the commitment of `input` and
    /// recomputes the root-to-leaf path, returning the per-level audit
    /// trail. The whole effect is captured by [`update_leaf_post`]; the
    /// tree stays well-formed and the returned proof verifies.
    pub fn update_leaf(&mut self, index: u32, input: Data) -> (proof: Proof)
        requires
            old(self).wf(),
            index < INDEX_LIMIT,
        ensures
            update_leaf_post(*old(self), *final(self), proof, index, input),
            final(self).wf(),
            proof.valid(),
    {
        let ghost pre = *old(self);
        let mut current = Index::new(index, Level::zero()).unwrap();
        let mut path: Vec<NodeUpdate> = Vec::new();
        let new_leaf = hash(input, input);
        let mut sibling: Sibling<Data> = match current.get_sibling() {
            Sibling::Left(s) => Sibling::Left(self.get_node(s)),
            Sibling::Right(s) => Sibling::Right(self.get_node(s)),
        };
        let old_leaf = self.update_node(current, new_leaf);
        let sibling_value = match &sibling {
            Sibling::Left(v) => *v,
            Sibling::Right(v) => *v,
        };
        path.push(
            NodeUpdate { index: current.index, old: old_leaf, new: new_leaf, sibling: Some(sibling_value) },
        );
        while !current.is_root()
            invariant
                pre.wf(),
                index < INDEX_LIMIT,
                self.ladder() == pre.ladder(),
                current.inv(),
                1 <= path@.len() <= DEPTH,
                current.spec_level() == path@.len() - 1,
                current.spec_index() == path_index(index, current.spec_level()),
                sibling.value() == pre.node_at(
                    current.spec_level(),
                    sibling_index(index, current.spec_level()),
                ),
                sibling is Left <==> path_index(index, current.spec_level()) % 2 == 1,
                forall|l: int, i: int|
                    valid_coords(l, i) ==> #[trigger] self.node_at(l, i) == if l < path@.len() && i
                        == path_index(index, l) {
                        update_chain(pre, index, input, l)
                    } else {
                        pre.node_at(l, i)
                    },
                forall|k: int|
                    0 <= k < path@.len() ==> record_ok(pre, index, input, #[trigger] path@[k], k),
            decreases DEPTH - path@.len(),
        {
            proof {
                lemma_path_index_bound(index, 31);
                assert(pow2(0) == 1) by {
                    vstd::arithmetic::power2::lemma2_to64();
                }
            }
            let current_val = self.get_node(current);
            let new_value = match &sibling {
                Sibling::Left(left) => hash(*left, current_val),
                Sibling::Right(right) => hash(current_val, *right),
            };
            current = current.next_level().unwrap();
            let old_value = self.update_node(current, new_value);
            sibling = match current.get_sibling() {
                Sibling::Left(s) => Sibling::Left(self.get_node(s)),
                Sibling::Right(s) => Sibling::Right(self.get_node(s)),
            };
            let sibling_value = match &sibling {
                Sibling::Left(v) => *v,
                Sibling::Right(v) => *v,
            };
            path.push(
                NodeUpdate {
                    index: current.index,
                    old: old_value,
                    new: new_value,
                    sibling: Some(sibling_value),
                },
            );
        }
        proof {
            lemma_path_index_bound(index, 31);
            assert(pow2(0) == 1) by {
                vstd::arithmetic::power2::lemma2_to64();
            }
        }
        let result = Proof { path };
        proof {
            lemma_update_preserves_wf(pre, *self, result, index, input);
            lemma_update_proof_valid(pre, *self, result, index, input);
        }
        result
    }
}

/// A leaf update keeps the tree well-formed: the ladder is untouched and
/// the Merkle invariant holds again once the whole path is rewritten.
pub proof fn lemma_update_preserves_wf(pre: Tree, post: Tree, proof: Proof, leaf: u32, input: Data)
    requires
        pre.wf(),
        leaf < INDEX_LIMIT,
        update_leaf_post(pre, post, proof, leaf, input),
    ensures
        post.wf(),
{
    assert forall|k: int| 0 <= k < DEPTH implies #[trigger] post.default_at(k) == pre.default_at(
        k,
    ) by {
        assert(post.default_at(k) == post.ladder()[k] && pre.default_at(k) == pre.ladder()[k]);
    }
    assert(post.ladder_wf());
    assert forall|l: int, i: int|
        0 <= l < DEPTH - 1 && 0 <= i < 0x4000_0000 implies #[trigger] post.node_at(l + 1, i)
        == hash_of(post.node_at(l, 2 * i), post.node_at(l, 2 * i + 1)) by {
        let p = path_index(leaf, l);
        assert(path_index(leaf, l + 1) == p / 2);
        if i == path_index(leaf, l + 1) {
            assert(post.node_at(l + 1, i) == update_chain(pre, leaf, input, l + 1));
            if p % 2 == 0 {
                assert(2 * i == p && 2 * i + 1 == sibling_index(leaf, l));
            } else {
                assert(2 * i == sibling_index(leaf, l) && 2 * i + 1 == p);
            }
        } else {
            assert(2 * i != p && 2 * i + 1 != p) by {
                assert((2 * i) / 2 == i && (2 * i + 1) / 2 == i);
            }
        }
    }
}

/// Every proof a leaf update returns verifies: each adjacent pair of its
/// records is linked by the hashing rule, the old values through the
/// Merkle invariant of the pre-update tree, the new values by the
/// construction of the chain.
pub proof fn lemma_update_proof_valid(pre: Tree, post: Tree, proof: Proof, leaf: u32, input: Data)
    requires
        pre.wf(),
        leaf < INDEX_LIMIT,
        update_leaf_post(pre, post, proof, leaf, input),
    ensures
        proof.valid(),
{
    assert forall|k: int| 0 <= k < DEPTH - 1 implies link_ok(
        #[trigger] proof.path@[k],
        proof.path@[k + 1],
    ) by {
        let p = path_index(leaf, k);
        let i = path_index(leaf, k + 1);
        assert(i == p / 2);
        lemma_path_index_bound(leaf, k + 1);
        assert(pow2((31 - (k + 1)) as nat) <= pow2(30)) by {
            if 31 - (k + 1) < 30 {
                vstd::arithmetic::power2::lemma_pow2_strictly_increases(
                    (31 - (k + 1)) as nat,
                    30,
                );
            }
        }
        assert(pow2(30) == 0x4000_0000) by {
            vstd::arithmetic::power2::lemma2_to64();
        }
        assert(pre.node_at(k + 1, i) == hash_of(pre.node_at(k, 2 * i), pre.node_at(k, 2 * i + 1)));
        if p % 2 == 0 {
            assert(2 * i == p && 2 * i + 1 == sibling_index(leaf, k));
        } else {
            assert(2 * i == sibling_index(leaf, k) && 2 * i + 1 == p);
        }
    }
}

/// Chaining: two successive updates of the same leaf walk the same path,
/// so each record of the second proof starts from the value the first
/// proof wrote there, at the same position and with the same siblings —
/// no sibling subtree changed between the two.
pub proof fn lemma_update_chaining(
    t0: Tree,
    t1: Tree,
    t2: Tree,
    p1: Proof,
    p2: Proof,
    leaf: u32,
    a: Data,
    b: Data,
)
    requires
        leaf < INDEX_LIMIT,
        update_leaf_post(t0, t1, p1, leaf, a),
        update_leaf_post(t1, t2, p2, leaf, b),
    ensures
        forall|k: int| 0 <= k < DEPTH ==> (#[trigger] p2.path@[k]).old == p1.path@[k].new,
        forall|k: int| 0 <= k < DEPTH ==> (#[trigger] p2.path@[k]).sibling == p1.path@[k].sibling,
        forall|k: int| 0 <= k < DEPTH ==> (#[trigger] p2.path@[k]).index == p1.path@[k].index,
{
    assert forall|k: int| 0 <= k < DEPTH implies (#[trigger] p2.path@[k]).old == p1.path@[k].new
        && p2.path@[k].sibling == p1.path@[k].sibling && p2.path@[k].index == p1.path@[k].index by {
        lemma_path_index_bound(leaf, k);
        assert(t1.node_at(k, path_index(leaf, k)) == update_chain(t0, leaf, a, k));
        assert(t1.node_at(k, sibling_index(leaf, k)) == t0.node_at(k, sibling_index(leaf, k)));
    }
}

/// Default path: updating a leaf in a fresh region of the tree — one
/// whose path and sibling nodes still hold their level defaults — yields
/// a proof whose old values below the root, and sibling values below the
/// level just under the root, are exactly those defaults.
pub proof fn lemma_default_path(pre: Tree, post: Tree, proof: Proof, leaf: u32, input: Data)
    requires
        leaf < INDEX_LIMIT,
        update_leaf_post(pre, post, proof, leaf, input),
        forall|k: int|
            0 <= k < DEPTH - 1 ==> #[trigger] pre.node_at(k, path_index(leaf, k))
                == pre.default_at(k),
        forall|k: int|
            0 <= k < DEPTH - 2 ==> #[trigger] pre.node_at(k, sibling_index(leaf, k))
                == pre.default_at(k),
    ensures
        forall|k: int| 0 <= k < DEPTH - 1 ==> (#[trigger] proof.path@[k]).old == pre.default_at(k),
        forall|k: int|
            0 <= k < DEPTH - 2 ==> (#[trigger] proof.path@[k]).sibling == Some(pre.default_at(k)),
{
    assert forall|k: int| 0 <= k < DEPTH - 1 implies (#[trigger] proof.path@[k]).old
        == pre.default_at(k) by {
        assert(record_ok(pre, leaf, input, proof.path@[k], k));
    }
    assert forall|k: int| 0 <= k < DEPTH - 2 implies (#[trigger] proof.path@[k]).sibling == Some(
        pre.default_at(k),
    ) by {
        assert(record_ok(pre, leaf, input, proof.path@[k], k));
    }
}

/// Root read: after an update, the tree's root value is the new value of
/// the proof's root-level record, whose position is 0 and whose old value
/// was the root before the update.
pub proof fn lemma_root_after_update(pre: Tree, post: Tree, proof: Proof, leaf: u32, input: Data)
    requires
        leaf < INDEX_LIMIT,
        update_leaf_post(pre, post, proof, leaf, input),
    ensures
        proof.path@[DEPTH - 1].index == 0,
        post.node_at(DEPTH - 1, 0) == proof.path@[DEPTH - 1].new,
        proof.path@[DEPTH - 1].old == pre.node_at(DEPTH - 1, 0),
{
    lemma_path_index_bound(leaf, 31);
    assert(pow2(0) == 1) by {
        vstd::arithmetic::power2::lemma2_to64();
    }
    assert(record_ok(pre, leaf, input, proof.path@[DEPTH - 1], DEPTH - 1));
}

/// Tamper detection, for the direct comparisons: changing the old or the
/// new value of any record above the leaf level, while keeping the rest
/// of the proof, makes verification fail — the record below it still
/// fixes both values exactly. (A change routed through the hash — a leaf
/// record's values, or any sibling — is caught because the digest in
/// practice never collides; that behaviour is not modelled here and is
/// exercised by tests instead.)
pub proof fn lemma_tamper_detected(p: Proof, q: Proof, k: int)
    requires
        p.valid(),
        q.path@.len() == DEPTH,
        1 <= k < DEPTH,
        forall|j: int| 0 <= j < DEPTH && j != k ==> #[trigger] q.path@[j] == p.path@[j],
        q.path@[k].index == p.path@[k].index,
        q.path@[k].sibling == p.path@[k].sibling,
        q.path@[k].old != p.path@[k].old || q.path@[k].new != p.path@[k].new,
    ensures
        !q.valid(),
{
    if q.valid() {
        assert(link_ok(q.path@[k - 1], q.path@[k]));
        assert(link_ok(p.path@[k - 1], p.path@[k]));
        assert(q.path@[k - 1] == p.path@[k - 1]);
        assert(false);
    }
}

} // verus!
