//! Endpoints, snarls and the snarl index.

use crate::fxmap::{map_get, map_insert, map_keys, map_len, map_remove, set_contains, set_insert};
use crate::projection::{find, find_projection, reaches_root};
use crate::seq_facts::lemma_take_one_more;
use std::collections::BTreeMap;
use rustc_hash::{FxHashMap, FxHashSet};
use std::cmp::Ordering;
use std::hash::Hash;
use vstd::prelude::*;

verus! {

/// Tag of an endpoint that belongs to the biedged graph.
#[derive(Default, Clone, Copy, PartialEq, Eq, PartialOrd, Ord, Hash)]
pub struct Biedged {}

/// Tag of an endpoint that belongs to the cactus graph.
#[derive(Default, Clone, Copy, PartialEq, Eq, PartialOrd, Ord, Hash)]
pub struct Cactus {}

/// Tag of an endpoint that belongs to the bridge forest.
#[derive(Default, Clone, Copy, PartialEq, Eq, PartialOrd, Ord, Hash)]
pub struct Bridge {}

/// The stages of the pipeline, as types.
pub trait GraphType {

}

impl GraphType for Biedged {

}

impl GraphType for Cactus {

}

impl GraphType for Bridge {

}

/// The left endpoint of the black edge that `id` lies on: `id` with its
/// lowest bit cleared.
pub open spec fn left_id(id: u64) -> u64 {
    (id - id % 2) as u64
}

/// The right endpoint of the black edge that `id` lies on: `id` with its
/// lowest bit set.
pub open spec fn right_id(id: u64) -> u64 {
    (id - id % 2 + 1) as u64
}

/// The other endpoint of the black edge that `id` lies on: `id` with its
/// lowest bit flipped.
pub open spec fn opposite_id(id: u64) -> u64 {
    if id % 2 == 0 {
        (id + 1) as u64
    } else {
        (id - 1) as u64
    }
}

/// The endpoint encoding is a contract on the bits of an id: clearing,
/// setting and flipping the lowest bit give the left, the right and the
/// opposite endpoint, and the lowest bit is the side.
pub proof fn lemma_endpoint_bits(id: u64)
    ensures
        id & !1u64 == left_id(id),
        id | 1u64 == right_id(id),
        id ^ 1u64 == opposite_id(id),
        id & 1u64 == id % 2,
        left_id(id) % 2 == 0,
        right_id(id) == left_id(id) + 1,
        left_id(id) <= id <= right_id(id),
{
    assert(id & !1u64 == (id - id % 2) as u64) by (bit_vector);
    assert(id | 1u64 == (id - id % 2 + 1) as u64) by (bit_vector);
    assert(id ^ 1u64 == (if id % 2 == 0 {
        (id + 1) as u64
    } else {
        (id - 1) as u64
    })) by (bit_vector);
    assert(id & 1u64 == id % 2) by (bit_vector);
}

/// One side of a sequence node: sequence node `n` has the left endpoint
/// `2 * n` and the right endpoint `2 * n + 1`.
#[derive(Clone, Copy, PartialEq, Eq, PartialOrd, Ord, Hash, Structural)]
pub struct Node {
    pub id: u64,
}

impl Default for Node {
    fn default() -> (r: Self)
        ensures
            r.id == 0,
    {
        Node { id: 0 }
    }
}

impl From<u64> for Node {
    #[inline]
    fn from(id: u64) -> (r: Self) {
        Node { id }
    }
}

impl vstd::std_specs::convert::FromSpecImpl<u64> for Node {
    open spec fn obeys_from_spec() -> bool {
        true
    }

    open spec fn from_spec(id: u64) -> Self {
        Node { id }
    }
}

impl Node {
    #[inline]
    pub fn new(id: u64) -> (r: Self)
        ensures
            r.id == id,
    {
        Node { id }
    }

    /// A mutable borrow of the id: what is written through it is the
    /// endpoint's id afterwards.
    #[inline]
    pub fn id_mut(&mut self) -> (r: &mut u64)
        ensures
            *r == old(self).id,
            final(self).id == *final(r),
    {
        &mut self.id
    }

    /// The two endpoints of the black edge of sequence node `id`.
    #[inline]
    pub fn from_gfa_id(id: u64) -> (r: (Self, Self))
        requires
            2 * id + 1 <= u64::MAX,
        ensures
            r.0.id == 2 * id,
            r.1.id == 2 * id + 1,
    {
        let left: u64 = id * 2;
        let right: u64 = left + 1;
        (Self::new(left), Self::new(right))
    }

    /// The sequence node that this endpoint is a side of.
    #[inline]
    pub fn to_gfa_id(&self) -> (r: u64)
        ensures
            r == self.id / 2,
    {
        self.id / 2
    }

    /// Both endpoints of the black edge that this endpoint lies on, the left
    /// one first.
    #[inline]
    pub fn black_edge(&self) -> (r: (Self, Self))
        ensures
            r.0.id == left_id(self.id),
            r.1.id == right_id(self.id),
            r.0.id == self.id & !1u64,
            r.1.id == r.0.id + 1,
    {
        proof {
            lemma_endpoint_bits(self.id);
        }
        let left: u64 = self.id & !1;
        let right: u64 = left + 1;
        (Self::new(left), Self::new(right))
    }

    /// The left endpoint of the black edge that this endpoint lies on.
    pub fn left(&self) -> (r: Self)
        ensures
            r.id == left_id(self.id),
            r.id == self.id & !1u64,
    {
        proof {
            lemma_endpoint_bits(self.id);
        }
        Self { id: self.id & !1 }
    }

    /// The right endpoint of the black edge that this endpoint lies on.
    pub fn right(&self) -> (r: Self)
        ensures
            r.id == right_id(self.id),
            r.id == self.id | 1u64,
    {
        proof {
            lemma_endpoint_bits(self.id);
        }
        Self { id: self.id | 1 }
    }

    /// The other endpoint of the same black edge.
    #[inline]
    pub fn opposite(&self) -> (r: Self)
        ensures
            r.id == opposite_id(self.id),
            r.id == self.id ^ 1u64,
    {
        proof {
            lemma_endpoint_bits(self.id);
        }
        Self { id: self.id ^ 1 }
    }

    #[inline]
    pub fn is_left(&self) -> (r: bool)
        ensures
            r == (self.id % 2 == 0),
    {
        proof {
            lemma_endpoint_bits(self.id);
        }
        self.id & 1 == 0
    }

    #[inline]
    pub fn is_right(&self) -> (r: bool)
        ensures
            r == (self.id % 2 == 1),
    {
        proof {
            lemma_endpoint_bits(self.id);
        }
        self.id & 1 != 0
    }
}

/// Splitting a sequence node and joining an endpoint back are inverse: both
/// endpoints of node `n` belong to `n`, they are each other's opposite, and
/// the black edge through either is the pair itself.
pub proof fn lemma_gfa_id_round_trip(n: u64)
    requires
        2 * n + 1 <= u64::MAX,
    ensures
        (2 * n) as u64 / 2 == n,
        (2 * n + 1) as u64 / 2 == n,
        left_id((2 * n) as u64) == 2 * n,
        left_id((2 * n + 1) as u64) == 2 * n,
        right_id((2 * n) as u64) == 2 * n + 1,
        right_id((2 * n + 1) as u64) == 2 * n + 1,
        opposite_id((2 * n) as u64) == 2 * n + 1,
        opposite_id((2 * n + 1) as u64) == 2 * n,
{
}

/// Taking the opposite endpoint twice gives the endpoint back, and the
/// opposite lies on the same black edge.
pub proof fn lemma_opposite_involution(id: u64)
    ensures
        opposite_id(opposite_id(id)) == id,
        opposite_id(id) != id,
        left_id(opposite_id(id)) == left_id(id),
        opposite_id(id) / 2 == id / 2,
{
}

/// The two families of boundary pairs.
#[derive(Clone, Copy, PartialEq, Eq, PartialOrd, Ord, Hash, Structural)]
pub enum SnarlType {
    ChainPair,
    BridgePair,
}

/// A snarl: a pair of boundary endpoints with `left <= right`, its type, and
/// a payload that is carried along. Two snarls are equal if they have the
/// same boundaries and the same type: the payload takes no part. The hash and
/// the order look at the same three; there is no `Ord`, which could only be
/// derived and would then look at the payload too.
#[derive(Clone, Copy)]
pub struct Snarl<T> {
    pub left: Node,
    pub right: Node,
    pub ty: SnarlType,
    data: T,
}

impl<T> PartialEq for Snarl<T> where T: Copy + Eq + Ord + std::hash::Hash {
    fn eq(&self, other: &Self) -> (r: bool) {
        self.left.id == other.left.id && self.right.id == other.right.id && self.ty == other.ty
    }
}

impl<T> vstd::std_specs::cmp::PartialEqSpecImpl for Snarl<T> where T: Copy + Eq + Ord + std::hash::Hash {
    open spec fn obeys_eq_spec() -> bool {
        true
    }

    open spec fn eq_spec(&self, other: &Self) -> bool {
        self.left() == other.left() && self.right() == other.right() && self.snarl_type()
            == other.snarl_type()
    }
}

impl<T> Eq for Snarl<T> where T: Copy + Eq + Ord + std::hash::Hash {

}

impl<T> std::hash::Hash for Snarl<T> where T: Copy + Eq + Ord + std::hash::Hash {
    /// Hashes what equality looks at: the boundaries and the type.
    fn hash<H: std::hash::Hasher>(&self, state: &mut H) {
        let ty: u64 = match self.ty {
            SnarlType::ChainPair => 0,
            SnarlType::BridgePair => 1,
        };
        self.left.id.hash(state);
        self.right.id.hash(state);
        ty.hash(state);
    }
}

impl<T> PartialOrd for Snarl<T> where T: Copy + Eq + Ord + std::hash::Hash {
    /// Orders by the left boundary, then the right boundary, then the type,
    /// a chain pair before a bridge pair. Snarls that are equal come out as
    /// equal.
    fn partial_cmp(&self, other: &Self) -> (r: Option<Ordering>) {
        if self.left.id < other.left.id {
            Some(Ordering::Less)
        } else if self.left.id > other.left.id {
            Some(Ordering::Greater)
        } else if self.right.id < other.right.id {
            Some(Ordering::Less)
        } else if self.right.id > other.right.id {
            Some(Ordering::Greater)
        } else {
            match (self.ty, other.ty) {
                (SnarlType::ChainPair, SnarlType::BridgePair) => Some(Ordering::Less),
                (SnarlType::BridgePair, SnarlType::ChainPair) => Some(Ordering::Greater),
                _ => Some(Ordering::Equal),
            }
        }
    }
}

impl<T> vstd::std_specs::cmp::PartialOrdSpecImpl for Snarl<T> where T: Copy + Eq + Ord + std::hash::Hash {
    open spec fn obeys_partial_cmp_spec() -> bool {
        true
    }

    open spec fn partial_cmp_spec(&self, other: &Self) -> Option<Ordering> {
        if self.left().id < other.left().id {
            Some(Ordering::Less)
        } else if self.left().id > other.left().id {
            Some(Ordering::Greater)
        } else if self.right().id < other.right().id {
            Some(Ordering::Less)
        } else if self.right().id > other.right().id {
            Some(Ordering::Greater)
        } else {
            match (self.snarl_type(), other.snarl_type()) {
                (SnarlType::ChainPair, SnarlType::BridgePair) => Some(Ordering::Less),
                (SnarlType::BridgePair, SnarlType::ChainPair) => Some(Ordering::Greater),
                _ => Some(Ordering::Equal),
            }
        }
    }
}

/// The smaller of two endpoints.
pub open spec fn min_node(x: Node, y: Node) -> Node {
    if x.id <= y.id {
        x
    } else {
        y
    }
}

/// The larger of two endpoints.
pub open spec fn max_node(x: Node, y: Node) -> Node {
    if x.id <= y.id {
        y
    } else {
        x
    }
}

fn ordered(x: Node, y: Node) -> (r: (Node, Node))
    ensures
        r.0 == min_node(x, y),
        r.1 == max_node(x, y),
{
    if x.id <= y.id {
        (x, y)
    } else {
        (y, x)
    }
}

impl<T> Snarl<T> where T: Default + Copy + Eq + Ord + std::hash::Hash {
    /// The chain pair bounded by `x` and `y`, with the default payload.
    pub fn chain_pair(x: Node, y: Node) -> (r: Self)
        ensures
            r.left() == min_node(x, y),
            r.right() == max_node(x, y),
            r.snarl_type() == SnarlType::ChainPair,
            call_ensures(T::default, (), r.data()),
    {
        let (left, right) = ordered(x, y);
        Snarl { left, right, ty: SnarlType::ChainPair, data: T::default() }
    }

    /// The bridge pair bounded by `x` and `y`, with the default payload.
    pub fn bridge_pair(x: Node, y: Node) -> (r: Self)
        ensures
            r.left() == min_node(x, y),
            r.right() == max_node(x, y),
            r.snarl_type() == SnarlType::BridgePair,
            call_ensures(T::default, (), r.data()),
    {
        let (left, right) = ordered(x, y);
        Snarl { left, right, ty: SnarlType::BridgePair, data: T::default() }
    }
}

impl<T> Snarl<T> where T: Copy + Eq + Ord + std::hash::Hash {
    /// The left boundary.
    pub closed spec fn spec_left(&self) -> Node {
        self.left
    }

    /// The right boundary.
    pub closed spec fn spec_right(&self) -> Node {
        self.right
    }

    /// The type.
    pub closed spec fn spec_snarl_type(&self) -> SnarlType {
        self.ty
    }

    /// The payload.
    pub closed spec fn spec_data(&self) -> T {
        self.data
    }

    /// The boundaries are in canonical order.
    pub open spec fn canonical(&self) -> bool {
        self.left().id <= self.right().id
    }

    #[verifier::when_used_as_spec(spec_left)]
    pub fn left(&self) -> (r: Node)
        ensures
            r == self.left(),
    {
        self.left
    }

    #[verifier::when_used_as_spec(spec_right)]
    pub fn right(&self) -> (r: Node)
        ensures
            r == self.right(),
    {
        self.right
    }

    #[verifier::when_used_as_spec(spec_snarl_type)]
    pub fn snarl_type(&self) -> (r: SnarlType)
        ensures
            r == self.snarl_type(),
    {
        self.ty
    }

    #[verifier::when_used_as_spec(spec_data)]
    pub fn data(&self) -> (r: T)
        ensures
            r == self.data(),
    {
        self.data
    }

    /// The chain pair bounded by `x` and `y`, carrying `data`.
    pub fn chain_pair_with(x: Node, y: Node, data: T) -> (r: Self)
        ensures
            r.left() == min_node(x, y),
            r.right() == max_node(x, y),
            r.snarl_type() == SnarlType::ChainPair,
            r.data() == data,
    {
        let (left, right) = ordered(x, y);
        Snarl { left, right, ty: SnarlType::ChainPair, data }
    }

    /// The bridge pair bounded by `x` and `y`, carrying `data`.
    pub fn bridge_pair_with(x: Node, y: Node, data: T) -> (r: Self)
        ensures
            r.left() == min_node(x, y),
            r.right() == max_node(x, y),
            r.snarl_type() == SnarlType::BridgePair,
            r.data() == data,
    {
        let (left, right) = ordered(x, y);
        Snarl { left, right, ty: SnarlType::BridgePair, data }
    }

    /// The same snarl with its payload replaced by what `f` makes of it.
    pub fn map_data<F, U>(&self, f: F) -> (r: Snarl<U>) where
        F: Fn(T) -> U,
        U: Copy + Eq + Ord + std::hash::Hash,

        requires
            call_requires(f, (self.data(),)),
        ensures
            r.left() == self.left(),
            r.right() == self.right(),
            r.snarl_type() == self.snarl_type(),
            call_ensures(f, (self.data(),), r.data()),
    {
        Snarl { left: self.left, right: self.right, ty: self.ty, data: f(self.data) }
    }
}

/// The first member of `a` that is a member of `b`.
pub open spec fn first_common(a: Seq<usize>, b: Seq<usize>) -> Option<usize>
    decreases a.len(),
{
    if a.len() == 0 {
        None
    } else if b.contains(a[0]) {
        Some(a[0])
    } else {
        first_common(a.drop_first(), b)
    }
}

/// What `first_common` gives is a member of both lists, and where it gives
/// nothing the lists share no member.
pub proof fn lemma_first_common(a: Seq<usize>, b: Seq<usize>)
    ensures
        match first_common(a, b) {
            Some(r) => a.contains(r) && b.contains(r),
            None => forall|r: usize| !(a.contains(r) && b.contains(r)),
        },
    decreases a.len(),
{
    if a.len() > 0 {
        if b.contains(a[0]) {
            assert(a.contains(a[0]));
        } else {
            lemma_first_common(a.drop_first(), b);
            match first_common(a.drop_first(), b) {
                Some(r) => {
                    let k = choose|k: int| 0 <= k < a.drop_first().len() && a.drop_first()[k] == r;
                    assert(a[k + 1] == r);
                },
                None => {
                    assert forall|r: usize| !(a.contains(r) && b.contains(r)) by {
                        if a.contains(r) && b.contains(r) {
                            let k = choose|k: int| 0 <= k < a.len() && a[k] == r;
                            assert(k > 0);
                            assert(a.drop_first()[k - 1] == r);
                            assert(a.drop_first().contains(r));
                        }
                    }
                },
            }
        }
    }
}

/// How far the inversion has come: `res` holds the marks of the ranks in
/// `done`, and of the rank `rank` those for the black edges in `bridges`.
pub open spec fn inverted_so_far(
    res: Map<u64, FxHashSet<usize>>,
    index: SnarlMapView,
    done: Seq<usize>,
    rank: usize,
    bridges: Seq<u64>,
) -> bool {
    &&& forall|b: u64, r: usize|
        #![trigger index.holds(r, b)]
        #![trigger res[b]@.contains(r)]
        (res.contains_key(b) && res[b]@.contains(r)) <==> (index.holds(r, b) && (done.contains(r)
            || (r == rank && bridges.contains(b))))
    &&& forall|b: u64| #[trigger]
        res.contains_key(b) ==> exists|r: usize| #[trigger] res[b]@.contains(r)
}

/// The snarl index: the snarls by rank, the ranks by left and by right
/// boundary, and for each rank which black edges the snarl holds. A black
/// edge is named by the id of its left endpoint, a boundary by its id.
#[derive(Clone)]
pub struct SnarlMap {
    /// The ranks of the snarls by the id of their left boundary.
    pub lefts: FxHashMap<u64, Vec<usize>>,
    /// The ranks of the snarls by the id of their right boundary.
    pub rights: FxHashMap<u64, Vec<usize>>,
    /// The snarls by rank.
    pub snarls: FxHashMap<usize, Snarl<()>>,
    /// For each rank, the black edges that were marked as held or not held
    /// by the snarl.
    pub snarl_contains: FxHashMap<usize, FxHashMap<u64, bool>>,
}

/// What the index is, as maps and sequences.
pub struct SnarlMapView {
    pub lefts: Map<u64, Seq<usize>>,
    pub rights: Map<u64, Seq<usize>>,
    pub snarls: Map<usize, Snarl<()>>,
    pub contains: Map<usize, Map<u64, bool>>,
}

impl View for SnarlMap {
    type V = SnarlMapView;

    open spec fn view(&self) -> SnarlMapView {
        SnarlMapView {
            lefts: self.lefts@.map_values(|v: Vec<usize>| v@),
            rights: self.rights@.map_values(|v: Vec<usize>| v@),
            snarls: self.snarls@,
            contains: self.snarl_contains@.map_values(|m: FxHashMap<u64, bool>| m@),
        }
    }
}

impl SnarlMapView {
    /// The ranks filed under a boundary in one of the two indexes.
    pub open spec fn filed(index: Map<u64, Seq<usize>>, x: u64) -> Seq<usize> {
        if index.contains_key(x) {
            index[x]
        } else {
            Seq::empty()
        }
    }

    /// The rank of the snarl with the boundaries `x` and `y`, in either
    /// order: the first rank filed under the smaller as left boundary that is
    /// also filed under the larger as right boundary.
    pub open spec fn rank_of(self, x: Node, y: Node) -> Option<usize> {
        let left = min_node(x, y).id;
        let right = max_node(x, y).id;
        if self.lefts.contains_key(left) && self.rights.contains_key(right) {
            first_common(self.lefts[left], self.rights[right])
        } else {
            None
        }
    }

    /// The snarl with the boundaries `x` and `y`, in either order.
    pub open spec fn get(self, x: Node, y: Node) -> Option<Snarl<()>> {
        match self.rank_of(x, y) {
            Some(rank) => if self.snarls.contains_key(rank) {
                Some(self.snarls[rank])
            } else {
                None
            },
            None => None,
        }
    }

    /// The black edge with the left endpoint `bridge` is marked as held by
    /// the snarl of rank `rank`.
    pub open spec fn holds(self, rank: usize, bridge: u64) -> bool {
        &&& self.contains.contains_key(rank)
        &&& self.contains[rank].contains_key(bridge)
        &&& self.contains[rank][bridge]
    }

    /// The index with `snarl` added, unless a snarl with its boundaries is
    /// there: the snarl gets the next rank, which is filed under both of its
    /// boundaries.
    pub open spec fn insert(self, snarl: Snarl<()>) -> SnarlMapView {
        if self.rank_of(snarl.left(), snarl.right()) is Some {
            self
        } else {
            let rank = self.snarls.len() as usize;
            SnarlMapView {
                lefts: self.lefts.insert(
                    snarl.left().id,
                    Self::filed(self.lefts, snarl.left().id).push(rank),
                ),
                rights: self.rights.insert(
                    snarl.right().id,
                    Self::filed(self.rights, snarl.right().id).push(rank),
                ),
                snarls: self.snarls.insert(rank, snarl),
                contains: self.contains,
            }
        }
    }

    /// The index with the black edge `bridge` marked for the snarl of rank
    /// `rank`.
    pub open spec fn mark(self, rank: usize, bridge: u64, held: bool) -> SnarlMapView {
        let marks = if self.contains.contains_key(rank) {
            self.contains[rank]
        } else {
            Map::empty()
        };
        SnarlMapView { contains: self.contains.insert(rank, marks.insert(bridge, held)), ..self }
    }
}

/// Both endpoints of the black edge of sequence node `n` have their
/// representative in `interior`.
pub open spec fn lies_inside(interior: Set<u64>, p: Map<u64, u64>, n: u64) -> bool {
    interior.contains(find(p, (2 * n) as u64)) && interior.contains(find(p, (2 * n + 1) as u64))
}

/// The left endpoint `b` is that of one of the first `upto` sequence nodes.
pub open spec fn among(segments: Seq<u64>, upto: int, b: u64) -> bool {
    exists|i: int| 0 <= i < upto && 2 * #[trigger] segments[i] == b
}

/// The marks `after` are the marks `before` with the black edge of each of
/// the first `upto` sequence nodes marked as held exactly if both of its
/// endpoints have their representative in `interior`.
pub open spec fn marked_inside(
    before: Map<u64, bool>,
    after: Map<u64, bool>,
    segments: Seq<u64>,
    upto: int,
    interior: Set<u64>,
    p: Map<u64, u64>,
) -> bool {
    &&& forall|b: u64|
        after.contains_key(b) <==> (before.contains_key(b) || among(segments, upto, b))
    &&& forall|i: int|
        0 <= i < upto ==> after[(2 * #[trigger] segments[i]) as u64] == lies_inside(
            interior,
            p,
            segments[i],
        )
    &&& forall|b: u64|
        before.contains_key(b) && !among(segments, upto, b) ==> after[b] == before[b]
}

impl SnarlMapView {
    /// The marks of the snarl of rank `rank`; none where none was made.
    pub open spec fn marks_of(self, rank: usize) -> Map<u64, bool> {
        if self.contains.contains_key(rank) {
            self.contains[rank]
        } else {
            Map::empty()
        }
    }
}

impl SnarlMapView {
    /// What an index that was built by `insert` alone holds: the ranks are
    /// the numbers below the number of snarls, every snarl has its
    /// boundaries in canonical order and is filed under both, a rank is
    /// filed only with a snarl that has the boundary, and no two snarls have
    /// the same boundaries.
    pub open spec fn wf(self) -> bool {
        &&& self.snarls.dom().finite()
        &&& self.snarls.len() <= usize::MAX
        &&& forall|r: usize| self.snarls.contains_key(r) <==> r < self.snarls.len()
        &&& forall|x: u64, i: int|
            self.lefts.contains_key(x) && 0 <= i < self.lefts[x].len() ==> {
                &&& self.snarls.contains_key(#[trigger] self.lefts[x][i])
                &&& self.snarls[self.lefts[x][i]].left().id == x
            }
        &&& forall|x: u64, i: int|
            self.rights.contains_key(x) && 0 <= i < self.rights[x].len() ==> {
                &&& self.snarls.contains_key(#[trigger] self.rights[x][i])
                &&& self.snarls[self.rights[x][i]].right().id == x
            }
        &&& forall|r: usize| #[trigger]
            self.snarls.contains_key(r) ==> {
                &&& self.snarls[r].canonical()
                &&& self.lefts.contains_key(self.snarls[r].left().id)
                &&& self.lefts[self.snarls[r].left().id].contains(r)
                &&& self.rights.contains_key(self.snarls[r].right().id)
                &&& self.rights[self.snarls[r].right().id].contains(r)
            }
        &&& forall|r: usize, q: usize|
            #![trigger self.snarls[r], self.snarls[q]]
            self.snarls.contains_key(r) && self.snarls.contains_key(q) && r != q ==> !(
            self.snarls[r].left() == self.snarls[q].left() && self.snarls[r].right()
                == self.snarls[q].right())
    }

    /// The snarl of rank `r` has the boundaries `x` and `y`, in either
    /// order.
    pub open spec fn bounded_by(self, r: usize, x: Node, y: Node) -> bool {
        &&& self.snarls.contains_key(r)
        &&& self.snarls[r].left() == min_node(x, y)
        &&& self.snarls[r].right() == max_node(x, y)
    }
}

/// In an index that was built by `insert` alone, looking up two boundaries
/// gives the rank of the snarl that has them, and nothing exactly where no
/// snarl has them.
pub proof fn lemma_lookup_finds(index: SnarlMapView, x: Node, y: Node)
    requires
        index.wf(),
    ensures
        match index.rank_of(x, y) {
            Some(r) => index.bounded_by(r, x, y) && index.get(x, y) == Some(index.snarls[r]),
            None => forall|r: usize| !index.bounded_by(r, x, y),
        },
{
    let left = min_node(x, y).id;
    let right = max_node(x, y).id;
    if index.lefts.contains_key(left) && index.rights.contains_key(right) {
        let a = index.lefts[left];
        let b = index.rights[right];
        lemma_first_common(a, b);
        match first_common(a, b) {
            Some(r) => {
                let i = choose|i: int| 0 <= i < a.len() && a[i] == r;
                let j = choose|j: int| 0 <= j < b.len() && b[j] == r;
                assert(index.snarls.contains_key(index.lefts[left][i]));
                assert(index.snarls.contains_key(index.rights[right][j]));
                assert(index.snarls[r].left().id == left);
                assert(index.snarls[r].right().id == right);
            },
            None => {
                assert forall|r: usize| !index.bounded_by(r, x, y) by {
                    if index.bounded_by(r, x, y) {
                        assert(index.snarls.contains_key(r));
                        assert(a.contains(r) && b.contains(r));
                    }
                }
            },
        }
    } else {
        assert forall|r: usize| !index.bounded_by(r, x, y) by {
            if index.bounded_by(r, x, y) {
                assert(index.snarls.contains_key(r));
            }
        }
    }
}

/// Adding a snarl with its boundaries in canonical order to an index that
/// was built by `insert` alone gives such an index, in which the snarl, or
/// the one that was there with its boundaries, is found under them.
pub proof fn lemma_insert_keeps_wf(index: SnarlMapView, snarl: Snarl<()>)
    requires
        index.wf(),
        index.snarls.len() < usize::MAX,
        snarl.canonical(),
    ensures
        index.insert(snarl).wf(),
        index.insert(snarl).rank_of(snarl.left(), snarl.right()) is Some,
{
    let after = index.insert(snarl);
    lemma_lookup_finds(index, snarl.left(), snarl.right());
    if index.rank_of(snarl.left(), snarl.right()) is None {
        let n = index.snarls.len() as usize;
        let l = snarl.left().id;
        let r = snarl.right().id;
        assert(!index.snarls.contains_key(n));
        assert(after.snarls.dom() =~= index.snarls.dom().insert(n));
        assert(after.snarls.len() == index.snarls.len() + 1);
        assert(min_node(snarl.left(), snarl.right()) == snarl.left());
        assert(max_node(snarl.left(), snarl.right()) == snarl.right());
        assert forall|x: u64, i: int|
            after.lefts.contains_key(x) && 0 <= i < after.lefts[x].len() implies {
            &&& after.snarls.contains_key(#[trigger] after.lefts[x][i])
            &&& after.snarls[after.lefts[x][i]].left().id == x
        } by {
            if x == l {
                if i < SnarlMapView::filed(index.lefts, l).len() {
                    assert(after.lefts[x][i] == index.lefts[x][i]);
                    assert(index.snarls.contains_key(index.lefts[x][i]));
                }
            } else {
                assert(after.lefts[x][i] == index.lefts[x][i]);
                assert(index.snarls.contains_key(index.lefts[x][i]));
            }
        }
        assert forall|x: u64, i: int|
            after.rights.contains_key(x) && 0 <= i < after.rights[x].len() implies {
            &&& after.snarls.contains_key(#[trigger] after.rights[x][i])
            &&& after.snarls[after.rights[x][i]].right().id == x
        } by {
            if x == r {
                if i < SnarlMapView::filed(index.rights, r).len() {
                    assert(after.rights[x][i] == index.rights[x][i]);
                    assert(index.snarls.contains_key(index.rights[x][i]));
                }
            } else {
                assert(after.rights[x][i] == index.rights[x][i]);
                assert(index.snarls.contains_key(index.rights[x][i]));
            }
        }
        assert forall|k: usize| #[trigger] after.snarls.contains_key(k) implies {
            &&& after.snarls[k].canonical()
            &&& after.lefts.contains_key(after.snarls[k].left().id)
            &&& after.lefts[after.snarls[k].left().id].contains(k)
            &&& after.rights.contains_key(after.snarls[k].right().id)
            &&& after.rights[after.snarls[k].right().id].contains(k)
        } by {
            let was_left = SnarlMapView::filed(index.lefts, l);
            let was_right = SnarlMapView::filed(index.rights, r);
            assert(after.lefts[l] == was_left.push(n));
            assert(after.rights[r] == was_right.push(n));
            assert(was_left.push(n)[was_left.len() as int] == n);
            assert(was_right.push(n)[was_right.len() as int] == n);
            if k != n {
                assert(index.snarls.contains_key(k));
                let kl = index.snarls[k].left().id;
                let kr = index.snarls[k].right().id;
                let i = choose|i: int| 0 <= i < index.lefts[kl].len() && index.lefts[kl][i] == k;
                let j = choose|j: int| 0 <= j < index.rights[kr].len() && index.rights[kr][j] == k;
                if kl == l {
                    assert(was_left.push(n)[i] == k);
                }
                if kr == r {
                    assert(was_right.push(n)[j] == k);
                }
            }
        }
        assert forall|k: usize, q: usize|
            #![trigger after.snarls[k], after.snarls[q]]
            after.snarls.contains_key(k) && after.snarls.contains_key(q) && k != q implies !(
        after.snarls[k].left() == after.snarls[q].left() && after.snarls[k].right()
            == after.snarls[q].right()) by {
            if k == n {
                assert(!index.bounded_by(q, snarl.left(), snarl.right()));
            } else if q == n {
                assert(!index.bounded_by(k, snarl.left(), snarl.right()));
            } else {
                assert(index.snarls.contains_key(k) && index.snarls.contains_key(q));
            }
        }
        assert(after.wf());
        lemma_lookup_finds(after, snarl.left(), snarl.right());
        assert(after.bounded_by(n, snarl.left(), snarl.right()));
    }
}

/// Marking a black edge changes neither the snarls nor how they are found.
pub proof fn lemma_mark_keeps_wf(index: SnarlMapView, rank: usize, bridge: u64, held: bool)
    requires
        index.wf(),
    ensures
        index.mark(rank, bridge, held).wf(),
        forall|x: Node, y: Node|
            #[trigger] index.mark(rank, bridge, held).rank_of(x, y) == index.rank_of(x, y),
{
}

/// Looking a snarl up does not depend on the order in which its boundaries
/// are named.
pub proof fn lemma_lookup_symmetric(index: SnarlMapView, a: Node, b: Node)
    ensures
        index.rank_of(a, b) == index.rank_of(b, a),
        index.get(a, b) == index.get(b, a),
{
}

/// The ranks filed under a boundary, as a vector of the index has them.
fn file_under(index: &mut FxHashMap<u64, Vec<usize>>, x: u64, rank: usize)
    ensures
        final(index)@.map_values(|v: Vec<usize>| v@) == old(index)@.map_values(
            |v: Vec<usize>| v@,
        ).insert(
            x,
            SnarlMapView::filed(old(index)@.map_values(|v: Vec<usize>| v@), x).push(rank),
        ),
{
    broadcast use vstd::std_specs::hash::group_hash_axioms;

    let mut ranks = match map_remove(index, &x) {
        Some(ranks) => ranks,
        None => Vec::new(),
    };
    ranks.push(rank);
    map_insert(index, x, ranks);
    proof {
        assert(final(index)@.map_values(|v: Vec<usize>| v@) =~= old(index)@.map_values(
            |v: Vec<usize>| v@,
        ).insert(
            x,
            SnarlMapView::filed(old(index)@.map_values(|v: Vec<usize>| v@), x).push(rank),
        ));
    }
}

impl Default for SnarlMap {
    fn default() -> (r: Self)
        ensures
            r@.lefts == Map::<u64, Seq<usize>>::empty(),
            r@.rights == Map::<u64, Seq<usize>>::empty(),
            r@.snarls == Map::<usize, Snarl<()>>::empty(),
            r@.contains == Map::<usize, Map<u64, bool>>::empty(),
            r@.wf(),
    {
        let r = SnarlMap {
            lefts: FxHashMap::default(),
            rights: FxHashMap::default(),
            snarls: FxHashMap::default(),
            snarl_contains: FxHashMap::default(),
        };
        proof {
            assert(r@.lefts =~= Map::<u64, Seq<usize>>::empty());
            assert(r@.rights =~= Map::<u64, Seq<usize>>::empty());
            assert(r@.contains =~= Map::<usize, Map<u64, bool>>::empty());
        }
        r
    }
}

impl SnarlMap {
    /// Adds the snarl, unless a snarl with its boundaries is there.
    pub fn insert(&mut self, snarl: Snarl<()>)
        ensures
            final(self)@ == old(self)@.insert(snarl),
            old(self)@.wf() && old(self)@.snarls.len() < usize::MAX && snarl.canonical()
                ==> final(self)@.wf(),
    {
        broadcast use vstd::std_specs::hash::group_hash_axioms;

        proof {
            if self@.wf() && self@.snarls.len() < usize::MAX && snarl.canonical() {
                lemma_insert_keeps_wf(self@, snarl);
            }
        }

        if self.get_snarl_ix(snarl.left, snarl.right).is_some() {
            return ;
        }
        let ix = map_len(&self.snarls);
        map_insert(&mut self.snarls, ix, snarl);
        file_under(&mut self.lefts, snarl.left().id, ix);
        file_under(&mut self.rights, snarl.right().id, ix);
        proof {
            assert(final(self)@.contains =~= old(self)@.contains);
        }
    }

    /// The snarls that have `x` as a boundary: those with `x` on the left
    /// first, then those with `x` on the right.
    pub fn with_boundary(&self, x: Node) -> (it: SnarlMapIter<'_>)
        ensures
            it.pending() == SnarlMapView::filed(self@.lefts, x.id) + SnarlMapView::filed(
                self@.rights,
                x.id,
            ),
            it.snarls() == self@.snarls,
    {
        SnarlMapIter::new(self, x)
    }

    /// The rank of the snarl with the boundaries `x` and `y`, in either
    /// order.
    pub fn get_snarl_ix(&self, x: Node, y: Node) -> (r: Option<usize>)
        ensures
            r == self@.rank_of(x, y),
    {
        broadcast use vstd::std_specs::hash::group_hash_axioms;

        let (left, right) = ordered(x, y);
        let lefts = match map_get(&self.lefts, &left.id) {
            Some(lefts) => lefts,
            None => {
                return None;
            },
        };
        let rights = match map_get(&self.rights, &right.id) {
            Some(rights) => rights,
            None => {
                return None;
            },
        };
        let mut on_right: FxHashSet<usize> = FxHashSet::default();
        let mut k: usize = 0;
        while k < rights.len()
            invariant
                k <= rights.len(),
                forall|r: usize| on_right@.contains(r) <==> rights@.take(k as int).contains(r),
            decreases rights.len() - k,
        {
            let ghost had = on_right@;
            set_insert(&mut on_right, rights[k]);
            proof {
                assert forall|r: usize| on_right@.contains(r) <==> rights@.take(
                    k as int + 1,
                ).contains(r) by {
                    let now = rights@.take(k as int + 1);
                    let was = rights@.take(k as int);
                    if now.contains(r) {
                        let i = choose|i: int| 0 <= i < now.len() && now[i] == r;
                        if i < k {
                            assert(was[i] == r);
                        }
                    }
                    if was.contains(r) {
                        let i = choose|i: int| 0 <= i < was.len() && was[i] == r;
                        assert(now[i] == r);
                    }
                    if r == rights@[k as int] {
                        assert(now[k as int] == r);
                    }
                }
            }
            k += 1;
        }
        proof {
            assert(rights@.take(k as int) =~= rights@);
            assert(lefts@.skip(0) =~= lefts@);
            assert(self@.lefts[left.id] == lefts@);
            assert(self@.rights[right.id] == rights@);
        }
        let mut i: usize = 0;
        while i < lefts.len()
            invariant
                i <= lefts.len(),
                forall|r: usize| on_right@.contains(r) <==> rights@.contains(r),
                first_common(lefts@, rights@) == first_common(lefts@.skip(i as int), rights@),
                self@.rank_of(x, y) == first_common(lefts@, rights@),
            decreases lefts.len() - i,
        {
            if set_contains(&on_right, &lefts[i]) {
                proof {
                    assert(lefts@.skip(i as int)[0] == lefts@[i as int]);
                }
                return Some(lefts[i]);
            }
            proof {
                assert(lefts@.skip(i as int)[0] == lefts@[i as int]);
            }
            proof {
                assert(lefts@.skip(i as int).drop_first() =~= lefts@.skip(i as int + 1));
            }
            i += 1;
        }
        None
    }

    /// The snarl with the boundaries `x` and `y`, in either order.
    pub fn get(&self, x: Node, y: Node) -> (r: Option<Snarl<()>>)
        ensures
            r == self@.get(x, y),
    {
        broadcast use vstd::std_specs::hash::group_hash_axioms;

        let snarl_ix = match self.get_snarl_ix(x, y) {
            Some(ix) => ix,
            None => {
                return None;
            },
        };
        match map_get(&self.snarls, &snarl_ix) {
            Some(snarl) => Some(*snarl),
            None => None,
        }
    }

    /// Marks the black edge through `bridge` as held, or as not held, by
    /// the snarl with the boundaries `x` and `y`. `None`, with nothing
    /// changed, where there is no such snarl.
    pub fn mark_snarl(&mut self, x: Node, y: Node, bridge: Node, contains: bool) -> (r: Option<()>)
        ensures
            match old(self)@.rank_of(x, y) {
                Some(rank) => r is Some && final(self)@ == old(self)@.mark(
                    rank,
                    left_id(bridge.id),
                    contains,
                ),
                None => r is None && final(self)@ == old(self)@,
            },
            old(self)@.wf() ==> final(self)@.wf(),
    {
        broadcast use vstd::std_specs::hash::group_hash_axioms;

        let snarl_ix = match self.get_snarl_ix(x, y) {
            Some(ix) => ix,
            None => {
                return None;
            },
        };
        proof {
            if self@.wf() {
                lemma_mark_keeps_wf(self@, snarl_ix, left_id(bridge.id), contains);
            }
        }
        let mut marks = match map_remove(&mut self.snarl_contains, &snarl_ix) {
            Some(marks) => marks,
            None => FxHashMap::default(),
        };
        let bridge_canonical = bridge.left();
        map_insert(&mut marks, bridge_canonical.id, contains);
        map_insert(&mut self.snarl_contains, snarl_ix, marks);
        proof {
            assert(final(self)@.contains =~= old(self)@.mark(
                snarl_ix,
                left_id(bridge.id),
                contains,
            ).contains);
            assert(final(self)@.lefts =~= old(self)@.lefts);
            assert(final(self)@.rights =~= old(self)@.rights);
        }
        Some(())
    }

    /// The marks of the snarl with the boundaries `x` and `y`: for each
    /// black edge that was marked, whether the snarl holds it.
    pub fn snarl_contains(&self, x: Node, y: Node) -> (r: Option<&FxHashMap<u64, bool>>)
        ensures
            match r {
                Some(marks) => {
                    &&& self@.rank_of(x, y) is Some
                    &&& self@.contains.contains_key(self@.rank_of(x, y).unwrap())
                    &&& marks@ == self@.contains[self@.rank_of(x, y).unwrap()]
                },
                None => self@.rank_of(x, y) is None || !self@.contains.contains_key(
                    self@.rank_of(x, y).unwrap(),
                ),
            },
    {
        broadcast use vstd::std_specs::hash::group_hash_axioms;

        let snarl_ix = match self.get_snarl_ix(x, y) {
            Some(ix) => ix,
            None => {
                return None;
            },
        };
        map_get(&self.snarl_contains, &snarl_ix)
    }
    /// Marks, for the snarl with the boundaries `x` and `y`, the black edge
    /// of every sequence node in `segments` as held or not held: a black
    /// edge is held exactly if both of its endpoints have their
    /// representative in `interior`, the vertices inside the snarl. `None`,
    /// with nothing changed, where there is no such snarl.
    pub fn mark_black_edges(
        &mut self,
        x: Node,
        y: Node,
        segments: &Vec<u64>,
        interior: &FxHashSet<u64>,
        proj_map: &BTreeMap<u64, u64>,
    ) -> (r: Option<()>)
        requires
            forall|i: int|
                0 <= i < segments@.len() ==> {
                    &&& 2 * (#[trigger] segments@[i]) + 1 <= u64::MAX
                    &&& reaches_root(proj_map@, (2 * segments@[i]) as u64)
                    &&& reaches_root(proj_map@, (2 * segments@[i] + 1) as u64)
                },
        ensures
            match old(self)@.rank_of(x, y) {
                Some(rank) => {
                    &&& r is Some
                    &&& final(self)@.lefts == old(self)@.lefts
                    &&& final(self)@.rights == old(self)@.rights
                    &&& final(self)@.snarls == old(self)@.snarls
                    &&& forall|other: usize|
                        #![trigger final(self)@.marks_of(other)]
                        #![trigger final(self)@.contains.contains_key(other)]
                        other != rank ==> (final(self)@.contains.contains_key(other) == old(self)@.contains.contains_key(other)) && (final(self)@.marks_of(other) == old(self)@.marks_of(other))
                    &&& final(self)@.contains.contains_key(rank) == (old(self)@.contains.contains_key(rank) || segments@.len() > 0)
                    &&& marked_inside(
                        old(self)@.marks_of(rank),
                        final(self)@.marks_of(rank),
                        segments@,
                        segments@.len() as int,
                        interior@,
                        proj_map@,
                    )
                },
                None => r is None && final(self)@ == old(self)@,
            },
    {
        broadcast use vstd::std_specs::hash::group_hash_axioms;

        let rank = match self.get_snarl_ix(x, y) {
            Some(rank) => rank,
            None => {
                return None;
            },
        };
        let ghost before = self@;
        let mut i: usize = 0;
        while i < segments.len()
            invariant
                i <= segments.len(),
                before.rank_of(x, y) == Some(rank),
                self@.lefts == before.lefts,
                self@.rights == before.rights,
                self@.snarls == before.snarls,
                forall|k: int|
                    0 <= k < segments@.len() ==> {
                        &&& 2 * (#[trigger] segments@[k]) + 1 <= u64::MAX
                        &&& reaches_root(proj_map@, (2 * segments@[k]) as u64)
                        &&& reaches_root(proj_map@, (2 * segments@[k] + 1) as u64)
                    },
                forall|other: usize|
                    #![trigger self@.marks_of(other)]
                    #![trigger self@.contains.contains_key(other)]
                    other != rank ==> (self@.contains.contains_key(other)
                        == before.contains.contains_key(other)) && (self@.marks_of(other)
                        == before.marks_of(other)),
                self@.contains.contains_key(rank) == (before.contains.contains_key(rank) || i > 0),
                marked_inside(
                    before.marks_of(rank),
                    self@.marks_of(rank),
                    segments@,
                    i as int,
                    interior@,
                    proj_map@,
                ),
            decreases segments.len() - i,
        {
            let n = segments[i];
            let left: u64 = 2 * n;
            let right: u64 = left + 1;
            let left_end = find_projection(proj_map, left);
            let right_end = find_projection(proj_map, right);
            let inside = set_contains(interior, &left_end) && set_contains(interior, &right_end);
            let ghost had = self@;
            proof {
                crate::snarls::lemma_endpoint_bits(left);
                assert(had.rank_of(x, y) == before.rank_of(x, y));
            }
            self.mark_snarl(x, y, Node::new(left), inside);
            proof {
                let now = self@;
                assert(now == had.mark(rank, left, inside));
                let m0 = before.marks_of(rank);
                let m1 = had.marks_of(rank);
                let m2 = now.marks_of(rank);
                assert(m2 == m1.insert(left, inside));
                assert forall|b: u64|
                    among(segments@, i as int + 1, b) <==> (among(segments@, i as int, b) || b
                        == left) by {
                    if among(segments@, i as int + 1, b) {
                        let k = choose|k: int| 0 <= k < i + 1 && 2 * #[trigger] segments@[k] == b;
                        if k < i {
                            assert(among(segments@, i as int, b));
                        }
                    }
                    if among(segments@, i as int, b) {
                        let k = choose|k: int| 0 <= k < i && 2 * #[trigger] segments@[k] == b;
                        assert(0 <= k < i + 1);
                    }
                    if b == left {
                        assert(2 * segments@[i as int] == b);
                    }
                }
                assert forall|k: int| 0 <= k < i + 1 implies m2[(2 * #[trigger] segments@[k]) as u64]
                    == lies_inside(interior@, proj_map@, segments@[k]) by {
                    if (2 * segments@[k]) as u64 != left {
                        assert(k < i);
                    } else {
                        assert(segments@[k] == n);
                    }
                }
                assert forall|other: usize|
                    #![trigger now.marks_of(other)]
                    #![trigger now.contains.contains_key(other)]
                    other != rank implies (now.contains.contains_key(other)
                    == before.contains.contains_key(other)) && (now.marks_of(other)
                    == before.marks_of(other)) by {
                    assert(had.marks_of(other) == before.marks_of(other));
                    assert(had.contains.contains_key(other) == before.contains.contains_key(other));
                }
            }
            i += 1;
        }
        Some(())
    }

    /// For each black edge, the ranks of the snarls that hold it: the
    /// inverse of the marks. A black edge that no snarl holds has no entry.
    pub fn invert_contains(&self) -> (res: FxHashMap<u64, FxHashSet<usize>>)
        ensures
            forall|bridge: u64, rank: usize|
                (res@.contains_key(bridge) && res@[bridge]@.contains(rank)) <==> #[trigger] self@.holds(
                    rank,
                    bridge,
                ),
            forall|bridge: u64| #[trigger]
                res@.contains_key(bridge) ==> exists|rank: usize| #[trigger]
                    res@[bridge]@.contains(rank),
    {
        broadcast use vstd::std_specs::hash::group_hash_axioms;

        let mut res: FxHashMap<u64, FxHashSet<usize>> = FxHashMap::default();
        let ranks = map_keys(&self.snarl_contains);
        let mut i: usize = 0;
        proof {
            assert(ranks@.take(0) =~= Seq::<usize>::empty());
        }
        while i < ranks.len()
            invariant
                i <= ranks.len(),
                ranks@.no_duplicates(),
                forall|k: usize| ranks@.contains(k) <==> self.snarl_contains@.contains_key(k),
                inverted_so_far(res@, self@, ranks@.take(i as int), 0, Seq::<u64>::empty()),
            decreases ranks.len() - i,
        {
            let rank = ranks[i];
            let ghost done = ranks@.take(i as int);
            proof {
                assert(ranks@.contains(rank));
                assert(inverted_so_far(res@, self@, done, rank, Seq::<u64>::empty()));
            }
            match map_get(&self.snarl_contains, &rank) {
                Some(marks) => {
                    let bridges = map_keys(marks);
                    let mut j: usize = 0;
                    proof {
                        assert(bridges@.take(0) =~= Seq::<u64>::empty());
                    }
                    while j < bridges.len()
                        invariant
                            j <= bridges.len(),
                            bridges@.no_duplicates(),
                            self.snarl_contains@.contains_key(rank),
                            marks@ == self@.contains[rank],
                            self@.contains.contains_key(rank),
                            forall|b: u64| bridges@.contains(b) <==> marks@.contains_key(b),
                            inverted_so_far(res@, self@, done, rank, bridges@.take(j as int)),
                        decreases bridges.len() - j,
                    {
                        let bridge = bridges[j];
                        let ghost had = res@;
                        let ghost seen = bridges@.take(j as int);
                        proof {
                            assert(bridges@.contains(bridge));
                            lemma_take_one_more(bridges@, j as int, bridge);
                            assert(inverted_so_far(had, self@, done, rank, seen));
                        }
                        let held = match map_get(marks, &bridge) {
                            Some(held) => *held,
                            None => false,
                        };
                        if held {
                            let mut holders = match map_remove(&mut res, &bridge) {
                                Some(holders) => holders,
                                None => FxHashSet::default(),
                            };
                            set_insert(&mut holders, rank);
                            map_insert(&mut res, bridge, holders);
                            proof {
                                assert(res@[bridge]@.contains(rank));
                                assert forall|b: u64, r: usize|
                                    #![trigger self@.holds(r, b)]
                                    #![trigger res@[b]@.contains(r)]
                                    (res@.contains_key(b) && res@[b]@.contains(r)) <==> (
                                    self@.holds(r, b) && (done.contains(r) || (r == rank
                                        && bridges@.take(j as int + 1).contains(b)))) by {
                                    lemma_take_one_more(bridges@, j as int, b);
                                    if b == bridge {
                                        if had.contains_key(b) {
                                            assert(had[b]@.contains(r) <==> (self@.holds(r, b) && (
                                            done.contains(r) || (r == rank && seen.contains(b)))));
                                        }
                                    } else {
                                        assert(res@.contains_key(b) == had.contains_key(b));
                                        if had.contains_key(b) {
                                            assert(res@[b] == had[b]);
                                        }
                                        assert((had.contains_key(b) && had[b]@.contains(r)) <==> (
                                        self@.holds(r, b) && (done.contains(r) || (r == rank
                                            && seen.contains(b)))));
                                    }
                                }
                                assert forall|b: u64| #[trigger] res@.contains_key(b) implies exists|
                                    r: usize,
                                | #[trigger] res@[b]@.contains(r) by {
                                    if b != bridge {
                                        assert(had.contains_key(b));
                                        assert(res@[b] == had[b]);
                                        let r = choose|r: usize| #[trigger] had[b]@.contains(r);
                                        assert(res@[b]@.contains(r));
                                    }
                                }
                            }
                        } else {
                            proof {
                                assert forall|b: u64, r: usize|
                                    #![trigger self@.holds(r, b)]
                                    #![trigger res@[b]@.contains(r)]
                                    (res@.contains_key(b) && res@[b]@.contains(r)) <==> (
                                    self@.holds(r, b) && (done.contains(r) || (r == rank
                                        && bridges@.take(j as int + 1).contains(b)))) by {
                                    lemma_take_one_more(bridges@, j as int, b);
                                    assert((had.contains_key(b) && had[b]@.contains(r)) <==> (
                                    self@.holds(r, b) && (done.contains(r) || (r == rank
                                        && seen.contains(b)))));
                                }
                            }
                        }
                        j += 1;
                    }
                    proof {
                        assert(bridges@.take(j as int) =~= bridges@);
                        assert forall|b: u64, r: usize|
                            #![trigger self@.holds(r, b)]
                            #![trigger res@[b]@.contains(r)]
                            (res@.contains_key(b) && res@[b]@.contains(r)) <==> (self@.holds(r, b)
                                && (ranks@.take(i as int + 1).contains(r) || (r == 0usize
                                && Seq::<u64>::empty().contains(b)))) by {
                            lemma_take_one_more(ranks@, i as int, r);
                            assert((res@.contains_key(b) && res@[b]@.contains(r)) <==> (
                            self@.holds(r, b) && (done.contains(r) || (r == rank
                                && bridges@.contains(b)))));
                        }
                    }
                },
                None => {
                    proof {
                        assert(false);
                    }
                },
            }
            i += 1;
        }
        proof {
            assert(ranks@.take(i as int) =~= ranks@);
            assert forall|bridge: u64, rank: usize|
                (res@.contains_key(bridge) && res@[bridge]@.contains(rank)) <==> #[trigger] self@.holds(
                    rank,
                    bridge,
                ) by {
                if self@.holds(rank, bridge) {
                    assert(ranks@.contains(rank));
                }
            }
        }
        res
    }
}

/// A walk over the snarls at one boundary.
pub struct SnarlMapIter<'a> {
    lefts: Option<&'a Vec<usize>>,
    next_left: usize,
    rights: Option<&'a Vec<usize>>,
    next_right: usize,
    snarls: &'a FxHashMap<usize, Snarl<()>>,
}

/// What is left of a list from a place on.
pub open spec fn rest(list: Option<&Vec<usize>>, from: usize) -> Seq<usize> {
    match list {
        Some(list) => if from <= list@.len() {
            list@.skip(from as int)
        } else {
            Seq::empty()
        },
        None => Seq::empty(),
    }
}

impl<'a> SnarlMapIter<'a> {
    /// The ranks that the walk has not come to yet.
    pub closed spec fn pending(&self) -> Seq<usize> {
        rest(self.lefts, self.next_left) + rest(self.rights, self.next_right)
    }

    /// The snarls by rank.
    pub closed spec fn snarls(&self) -> Map<usize, Snarl<()>> {
        self.snarls@
    }

    fn new(snarl_map: &'a SnarlMap, x: Node) -> (it: Self)
        ensures
            it.pending() == SnarlMapView::filed(snarl_map@.lefts, x.id) + SnarlMapView::filed(
                snarl_map@.rights,
                x.id,
            ),
            it.snarls() == snarl_map@.snarls,
    {
        broadcast use vstd::std_specs::hash::group_hash_axioms;

        let lefts = map_get(&snarl_map.lefts, &x.id);
        let rights = map_get(&snarl_map.rights, &x.id);
        let it = Self { lefts, next_left: 0, rights, next_right: 0, snarls: &snarl_map.snarls };
        proof {
            assert(rest(lefts, 0) =~= SnarlMapView::filed(snarl_map@.lefts, x.id));
            assert(rest(rights, 0) =~= SnarlMapView::filed(snarl_map@.rights, x.id));
        }
        it
    }

    /// The snarl of the next rank, or `None` at the end of the walk. A rank
    /// without a snarl also gives `None`, and the walk goes on behind it.
    pub fn next(&mut self) -> (r: Option<Snarl<()>>)
        ensures
            final(self).snarls() == old(self).snarls(),
            old(self).pending().len() == 0 ==> r is None && final(self).pending().len() == 0,
            old(self).pending().len() > 0 ==> {
                &&& final(self).pending() == old(self).pending().skip(1)
                &&& r == (if old(self).snarls().contains_key(old(self).pending()[0]) {
                    Some(old(self).snarls()[old(self).pending()[0]])
                } else {
                    None
                })
            },
    {
        broadcast use vstd::std_specs::hash::group_hash_axioms;

        if self.lefts.is_none() && self.rights.is_none() {
            return None;
        }
        if let Some(lefts) = self.lefts {
            if self.next_left < lefts.len() {
                let ix = lefts[self.next_left];
                self.next_left = self.next_left + 1;
                proof {
                    assert(final(self).pending() =~= old(self).pending().skip(1));
                }
                return match map_get(self.snarls, &ix) {
                    Some(v) => Some(*v),
                    None => None,
                };
            } else {
                self.lefts = None;
            }
        }
        if let Some(rights) = self.rights {
            if self.next_right < rights.len() {
                let ix = rights[self.next_right];
                self.next_right = self.next_right + 1;
                proof {
                    assert(final(self).pending() =~= old(self).pending().skip(1));
                }
                return match map_get(self.snarls, &ix) {
                    Some(v) => Some(*v),
                    None => None,
                };
            } else {
                self.rights = None;
            }
        }
        None
    }
}

/// The snarl index with the tree of its snarls.
pub struct SnarlTree {
    map: SnarlMap,
    tree: FxHashMap<usize, FxHashSet<usize>>,
}

impl SnarlTree {
    /// The index that the tree is over.
    pub closed spec fn map(&self) -> SnarlMap {
        self.map
    }

    /// For each rank, the ranks of the snarls below it.
    pub closed spec fn tree(&self) -> Map<usize, FxHashSet<usize>> {
        self.tree@
    }

    /// The tree over an index: it takes the index over and starts without
    /// any snarl below another.
    pub fn from_snarl_map(snarl_map: SnarlMap) -> (r: Self)
        ensures
            r.map() == snarl_map,
            r.tree() == Map::<usize, FxHashSet<usize>>::empty(),
    {
        let tree: FxHashMap<usize, FxHashSet<usize>> = FxHashMap::default();
        Self { map: snarl_map, tree }
    }
}

} // verus!
