//! The data model: coordinates, colours, quad records and the structure that
//! a subdivision produces.
use std::cmp::Ordering;
use std::collections::HashMap;
use vstd::prelude::*;
use vstd::relations::injective_on;
use vstd::set_lib::lemma_map_size;
use vstd::std_specs::iter::IteratorSpec;
use vstd::std_specs::cmp::PartialOrdSpecImpl;
use vstd::std_specs::convert::FromSpecImpl;

verus! {

broadcast use vstd::std_specs::hash::group_hash_axioms;

/// A pair of unsigned pixel coordinates: a position (top-left corner) or a
/// size (width, height).
#[derive(Copy, Clone, PartialEq, Eq, Hash, Debug, Structural)]
pub struct Vec2 {
    pub x: u32,
    pub y: u32,
}

/// An RGBA colour with 8 bits per channel.
#[derive(Copy, Clone, PartialEq, Eq, Hash, Debug, Structural)]
pub struct Rgba {
    pub r: u8,
    pub g: u8,
    pub b: u8,
    pub a: u8,
}

/// What is known of one quad: the depth at which its subdivision stopped and,
/// where averages were asked for, the mean colour of its footprint.
#[derive(Copy, Clone, PartialEq, Eq, Debug, Structural)]
pub struct QuadInfo {
    pub depth: u8,
    pub color: Option<Rgba>,
}

/// The quads of a subdivision, each under its top-left position.
#[derive(Clone, PartialEq, Eq, Debug)]
pub struct QuadMap {
    /// quad records under the key of their position, see [`Vec2::key`]
    pub cells: HashMap<u64, QuadInfo>,
}

/// The result of a subdivision.
#[derive(Clone, PartialEq, Eq, Debug)]
pub struct QuadStructure {
    /// position : quad info
    pub map: QuadMap,
    /// starts with the image size and then the halved sizes based on depth
    pub sizes: Vec<Vec2>,
}

/// The mathematical content of a [`QuadStructure`].
#[verifier::ext_equal]
pub struct QuadModel {
    /// the quad sizes by depth
    pub sizes: Seq<Vec2>,
    /// the quads by position
    pub quads: Map<Vec2, QuadInfo>,
}

/// The quad `q` at `p` has a registered size and lies within the image: its
/// corner is a pixel of the image and its footprint does not leave the image.
/// The image is as large as `sizes[0]` says.
pub open spec fn quad_fits(p: Vec2, q: QuadInfo, sizes: Seq<Vec2>) -> bool {
    &&& q.depth < sizes.len()
    &&& p.x < sizes[0].x
    &&& p.y < sizes[0].y
    &&& p.x + sizes[q.depth as int].x <= sizes[0].x
    &&& p.y + sizes[q.depth as int].y <= sizes[0].y
}

impl QuadModel {
    /// Each size but the first is half the size before it, rounded down.
    pub open spec fn halves(self) -> bool {
        &&& self.sizes.len() >= 1
        &&& forall|d: int|
            1 <= d < self.sizes.len() ==> #[trigger] self.sizes[d] == self.sizes[d - 1].half_size()
    }

    /// Every size but the first has at least one pixel on each axis.
    pub open spec fn sizes_have_pixels(self) -> bool {
        forall|d: int|
            1 <= d < self.sizes.len() ==> (#[trigger] self.sizes[d]).x >= 1 && self.sizes[d].y
                >= 1
    }

    /// Every quad lies within the image, see [`quad_fits`].
    pub open spec fn fits(self) -> bool {
        &&& self.sizes.len() >= 1
        &&& forall|p: Vec2| #[trigger]
            self.quads.contains_key(p) ==> quad_fits(p, self.quads[p], self.sizes)
    }

    /// Where sizes halve, twice the size of a depth and what halving left
    /// over make up the size of the depth before, on both axes.
    pub proof fn lemma_halves_span(self, d: int)
        requires
            self.halves(),
            1 <= d < self.sizes.len(),
        ensures
            self.sizes[d].x * 2 + self.sizes[d - 1].half_rest().x == self.sizes[d - 1].x,
            self.sizes[d].y * 2 + self.sizes[d - 1].half_rest().y == self.sizes[d - 1].y,
    {
        assert(self.sizes[d] == self.sizes[d - 1].half_size());
    }
}

impl View for QuadStructure {
    type V = QuadModel;

    open spec fn view(&self) -> QuadModel {
        QuadModel { sizes: self.sizes@, quads: self.map@ }
    }
}

/// The number that stands for the coordinate pair `(x, y)` where an integer
/// key is needed: `x` in the upper 32 bits, `y` in the lower.
pub open spec fn key_of(x: int, y: int) -> int {
    x * 0x1_0000_0000 + y
}

impl Vec2 {
    /// The origin.
    pub fn zero() -> (v: Vec2)
        ensures
            v == (Vec2 { x: 0, y: 0 }),
    {
        Vec2 { x: 0, y: 0 }
    }

    /// The component-wise halves of `self`, rounded down.
    pub open spec fn half_size(self) -> Vec2 {
        Vec2 { x: self.x / 2, y: self.y / 2 }
    }

    /// What halving leaves over on each axis: 0 or 1.
    pub open spec fn half_rest(self) -> Vec2 {
        Vec2 { x: self.x % 2, y: self.y % 2 }
    }

    /// Lexicographic order: `x` decides, `y` breaks ties.
    pub open spec fn precedes(self, other: Vec2) -> bool {
        self.x < other.x || (self.x == other.x && self.y < other.y)
    }

    /// `self` is smaller than `floor` on at least one axis.
    pub open spec fn undercuts(self, floor: Vec2) -> bool {
        self.x < floor.x || self.y < floor.y
    }

    /// The integer key of this pair.
    pub open spec fn spec_key(&self) -> u64 {
        key_of(self.x as int, self.y as int) as u64
    }

    /// The pair that the key `k` stands for.
    pub open spec fn of_key(k: u64) -> Vec2 {
        Vec2 { x: (k / 0x1_0000_0000) as u32, y: (k % 0x1_0000_0000) as u32 }
    }

    /// Returns the halved size and the remainder of each axis. The two halves
    /// and the remainder together span `self` exactly.
    pub fn half(&self) -> (r: (Vec2, Vec2))
        ensures
            r.0 == self.half_size(),
            r.1 == self.half_rest(),
            r.0.x + r.1.x + r.0.x == self.x,
            r.0.y + r.1.y + r.0.y == self.y,
            r.1.x <= 1,
            r.1.y <= 1,
    {
        (Vec2 { x: self.x / 2, y: self.y / 2 }, Vec2 { x: self.x % 2, y: self.y % 2 })
    }

    /// Whether `self` is smaller than `floor` on at least one axis.
    pub fn is_below(&self, floor: &Vec2) -> (r: bool)
        ensures
            r == self.undercuts(*floor),
    {
        self.x < floor.x || self.y < floor.y
    }

    /// The integer key of this pair, see [`key_of`].
    #[verifier::when_used_as_spec(spec_key)]
    pub fn key(&self) -> (k: u64)
        ensures
            k == self.spec_key(),
            k == key_of(self.x as int, self.y as int),
    {
        (self.x as u64) * 0x1_0000_0000 + (self.y as u64)
    }

    /// The pair that a key stands for.
    pub fn from_key(k: u64) -> (v: Vec2)
        ensures
            v == Vec2::of_key(k),
            v.spec_key() == k,
    {
        Vec2 { x: (k / 0x1_0000_0000) as u32, y: (k % 0x1_0000_0000) as u32 }
    }

    /// Two pairs with the same key are the same pair.
    pub proof fn lemma_key_injective(self, other: Vec2)
        ensures
            self.spec_key() == other.spec_key() <==> self == other,
    {
    }

    /// Every key is the key of the pair that it stands for.
    pub proof fn lemma_key_onto(k: u64)
        ensures
            Vec2::of_key(k).spec_key() == k,
    {
    }
}

impl From<(u32, u32)> for Vec2 {
    /// The pair with `x` from the first and `y` from the second number.
    fn from(src: (u32, u32)) -> (v: Vec2) {
        Vec2 { x: src.0, y: src.1 }
    }
}

impl FromSpecImpl<(u32, u32)> for Vec2 {
    open spec fn obeys_from_spec() -> bool {
        true
    }

    open spec fn from_spec(src: (u32, u32)) -> Vec2 {
        Vec2 { x: src.0, y: src.1 }
    }
}

impl From<Rgba> for QuadInfo {
    /// The record of an undivided image of the given mean colour.
    fn from(color: Rgba) -> (q: QuadInfo) {
        QuadInfo { depth: 0, color: Some(color) }
    }
}

impl FromSpecImpl<Rgba> for QuadInfo {
    open spec fn obeys_from_spec() -> bool {
        true
    }

    open spec fn from_spec(color: Rgba) -> QuadInfo {
        QuadInfo { depth: 0, color: Some(color) }
    }
}

impl PartialOrd for Vec2 {
    /// Compares `x` first, then `y`.
    fn partial_cmp(&self, other: &Self) -> (r: Option<Ordering>) {
        if self.x < other.x {
            Some(Ordering::Less)
        } else if self.x > other.x {
            Some(Ordering::Greater)
        } else if self.y < other.y {
            Some(Ordering::Less)
        } else if self.y > other.y {
            Some(Ordering::Greater)
        } else {
            Some(Ordering::Equal)
        }
    }
}

impl PartialOrdSpecImpl for Vec2 {
    open spec fn obeys_partial_cmp_spec() -> bool {
        true
    }

    open spec fn partial_cmp_spec(&self, other: &Vec2) -> Option<Ordering> {
        if self.x < other.x {
            Some(Ordering::Less)
        } else if self.x > other.x {
            Some(Ordering::Greater)
        } else if self.y < other.y {
            Some(Ordering::Less)
        } else if self.y > other.y {
            Some(Ordering::Greater)
        } else {
            Some(Ordering::Equal)
        }
    }
}

impl Rgba {
    /// The colour with the given channels.
    pub fn new(r: u8, g: u8, b: u8, a: u8) -> (c: Rgba)
        ensures
            c == (Rgba { r, g, b, a }),
    {
        Rgba { r, g, b, a }
    }
}

impl QuadInfo {
    /// A quad of depth `d` without a colour.
    pub fn new(d: u8) -> (q: QuadInfo)
        ensures
            q == (QuadInfo { depth: d, color: None }),
    {
        QuadInfo { depth: d, color: None }
    }

    /// The record of an undivided image of the given mean colour.
    pub fn from_color(color: Rgba) -> (q: QuadInfo)
        ensures
            q == (QuadInfo { depth: 0, color: Some(color) }),
    {
        QuadInfo { depth: 0, color: Some(color) }
    }
}

impl View for QuadMap {
    type V = Map<Vec2, QuadInfo>;

    /// The quads by position.
    open spec fn view(&self) -> Map<Vec2, QuadInfo> {
        Map::new(
            |p: Vec2| self.cells@.contains_key(p.spec_key()),
            |p: Vec2| self.cells@[p.spec_key()],
        )
    }
}

/// `order` names every position of `m` exactly once.
pub open spec fn is_walk_of(order: Seq<Vec2>, m: Map<Vec2, QuadInfo>) -> bool {
    &&& order.no_duplicates()
    &&& forall|p: Vec2| order.contains(p) <==> m.contains_key(p)
}

impl QuadMap {
    /// A map without quads.
    pub fn new() -> (m: QuadMap)
        ensures
            m@ == Map::<Vec2, QuadInfo>::empty(),
    {
        let m = QuadMap { cells: HashMap::new() };
        assert(m@ =~= Map::<Vec2, QuadInfo>::empty());
        m
    }

    /// Records `info` under `pos`; what stood there before is replaced.
    pub fn insert(&mut self, pos: Vec2, info: QuadInfo)
        ensures
            final(self)@ == old(self)@.insert(pos, info),
    {
        let ghost before = self.cells@;
        self.cells.insert(pos.key(), info);
        proof {
            assert forall|p: Vec2| p.spec_key() == pos.spec_key() implies p == pos by {
                p.lemma_key_injective(pos);
            }
            assert(self.cells@ == before.insert(pos.spec_key(), info));
            assert(self@ =~= old(self)@.insert(pos, info));
        }
    }

    /// The record under `pos`, if there is one.
    pub fn get(&self, pos: &Vec2) -> (r: Option<QuadInfo>)
        ensures
            r == if self@.contains_key(*pos) {
                Some(self@[*pos])
            } else {
                None
            },
    {
        let k = pos.key();
        match self.cells.get(&k) {
            Some(info) => Some(*info),
            None => None,
        }
    }

    /// Whether a quad is recorded under `pos`.
    pub fn contains_key(&self, pos: &Vec2) -> (r: bool)
        ensures
            r == self@.contains_key(*pos),
    {
        let k = pos.key();
        self.cells.contains_key(&k)
    }

    /// There are as many quads as records, and finitely many.
    pub proof fn lemma_size(&self)
        ensures
            self@.dom().finite(),
            self@.dom().len() == self.cells@.dom().len(),
    {
        let keys = self.cells@.dom();
        let pair = |k: u64| Vec2::of_key(k);
        assert(injective_on(pair, keys)) by {
            assert forall|a: u64, b: u64|
                keys.contains(a) && keys.contains(b) && #[trigger] pair(a) == #[trigger] pair(
                    b,
                ) implies a == b by {
                Vec2::lemma_key_onto(a);
                Vec2::lemma_key_onto(b);
            }
        }
        assert(keys.map(pair) =~= self@.dom()) by {
            assert forall|p: Vec2| keys.map(pair).contains(p) <==> self@.dom().contains(p) by {
                if keys.map(pair).contains(p) {
                    let k = choose|k: u64| keys.contains(k) && p == pair(k);
                    Vec2::lemma_key_onto(k);
                }
                if self@.dom().contains(p) {
                    Vec2::of_key(p.spec_key()).lemma_key_injective(p);
                    Vec2::lemma_key_onto(p.spec_key());
                    assert(keys.contains(p.spec_key()) && p == pair(p.spec_key()));
                }
            }
        }
        lemma_map_size(keys, self@.dom(), pair);
    }

    /// The number of quads.
    pub fn len(&self) -> (n: usize)
        ensures
            n == self@.dom().len(),
    {
        proof {
            self.lemma_size();
        }
        self.cells.len()
    }

    /// Whether no quad is recorded.
    pub fn is_empty(&self) -> (r: bool)
        ensures
            r <==> self@ =~= Map::<Vec2, QuadInfo>::empty(),
    {
        let r = self.cells.is_empty();
        proof {
            if r {
                assert(self.cells@.dom() =~= Set::<u64>::empty()) by {
                    assert(self.cells@.dom().finite());
                    assert(self.cells@.dom().len() == 0);
                    self.cells@.dom().lemma_len0_is_empty();
                }
                assert(self@ =~= Map::<Vec2, QuadInfo>::empty());
            } else {
                if self@ =~= Map::<Vec2, QuadInfo>::empty() {
                    assert forall|k: u64| !self.cells@.dom().contains(k) by {
                        Vec2::lemma_key_onto(k);
                        assert(!self@.contains_key(Vec2::of_key(k)));
                    }
                    assert(self.cells@.dom() =~= Set::<u64>::empty());
                }
            }
        }
        r
    }

    /// The positions of all quads, each once, in the order in which the
    /// underlying table hands them out.
    pub fn positions(&self) -> (order: Vec<Vec2>)
        ensures
            is_walk_of(order@, self@),
    {
        let mut order: Vec<Vec2> = Vec::new();
        let ghost keys = self.cells.keys().remaining().unref();
        assert(keys.no_duplicates()) by {
            assert forall|i: int, j: int|
                0 <= i < keys.len() && 0 <= j < keys.len() && i != j implies keys[i]
                != keys[j] by {
                let r = self.cells.keys().remaining();
                assert(r[i] != r[j]);
            }
        }
        for k in iter: self.cells.keys()
            invariant
                iter.seq().unref() == keys,
                order@.len() == iter.index(),
                forall|i: int|
                    0 <= i < order@.len() ==> (#[trigger] order@[i]).spec_key() == keys[i],
        {
            assert(*k == keys[iter.index()]);
            let p = Vec2::from_key(*k);
            order.push(p);
        }
        proof {
            assert(order@.len() == keys.len());
            assert forall|i: int, j: int|
                0 <= i < order@.len() && 0 <= j < order@.len() && i != j implies order@[i]
                != order@[j] by {
                assert(order@[i].spec_key() == keys[i]);
                assert(order@[j].spec_key() == keys[j]);
            }
            assert forall|p: Vec2| order@.contains(p) <==> self@.contains_key(p) by {
                if order@.contains(p) {
                    let i = choose|i: int| 0 <= i < order@.len() && order@[i] == p;
                    assert(keys[i] == p.spec_key());
                    assert(keys.to_set().contains(keys[i]));
                }
                if self@.contains_key(p) {
                    assert(keys.to_set().contains(p.spec_key()));
                    let i = choose|i: int| 0 <= i < keys.len() && keys[i] == p.spec_key();
                    order@[i].lemma_key_injective(p);
                    assert(order@[i] == p);
                }
            }
        }
        order
    }
}

} // verus!
