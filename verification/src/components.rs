//! The published areas of free cells, and the questions that can be asked of
//! them.

use vstd::prelude::*;
use std::marker::PhantomData;
use rand::rngs::StdRng;
use rand::seq::IteratorRandom;
use crate::index_model::{is_free, IndexView};
use crate::location::GridLocation;
use crate::reachability::{
    in_some_part,
    is_free_partition,
    lemma_part_is_reach_set,
    part_has,
    reachable,
};

verus! {

/// The areas of free cells of channel `T`, as they were when they were last
/// computed. Each part lists the cells of one area.
pub struct ConnectedComponents<T> {
    pub components: Vec<Vec<GridLocation>>,
    pub _marker: PhantomData<T>,
}

/// The parts as sequences of cells.
pub open spec fn parts_of(components: Seq<Vec<GridLocation>>) -> Seq<Seq<GridLocation>> {
    components.map_values(|c: Vec<GridLocation>| c@)
}

impl<T> View for ConnectedComponents<T> {
    type V = Seq<Seq<GridLocation>>;

    open spec fn view(&self) -> Seq<Seq<GridLocation>> {
        parts_of(self.components@)
    }
}

/// Whether the part at position `i` is the first one that holds `p`.
pub open spec fn is_first_with(parts: Seq<Seq<GridLocation>>, p: GridLocation, i: int) -> bool {
    part_has(parts, i, p) && forall|j: int| 0 <= j < i ==> !(#[trigger] parts[j]).contains(p)
}

/// The position of the first part that holds `p`.
pub open spec fn first_with(parts: Seq<Seq<GridLocation>>, p: GridLocation) -> Option<int> {
    if exists|i: int| part_has(parts, i, p) {
        Some(choose|i: int| is_first_with(parts, p, i))
    } else {
        None
    }
}

/// The cells of the first part that holds `p`, as a set.
pub open spec fn component_of(parts: Seq<Seq<GridLocation>>, p: GridLocation) -> Option<
    Set<GridLocation>,
> {
    match first_with(parts, p) {
        Some(i) => Some(parts[i].to_set()),
        None => None,
    }
}

/// The cell at position `nth` of the first part that holds `p`.
pub open spec fn nth_of_component(
    parts: Seq<Seq<GridLocation>>,
    p: GridLocation,
    nth: int,
) -> Option<GridLocation> {
    match first_with(parts, p) {
        Some(i) => if 0 <= nth < parts[i].len() {
            Some(parts[i][nth])
        } else {
            None
        },
        None => None,
    }
}

/// There is one first part that holds `p`, if any part holds it.
pub proof fn lemma_first_with(parts: Seq<Seq<GridLocation>>, p: GridLocation, i: int)
    requires
        is_first_with(parts, p, i),
    ensures
        first_with(parts, p) == Some(i),
{
    assert(part_has(parts, i, p));
    let k = choose|k: int| is_first_with(parts, p, k);
    assert(is_first_with(parts, p, k));
    if k < i {
        assert(!parts[k].contains(p));
    }
    if i < k {
        assert(!parts[i].contains(p));
    }
}

/// If some part holds `p`, there is a first one that does.
pub proof fn lemma_first_with_exists(parts: Seq<Seq<GridLocation>>, p: GridLocation, i: int)
    requires
        part_has(parts, i, p),
    ensures
        first_with(parts, p) is Some,
        is_first_with(parts, p, first_with(parts, p).unwrap()),
        first_with(parts, p).unwrap() <= i,
    decreases i,
{
    if exists|j: int| 0 <= j < i && parts[j].contains(p) {
        let j = choose|j: int| 0 <= j < i && parts[j].contains(p);
        lemma_first_with_exists(parts, p, j);
    } else {
        assert(is_first_with(parts, p, i));
        lemma_first_with(parts, p, i);
    }
}

/// In the areas of the free cells of an index, the area of a free cell is
/// the set of the cells that it reaches, and a cell that is not free has no
/// area.
pub proof fn lemma_component_of_areas(parts: Seq<Seq<GridLocation>>, m: IndexView, p: GridLocation)
    requires
        is_free_partition(parts, m),
    ensures
        is_free(m, p) ==> component_of(parts, p) == Some(
            Set::new(|q: GridLocation| reachable(m, p, q)),
        ),
        !is_free(m, p) ==> component_of(parts, p) is None,
{
    if is_free(m, p) {
        assert(in_some_part(parts, p));
        let i = choose|i: int| part_has(parts, i, p);
        lemma_first_with_exists(parts, p, i);
        let k = first_with(parts, p).unwrap();
        assert(part_has(parts, k, p));
        lemma_part_is_reach_set(parts, m, k, p);
    } else {
        if exists|i: int| part_has(parts, i, p) {
            assert(in_some_part(parts, p));
        }
    }
}

/// In the areas of the free cells of an index, two free cells have the same
/// area exactly when a walk over free cells leads from one to the other.
pub proof fn lemma_same_component_of_areas(
    parts: Seq<Seq<GridLocation>>,
    m: IndexView,
    a: GridLocation,
    b: GridLocation,
)
    requires
        is_free_partition(parts, m),
        is_free(m, a),
        is_free(m, b),
    ensures
        component_of(parts, a) == component_of(parts, b) <==> reachable(m, a, b),
{
    assert(in_some_part(parts, a) && in_some_part(parts, b));
    let i0 = choose|i: int| part_has(parts, i, a);
    let j0 = choose|j: int| part_has(parts, j, b);
    lemma_first_with_exists(parts, a, i0);
    lemma_first_with_exists(parts, b, j0);
    let i = first_with(parts, a).unwrap();
    let j = first_with(parts, b).unwrap();
    assert(part_has(parts, i, a) && part_has(parts, j, b));
    if parts[i].to_set() == parts[j].to_set() {
        assert(parts[i].to_set().contains(a));
        assert(part_has(parts, j, a));
    }
}

/// The random-number generator `rand::rngs::StdRng`, of which nothing is
/// known here but that it can be handed on.
#[verifier::external_type_specification]
#[verifier::external_body]
pub struct ExStdRng(StdRng);

/// Draws a position below `len` with `rand::seq::IteratorRandom::choose` on
/// the range `0..len`.
///
/// Not proved here, but taken from that function: it returns `None` exactly
/// when the range is empty, and one of the items of the range otherwise.
/// Nothing is claimed of which item: that is up to `rng`.
#[verifier::external_body]
fn choose_below(len: usize, rng: &mut StdRng) -> (r: Option<usize>)
    ensures
        len == 0 ==> r is None,
        len > 0 ==> r is Some && r.unwrap() < len,
{
    (0..len).choose(rng)
}

/// Whether `p` is among `cells`.
fn has_cell(cells: &Vec<GridLocation>, p: &GridLocation) -> (r: bool)
    ensures
        r == cells@.contains(*p),
{
    let mut k: usize = 0;
    while k < cells.len()
        invariant
            k <= cells.len(),
            forall|j: int| 0 <= j < k ==> cells[j] != *p,
        decreases cells.len() - k,
    {
        if cells[k] == *p {
            return true;
        }
        k += 1;
    }
    false
}

/// Whether every cell of `a` is among `b`.
fn all_among(a: &Vec<GridLocation>, b: &Vec<GridLocation>) -> (r: bool)
    ensures
        r == forall|x: GridLocation| a@.contains(x) ==> b@.contains(x),
{
    let mut k: usize = 0;
    while k < a.len()
        invariant
            k <= a.len(),
            forall|j: int| 0 <= j < k ==> b@.contains(#[trigger] a[j]),
        decreases a.len() - k,
    {
        if !has_cell(b, &a[k]) {
            assert(a@.contains(a[k as int]));
            return false;
        }
        k += 1;
    }
    true
}

impl<T> ConnectedComponents<T> {
    /// The areas with the given parts.
    pub fn new(components: Vec<Vec<GridLocation>>) -> (r: Self)
        ensures
            r.components == components,
    {
        ConnectedComponents { components, _marker: PhantomData }
    }

    /// The position of the first part that holds `p`.
    fn first_part_with(&self, p: &GridLocation) -> (r: Option<usize>)
        ensures
            match r {
                Some(i) => first_with(self@, *p) == Some(i as int) && i < self.components.len(),
                None => first_with(self@, *p) is None,
            },
    {
        let mut i: usize = 0;
        while i < self.components.len()
            invariant
                i <= self.components.len(),
                forall|j: int| 0 <= j < i ==> !(#[trigger] self@[j]).contains(*p),
            decreases self.components.len() - i,
        {
            if has_cell(&self.components[i], p) {
                proof {
                    assert(self@[i as int] == self.components[i as int]@);
                    lemma_first_with(self@, *p, i as int);
                }
                return Some(i);
            }
            assert(self@[i as int] == self.components[i as int]@);
            i += 1;
        }
        None
    }

    /// The area to which `start` belongs: the first part that holds it.
    /// `None` where no part holds it, as for an occupied cell.
    pub fn point_to_component(&self, start: &GridLocation) -> (r: Option<&Vec<GridLocation>>)
        ensures
            match r {
                Some(c) => first_with(self@, *start) is Some && c@ == self@[first_with(
                    self@,
                    *start,
                ).unwrap()],
                None => first_with(self@, *start) is None,
            },
    {
        match self.first_part_with(start) {
            Some(i) => Some(&self.components[i]),
            None => None,
        }
    }

    /// Whether `start` and `end` belong to the same area: the areas of both
    /// are the same set of cells, or neither has one.
    pub fn is_in_same_component(&self, start: &GridLocation, end: &GridLocation) -> (r: bool)
        ensures
            r == (component_of(self@, *start) == component_of(self@, *end)),
    {
        match (self.first_part_with(start), self.first_part_with(end)) {
            (Some(i), Some(j)) => {
                let a = &self.components[i];
                let b = &self.components[j];
                let same = all_among(a, b) && all_among(b, a);
                proof {
                    assert(self@[i as int] == a@);
                    assert(self@[j as int] == b@);
                    if same {
                        assert(a@.to_set() =~= b@.to_set());
                    } else {
                        if a@.to_set() == b@.to_set() {
                            assert forall|x: GridLocation| a@.contains(x) implies b@.contains(
                                x,
                            ) by {
                                assert(a@.to_set().contains(x));
                            }
                            assert forall|x: GridLocation| b@.contains(x) implies a@.contains(
                                x,
                            ) by {
                                assert(b@.to_set().contains(x));
                            }
                        }
                    }
                }
                same
            },
            (None, None) => true,
            _ => false,
        }
    }

    /// The cell at position `nth` of the area to which `start` belongs.
    /// `None` where `start` has no area or the area has no such position.
    pub fn point_in_component(&self, start: &GridLocation, nth: usize) -> (r: Option<GridLocation>)
        ensures
            r == nth_of_component(self@, *start, nth as int),
    {
        match self.first_part_with(start) {
            Some(i) => {
                assert(self@[i as int] == self.components[i as int]@);
                if nth < self.components[i].len() {
                    Some(self.components[i][nth])
                } else {
                    None
                }
            },
            None => None,
        }
    }

    /// A cell of the area to which `start` belongs, drawn with `rng`. `None`
    /// where `start` has no area, or the area has no cell.
    pub fn get_random_point_in_same_component(
        &self,
        start: &GridLocation,
        rng: &mut StdRng,
    ) -> (r: Option<GridLocation>)
        ensures
            match first_with(self@, *start) {
                Some(i) => if self@[i].len() > 0 {
                    r is Some && self@[i].contains(r.unwrap())
                } else {
                    r is None
                },
                None => r is None,
            },
    {
        match self.first_part_with(start) {
            Some(i) => {
                assert(self@[i as int] == self.components[i as int]@);
                match choose_below(self.components[i].len(), rng) {
                    Some(nth) => self.point_in_component(start, nth),
                    None => None,
                }
            },
            None => None,
        }
    }
}

impl<T> Default for ConnectedComponents<T> {
    /// No areas at all: what is published before the first computation.
    fn default() -> (r: Self)
        ensures
            r@ == Seq::<Seq<GridLocation>>::empty(),
    {
        let r = ConnectedComponents { components: Vec::new(), _marker: PhantomData };
        assert(r@ =~= Seq::<Seq<GridLocation>>::empty());
        r
    }
}

} // verus!
