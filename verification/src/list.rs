//! A persistent singly-linked list whose tails are shared between lists.

use std::rc::Rc;
use vstd::prelude::*;
use vstd::std_specs::cmp::PartialEqSpec;
use vstd::std_specs::cmp::PartialEqSpecImpl;

verus! {

/// One cell of a list: an element and the cells that follow it.
#[derive(Debug, Hash)]
struct Pair<T> {
    elem: T,
    rest: Option<Rc<Pair<T>>>,
}

/// An immutable list. Lists built on the same tail share its cells.
#[derive(Debug, Hash)]
pub struct List<T> {
    head: Option<Rc<Pair<T>>>,
}

/// A walk over a list, from the head to the end.
pub struct Iter<'a, T: 'a> {
    next: Option<&'a Pair<T>>,
}

/// The elements held by a chain of cells, the first cell first.
spec fn chain_elems<T>(link: Option<Rc<Pair<T>>>) -> Seq<T>
    decreases link,
{
    match link {
        Some(cell) => seq![cell.elem] + chain_elems(cell.rest),
        None => Seq::empty(),
    }
}

/// The chain after its first cell.
spec fn rest_of<T>(link: Option<Rc<Pair<T>>>) -> Option<Rc<Pair<T>>> {
    match link {
        Some(cell) => cell.rest,
        None => None,
    }
}

/// What `cons` builds: `elem` in front of `items`.
pub open spec fn cons_view<T>(items: Seq<T>, elem: T) -> Seq<T> {
    seq![elem] + items
}

/// What `tail` keeps: everything after the first element, and nothing of
/// an empty sequence.
pub open spec fn tail_view<T>(items: Seq<T>) -> Seq<T> {
    if items.len() == 0 {
        items
    } else {
        items.drop_first()
    }
}

/// What `head` finds: the first element, where there is one.
pub open spec fn head_view<T>(items: Seq<T>) -> Option<T> {
    if items.len() == 0 {
        None
    } else {
        Some(items[0])
    }
}

/// `Rc::clone`: a second owner of the same cell. The cell is not copied,
/// so the result stands for the same value.
#[verifier::external_body]
fn share<T>(cell: &Rc<Pair<T>>) -> (shared: Rc<Pair<T>>)
    ensures
        shared == *cell,
{
    Rc::clone(cell)
}

/// A second owner of a whole chain.
fn share_link<T>(link: &Option<Rc<Pair<T>>>) -> (shared: Option<Rc<Pair<T>>>)
    ensures
        shared == *link,
{
    match link {
        Some(cell) => Some(share(cell)),
        None => None,
    }
}

impl<T> View for List<T> {
    type V = Seq<T>;

    /// The elements of the list, the head first.
    closed spec fn view(&self) -> Seq<T> {
        chain_elems(self.head)
    }
}

impl<'a, T> View for Iter<'a, T> {
    type V = Seq<T>;

    /// The elements that the walk has yet to yield, the next one first.
    closed spec fn view(&self) -> Seq<T> {
        match self.next {
            Some(cell) => seq![cell.elem] + chain_elems(cell.rest),
            None => Seq::empty(),
        }
    }
}

impl<T> List<T> {
    /// The empty list.
    pub fn new() -> (list: Self)
        ensures
            list@ == Seq::<T>::empty(),
    {
        List { head: None }
    }

    /// A list with `elem` as its head and this list as its tail. This list
    /// is left as it was; the new list shares its cells.
    pub fn cons(&self, elem: T) -> (list: List<T>)
        ensures
            list@ == cons_view(self@, elem),
    {
        List { head: Some(Rc::new(Pair { elem: elem, rest: share_link(&self.head) })) }
    }

    /// The list after its head; the empty list where this one is empty.
    pub fn tail(&self) -> (list: List<T>)
        ensures
            list@ == tail_view(self@),
    {
        match &self.head {
            Some(cell) => {
                List { head: share_link(&cell.rest) }
            },
            None => List { head: None },
        }
    }

    /// The first element, or `None` where the list is empty.
    pub fn head(&self) -> (first: Option<&T>)
        ensures
            first == match head_view(self@) {
                Some(elem) => Some(&elem),
                None => None,
            },
    {
        match &self.head {
            Some(cell) => Some(&cell.elem),
            None => None,
        }
    }

    /// A walk over the elements, the head first. It can be asked for again:
    /// each walk starts at the head.
    pub fn iter(&self) -> (walk: Iter<'_, T>)
        ensures
            walk@ == self@,
    {
        match &self.head {
            Some(cell) => Iter { next: Some(&**cell) },
            None => Iter { next: None },
        }
    }

    /// References to the elements, the head first.
    pub fn to_vec(&self) -> (items: Vec<&T>)
        ensures
            items@ == self@.map_values(|elem: T| &elem),
    {
        let mut items: Vec<&T> = Vec::new();
        let mut walk = self.iter();
        loop
            invariant
                items@.len() + walk@.len() == self@.len(),
                walk@ == self@.skip(items@.len() as int),
                items@ == self@.take(items@.len() as int).map_values(|elem: T| &elem),
            decreases walk@.len(),
        {
            match walk.next() {
                Some(elem) => {
                    let ghost done = items@.len() as int;
                    items.push(elem);
                },
                None => {
                    return items;
                },
            }
        }
    }

    /// The elements through which a chain reaches are smaller than the chain.
    proof fn lemma_chain_decreases(link: Option<Rc<Pair<T>>>, i: int)
        requires
            0 <= i < chain_elems(link).len(),
        ensures
            decreases_to!(link => chain_elems(link)[i]),
        decreases link,
    {
        if i > 0 {
            Self::lemma_chain_decreases(rest_of(link), i - 1);
        }
    }

    /// Every element of a list is structurally smaller than the list, so a
    /// recursion over a type that holds lists of itself may descend into them.
    pub proof fn lemma_elems_decrease(self, i: int)
        requires
            0 <= i < self@.len(),
        ensures
            decreases_to!(self => self@[i]),
    {
        Self::lemma_chain_decreases(self.head, i);
    }
}

impl<'a, T> Iter<'a, T> {
    /// Yields the next element and steps past it; `None` once the walk is
    /// at its end, where it stays.
    pub fn next(&mut self) -> (item: Option<&'a T>)
        ensures
            item == match head_view(old(self)@) {
                Some(elem) => Some(&elem),
                None => None,
            },
            final(self)@ == tail_view(old(self)@),
    {
        match self.next {
            Some(cell) => {
                self.next = match &cell.rest {
                    Some(following) => Some(&**following),
                    None => None,
                };
                Some(&cell.elem)
            },
            None => None,
        }
    }
}

impl<T> Clone for List<T> {
    /// A second list over the same cells; no element is copied.
    fn clone(&self) -> (list: List<T>)
        ensures
            list@ == self@,
    {
        List { head: share_link(&self.head) }
    }
}

impl<T: PartialEq> PartialEq for List<T> {
    fn eq(&self, other: &List<T>) -> (same: bool) {
        let mut left = self.iter();
        let mut right = other.iter();
        let ghost mut done: int = 0;
        loop
            invariant
                0 <= done <= self@.len(),
                done <= other@.len(),
                left@ == self@.skip(done),
                right@ == other@.skip(done),
                T::obeys_eq_spec() ==> forall|i: int|
                    0 <= i < done ==> (#[trigger] self@[i]).eq_spec(&other@[i]),
            decreases self@.len() - done,
        {
            match (left.next(), right.next()) {
                (Some(a), Some(b)) => {
                    if !(*a == *b) {
                        return false;
                    }
                    proof {
                        done = done + 1;
                    }
                },
                (None, None) => {
                    return true;
                },
                _ => {
                    return false;
                },
            }
        }
    }
}

impl<T: PartialEq> PartialEqSpecImpl for List<T> {
    open spec fn obeys_eq_spec() -> bool {
        T::obeys_eq_spec()
    }

    /// Two lists are equal when they are as long as each other and their
    /// elements are equal one by one, in order.
    open spec fn eq_spec(&self, other: &List<T>) -> bool {
        &&& self@.len() == other@.len()
        &&& forall|i: int| 0 <= i < self@.len() ==> (#[trigger] self@[i]).eq_spec(&other@[i])
    }
}

impl<T: Eq> Eq for List<T> {

}

/// Taking the tail of what `cons` built gives the source back, and its head
/// is the element that was added.
pub proof fn lemma_cons_then_tail_and_head<T>(items: Seq<T>, elem: T)
    ensures
        tail_view(cons_view(items, elem)) == items,
        head_view(cons_view(items, elem)) == Some(elem),
{
}

/// The empty list has no head and is its own tail.
pub proof fn lemma_empty_head_and_tail<T>()
    ensures
        head_view(Seq::<T>::empty()) == None::<T>,
        tail_view(Seq::<T>::empty()) == Seq::<T>::empty(),
{
}

/// `cons` leaves its source whole: the list it builds holds the source's
/// elements, each one place further on, behind the new head and nothing else.
pub proof fn lemma_cons_keeps_source<T>(items: Seq<T>, elem: T)
    ensures
        cons_view(items, elem).len() == items.len() + 1,
        cons_view(items, elem)[0] == elem,
        forall|i: int| 0 <= i < items.len() ==> cons_view(items, elem)[i + 1] == items[i],
{
}

} // verus!
