//! A singly linked list that owns its nodes, with front insertion and removal,
//! a cached length, iterative teardown and two iterators.
use vstd::prelude::*;
use vstd::std_specs::cmp::PartialEqSpec;

verus! {

/// One element of the chain, owning the rest of it.
struct Node<T> {
    elem: T,
    next: Option<Box<Node<T>>>,
}

impl<T> Node<T> {
    /// The elements reachable from `link`, front first.
    spec fn chain(link: Option<Box<Node<T>>>) -> Seq<T>
        decreases link,
    {
        match link {
            None => Seq::empty(),
            Some(node) => seq![node.elem] + Self::chain(node.next),
        }
    }
}

/// The elements of `s` as shared references, in the same order.
pub open spec fn refs_of<'a, T>(s: Seq<T>) -> Seq<&'a T> {
    s.map_values(|x: T| &x)
}

/// A producer of items, one per call to `next`, until it runs out.
pub trait Iterator {
    type Item;

    /// The items that the following calls to `next` hand out, in order.
    spec fn remaining(&self) -> Seq<Self::Item>;

    /// Hands out the first remaining item, or `None` once none remain.
    fn next(&mut self) -> (r: Option<Self::Item>)
        ensures
            old(self).remaining().len() == 0 ==> r is None && final(self).remaining()
                == old(self).remaining(),
            old(self).remaining().len() > 0 ==> r == Some(old(self).remaining()[0])
                && final(self).remaining() == old(self).remaining().drop_first(),
    ;
}

/// A singly linked list. No tail link is kept: every operation works at the
/// front, so the list holds only its head and its length.
pub struct List<T> {
    head: Option<Box<Node<T>>>,
    len: usize,
}

/// Hands out the elements of a list it owns, front first, each by value.
pub struct IntoIter<T>(List<T>);

/// Hands out references to the elements of a borrowed list, front first.
pub struct Iter<'a, T> {
    next: Option<&'a Node<T>>,
}

impl<T> Node<T> {
    /// The elements from `link` on, where `link` borrows a node.
    spec fn chain_from(link: Option<&Node<T>>) -> Seq<T> {
        match link {
            None => Seq::empty(),
            Some(node) => seq![node.elem] + Self::chain(node.next),
        }
    }
}

impl<T> IntoIter<T> {
    /// The owned list is kept well formed.
    #[verifier::type_invariant]
    spec fn owns_well_formed(self) -> bool {
        self.0.well_formed()
    }
}

impl<T> Iterator for IntoIter<T> {
    type Item = T;

    closed spec fn remaining(&self) -> Seq<T> {
        self.0@
    }

    fn next(&mut self) -> (r: Option<T>) {
        proof {
            use_type_invariant(&*self);
        }
        let mut list = List::new();
        std::mem::swap(&mut list, &mut self.0);
        let r = list.pop_front();
        std::mem::swap(&mut list, &mut self.0);
        r
    }
}

impl<'a, T> Iterator for Iter<'a, T> {
    type Item = &'a T;

    closed spec fn remaining(&self) -> Seq<&'a T> {
        refs_of(Node::chain_from(self.next))
    }

    fn next(&mut self) -> (r: Option<&'a T>) {
        match self.next {
            Some(node) => {
                self.next = match &node.next {
                    Some(boxed) => Some(&**boxed),
                    None => None,
                };
                assert(refs_of(Node::chain_from(self.next)) =~= refs_of(
                    Node::chain_from(old(self).next),
                ).drop_first());
                Some(&node.elem)
            },
            None => None,
        }
    }
}

impl<T> View for List<T> {
    type V = Seq<T>;

    /// The elements of the list, front first.
    closed spec fn view(&self) -> Seq<T> {
        Node::chain(self.head)
    }
}

impl<T> List<T> {
    /// The cached length counts exactly the nodes of the chain. Every list
    /// made and changed through these methods keeps this.
    pub closed spec fn well_formed(&self) -> bool {
        self.len as nat == Node::chain(self.head).len()
    }

    /// An empty list.
    pub fn new() -> (l: Self)
        ensures
            l.well_formed(),
            l@ == Seq::<T>::empty(),
    {
        List { head: None, len: 0 }
    }

    /// Turns the list into an iterator that hands its elements out by value,
    /// front first.
    pub fn into_iter(self) -> (it: IntoIter<T>)
        requires
            self.well_formed(),
        ensures
            it.remaining() == self@,
    {
        IntoIter(self)
    }

    /// An iterator over references to the elements, front first. The list
    /// itself is left as it is.
    pub fn iter(&self) -> (it: Iter<'_, T>)
        ensures
            it.remaining() == refs_of(self@),
    {
        Iter {
            next: match &self.head {
                Some(boxed) => Some(&**boxed),
                None => None,
            },
        }
    }

    /// The number of elements, read from the cached counter.
    pub fn len(&self) -> (n: usize)
        requires
            self.well_formed(),
        ensures
            n as nat == self@.len(),
    {
        self.len
    }

    /// Whether the list holds no element.
    pub fn is_empty(&self) -> (b: bool)
        requires
            self.well_formed(),
        ensures
            b <==> self@.len() == 0,
    {
        self.len() == 0
    }

    /// Puts `elem` in front of the current elements.
    pub fn push_front(&mut self, elem: T)
        requires
            old(self).well_formed(),
            old(self)@.len() < usize::MAX,
        ensures
            final(self).well_formed(),
            final(self)@ == seq![elem] + old(self)@,
    {
        let new = Box::new(Node { elem, next: self.head.take() });
        self.head = Some(new);
        self.len = self.len + 1;
    }

    /// Takes the front element out, or gives `None` on an empty list.
    pub fn pop_front(&mut self) -> (r: Option<T>)
        requires
            old(self).well_formed(),
        ensures
            final(self).well_formed(),
            old(self)@.len() == 0 ==> r is None && final(self)@ == old(self)@,
            old(self)@.len() > 0 ==> r == Some(old(self)@[0]) && final(self)@
                == old(self)@.drop_first(),
    {
        match self.head.take() {
            None => None,
            Some(popped) => {
                let Node { elem, next } = *popped;
                assert(Node::chain(next) == old(self)@.drop_first());
                self.head = next;
                self.len = self.len - 1;
                Some(elem)
            },
        }
    }

    /// A reference to the front element, or `None` on an empty list.
    pub fn front(&self) -> (r: Option<&T>)
        ensures
            r == (if self@.len() == 0 {
                None
            } else {
                Some(&self@[0])
            }),
    {
        match &self.head {
            Some(node) => Some(&node.elem),
            None => None,
        }
    }

    /// A mutable reference to the front element, or `None` on an empty list.
    /// What the caller writes through it becomes the new front element.
    pub fn front_mut(&mut self) -> (r: Option<&mut T>)
        requires
            old(self).well_formed(),
        ensures
            final(self).well_formed(),
            old(self)@.len() == 0 ==> r is None && final(self)@ == old(self)@,
            old(self)@.len() > 0 ==> r is Some && *r.unwrap() == old(self)@[0] && final(self)@
                == old(self)@.update(0, *final(r.unwrap())),
    {
        match &mut self.head {
            Some(node) => Some(&mut node.elem),
            None => None,
        }
    }

    /// Detaches the whole chain and releases its nodes one at a time, so that
    /// no node's release recurses into the next one.
    fn move_all_elements_out(&mut self)
        ensures
            final(self).head is None,
            final(self).len == old(self).len,
        opens_invariants none
        no_unwind
    {
        let mut current: Option<Box<Node<T>>> = None;
        std::mem::swap(&mut current, &mut self.head);
        loop
            decreases Node::chain(current).len(),
        {
            match current {
                None => break,
                Some(mut node) => {
                    // Detach the successor first: `node` then goes with no link.
                    let mut next: Option<Box<Node<T>>> = None;
                    std::mem::swap(&mut next, &mut node.next);
                    current = next;
                },
            }
        }
    }

    /// Releases every element; the list is empty afterwards.
    pub fn clear(&mut self)
        ensures
            final(self).well_formed(),
            final(self)@ == Seq::<T>::empty(),
    {
        self.move_all_elements_out();
        self.len = 0;
    }
}

impl<T: PartialEq> List<T> {
    /// Whether some element equals `e`, scanning from the front and stopping
    /// at the first match. Where `==` on `T` is equality of values, that is
    /// whether the list holds `e`.
    pub fn contains(&self, e: &T) -> (r: bool)
        ensures
            T::obeys_eq_spec() ==> (r <==> exists|i: int|
                0 <= i < self@.len() && #[trigger] self@[i].eq_spec(e)),
            T::obeys_eq_spec() && (forall|x: T, y: T| #[trigger] x.eq_spec(&y) <==> x == y) ==> (r
                <==> self@.contains(*e)),
    {
        let mut cur = &self.head;
        let ghost mut k: int = 0;
        loop
            invariant
                0 <= k <= self@.len(),
                Node::chain(*cur) == self@.skip(k),
                T::obeys_eq_spec() ==> forall|i: int| 0 <= i < k ==> !#[trigger] self@[i].eq_spec(e),
            decreases Node::chain(*cur).len(),
        {
            match cur {
                None => {
                    proof {
                        assert(self@.skip(k).len() == 0);
                        if T::obeys_eq_spec() && self@.contains(*e) {
                            let i = choose|i: int| 0 <= i < self@.len() && self@[i] == *e;
                            if forall|x: T, y: T| #[trigger] x.eq_spec(&y) <==> x == y {
                                assert(self@[i].eq_spec(e));
                            }
                        }
                    }
                    return false;
                },
                Some(node) => {
                    assert(Node::chain(*cur) == seq![node.elem] + Node::chain(node.next));
                    assert(self@.skip(k)[0] == self@[k]);
                    assert(Node::chain(node.next) =~= self@.skip(k).drop_first());
                    assert(self@.skip(k).drop_first() =~= self@.skip(k + 1));
                    if node.elem == *e {
                        proof {
                            if T::obeys_eq_spec() && forall|x: T, y: T| #[trigger] x.eq_spec(&y) <==> x == y {
                                assert(self@[k] == *e);
                            }
                        }
                        return true;
                    }
                    cur = &node.next;
                    proof {
                        k = k + 1;
                    }
                },
            }
        }
    }
}

impl<T> Drop for List<T> {
    /// Tears the chain down front to back without recursion.
    fn drop(&mut self)
        opens_invariants none
        no_unwind
    {
        self.move_all_elements_out();
    }
}

} // verus!
