//! A persistent singly-linked list: every operation leaves its input intact
//! and shares unchanged nodes with it.
use std::rc::Rc;
use vstd::prelude::*;

verus! {

/// Relies on `Rc::clone`: it makes a new handle to the same allocation, so
/// the value seen through it is the one seen through `rc`.
#[verifier::external_body]
fn rc_clone<T>(rc: &Rc<T>) -> (res: Rc<T>)
    ensures
        res == *rc,
{
    Rc::clone(rc)
}

#[derive(Debug, PartialEq)]
struct Node<T> {
    item: T,
    next: Option<Rc<Node<T>>>,
}

/// A list, read from its head.
#[derive(Debug, PartialEq)]
pub struct List<T> {
    head: Option<Rc<Node<T>>>,
}

/// The items reachable from `link`, in order.
closed spec fn items<T>(link: Option<Rc<Node<T>>>) -> Seq<T>
    decreases link,
{
    match link {
        None => seq![],
        Some(node) => seq![node.item] + items(node.next),
    }
}

impl<T> View for List<T> {
    type V = Seq<T>;

    closed spec fn view(&self) -> Seq<T> {
        items(self.head)
    }
}

fn share<T>(link: &Option<Rc<Node<T>>>) -> (r: Option<Rc<Node<T>>>)
    ensures
        r == *link,
{
    match link {
        None => None,
        Some(node) => Some(rc_clone(node)),
    }
}

/// The first `n` items of `s`, or all of them where it holds fewer.
pub open spec fn prefix<T>(s: Seq<T>, n: nat) -> Seq<T> {
    if n <= s.len() {
        s.take(n as int)
    } else {
        s
    }
}

/// `s` without its first `n` items, or empty where it holds fewer.
pub open spec fn suffix<T>(s: Seq<T>, n: nat) -> Seq<T> {
    if n <= s.len() {
        s.skip(n as int)
    } else {
        seq![]
    }
}

/// `k` is the length of the longest prefix of `s` whose items all satisfy
/// `predicate`: the first `k` satisfy it and the next one, if any, does not.
pub open spec fn satisfied_prefix<T, P: Fn(T) -> bool>(s: Seq<T>, predicate: P, k: int) -> bool {
    &&& 0 <= k <= s.len()
    &&& forall|i: int| 0 <= i < k ==> predicate.ensures((#[trigger] s[i],), true)
    &&& k < s.len() ==> predicate.ensures((s[k],), false)
}

impl<T: Copy> List<T> {
    /// The empty list.
    pub fn empty() -> (r: Self)
        ensures
            r@ == Seq::<T>::empty(),
    {
        List { head: None }
    }

    /// The list of one item.
    pub fn single(item: T) -> (r: Self)
        ensures
            r@ == seq![item],
    {
        let r = List { head: Some(Rc::new(Node { item: item, next: None })) };
        assert(items::<T>(None) == Seq::<T>::empty());
        assert(r@ =~= seq![item]);
        r
    }

    /// The first item, if any.
    pub fn head(&self) -> (r: Option<&T>)
        ensures
            r is None <==> self@.len() == 0,
            r matches Some(x) ==> *x == self@[0],
    {
        match &self.head {
            Some(node) => Some(&node.item),
            None => None,
        }
    }

    /// The list with `item` put in front; `self` is shared, not copied.
    pub fn append(&self, item: T) -> (r: Self)
        ensures
            r@ == seq![item] + self@,
    {
        List { head: Some(Rc::new(Node { item: item, next: share(&self.head) })) }
    }

    /// The list without its first item (empty for the empty list).
    pub fn tail(&self) -> (r: Self)
        ensures
            r@ == suffix(self@, 1),
    {
        match &self.head {
            Some(node) => List { head: share(&node.next) },
            None => List { head: None },
        }
    }

    /// The list without its first `n` items.
    pub fn drop(&self, n: usize) -> (r: Self)
        ensures
            r@ == suffix(self@, n as nat),
    {
        let mut current = &self.head;
        let mut i: usize = 0;
        while i < n && current.is_some()
            invariant
                i <= n,
                i <= self@.len(),
                items(*current) == self@.skip(i as int),
            decreases n - i,
        {
            if let Some(node) = current {
                assert(self@.skip(i + 1) =~= self@.skip(i as int).drop_first());
                assert(self@.skip(i as int)[0] == node.item);
                current = &node.next;
            }
            i = i + 1;
        }
        if i < n {
            assert(self@.skip(i as int).len() == 0);
        }
        List { head: share(current) }
    }

    /// The list without the items at its front that satisfy `predicate`.
    pub fn drop_while<P: Fn(T) -> bool>(&self, predicate: P) -> (r: Self)
        requires
            forall|x: T| predicate.requires((x,)),
        ensures
            exists|k: int| satisfied_prefix(self@, predicate, k) && r@ == self@.skip(k),
    {
        let mut current = &self.head;
        let ghost mut k: int = 0;
        loop
            invariant
                0 <= k <= self@.len(),
                items(*current) == self@.skip(k),
                forall|x: T| predicate.requires((x,)),
                forall|i: int| 0 <= i < k ==> predicate.ensures((#[trigger] self@[i],), true),
            ensures
                satisfied_prefix(self@, predicate, k),
                items(*current) == self@.skip(k),
            decreases self@.len() - k,
        {
            match current {
                Some(node) => {
                    assert(self@.skip(k + 1) =~= self@.skip(k).drop_first());
                    assert(self@.skip(k)[0] == node.item);
                    if predicate(node.item) {
                        current = &node.next;
                        proof {
                            k = k + 1;
                        }
                    } else {
                        break ;
                    }
                },
                None => break ,
            }
        }
        List { head: share(current) }
    }

    /// The list in reverse order.
    pub fn reverse(&self) -> (r: Self)
        ensures
            r@ == self@.reverse(),
    {
        let mut current = &self.head;
        let mut ret = List::empty();
        let ghost mut k: int = 0;
        loop
            invariant
                0 <= k <= self@.len(),
                items(*current) == self@.skip(k),
                ret@ == self@.take(k).reverse(),
            ensures
                ret@ == self@.reverse(),
            decreases self@.len() - k,
        {
            match current {
                Some(node) => {
                    assert(self@.skip(k + 1) =~= self@.skip(k).drop_first());
                    assert(self@.skip(k)[0] == node.item);
                    assert(self@.take(k + 1).reverse() =~= seq![self@[k]] + self@.take(k).reverse());
                    ret = ret.append(node.item);
                    current = &node.next;
                    proof {
                        k = k + 1;
                    }
                },
                None => {
                    assert(self@.take(k) =~= self@);
                    break ;
                },
            }
        }
        ret
    }

    /// The first `n` items.
    pub fn take(&self, n: usize) -> (r: Self)
        ensures
            r@ == prefix(self@, n as nat),
    {
        let mut current = &self.head;
        let mut ret = List::empty();
        let mut i: usize = 0;
        while i < n && current.is_some()
            invariant
                i <= n,
                i <= self@.len(),
                items(*current) == self@.skip(i as int),
                ret@ == self@.take(i as int).reverse(),
            decreases n - i,
        {
            if let Some(node) = current {
                assert(self@.skip(i + 1) =~= self@.skip(i as int).drop_first());
                assert(self@.skip(i as int)[0] == node.item);
                assert(self@.take(i + 1).reverse() =~= seq![self@[i as int]] + self@.take(
                    i as int,
                ).reverse());
                ret = ret.append(node.item);
                current = &node.next;
            }
            i = i + 1;
        }
        if i < n {
            assert(self@.take(i as int) =~= self@);
        }
        assert(self@.take(i as int).reverse().reverse() =~= self@.take(i as int));
        ret.reverse()
    }

    /// The items at the front that satisfy `predicate`.
    pub fn take_while<P: Fn(T) -> bool>(&self, predicate: P) -> (r: Self)
        requires
            forall|x: T| predicate.requires((x,)),
        ensures
            exists|k: int| satisfied_prefix(self@, predicate, k) && r@ == self@.take(k),
    {
        let mut current = &self.head;
        let mut ret = List::empty();
        let ghost mut k: int = 0;
        loop
            invariant
                0 <= k <= self@.len(),
                items(*current) == self@.skip(k),
                ret@ == self@.take(k).reverse(),
                forall|x: T| predicate.requires((x,)),
                forall|i: int| 0 <= i < k ==> predicate.ensures((#[trigger] self@[i],), true),
            ensures
                satisfied_prefix(self@, predicate, k),
                ret@ == self@.take(k).reverse(),
            decreases self@.len() - k,
        {
            match current {
                Some(node) => {
                    assert(self@.skip(k + 1) =~= self@.skip(k).drop_first());
                    assert(self@.skip(k)[0] == node.item);
                    assert(self@.take(k + 1).reverse() =~= seq![self@[k]] + self@.take(k).reverse());
                    if predicate(node.item) {
                        current = &node.next;
                        ret = ret.append(node.item);
                        proof {
                            k = k + 1;
                        }
                    } else {
                        break ;
                    }
                },
                None => break ,
            }
        }
        assert(self@.take(k).reverse().reverse() =~= self@.take(k));
        ret.reverse()
    }

    /// The list of `map` applied to each item, in order.
    pub fn map<R: Copy, M: Fn(T) -> R>(&self, map: M) -> (r: List<R>)
        requires
            forall|x: T| map.requires((x,)),
        ensures
            r@.len() == self@.len(),
            forall|i: int| 0 <= i < self@.len() ==> map.ensures((self@[i],), #[trigger] r@[i]),
    {
        let mut current = &self.head;
        let mut ret: List<R> = List::empty();
        let ghost mut k: int = 0;
        loop
            invariant
                0 <= k <= self@.len(),
                items(*current) == self@.skip(k),
                ret@.len() == k,
                forall|x: T| map.requires((x,)),
                forall|j: int| 0 <= j < k ==> map.ensures((self@[k - 1 - j],), #[trigger] ret@[j]),
            ensures
                k == self@.len(),
                ret@.len() == k,
                forall|j: int| 0 <= j < k ==> map.ensures((self@[k - 1 - j],), #[trigger] ret@[j]),
            decreases self@.len() - k,
        {
            match current {
                Some(node) => {
                    assert(self@.skip(k + 1) =~= self@.skip(k).drop_first());
                    assert(self@.skip(k)[0] == node.item);
                    let y = map(node.item);
                    ret = ret.append(y);
                    current = &node.next;
                    proof {
                        k = k + 1;
                    }
                },
                None => break ,
            }
        }
        let r = ret.reverse();
        assert forall|i: int| 0 <= i < self@.len() implies map.ensures((self@[i],), #[trigger] r@[i]) by {
            assert(r@[i] == ret@[k - 1 - i]);
            assert(self@[k - 1 - (k - 1 - i)] == self@[i]);
        }
        r
    }

    /// The list whose head is the last item of `items`: each item in turn is
    /// put in front.
    pub fn from(items: Vec<T>) -> (r: Self)
        ensures
            r@ == items@.reverse(),
    {
        let mut ret = List::empty();
        let mut i: usize = 0;
        while i < items.len()
            invariant
                i <= items@.len(),
                ret@ == items@.take(i as int).reverse(),
            decreases items@.len() - i,
        {
            assert(items@.take(i + 1).reverse() =~= seq![items@[i as int]] + items@.take(
                i as int,
            ).reverse());
            ret = ret.append(items[i]);
            i = i + 1;
        }
        assert(items@.take(i as int) =~= items@);
        ret
    }
}

} // verus!
