//! A first-in first-out queue kept as a singly linked list.
use vstd::prelude::*;

verus! {

/// A link of the queue: a value and the rest of the queue behind it.
pub struct QueueNode<T> {
    val: T,
    next_node: Option<Box<QueueNode<T>>>,
}

/// A queue; its front is `start_node`.
pub struct Queue<T> {
    start_node: Option<Box<QueueNode<T>>>,
}

/// The values of a chain of links, front first.
pub closed spec fn values_from<T>(link: Option<Box<QueueNode<T>>>) -> Seq<T>
    decreases link,
{
    match link {
        None => Seq::empty(),
        Some(n) => seq![n.val] + values_from(n.next_node),
    }
}

impl<T> Queue<T> {
    /// An empty queue.
    pub fn new() -> (q: Self)
        ensures
            q@ == Seq::<T>::empty(),
    {
        Queue { start_node: None }
    }

    /// Puts `value` at the back of the queue.
    pub fn enqueue(&mut self, value: T)
        ensures
            final(self)@ == old(self)@.push(value),
    {
        let new_node = Box::new(QueueNode { val: value, next_node: None });
        let ghost all = self@;
        let mut head = None;
        std::mem::swap(&mut head, &mut self.start_node);
        let mut current = &mut head;
        let ghost mut k: int = 0;
        loop
            invariant_except_break
                0 <= k <= all.len(),
                values_from(*current) == all.subrange(k, all.len() as int),
                values_from(after_borrow(head)) == all.subrange(0, k) + values_from(*final(current)),
            ensures
                values_from(*current) == Seq::<T>::empty(),
                k == all.len(),
                values_from(after_borrow(head)) == all.subrange(0, k) + values_from(*final(current)),
            decreases all.len() - k,
        {
            let ghost s = values_from(*current);
            let ghost fin = *final(current);
            match current {
                Some(node) => {
                    proof {
                        assert(s == seq![node.val] + values_from(node.next_node));
                        assert(s.drop_first() =~= all.subrange(k + 1, all.len() as int));
                    }
                    let ghost v = node.val;
                    current = &mut node.next_node;
                    proof {
                        assert(values_from(fin) == seq![v] + values_from(*final(current)));
                        assert(all[k] == s[0]);
                        assert(all.subrange(0, k + 1) =~= all.subrange(0, k) + seq![v]);
                        k = k + 1;
                    }
                },
                None => {
                    break;
                },
            }
        }
        *current = Some(new_node);
        proof {
            assert(values_from::<T>(None) == Seq::<T>::empty());
        }
        self.start_node = head;
        proof {
            assert(all.subrange(0, k) =~= all);
        }
    }

    /// Takes the value at the front of the queue, or `None` where the queue is empty.
    pub fn dequeue(&mut self) -> (r: Option<T>)
        ensures
            old(self)@.len() == 0 ==> r is None && final(self)@ == old(self)@,
            old(self)@.len() > 0 ==> r == Some(old(self)@[0]) && final(self)@ == old(self)@.drop_first(),
    {
        if let Some(i) = self.start_node.take() {
            proof {
                assert(old(self)@ =~= seq![i.val] + values_from(i.next_node));
            }
            self.start_node = i.next_node;
            return Some(i.val);
        }
        None
    }

    /// References to the values of the queue, front first.
    pub fn values(&self) -> (v: Vec<&T>)
        ensures
            v@.len() == self@.len(),
            forall|i: int| 0 <= i < v@.len() ==> *v@[i] == self@[i],
    {
        let mut v: Vec<&T> = Vec::new();
        let mut current = &self.start_node;
        let ghost all = self@;
        loop
            invariant_except_break
                v@.len() + values_from(*current).len() == all.len(),
                forall|j: int| 0 <= j < v@.len() ==> *v@[j] == all[j],
                values_from(*current) == all.subrange(v@.len() as int, all.len() as int),
            ensures
                v@.len() == all.len(),
                forall|j: int| 0 <= j < v@.len() ==> *v@[j] == all[j],
            decreases values_from(*current).len(),
        {
            match current {
                Some(i) => {
                    let ghost k = v@.len() as int;
                    proof {
                        assert(values_from(*current) == seq![i.val] + values_from(i.next_node));
                        assert(all[k] == values_from(*current)[0]);
                        let s = values_from(*current);
                        assert(s.drop_first() =~= values_from(i.next_node));
                        assert(s.drop_first() =~= all.subrange(k + 1, all.len() as int));
                    }
                    v.push(&i.val);
                    current = &i.next_node;
                },
                None => {
                    break;
                },
            }
        }
        v
    }
}

impl<T> View for Queue<T> {
    type V = Seq<T>;

    /// The values of the queue, front first.
    closed spec fn view(&self) -> Seq<T> {
        values_from(self.start_node)
    }
}

} // verus!
