//! The list with its nodes behind [`Arc`]: a handle may be sent to another
//! thread or shared among threads.

use crate::skew::{
    bit_length, lemma_drop_keeps_skew, lemma_merge_keeps_skew, lemma_push_keeps_skew,
    lemma_skew_length_bound, lemma_split_keeps_skew, lemma_total_push, skew_digits, total,
};
use std::sync::Arc;
use vstd::arithmetic::power2::pow2;
use vstd::prelude::*;

verus! {

/// A perfect binary tree. Every node holds one element, which comes before
/// the elements of its left subtree, and those before the right subtree's.
#[derive(Debug, PartialEq, Eq, Hash)]
enum Tree<T> {
    Leaf(Arc<T>),
    Node(Arc<T>, Arc<Tree<T>>, Arc<Tree<T>>),
}

impl<T> Tree<T> {
    /// The elements in list order.
    spec fn elems(&self) -> Seq<T>
        decreases self,
    {
        match self {
            Tree::Leaf(x) => seq![**x],
            Tree::Node(x, left, right) => seq![**x] + left.elems() + right.elems(),
        }
    }

    /// The tree is perfect and holds `size` elements.
    spec fn perfect(&self, size: nat) -> bool
        decreases self,
    {
        match self {
            Tree::Leaf(_) => size == 1,
            Tree::Node(_, left, right) => {
                &&& size >= 3
                &&& size % 2 == 1
                &&& left.perfect(size / 2)
                &&& right.perfect(size / 2)
            },
        }
    }

    proof fn lemma_perfect_len(&self, size: nat)
        requires
            self.perfect(size),
        ensures
            self.elems().len() == size,
        decreases self,
    {
        match self {
            Tree::Leaf(_) => {},
            Tree::Node(_, left, right) => {
                left.lemma_perfect_len(size / 2);
                right.lemma_perfect_len(size / 2);
            },
        }
    }

    /// The element at `index`, in a tree known to hold `size` elements.
    fn lookup(&self, size: usize, index: usize) -> (r: Option<Arc<T>>)
        requires
            self.perfect(size as nat),
        ensures
            index < size ==> (r matches Some(x) && *x == self.elems()[index as int]),
            index >= size ==> r is None,
        decreases self,
    {
        match self {
            Tree::Leaf(x) => {
                if index == 0 {
                    Some(x.clone())
                } else {
                    None
                }
            },
            Tree::Node(x, t1, t2) => {
                if index == 0 {
                    Some(x.clone())
                } else {
                    let half = size / 2;
                    proof {
                        t1.lemma_perfect_len(half as nat);
                        t2.lemma_perfect_len(half as nat);
                    }
                    if index <= half {
                        t1.lookup(half, index - 1)
                    } else {
                        t2.lookup(half, index - 1 - half)
                    }
                }
            },
        }
    }
}

/// The spine: trees with their sizes, smallest first.
#[derive(Debug, PartialEq, Eq, Hash)]
enum Pair<T> {
    Nil,
    Cons((usize, Arc<Tree<T>>), Arc<Pair<T>>),
}

impl<T> Pair<T> {
    /// The elements of all trees, front to back.
    spec fn elems(&self) -> Seq<T>
        decreases self,
    {
        match self {
            Pair::Nil => Seq::empty(),
            Pair::Cons((_, tree), rest) => tree.elems() + rest.elems(),
        }
    }

    /// The cached sizes, front to back.
    spec fn sizes(&self) -> Seq<nat>
        decreases self,
    {
        match self {
            Pair::Nil => Seq::empty(),
            Pair::Cons((size, _), rest) => seq![*size as nat] + rest.sizes(),
        }
    }

    /// Every tree is perfect and holds as many elements as its cached size says.
    spec fn trees_fit(&self) -> bool
        decreases self,
    {
        match self {
            Pair::Nil => true,
            Pair::Cons((size, tree), rest) => tree.perfect(*size as nat) && rest.trees_fit(),
        }
    }

    spec fn wf(&self) -> bool {
        self.trees_fit() && skew_digits(self.sizes())
    }

    proof fn lemma_sizes_add_up(&self)
        requires
            self.trees_fit(),
        ensures
            self.elems().len() == total(self.sizes()),
            self.sizes().len() <= self.elems().len(),
        decreases self,
    {
        match self {
            Pair::Nil => {},
            Pair::Cons((size, tree), rest) => {
                tree.lemma_perfect_len(*size as nat);
                rest.lemma_sizes_add_up();
                lemma_total_push(*size as nat, rest.sizes());
            },
        }
    }

    /// The number of trees.
    fn count(&self) -> (n: usize)
        requires
            self.trees_fit(),
            self.elems().len() <= usize::MAX,
        ensures
            n == self.sizes().len(),
        decreases self,
    {
        match self {
            Pair::Nil => 0,
            Pair::Cons((size, tree), rest) => {
                proof {
                    rest.lemma_sizes_add_up();
                }
                1 + rest.count()
            },
        }
    }

    fn cons(&self, x: Arc<T>) -> (r: Pair<T>)
        requires
            self.wf(),
            self.elems().len() < usize::MAX,
        ensures
            r.wf(),
            r.elems() == seq![*x] + self.elems(),
    {
        match self {
            Pair::Nil => {
                proof {
                    lemma_push_keeps_skew(self.sizes());
                }
                let r = Pair::Cons((1, Arc::new(Tree::Leaf(x))), Arc::new(Pair::Nil));
                assert(r.sizes() =~= seq![1nat] + self.sizes());
                assert(r.elems() =~= seq![*x] + self.elems());
                r
            },
            Pair::Cons((size1, t1), nxt) => match &**nxt {
                Pair::Cons((size2, t2), rest) => {
                    proof {
                        assert(nxt.trees_fit());
                        assert(nxt.sizes() == seq![*size2 as nat] + rest.sizes());
                        assert(nxt.elems() == t2.elems() + rest.elems());
                        t1.lemma_perfect_len(*size1 as nat);
                        t2.lemma_perfect_len(*size2 as nat);
                    }
                    if *size1 == *size2 {
                        proof {
                            lemma_merge_keeps_skew(self.sizes());
                        }
                        let r = Pair::Cons(
                            (1 + *size1 + *size2, Arc::new(Tree::Node(x, t1.clone(), t2.clone()))),
                            rest.clone(),
                        );
                        assert(self.sizes().skip(2) =~= rest.sizes());
                        assert(r.elems() =~= seq![*x] + self.elems());
                        r
                    } else {
                        proof {
                            lemma_push_keeps_skew(self.sizes());
                        }
                        let r = Pair::Cons(
                            (1, Arc::new(Tree::Leaf(x))),
                            Arc::new(
                                Pair::Cons(
                                    (*size1, t1.clone()),
                                    Arc::new(Pair::Cons((*size2, t2.clone()), rest.clone())),
                                ),
                            ),
                        );
                        assert(r.sizes() =~= seq![1nat] + self.sizes());
                        assert(r.elems() =~= seq![*x] + self.elems());
                        r
                    }
                },
                Pair::Nil => {
                    proof {
                        lemma_push_keeps_skew(self.sizes());
                    }
                    let r = Pair::Cons(
                        (1, Arc::new(Tree::Leaf(x))),
                        Arc::new(Pair::Cons((*size1, t1.clone()), Arc::new(Pair::Nil))),
                    );
                    assert(r.sizes() =~= seq![1nat] + self.sizes());
                    assert(r.elems() =~= seq![*x] + self.elems());
                    r
                },
            },
        }
    }

    fn uncons(&self) -> (r: Option<(Arc<T>, Arc<Pair<T>>)>)
        requires
            self.wf(),
        ensures
            self.elems().len() == 0 ==> r is None,
            self.elems().len() > 0 ==> (r matches Some((x, rest)) && *x == self.elems()[0]
                && rest.elems() == self.elems().skip(1) && rest.wf()),
    {
        match self {
            Pair::Nil => None,
            Pair::Cons((size, t), rest) => {
                proof {
                    t.lemma_perfect_len(*size as nat);
                }
                match &**t {
                    Tree::Leaf(x) => {
                        proof {
                            lemma_drop_keeps_skew(self.sizes());
                        }
                        assert(self.sizes().skip(1) =~= rest.sizes());
                        assert(self.elems().skip(1) =~= rest.elems());
                        Some((x.clone(), rest.clone()))
                    },
                    Tree::Node(x, t1, t2) => {
                        let half = *size / 2;
                        proof {
                            lemma_split_keeps_skew(self.sizes());
                            t1.lemma_perfect_len(half as nat);
                            t2.lemma_perfect_len(half as nat);
                        }
                        let second = Arc::new(Pair::Cons((half, t2.clone()), rest.clone()));
                        let split = Arc::new(Pair::Cons((half, t1.clone()), second));
                        proof {
                            assert(second.trees_fit());
                            assert(second.sizes() =~= seq![half as nat] + rest.sizes());
                            assert(second.elems() =~= t2.elems() + rest.elems());
                            assert(split.sizes() =~= seq![half as nat, half as nat]
                                + self.sizes().skip(1));
                            assert(split.elems() =~= self.elems().skip(1));
                        }
                        Some((x.clone(), split))
                    },
                }
            },
        }
    }

    fn get(&self, index: usize) -> (r: Option<Arc<T>>)
        requires
            self.trees_fit(),
        ensures
            index < self.elems().len() ==> (r matches Some(x) && *x == self.elems()[index as int]),
            index >= self.elems().len() ==> r is None,
        decreases self,
    {
        match self {
            Pair::Nil => None,
            Pair::Cons((size, tree), cdr) => {
                proof {
                    tree.lemma_perfect_len(*size as nat);
                }
                if index < *size {
                    tree.lookup(*size, index)
                } else {
                    cdr.get(index - *size)
                }
            },
        }
    }
}

/// What may be handed to [`Fral::cons`]: a plain value, or one that already
/// sits behind an [`Arc`].
pub trait AsArc<T> {
    /// The element that this stands for.
    spec fn payload(&self) -> T;

    /// Puts the element behind an [`Arc`], or hands on the `Arc` that holds it.
    fn as_arc(self) -> (r: Arc<T>)
        ensures
            *r == self.payload(),
    ;
}

impl<T> AsArc<T> for T {
    open spec fn payload(&self) -> T {
        *self
    }

    fn as_arc(self) -> (r: Arc<T>) {
        Arc::new(self)
    }
}

impl<T> AsArc<T> for Arc<T> {
    open spec fn payload(&self) -> T {
        **self
    }

    fn as_arc(self) -> (r: Arc<T>) {
        self
    }
}

/// A persistent random-access list. Its view is the sequence of its
/// elements, front first.
#[derive(Debug, PartialEq, Eq, Hash)]
pub struct Fral<T> {
    size: usize,
    pair: Arc<Pair<T>>,
}

impl<T> View for Fral<T> {
    type V = Seq<T>;

    closed spec fn view(&self) -> Seq<T> {
        self.pair.elems()
    }
}

impl<T> Fral<T> {
    /// The representation invariant: every tree is perfect and as large as
    /// the spine says, the sizes are skew-binary digits, and the cached
    /// length is their sum.
    #[verifier::type_invariant]
    pub closed spec fn wf(&self) -> bool {
        self.pair.wf() && self.size == self.pair.elems().len()
    }

    /// The sizes of the trees that hold the elements, front to back.
    pub closed spec fn segment_sizes(&self) -> Seq<nat> {
        self.pair.sizes()
    }

    /// Construct an empty list.
    pub fn new() -> (r: Fral<T>)
        ensures
            r@ == Seq::<T>::empty(),
    {
        Self::default()
    }

    /// The element at `index`, counting from the front, or `None` where the
    /// list has no such position.
    pub fn get(&self, index: usize) -> (r: Option<Arc<T>>)
        ensures
            match r {
                Some(x) => index < self@.len() && *x == self@[index as int],
                None => index >= self@.len(),
            },
    {
        proof {
            use_type_invariant(self);
        }
        self.pair.get(index)
    }

    /// A list with `x` in front of the elements of this one.
    pub fn cons<R>(&self, x: R) -> (r: Fral<T>) where R: AsArc<T>
        requires
            self@.len() < usize::MAX,
        ensures
            r@ == seq![x.payload()] + self@,
            r@.len() == self@.len() + 1,
            r@[0] == x.payload(),
            forall|i: int| 0 <= i < self@.len() ==> r@[i + 1] == self@[i],
    {
        proof {
            use_type_invariant(self);
        }
        Fral { size: 1 + self.size, pair: Arc::new(self.pair.cons(x.as_arc())) }
    }

    /// The first element and the list of the others, or `None` for the
    /// empty list.
    pub fn uncons(&self) -> (r: Option<(Arc<T>, Fral<T>)>)
        ensures
            match r {
                Some((head, tail)) => {
                    &&& self@.len() > 0
                    &&& *head == self@[0]
                    &&& tail@ == self@.skip(1)
                    &&& tail@.len() == self@.len() - 1
                },
                None => self@.len() == 0,
            },
    {
        proof {
            use_type_invariant(self);
        }
        let size = self.size.wrapping_sub(1);
        match self.pair.uncons() {
            None => None,
            Some((x, pair)) => Some((x, Fral { size, pair })),
        }
    }

    /// Returns true iff the list contains no elements.
    pub fn is_empty(&self) -> (b: bool)
        ensures
            b == (self@.len() == 0),
    {
        proof {
            use_type_invariant(self);
        }
        self.size == 0
    }

    /// The number of elements.
    pub fn len(&self) -> (n: usize)
        ensures
            n == self@.len(),
    {
        proof {
            use_type_invariant(self);
        }
        self.size
    }

    /// The number of trees that hold the elements: for a list of `n`
    /// elements, at most as many as `n + 1` has binary digits.
    pub fn segment_count(&self) -> (n: usize)
        ensures
            n == self.segment_sizes().len(),
            (n == 0) == (self@.len() == 0),
            n <= bit_length(self@.len() + 1),
            n >= 1 ==> pow2((n - 1) as nat) <= self@.len() + 1,
    {
        proof {
            use_type_invariant(self);
            lemma_segments_bound(*self);
        }
        self.pair.count()
    }

    /// The list made by prepending the items one after the other, so that
    /// the last item comes first. Reverse the items beforehand to have the
    /// list in their order.
    pub fn from_iter<R>(items: Vec<R>) -> (r: Fral<T>) where R: AsArc<T>
        ensures
            r@ == payloads(items@).reverse(),
            r@.len() == items@.len(),
            forall|i: int|
                0 <= i < items@.len() ==> #[trigger] r@[i]
                    == items@[items@.len() - 1 - i].payload(),
    {
        let ghost all = items@;
        assert(all.len() == items.len());
        let mut f = Fral::new();
        for x in it: items
            invariant
                it.seq() == all,
                all.len() <= usize::MAX,
                f@ == payloads(all.take(it.index())).reverse(),
        {
            f = f.cons(x);
        }
        f
    }

    /// An iterator over the elements, front first. The list itself stays as
    /// it is.
    pub fn iter(&self) -> (it: Iter<T>)
        ensures
            it@ == self@,
    {
        Iter { fral: self.clone() }
    }

    /// An iterator that takes the list over.
    pub fn into_iter(self) -> (it: Iter<T>)
        ensures
            it@ == self@,
    {
        Iter { fral: self }
    }
}

impl<T> Clone for Fral<T> {
    /// Another handle on the same list; no element is copied.
    fn clone(&self) -> (r: Fral<T>)
        ensures
            r@ == self@,
    {
        proof {
            use_type_invariant(self);
        }
        Fral { size: self.size, pair: self.pair.clone() }
    }
}

impl<T> Default for Fral<T> {
    fn default() -> (r: Fral<T>)
        ensures
            r@ == Seq::<T>::empty(),
    {
        Fral { size: 0, pair: Arc::new(Pair::Nil) }
    }
}

/// Walks a list from the front. Its view is what is still to come.
pub struct Iter<T> {
    fral: Fral<T>,
}

impl<T> View for Iter<T> {
    type V = Seq<T>;

    closed spec fn view(&self) -> Seq<T> {
        self.fral@
    }
}

impl<T> Iter<T> {
    /// Takes the next element off the front.
    pub fn next(&mut self) -> (r: Option<Arc<T>>)
        ensures
            match r {
                Some(x) => {
                    &&& old(self)@.len() > 0
                    &&& *x == old(self)@[0]
                    &&& final(self)@ == old(self)@.skip(1)
                },
                None => old(self)@.len() == 0 && final(self)@ == old(self)@,
            },
    {
        if let Some((item, fral)) = self.fral.uncons() {
            self.fral = fral;
            Some(item)
        } else {
            None
        }
    }

    /// The number of elements still to come.
    pub fn len(&self) -> (n: usize)
        ensures
            n == self@.len(),
    {
        self.fral.len()
    }

    /// Lower and upper bound on what is still to come: both are the exact
    /// number.
    pub fn size_hint(&self) -> (r: (usize, Option<usize>))
        ensures
            r.0 == self@.len(),
            r.1 == Some(r.0),
    {
        let len = self.fral.len();
        (len, Some(len))
    }

    /// Uses the iterator up and says how many elements were left.
    pub fn count(self) -> (n: usize)
        ensures
            n == self@.len(),
    {
        self.len()
    }

    /// Uses the iterator up and hands out the last element, if there is one.
    pub fn last(self) -> (r: Option<Arc<T>>)
        ensures
            match r {
                Some(x) => self@.len() > 0 && *x == self@[self@.len() - 1],
                None => self@.len() == 0,
            },
    {
        let len = self.fral.len();
        if len == 0 {
            None
        } else {
            self.fral.get(len - 1)
        }
    }

    /// Uses the iterator up and hands out everything that was left, in order.
    pub fn collect(self) -> (v: Vec<Arc<T>>)
        ensures
            v@.len() == self@.len(),
            forall|i: int| 0 <= i < self@.len() ==> *v@[i] == self@[i],
    {
        let ghost all = self@;
        let mut rest = self;
        let mut out: Vec<Arc<T>> = Vec::new();
        loop
            invariant
                out@.len() + rest@.len() == all.len(),
                rest@ == all.skip(out@.len() as int),
                forall|i: int| 0 <= i < out@.len() ==> *out@[i] == all[i],
            ensures
                out@.len() == all.len(),
                forall|i: int| 0 <= i < all.len() ==> *out@[i] == all[i],
            decreases rest@.len(),
        {
            match rest.next() {
                Some(x) => {
                    out.push(x);
                },
                None => {
                    break;
                },
            }
        }
        out
    }
}

/// The elements that a sequence of items stands for.
pub open spec fn payloads<T, R: AsArc<T>>(items: Seq<R>) -> Seq<T> {
    Seq::new(items.len(), |i: int| items[i].payload())
}

/// Length: `cons` makes a list one longer.
pub proof fn lemma_cons_len<T, R: AsArc<T>>(l: Fral<T>, x: R, longer: Fral<T>)
    requires
        call_ensures(Fral::<T>::cons::<R>, (&l, x), longer),
    ensures
        longer@.len() == l@.len() + 1,
{
}

/// Length: `uncons` makes a list one shorter.
pub proof fn lemma_uncons_len<T>(l: Fral<T>, head: Arc<T>, tail: Fral<T>)
    requires
        call_ensures(Fral::<T>::uncons, (&l,), Some((head, tail))),
    ensures
        l@.len() > 0,
        tail@.len() == l@.len() - 1,
{
}

/// Order: after `cons` the new element is at index 0, and what was at index
/// `i` is at index `i + 1`.
pub proof fn lemma_cons_order<T, R: AsArc<T>>(l: Fral<T>, x: R, longer: Fral<T>, i: int)
    requires
        call_ensures(Fral::<T>::cons::<R>, (&l, x), longer),
        0 <= i < l@.len(),
    ensures
        longer@[0] == x.payload(),
        longer@[i + 1] == l@[i],
{
}

/// Round trip: taking the first element off a list and putting it back
/// gives a list with the same length and the same element at every index.
pub proof fn lemma_uncons_then_cons<T>(l: Fral<T>, head: Arc<T>, tail: Fral<T>, again: Fral<T>)
    requires
        call_ensures(Fral::<T>::uncons, (&l,), Some((head, tail))),
        call_ensures(Fral::<T>::cons::<Arc<T>>, (&tail, head), again),
    ensures
        again@.len() == l@.len(),
        forall|i: int| 0 <= i < l@.len() ==> again@[i] == l@[i],
        again@ == l@,
{
}

/// Out of range: `get` finds nothing at or past the length.
pub proof fn lemma_get_out_of_range<T>(l: Fral<T>, index: usize, found: Option<Arc<T>>)
    requires
        call_ensures(Fral::<T>::get, (&l, index), found),
        index >= l@.len(),
    ensures
        found is None,
{
}

/// Out of range: `uncons` takes nothing off the empty list.
pub proof fn lemma_uncons_empty<T>(l: Fral<T>, taken: Option<(Arc<T>, Fral<T>)>)
    requires
        call_ensures(Fral::<T>::uncons, (&l,), taken),
        l@.len() == 0,
    ensures
        taken is None,
{
}

/// Persistence: prepending to a list leaves the list as it was. What `len`
/// and `get` answered on it before the call, they answer after it.
pub proof fn lemma_cons_is_persistent<T, R: AsArc<T>>(
    l: Fral<T>,
    x: R,
    longer: Fral<T>,
    index: usize,
    len_before: usize,
    get_before: Option<Arc<T>>,
    len_after: usize,
    get_after: Option<Arc<T>>,
)
    requires
        call_ensures(Fral::<T>::len, (&l,), len_before),
        call_ensures(Fral::<T>::get, (&l, index), get_before),
        call_ensures(Fral::<T>::cons::<R>, (&l, x), longer),
        call_ensures(Fral::<T>::len, (&l,), len_after),
        call_ensures(Fral::<T>::get, (&l, index), get_after),
    ensures
        len_after == len_before,
        get_after == get_before,
{
}

/// The shape of the spine: the tree sizes are skew-binary digits, and they
/// add up to the length.
pub proof fn lemma_spine_is_skew_binary<T>(l: Fral<T>)
    requires
        l.wf(),
    ensures
        skew_digits(l.segment_sizes()),
        total(l.segment_sizes()) == l@.len(),
{
    l.pair.lemma_sizes_add_up();
}

/// The skew-binary bound: a list of `n` elements is kept in at most as many
/// trees as `n + 1` has binary digits.
pub proof fn lemma_segments_bound<T>(l: Fral<T>)
    requires
        l.wf(),
    ensures
        l.segment_sizes().len() <= bit_length(l@.len() + 1),
        l.segment_sizes().len() >= 1 ==> pow2((l.segment_sizes().len() - 1) as nat) <= l@.len()
            + 1,
{
    lemma_spine_is_skew_binary(l);
    lemma_skew_length_bound(l.segment_sizes());
}

} // verus!
