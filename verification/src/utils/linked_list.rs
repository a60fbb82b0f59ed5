//! A singly linked list whose nodes live in the slots of one vector and name
//! each other by slot index. Slots of deleted nodes are chained up and used
//! again.

use vstd::prelude::*;
use vstd::std_specs::cmp::PartialEqSpec;

verus! {

/// The index that names no slot: the end of a chain.
pub const NIL: usize = usize::MAX;

/// One slot: a list node when it holds data, else a link of the spare chain.
struct Node<T> {
    data: Option<T>,
    next: usize,
}

impl<T> Node<T> {
    fn new(data: T, next: usize) -> (node: Node<T>)
        ensures
            node.data == Some(data),
            node.next == next,
    {
        Node { data: Some(data), next }
    }
}

/// Slot index `i` of a chain, or `NIL` behind its end.
pub open spec fn chain_at(chain: Seq<int>, i: int) -> int {
    if 0 <= i < chain.len() {
        chain[i]
    } else {
        NIL as int
    }
}

/// Index, from `k` on, of the first element equal to `value`; the length if
/// there is none.
pub open spec fn first_match_from<T: PartialEq>(s: Seq<T>, value: T, k: int) -> int
    decreases s.len() - k,
{
    if k < 0 || k >= s.len() {
        s.len() as int
    } else if s[k].eq_spec(&value) {
        k
    } else {
        first_match_from(s, value, k + 1)
    }
}

/// Whether `chain` names distinct slots, each linked to the next, that hold
/// data or not as `used` says.
#[verifier::opaque]
spec fn chained<T>(slots: Seq<Node<T>>, chain: Seq<int>, used: bool) -> bool {
    &&& slots.len() <= usize::MAX
    &&& forall|i: int|
        0 <= i < chain.len() ==> {
            &&& 0 <= #[trigger] chain[i] < slots.len()
            &&& slots[chain[i]].data.is_some() == used
            &&& slots[chain[i]].next == chain_at(chain, i + 1)
        }
    &&& forall|i: int, j: int| 0 <= i < j < chain.len() ==> #[trigger] chain[i] != #[trigger] chain[j]
}

/// What a chain says of its link `i`.
proof fn lemma_link<T>(slots: Seq<Node<T>>, chain: Seq<int>, used: bool, i: int)
    requires
        chained(slots, chain, used),
        0 <= i < chain.len(),
    ensures
        0 <= chain[i] < slots.len() <= usize::MAX,
        chain[i] != NIL,
        slots[chain[i]].data.is_some() == used,
        slots[chain[i]].next == chain_at(chain, i + 1),
{
    reveal(chained);
}

/// Two links of a chain name different slots.
proof fn lemma_distinct<T>(slots: Seq<Node<T>>, chain: Seq<int>, used: bool, i: int, j: int)
    requires
        chained(slots, chain, used),
        0 <= i < chain.len(),
        0 <= j < chain.len(),
        i != j,
    ensures
        chain[i] != chain[j],
{
    reveal(chained);
}

/// A slot of the list's chain is no slot of the spare chain.
proof fn lemma_apart<T>(slots: Seq<Node<T>>, order: Seq<int>, spare: Seq<int>, i: int, j: int)
    requires
        chained(slots, order, true),
        chained(slots, spare, false),
        0 <= i < order.len(),
        0 <= j < spare.len(),
    ensures
        order[i] != spare[j],
{
    lemma_link(slots, order, true, i);
    lemma_link(slots, spare, false, j);
}

/// The facts that make a chain.
proof fn lemma_chained<T>(slots: Seq<Node<T>>, chain: Seq<int>, used: bool)
    requires
        slots.len() <= usize::MAX,
        forall|i: int|
            0 <= i < chain.len() ==> {
                &&& 0 <= #[trigger] chain[i] < slots.len()
                &&& slots[chain[i]].data.is_some() == used
                &&& slots[chain[i]].next == chain_at(chain, i + 1)
            },
        forall|i: int, j: int| 0 <= i < j < chain.len() ==> #[trigger] chain[i] != #[trigger] chain[j],
    ensures
        chained(slots, chain, used),
{
    reveal(chained);
}

/// A chain stays one in slots that differ from the old ones only outside
/// it.
proof fn lemma_chain_kept<T>(s0: Seq<Node<T>>, s1: Seq<Node<T>>, chain: Seq<int>, used: bool)
    requires
        chained(s0, chain, used),
        s0.len() <= s1.len() <= usize::MAX,
        forall|i: int| 0 <= i < chain.len() ==> s1[#[trigger] chain[i]] == s0[chain[i]],
    ensures
        chained(s1, chain, used),
{
    assert forall|i: int| 0 <= i < chain.len() implies {
        &&& 0 <= #[trigger] chain[i] < s1.len()
        &&& s1[chain[i]].data.is_some() == used
        &&& s1[chain[i]].next == chain_at(chain, i + 1)
    } by {
        lemma_link(s0, chain, used, i);
    }
    assert forall|i: int, j: int| 0 <= i < j < chain.len() implies #[trigger] chain[i]
        != #[trigger] chain[j] by {
        lemma_distinct(s0, chain, used, i, j);
    }
    lemma_chained(s1, chain, used);
}

/// A chain stays one in slots that have the links of the old ones and hold
/// data where the old ones do.
proof fn lemma_same_shape<T>(s0: Seq<Node<T>>, s1: Seq<Node<T>>, chain: Seq<int>, used: bool)
    requires
        chained(s0, chain, used),
        s0.len() == s1.len(),
        forall|x: int|
            0 <= x < s0.len() ==> (#[trigger] s1[x]).next == s0[x].next && s1[x].data.is_some()
                == s0[x].data.is_some(),
    ensures
        chained(s1, chain, used),
{
    lemma_bounded(s0, chain, used);
    assert forall|i: int| 0 <= i < chain.len() implies {
        &&& 0 <= #[trigger] chain[i] < s1.len()
        &&& s1[chain[i]].data.is_some() == used
        &&& s1[chain[i]].next == chain_at(chain, i + 1)
    } by {
        lemma_link(s0, chain, used, i);
    }
    assert forall|i: int, j: int| 0 <= i < j < chain.len() implies #[trigger] chain[i]
        != #[trigger] chain[j] by {
        lemma_distinct(s0, chain, used, i, j);
    }
    lemma_chained(s1, chain, used);
}

/// Index in `chain` of link `i` of the chain without link `k`.
spec fn uncut(k: int, i: int) -> int {
    if i < k {
        i
    } else {
        i + 1
    }
}

/// Link `i` of a chain without link `k`, and the link behind it, in terms
/// of the whole chain.
proof fn lemma_cut_at(chain: Seq<int>, k: int, i: int)
    requires
        0 <= k < chain.len(),
        0 <= i < chain.len() - 1,
    ensures
        chain.remove(k).len() == chain.len() - 1,
        chain.remove(k)[i] == chain[uncut(k, i)],
        chain_at(chain.remove(k), i + 1) == (if uncut(k, i) == k - 1 {
            chain_at(chain, k + 1)
        } else {
            chain_at(chain, uncut(k, i) + 1)
        }),
{
    let cut = chain.remove(k);
    if i + 1 < cut.len() {
        assert(cut[i + 1] == chain[uncut(k, i + 1)]);
    }
}

/// The slots have room for an index to name none of them.
proof fn lemma_bounded<T>(slots: Seq<Node<T>>, chain: Seq<int>, used: bool)
    requires
        chained(slots, chain, used),
    ensures
        slots.len() <= usize::MAX,
{
    reveal(chained);
}

/// A chain without its link `k`, whose slot the link before it now skips.
proof fn lemma_chain_cut<T>(s0: Seq<Node<T>>, s1: Seq<Node<T>>, chain: Seq<int>, used: bool, k: int)
    requires
        chained(s0, chain, used),
        0 <= k < chain.len(),
        s1.len() == s0.len(),
        forall|i: int|
            0 <= i < chain.len() && i != k && i != k - 1 ==> s1[#[trigger] chain[i]] == s0[chain[i]],
        k > 0 ==> s1[chain[k - 1]].data == s0[chain[k - 1]].data && s1[chain[k - 1]].next
            == s0[chain[k]].next,
    ensures
        chained(s1, chain.remove(k), used),
        chain_at(chain.remove(k), 0) == (if k == 0 {
            s0[chain[k]].next as int
        } else {
            chain_at(chain, 0)
        }),
        chain_at(chain.remove(k), chain.remove(k).len() - 1) == (if k == chain.len() - 1 {
            chain_at(chain, k - 1)
        } else {
            chain_at(chain, chain.len() - 1)
        }),
{
    let cut = chain.remove(k);
    lemma_link(s0, chain, used, k);
    lemma_bounded(s0, chain, used);
    assert forall|i: int| 0 <= i < cut.len() implies {
        &&& 0 <= #[trigger] cut[i] < s1.len()
        &&& s1[cut[i]].data.is_some() == used
        &&& s1[cut[i]].next == chain_at(cut, i + 1)
    } by {
        lemma_cut_at(chain, k, i);
        lemma_link(s0, chain, used, uncut(k, i));
    }
    assert forall|i: int, j: int| 0 <= i < j < cut.len() implies #[trigger] cut[i]
        != #[trigger] cut[j] by {
        lemma_cut_at(chain, k, i);
        lemma_cut_at(chain, k, j);
        lemma_distinct(s0, chain, used, uncut(k, i), uncut(k, j));
    }
    lemma_chained(s1, cut, used);
    if cut.len() > 0 {
        lemma_cut_at(chain, k, 0);
        lemma_cut_at(chain, k, cut.len() - 1);
    }
}

/// A chain with one more slot before it.
proof fn lemma_chain_front<T>(s0: Seq<Node<T>>, s1: Seq<Node<T>>, chain: Seq<int>, used: bool, x: int)
    requires
        chained(s0, chain, used),
        s1.len() == s0.len(),
        0 <= x < s1.len(),
        forall|i: int| 0 <= i < chain.len() ==> #[trigger] chain[i] != x && s1[chain[i]] == s0[chain[i]],
        s1[x].data.is_some() == used,
        s1[x].next == chain_at(chain, 0),
    ensures
        chained(s1, seq![x].add(chain), used),
{
    let longer = seq![x].add(chain);
    lemma_bounded(s0, chain, used);
    assert forall|i: int| 0 <= i < longer.len() implies {
        &&& 0 <= #[trigger] longer[i] < s1.len()
        &&& s1[longer[i]].data.is_some() == used
        &&& s1[longer[i]].next == chain_at(longer, i + 1)
    } by {
        if i > 0 {
            assert(longer[i] == chain[i - 1]);
            lemma_link(s0, chain, used, i - 1);
            if i + 1 < longer.len() {
                assert(longer[i + 1] == chain[i]);
            }
        } else if chain.len() > 0 {
            assert(longer[1] == chain[0]);
        }
    }
    assert forall|i: int, j: int| 0 <= i < j < longer.len() implies #[trigger] longer[i]
        != #[trigger] longer[j] by {
        assert(longer[j] == chain[j - 1]);
        if i > 0 {
            assert(longer[i] == chain[i - 1]);
            lemma_distinct(s0, chain, used, i - 1, j - 1);
        }
    }
    lemma_chained(s1, longer, used);
}

/// A chain with one more slot behind it, which its last link now names.
proof fn lemma_chain_back<T>(s0: Seq<Node<T>>, s1: Seq<Node<T>>, chain: Seq<int>, used: bool, x: int)
    requires
        chained(s0, chain, used),
        s0.len() <= s1.len() <= usize::MAX,
        0 <= x < s1.len(),
        forall|i: int| 0 <= i < chain.len() ==> #[trigger] chain[i] != x,
        forall|i: int| 0 <= i < chain.len() - 1 ==> s1[#[trigger] chain[i]] == s0[chain[i]],
        chain.len() > 0 ==> s1[chain[chain.len() - 1]].data == s0[chain[chain.len() - 1]].data
            && s1[chain[chain.len() - 1]].next == x,
        s1[x].data.is_some() == used,
        s1[x].next == NIL,
    ensures
        chained(s1, chain.push(x), used),
{
    let longer = chain.push(x);
    assert forall|i: int| 0 <= i < longer.len() implies {
        &&& 0 <= #[trigger] longer[i] < s1.len()
        &&& s1[longer[i]].data.is_some() == used
        &&& s1[longer[i]].next == chain_at(longer, i + 1)
    } by {
        if i < chain.len() {
            assert(longer[i] == chain[i]);
            lemma_link(s0, chain, used, i);
            if i + 1 < chain.len() {
                assert(longer[i + 1] == chain[i + 1]);
            }
        }
    }
    assert forall|i: int, j: int| 0 <= i < j < longer.len() implies #[trigger] longer[i]
        != #[trigger] longer[j] by {
        assert(longer[i] == chain[i]);
        if j < chain.len() {
            assert(longer[j] == chain[j]);
            lemma_distinct(s0, chain, used, i, j);
        }
    }
    lemma_chained(s1, longer, used);
}

/// A chain without its first link.
proof fn lemma_chain_rest<T>(s0: Seq<Node<T>>, chain: Seq<int>, used: bool)
    requires
        chained(s0, chain, used),
        chain.len() > 0,
    ensures
        chained(s0, chain.skip(1), used),
        chain_at(chain.skip(1), 0) == s0[chain[0]].next,
        forall|i: int| 0 <= i < chain.skip(1).len() ==> #[trigger] chain.skip(1)[i] != chain[0],
{
    let rest = chain.skip(1);
    lemma_link(s0, chain, used, 0);
    assert forall|i: int| 0 <= i < rest.len() implies {
        &&& 0 <= #[trigger] rest[i] < s0.len()
        &&& s0[rest[i]].data.is_some() == used
        &&& s0[rest[i]].next == chain_at(rest, i + 1)
        &&& rest[i] != chain[0]
    } by {
        assert(rest[i] == chain[i + 1]);
        lemma_link(s0, chain, used, i + 1);
        lemma_distinct(s0, chain, used, 0, i + 1);
        if i + 1 < rest.len() {
            assert(rest[i + 1] == chain[i + 2]);
        }
    }
    assert forall|i: int, j: int| 0 <= i < j < rest.len() implies #[trigger] rest[i]
        != #[trigger] rest[j] by {
        lemma_distinct(s0, chain, used, i + 1, j + 1);
    }
    reveal(chained);
    lemma_chained(s0, rest, used);
    if rest.len() > 0 {
        assert(rest[0] == chain[1]);
    }
}

/// An ordered sequence of elements that can be compared for equality.
pub struct LinkedList<T> {
    slots: Vec<Node<T>>,
    head: usize,
    tail: usize,
    spare_head: usize,
    order: Ghost<Seq<int>>,
    spare: Ghost<Seq<int>>,
}

impl<T: PartialEq> LinkedList<T> {
    /// The nodes form one chain from head to tail and the unused slots
    /// another.
    pub closed spec fn wf(&self) -> bool {
        &&& self.slots@.len() == self.slots.len()
        &&& chained(self.slots@, self.order@, true)
        &&& chained(self.slots@, self.spare@, false)
        &&& self.head == chain_at(self.order@, 0)
        &&& self.tail == chain_at(self.order@, self.order@.len() - 1)
        &&& self.spare_head == chain_at(self.spare@, 0)
    }

    /// The elements in list order.
    pub closed spec fn view(&self) -> Seq<T> {
        Seq::new(self.order@.len(), |i: int| self.slots@[self.order@[i]].data.unwrap())
    }

    /// The empty list.
    pub fn new() -> (list: LinkedList<T>)
        ensures
            list.wf(),
            list@ == Seq::<T>::empty(),
    {
        let list = LinkedList {
            slots: Vec::new(),
            head: NIL,
            tail: NIL,
            spare_head: NIL,
            order: Ghost(Seq::empty()),
            spare: Ghost(Seq::empty()),
        };
        proof {
            reveal(chained);
            assert(list@ =~= Seq::<T>::empty());
        }
        list
    }

    /// Puts `data` at the end of the list.
    pub fn add(&mut self, data: T)
        requires
            old(self).wf(),
        ensures
            final(self).wf(),
            final(self)@ == old(self)@.push(data),
    {
        let ghost order = self.order@;
        let ghost spare = self.spare@;
        let ghost s0 = self.slots@;
        let node = Node::new(data, NIL);
        let idx: usize;
        if self.spare_head != NIL {
            idx = self.spare_head;
            proof {
                lemma_link(s0, spare, false, 0);
                lemma_chain_rest(s0, spare, false);
            }
            self.spare_head = self.slots[idx].next;
            self.slots[idx] = node;
            proof {
                self.spare = Ghost(spare.skip(1));
            }
        } else {
            idx = self.slots.len();
            self.slots.push(node);
        }
        let ghost s1 = self.slots@;
        proof {
            assert(s1.len() == self.slots.len());
            assert forall|i: int| 0 <= i < order.len() implies #[trigger] order[i] != idx && s1[order[i]]
                == s0[order[i]] by {
                lemma_link(s0, order, true, i);
                if spare.len() > 0 {
                    lemma_apart(s0, order, spare, i, 0);
                }
            }
            assert forall|i: int| 0 <= i < self.spare@.len() implies s1[#[trigger] self.spare@[i]]
                == s0[self.spare@[i]] by {
                if self.spare@.len() == spare.len() {
                    lemma_link(s0, spare, false, i);
                } else {
                    assert(self.spare@[i] == spare[i + 1]);
                    lemma_link(s0, spare, false, i + 1);
                }
            }
            lemma_chain_kept(s0, s1, self.spare@, false);
        }
        if self.head == NIL {
            self.head = idx;
            self.tail = idx;
        } else {
            let t = self.tail;
            proof {
                lemma_link(s0, order, true, order.len() - 1);
            }
            self.slots[t].next = idx;
            self.tail = idx;
        }
        proof {
            let s2 = self.slots@;
            if order.len() > 0 {
                lemma_link(s0, order, true, 0);
                lemma_link(s0, order, true, order.len() - 1);
            }
            assert forall|i: int| 0 <= i < order.len() - 1 implies s2[#[trigger] order[i]]
                == s0[order[i]] by {
                lemma_link(s0, order, true, i);
                lemma_distinct(s0, order, true, i, order.len() - 1);
                assert(s1[order[i]] == s0[order[i]]);
            }
            lemma_chain_back(s0, s2, order, true, idx as int);
            assert forall|i: int| 0 <= i < self.spare@.len() implies s2[#[trigger] self.spare@[i]]
                == s1[self.spare@[i]] by {
                let j = if self.spare@.len() == spare.len() {
                    i
                } else {
                    i + 1
                };
                assert(self.spare@[i] == spare[j]);
                lemma_link(s0, spare, false, j);
                if order.len() > 0 {
                    lemma_apart(s0, order, spare, order.len() - 1, j);
                }
            }
            lemma_chain_kept(s1, s2, self.spare@, false);
            self.order = Ghost(order.push(idx as int));
            assert(self@ =~= old(self)@.push(data)) by {
                assert forall|i: int| 0 <= i < order.len() implies self@[i] == old(self)@[i] by {
                    if i < order.len() - 1 {
                        lemma_distinct(s0, order, true, i, order.len() - 1);
                    }
                }
            }
        }
    }

    /// Takes the first element equal to `data` out of the list and says
    /// whether there was one.
    pub fn delete(&mut self, data: T) -> (found: bool)
        requires
            old(self).wf(),
        ensures
            final(self).wf(),
            T::obeys_eq_spec() ==> found == (first_match_from(old(self)@, data, 0) < old(self)@.len()),
            T::obeys_eq_spec() ==> final(self)@ == (if found {
                old(self)@.remove(first_match_from(old(self)@, data, 0))
            } else {
                old(self)@
            }),
    {
        let ghost order = self.order@;
        let ghost spare = self.spare@;
        let ghost s0 = self.slots@;
        let mut node: usize = self.head;
        let mut prev: usize = NIL;
        let ghost mut pos: int = 0;
        proof {
            if order.len() > 0 {
                lemma_link(s0, order, true, 0);
            }
        }
        while node != NIL
            invariant
                *self == *old(self),
                self.wf(),
                order == self.order@,
                spare == self.spare@,
                s0 == self.slots@,
                0 <= pos <= order.len(),
                node == chain_at(order, pos),
                prev == chain_at(order, pos - 1),
                pos < order.len() ==> 0 <= order[pos] < s0.len() && s0[order[pos]].data.is_some()
                    && s0[order[pos]].next == chain_at(order, pos + 1),
                pos > 0 ==> 0 <= order[pos - 1] < s0.len() && order[pos - 1] != NIL,
                T::obeys_eq_spec() ==> first_match_from(self@, data, 0) == first_match_from(
                    self@,
                    data,
                    pos,
                ),
            decreases order.len() - pos,
        {
            let equal = match &self.slots[node].data {
                Some(d) => *d == data,
                None => false,
            };
            assert(T::obeys_eq_spec() ==> equal == self@[pos].eq_spec(&data));
            if equal {
                let next = self.slots[node].next;
                if prev == NIL {
                    self.head = next;
                } else {
                    self.slots[prev].next = next;
                }
                if self.tail == node {
                    self.tail = prev;
                }
                self.slots[node] = Node { data: None, next: self.spare_head };
                self.spare_head = node;
                proof {
                    self.order = Ghost(order.remove(pos));
                    self.spare = Ghost(seq![node as int].add(spare));
                    if pos > 0 {
                        lemma_distinct(s0, order, true, pos - 1, pos);
                    }
                    Self::lemma_unlinked(*old(self), *self, pos);
                }
                return true;
            } else {
                prev = node;
                node = self.slots[node].next;
                proof {
                    pos = pos + 1;
                    if pos < order.len() {
                        lemma_link(s0, order, true, pos);
                    }
                }
            }
        }
        false
    }

    /// Taking node `pos` out of its chain and putting its slot before the
    /// spare chain leaves a sound list without element `pos`.
    proof fn lemma_unlinked(l0: Self, l1: Self, pos: int)
        requires
            l0.wf(),
            0 <= pos < l0.order@.len(),
            l1.order@ == l0.order@.remove(pos),
            l1.spare@ == seq![l0.order@[pos]].add(l0.spare@),
            l1.slots.len() == l0.slots.len(),
            l1.slots@.len() == l0.slots@.len(),
            forall|x: int|
                0 <= x < l0.slots.len() && x != l0.order@[pos] && x != chain_at(l0.order@, pos - 1)
                    ==> l1.slots@[x] == l0.slots@[x],
            l1.slots@[l0.order@[pos]].data.is_none(),
            l1.slots@[l0.order@[pos]].next == l0.spare_head,
            pos > 0 ==> l1.slots@[l0.order@[pos - 1]].data == l0.slots@[l0.order@[pos - 1]].data
                && l1.slots@[l0.order@[pos - 1]].next == l0.slots@[l0.order@[pos]].next,
            l1.head == (if pos == 0 {
                l0.slots@[l0.order@[pos]].next
            } else {
                l0.head
            }),
            l1.tail == (if l0.tail == l0.order@[pos] {
                chain_at(l0.order@, pos - 1)
            } else {
                l0.tail as int
            }),
            l1.spare_head == l0.order@[pos],
        ensures
            l1.wf(),
            l1@ == l0@.remove(pos),
    {
        let order = l0.order@;
        let spare = l0.spare@;
        let s0 = l0.slots@;
        let s1 = l1.slots@;
        let node = order[pos];
        lemma_link(s0, order, true, pos);
        assert forall|i: int| 0 <= i < order.len() && i != pos && i != pos - 1 implies s1[
            #[trigger] order[i]] == s0[order[i]] by {
            lemma_link(s0, order, true, i);
            lemma_distinct(s0, order, true, i, pos);
            if pos > 0 {
                lemma_distinct(s0, order, true, i, pos - 1);
            }
        }
        lemma_chain_cut(s0, s1, order, true, pos);
        assert forall|i: int| 0 <= i < spare.len() implies #[trigger] spare[i] != node && s1[spare[i]]
            == s0[spare[i]] by {
            lemma_link(s0, spare, false, i);
            lemma_apart(s0, order, spare, pos, i);
            if pos > 0 {
                lemma_apart(s0, order, spare, pos - 1, i);
            }
        }
        lemma_chain_front(s0, s1, spare, false, node);
        if pos < order.len() - 1 {
            lemma_distinct(s0, order, true, pos, order.len() - 1);
        }
        assert(l1@ =~= l0@.remove(pos)) by {
            assert forall|i: int| 0 <= i < order.len() - 1 implies l1@[i] == l0@.remove(pos)[i] by {
                let j = if i < pos {
                    i
                } else {
                    i + 1
                };
                assert(l1.order@[i] == order[j]);
                lemma_link(s0, order, true, j);
                lemma_distinct(s0, order, true, j, pos);
                if pos > 0 && j != pos - 1 {
                    lemma_distinct(s0, order, true, j, pos - 1);
                }
            }
        }
    }
}

impl<T: PartialEq + Copy> LinkedList<T> {
    /// A pass over copies of the elements, in list order.
    pub fn iter(&self) -> (it: LinkedListIter<'_, T>)
        requires
            self.wf(),
        ensures
            it.wf(),
            it.list() == *self,
            it.pos() == 0,
    {
        LinkedListIter { list: self, current: self.head, pos: Ghost(0) }
    }
}

impl<T: PartialEq> LinkedList<T> {
    /// A pass over the elements in place, in list order.
    pub fn iter_mut(&mut self) -> (it: LinkedListIterMut)
        requires
            old(self).wf(),
        ensures
            *final(self) == *old(self),
            it.wf(*final(self)),
            it.pos() == 0,
    {
        LinkedListIterMut { current: self.head, pos: Ghost(0) }
    }

    /// Whether this list is `l0` with another value in element `pos`.
    spec fn rewritten(&self, l0: Self, pos: int) -> bool {
        &&& self.head == l0.head
        &&& self.tail == l0.tail
        &&& self.spare_head == l0.spare_head
        &&& self.order == l0.order
        &&& self.spare == l0.spare
        &&& self.slots.len() == l0.slots.len()
        &&& self.slots@.len() == l0.slots@.len()
        &&& forall|x: int|
            0 <= x < l0.slots@.len() && x != l0.order@[pos] ==> #[trigger] self.slots@[x]
                == l0.slots@[x]
        &&& self.slots@[l0.order@[pos]].next == l0.slots@[l0.order@[pos]].next
        &&& self.slots@[l0.order@[pos]].data.is_some()
    }

    /// A sound list with another value in one element is sound, and differs
    /// in that element alone.
    proof fn lemma_rewritten(l0: Self, l1: Self, pos: int)
        requires
            l0.wf(),
            0 <= pos < l0.order@.len(),
            l1.rewritten(l0, pos),
        ensures
            l1.wf(),
            l1@ == l0@.update(pos, l1.slots@[l0.order@[pos]].data.unwrap()),
    {
        lemma_link(l0.slots@, l0.order@, true, pos);
        lemma_same_shape(l0.slots@, l1.slots@, l0.order@, true);
        lemma_same_shape(l0.slots@, l1.slots@, l0.spare@, false);
        assert(l1@ =~= l0@.update(pos, l1.slots@[l0.order@[pos]].data.unwrap())) by {
            assert forall|i: int| 0 <= i < l0.order@.len() && i != pos implies l1@[i] == l0@[i] by {
                lemma_link(l0.slots@, l0.order@, true, i);
                lemma_distinct(l0.slots@, l0.order@, true, i, pos);
            }
        }
    }
}

/// A single pass over copies of a list's elements.
pub struct LinkedListIter<'a, T> {
    list: &'a LinkedList<T>,
    current: usize,
    pos: Ghost<int>,
}

impl<'a, T: PartialEq + Copy> LinkedListIter<'a, T> {
    /// The list that is passed over.
    pub closed spec fn list(&self) -> LinkedList<T> {
        *self.list
    }

    /// How many elements were handed out.
    pub closed spec fn pos(&self) -> int {
        self.pos@
    }

    /// The pass stands at a node of its list, or behind the last.
    pub closed spec fn wf(&self) -> bool {
        &&& self.list.wf()
        &&& 0 <= self.pos@ <= self.list.order@.len()
        &&& self.current == chain_at(self.list.order@, self.pos@)
    }

    /// The next element, or `None` behind the last.
    pub fn next(&mut self) -> (item: Option<T>)
        requires
            old(self).wf(),
        ensures
            final(self).wf(),
            final(self).list() == old(self).list(),
            old(self).pos() < old(self).list()@.len() ==> item == Some(
                old(self).list()@[old(self).pos()],
            ) && final(self).pos() == old(self).pos() + 1,
            old(self).pos() >= old(self).list()@.len() ==> item.is_none() && final(self).pos()
                == old(self).pos(),
    {
        if self.current == NIL {
            proof {
                if self.pos@ < self.list.order@.len() {
                    lemma_link(self.list.slots@, self.list.order@, true, self.pos@);
                }
            }
            None
        } else {
            proof {
                lemma_link(self.list.slots@, self.list.order@, true, self.pos@);
            }
            let node = &self.list.slots[self.current];
            let data = node.data;
            self.current = node.next;
            proof {
                self.pos = Ghost(self.pos@ + 1);
            }
            data
        }
    }
}

/// A single pass over a list's elements in place. The list is handed to
/// each step, and must not lose or gain elements between two steps.
pub struct LinkedListIterMut {
    current: usize,
    pos: Ghost<int>,
}

impl LinkedListIterMut {
    /// How many elements were handed out.
    pub closed spec fn pos(&self) -> int {
        self.pos@
    }

    /// The pass stands at a node of `list`, or behind the last.
    pub closed spec fn wf<T: PartialEq>(&self, list: LinkedList<T>) -> bool {
        &&& list.wf()
        &&& 0 <= self.pos@ <= list.order@.len()
        &&& self.current == chain_at(list.order@, self.pos@)
    }

    /// The next element of `list`, to read and to write, or `None` behind
    /// the last.
    pub fn next<'a, T: PartialEq>(&mut self, list: &'a mut LinkedList<T>) -> (item: Option<&'a mut T>)
        requires
            old(self).wf(*old(list)),
        ensures
            final(self).wf(*final(list)),
            final(list).wf(),
            match item {
                Some(element) => {
                    &&& old(self).pos() < old(list)@.len()
                    &&& *element == old(list)@[old(self).pos()]
                    &&& final(list)@ == old(list)@.update(old(self).pos(), *final(element))
                    &&& final(self).pos() == old(self).pos() + 1
                },
                None => {
                    &&& old(self).pos() >= old(list)@.len()
                    &&& *final(list) == *old(list)
                    &&& final(self).pos() == old(self).pos()
                },
            },
    {
        if self.current == NIL {
            proof {
                if self.pos@ < list.order@.len() {
                    lemma_link(list.slots@, list.order@, true, self.pos@);
                }
            }
            None
        } else {
            proof {
                lemma_link(list.slots@, list.order@, true, self.pos@);
            }
            let idx = self.current;
            self.current = list.slots[idx].next;
            proof {
                self.pos = Ghost(self.pos@ + 1);
            }
            let ghost l0 = *list;
            proof {
                assert forall|l1: LinkedList<T>| l1.rewritten(l0, old(self).pos@) implies #[trigger] l1.wf()
                    && l1@ == l0@.update(
                    old(self).pos@,
                    l1.slots@[l0.order@[old(self).pos@]].data.unwrap(),
                ) by {
                    LinkedList::lemma_rewritten(l0, l1, old(self).pos@);
                }
            }
            match &mut list.slots[idx].data {
                Some(element) => {
                    proof {
                        assert(old(self).pos@ < l0@.len());
                        assert(*element == l0@[old(self).pos@]);
                    }
                    Some(element)
                },
                None => None,
            }
        }
    }
}

} // verus!
