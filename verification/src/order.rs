//! Sorting by name and sets of addresses.

use crate::text::{lemma_str_order, lemma_str_total, str_before, str_place, Place};
use std::collections::BTreeSet;
use vstd::prelude::*;

verus! {

/// A set of addresses.
#[derive(Debug)]
pub struct AddrSet {
    set: BTreeSet<u64>,
}

impl View for AddrSet {
    type V = Set<u64>;

    closed spec fn view(&self) -> Set<u64> {
        self.set@
    }
}

impl AddrSet {
    pub fn new() -> (set: Self)
        ensures
            set@ == Set::<u64>::empty(),
    {
        AddrSet { set: BTreeSet::new() }
    }

    /// Adds an address, and says whether it is new.
    pub fn insert(&mut self, address: u64) -> (fresh: bool)
        ensures
            final(self)@ == old(self)@.insert(address),
            fresh == !old(self)@.contains(address),
    {
        broadcast use vstd::laws_cmp::group_laws_cmp;

        self.set.insert(address)
    }

    pub fn contains(&self, address: u64) -> (found: bool)
        ensures
            found == self@.contains(address),
    {
        broadcast use vstd::laws_cmp::group_laws_cmp;

        self.set.contains(&address)
    }
}

/// What has a name to be sorted by.
pub trait Named {
    spec fn name_text(&self) -> Seq<char>;

    fn name_str(&self) -> (name: &str)
        ensures
            name@ == self.name_text(),
    ;
}

/// The names of a list.
pub open spec fn names_of<T: Named>(list: Seq<T>) -> Seq<Seq<char>> {
    Seq::new(list.len(), |i: int| list[i].name_text())
}

/// Item `a` comes before item `b`: by name, and by place where the names are
/// the same.
pub open spec fn comes_first(names: Seq<Seq<char>>, a: int, b: int) -> bool {
    str_before(names[a], names[b]) || (names[a] == names[b] && a < b)
}

/// `p` lists the places of all items in the order of their names, items of one
/// name in the order they had. There is one such list.
pub open spec fn name_order(names: Seq<Seq<char>>, p: Seq<int>) -> bool {
    &&& p.len() == names.len()
    &&& forall|i: int| 0 <= i < p.len() ==> 0 <= #[trigger] p[i] < names.len()
    &&& forall|i: int, j: int|
        0 <= i < j < p.len() ==> comes_first(names, #[trigger] p[i], #[trigger] p[j])
}

/// `now` holds the items of `was` in the order `p`.
pub open spec fn rearranged<T>(was: Seq<T>, now: Seq<T>, p: Seq<int>) -> bool {
    &&& now.len() == p.len()
    &&& forall|i: int| 0 <= i < p.len() ==> #[trigger] now[i] == was[p[i]]
}

/// Sorts a list by name. Items of one name keep their order.
pub fn sort_by_name<T: Named>(list: &mut Vec<T>)
    ensures
        exists|p: Seq<int>|
            #![trigger name_order(names_of(old(list)@), p)]
            name_order(names_of(old(list)@), p) && rearranged(old(list)@, final(list)@, p),
{
    let ghost was = list@;
    let ghost names = names_of(was);
    let size: usize = list.len();
    let ghost mut p: Seq<int> = Seq::new(size as nat, |i: int| i);
    let mut i: usize = 0;
    while i < size
        invariant
            i <= size,
            size == list@.len(),
            size == was.len(),
            names == names_of(was),
            p.len() == size,
            rearranged(was, list@, p),
            forall|k: int| i <= k < size ==> #[trigger] p[k] == k,
            forall|k: int| 0 <= k < i ==> 0 <= #[trigger] p[k] < i,
            forall|a: int, b: int|
                0 <= a < b < i ==> comes_first(names, #[trigger] p[a], #[trigger] p[b]),
        decreases size - i,
    {
        let mut k: usize = i;
        assert(list@[i as int] == was[p[i as int]]);
        loop
            invariant
                k <= i,
                i < size,
                size == list@.len(),
                size == was.len(),
                names == names_of(was),
                p.len() == size,
                p[i as int] == i,
                rearranged(was, list@, p),
                forall|m: int| 0 <= m < i ==> 0 <= #[trigger] p[m] < i,
                forall|m: int| k <= m < i ==> str_before(names[i as int], names[#[trigger] p[m]]),
            ensures
                k <= i,
                forall|m: int| k <= m < i ==> str_before(names[i as int], names[#[trigger] p[m]]),
                k > 0 ==> !str_before(names[i as int], names[p[k - 1]]),
            decreases k,
        {
            if k == 0 {
                break ;
            }
            assert(list@[k - 1] == was[p[k - 1]]);
            assert(list@[i as int] == was[p[i as int]]);
            match str_place(list[i].name_str(), list[k - 1].name_str()) {
                Place::Before => {
                    k = k - 1;
                },
                _ => {
                    break ;
                },
            }
        }
        let ghost before = list@;
        let ghost q = p;
        if k < i {
            let item = list.remove(i);
            list.insert(k, item);
        }
        proof {
            p = q.remove(i as int).insert(k as int, i as int);
            assert(list@ =~= before.remove(i as int).insert(k as int, before[i as int]));
            assert forall|m: int| 0 <= m < size implies #[trigger] list@[m] == was[p[m]] by {
                if m < k {
                    assert(p[m] == q[m] && list@[m] == before[m]);
                } else if m > k && m <= i {
                    assert(p[m] == q[m - 1] && list@[m] == before[m - 1]);
                    assert(before[m - 1] == was[q[m - 1]]);
                } else if m > i {
                    assert(p[m] == q[m] && list@[m] == before[m]);
                } else {
                    assert(before[i as int] == was[q[i as int]]);
                }
            }
            assert forall|m: int| i + 1 <= m < size implies #[trigger] p[m] == m by {
                assert(p[m] == q[m]);
            }
            assert forall|m: int| 0 <= m < i + 1 implies 0 <= #[trigger] p[m] < i + 1 by {
                if m < k {
                    assert(p[m] == q[m]);
                } else if m > k {
                    assert(p[m] == q[m - 1]);
                }
            }
            assert forall|a: int, b: int| 0 <= a < b < i + 1 implies comes_first(
                names,
                #[trigger] p[a],
                #[trigger] p[b],
            ) by {
                let qa = if a < k { a } else { a - 1 };
                let qb = if b < k { b } else { b - 1 };
                if a != k && b != k {
                    assert(p[a] == q[qa] && p[b] == q[qb]);
                } else if a == k {
                    assert(p[b] == q[b - 1]);
                    assert(str_before(names[i as int], names[q[b - 1]]));
                } else {
                    assert(p[a] == q[a]);
                    let x = names[i as int];
                    let y = names[q[k - 1]];
                    lemma_str_total(x, y);
                    if a < k - 1 {
                        assert(comes_first(names, q[a], q[k - 1]));
                        lemma_str_order(names[q[a]], y, x);
                    }
                }
            }
        }
        i = i + 1;
    }
    assert(name_order(names, p));
}

/// Items in the order of their names: no later item has a name before that of an
/// earlier one, no place occurs twice, and items of one name keep their order.
pub proof fn lemma_in_order(names: Seq<Seq<char>>, p: Seq<int>, i: int, j: int)
    requires
        name_order(names, p),
        0 <= i < j < p.len(),
    ensures
        p.len() == names.len(),
        p[i] != p[j],
        !str_before(names[p[j]], names[p[i]]),
        names[p[i]] == names[p[j]] ==> p[i] < p[j],
{
    assert(comes_first(names, p[i], p[j]));
    let a = names[p[i]];
    let b = names[p[j]];
    lemma_str_order(a, b, a);
    lemma_str_order(a, a, a);
    lemma_str_total(a, b);
}

} // verus!
