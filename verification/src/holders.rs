//! The set of holders: every account once, in the order in which it was
//! first seen.

use crate::address::{Address, ADDRESS_BYTES};
use std::collections::HashMap;
use vstd::prelude::*;

verus! {

broadcast use vstd::std_specs::hash::group_hash_axioms;

/// `s`, and `a` behind it unless `s` holds `a` already.
pub open spec fn with(s: Seq<Address>, a: Address) -> Seq<Address> {
    if s.contains(a) {
        s
    } else {
        s.push(a)
    }
}

/// The accounts of `s`, each once, in the order of their first places.
pub open spec fn distinct(s: Seq<Address>) -> Seq<Address>
    decreases s.len(),
{
    if s.len() == 0 {
        Seq::empty()
    } else {
        with(distinct(s.drop_last()), s.last())
    }
}

/// `distinct` keeps every account, adds none, and lists none twice.
pub proof fn lemma_distinct(s: Seq<Address>)
    ensures
        distinct(s).no_duplicates(),
        forall|a: Address| distinct(s).contains(a) <==> s.contains(a),
    decreases s.len(),
{
    if s.len() > 0 {
        let front = s.drop_last();
        let d = distinct(front);
        lemma_distinct(front);
        assert forall|a: Address| distinct(s).contains(a) <==> s.contains(a) by {
            if s.contains(a) {
                let i = choose|i: int| 0 <= i < s.len() && s[i] == a;
                if i < front.len() {
                    assert(front[i] == a);
                    assert(front.contains(a));
                    assert(d.contains(a));
                    let j = choose|j: int| 0 <= j < d.len() && d[j] == a;
                    assert(distinct(s)[j] == a);
                } else {
                    assert(a == s.last());
                    if !d.contains(a) {
                        assert(distinct(s)[d.len() as int] == a);
                    }
                }
            }
            if distinct(s).contains(a) {
                let j = choose|j: int| 0 <= j < distinct(s).len() && distinct(s)[j] == a;
                if j < d.len() {
                    assert(d[j] == a);
                    assert(d.contains(a));
                    assert(front.contains(a));
                    let i = choose|i: int| 0 <= i < front.len() && front[i] == a;
                    assert(s[i] == a);
                } else {
                    assert(a == s.last());
                    assert(s[s.len() - 1] == a);
                }
            }
        }
    }
}

/// The number under which an account is filed: made of its last 8 bytes.
spec fn key_of(a: Address) -> u64 {
    key_upto(a@, ADDRESS_BYTES as nat)
}

/// The number made of the bytes from the thirteenth up to, but without, the
/// one at `n`.
spec fn key_upto(bytes: Seq<u8>, n: nat) -> u64
    decreases n,
{
    if n <= 12 {
        0
    } else {
        ((key_upto(bytes, (n - 1) as nat) % 0x0100_0000_0000_0000) * 256 + bytes[n - 1]) as u64
    }
}

/// A set of accounts. Beside the accounts in the order in which they came
/// in, it keeps for each key the places of the accounts with that key, so
/// that an account is found without going through all of them.
#[derive(Debug, PartialEq, Eq)]
pub struct HolderSet {
    list: Vec<Address>,
    places: HashMap<u64, Vec<usize>>,
}

impl View for HolderSet {
    type V = Seq<Address>;

    closed spec fn view(&self) -> Seq<Address> {
        self.list@
    }
}

/// The key of an account.
fn key(a: &Address) -> (r: u64)
    ensures
        r == key_of(*a),
{
    let mut k: u64 = 0;
    let mut i: usize = 12;
    while i < ADDRESS_BYTES
        invariant
            12 <= i <= ADDRESS_BYTES,
            k == key_upto(a@, i as nat),
        decreases ADDRESS_BYTES - i,
    {
        k = (k % 0x0100_0000_0000_0000) * 256 + a.bytes[i] as u64;
        i += 1;
    }
    k
}

impl HolderSet {
    /// No account is listed twice, and the places filed under a key are
    /// those of the accounts with that key.
    pub closed spec fn wf(&self) -> bool {
        &&& self.list@.no_duplicates()
        &&& forall|p: usize|
            p < self.list@.len() ==> self.places@.contains_key(
                key_of(#[trigger] self.list@[p as int]),
            ) && self.places@[key_of(self.list@[p as int])]@.contains(p)
        &&& forall|k: u64, j: int|
            self.places@.contains_key(k) && 0 <= j < self.places@[k]@.len() ==> (
            #[trigger] self.places@[k]@[j]) < self.list@.len() && key_of(
                self.list@[self.places@[k]@[j] as int],
            ) == k
    }

    /// A place at which `a` stands in the list, where it stands in it.
    proof fn place_of(&self, a: Address) -> (p: usize)
        requires
            self.list@.contains(a),
        ensures
            p < self.list@.len(),
            self.list@[p as int] == a,
    {
        let i = choose|i: int| 0 <= i < self.list@.len() && self.list@[i] == a;
        assert(self.list.len() == self.list@.len());
        i as usize
    }

    /// A well-formed set lists no account twice.
    pub proof fn lemma_no_duplicates(&self)
        requires
            self.wf(),
        ensures
            self@.no_duplicates(),
    {
    }

    /// The empty set.
    pub fn new() -> (r: HolderSet)
        ensures
            r.wf(),
            r@.len() == 0,
    {
        HolderSet { list: Vec::new(), places: HashMap::new() }
    }

    /// The number of accounts.
    pub fn len(&self) -> (r: usize)
        ensures
            r == self@.len(),
    {
        self.list.len()
    }

    /// Whether the set holds `a`.
    pub fn contains(&self, a: &Address) -> (r: bool)
        requires
            self.wf(),
        ensures
            r == self@.contains(*a),
    {
        let k = key(a);
        match self.places.get(&k) {
            None => {
                assert(!self.list@.contains(*a)) by {
                    if self.list@.contains(*a) {
                        let p = self.place_of(*a);
                        assert(self.places@.contains_key(key_of(self.list@[p as int])));
                    }
                }
                false
            },
            Some(filed) => {
                let mut j: usize = 0;
                while j < filed.len()
                    invariant
                        j <= filed@.len(),
                        self.wf(),
                        k == key_of(*a),
                        self.places@.contains_key(k),
                        self.places@[k] == *filed,
                        forall|i: int| 0 <= i < j ==> self.list@[filed@[i] as int] != *a,
                    decreases filed@.len() - j,
                {
                    assert(self.places@[k]@[j as int] < self.list@.len());
                    if self.list[filed[j]].same(a) {
                        return true;
                    }
                    j += 1;
                }
                assert(!self.list@.contains(*a)) by {
                    if self.list@.contains(*a) {
                        let p = self.place_of(*a);
                        assert(self.places@[key_of(self.list@[p as int])]@.contains(p));
                        let i = choose|i: int| 0 <= i < filed@.len() && filed@[i] == p;
                        assert(self.list@[filed@[i] as int] == *a);
                    }
                }
                false
            },
        }
    }

    /// Puts `a` into the set; says whether it was new.
    pub fn insert(&mut self, a: Address) -> (r: bool)
        requires
            old(self).wf(),
        ensures
            final(self).wf(),
            final(self)@ == with(old(self)@, a),
            r == !old(self)@.contains(a),
    {
        if self.contains(&a) {
            return false;
        }
        let k = key(&a);
        let place = self.list.len();
        let mut filed: Vec<usize> = match self.places.remove(&k) {
            Some(filed) => filed,
            None => Vec::new(),
        };
        let ghost before = filed@;
        filed.push(place);
        self.list.push(a);
        self.places.insert(k, filed);
        proof {
            let list = self.list@;
            let places = self.places@;
            assert(list.no_duplicates());
            assert forall|p: usize| p < list.len() implies places.contains_key(
                key_of(#[trigger] list[p as int]),
            ) && places[key_of(list[p as int])]@.contains(p) by {
                if p == place {
                    assert(filed@[before.len() as int] == place);
                } else if key_of(list[p as int]) == k {
                    assert(old(self).list@[p as int] == list[p as int]);
                    let i = choose|i: int| 0 <= i < before.len() && before[i] == p;
                    assert(filed@[i] == p);
                } else {
                    assert(old(self).list@[p as int] == list[p as int]);
                }
            }
            assert forall|key: u64, j: int|
                places.contains_key(key) && 0 <= j < places[key]@.len() implies (
            #[trigger] places[key]@[j]) < list.len() && key_of(list[places[key]@[j] as int])
                == key by {
                if key == k {
                    if j < before.len() {
                        assert(old(self).places@[k]@[j] == before[j]);
                        assert(old(self).list@[before[j] as int] == list[before[j] as int]);
                    }
                } else {
                    assert(old(self).places@.contains_key(key));
                    let q = old(self).places@[key]@[j];
                    assert(old(self).list@[q as int] == list[q as int]);
                }
            }
        }
        true
    }

    /// The accounts, each once, in the order in which they came in.
    pub fn to_vec(&self) -> (r: Vec<Address>)
        ensures
            r@ == self@,
    {
        let mut out: Vec<Address> = Vec::new();
        let mut i: usize = 0;
        while i < self.list.len()
            invariant
                i <= self.list@.len(),
                out@ == self.list@.subrange(0, i as int),
            decreases self.list@.len() - i,
        {
            out.push(self.list[i]);
            i += 1;
        }
        assert(self.list@.subrange(0, self.list@.len() as int) =~= self.list@);
        out
    }
}

} // verus!
