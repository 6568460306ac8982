//! The option map: option names with the ordered values attached to each.

use vstd::prelude::*;
use crate::model::{OptValues, strs, add_value, add_key};

verus! {

/// Option names, each unique, with the values attached to each in order.
pub struct OptionMap {
    keys: Vec<String>,
    vals: Vec<Vec<String>>,
}

impl View for OptionMap {
    type V = OptValues;

    closed spec fn view(&self) -> OptValues {
        Map::new(
            |k: Seq<char>| exists|i: int| 0 <= i < self.keys@.len() && #[trigger] self.keys@[i]@ == k,
            |k: Seq<char>|
                strs(
                    self.vals@[choose|i: int|
                        0 <= i < self.keys@.len() && #[trigger] self.keys@[i]@ == k]@,
                ),
        )
    }
}

impl OptionMap {
    /// Keys are pairwise distinct and each has its list of values.
    pub closed spec fn wf(&self) -> bool {
        &&& self.keys@.len() == self.vals@.len()
        &&& forall|i: int, j: int|
            0 <= i < j < self.keys@.len() ==> #[trigger] self.keys@[i]@ != #[trigger] self.keys@[j]@
    }

    proof fn lemma_entry(&self, i: int)
        requires
            self.wf(),
            0 <= i < self.keys@.len(),
        ensures
            self@.contains_key(self.keys@[i]@),
            self@[self.keys@[i]@] == strs(self.vals@[i]@),
    {
        let k = self.keys@[i]@;
        assert(self.keys@[i]@ == k);
        let j = choose|j: int| 0 <= j < self.keys@.len() && #[trigger] self.keys@[j]@ == k;
        if j < i {
            assert(self.keys@[j]@ != self.keys@[i]@);
        } else if i < j {
            assert(self.keys@[i]@ != self.keys@[j]@);
        }
    }

    /// An empty map.
    pub fn new() -> (r: OptionMap)
        ensures
            r.wf(),
            r@ == OptValues::empty(),
    {
        let r = OptionMap { keys: Vec::new(), vals: Vec::new() };
        assert(r@ =~= OptValues::empty());
        r
    }

    /// The position of `key` among the keys, if it is there.
    fn find(&self, key: &String) -> (r: Option<usize>)
        requires
            self.wf(),
        ensures
            match r {
                Some(i) => i < self.keys@.len() && self.keys@[i as int]@ == key@,
                None => !self@.contains_key(key@),
            },
    {
        let mut i: usize = 0;
        while i < self.keys.len()
            invariant
                self.wf(),
                i <= self.keys@.len(),
                forall|j: int| 0 <= j < i ==> self.keys@[j]@ != key@,
            decreases self.keys@.len() - i,
        {
            if self.keys[i] == *key {
                return Some(i);
            }
            i = i + 1;
        }
        None
    }

    /// Whether `key` has an entry.
    pub fn contains_key(&self, key: &String) -> (r: bool)
        requires
            self.wf(),
        ensures
            r == self@.contains_key(key@),
    {
        match self.find(key) {
            Some(i) => {
                proof {
                    self.lemma_entry(i as int);
                }
                true
            },
            None => false,
        }
    }

    /// The values attached to `key`, if it has an entry.
    pub fn get(&self, key: &String) -> (r: Option<&Vec<String>>)
        requires
            self.wf(),
        ensures
            r is Some == self@.contains_key(key@),
            r matches Some(v) ==> strs(v@) == self@[key@],
    {
        match self.find(key) {
            Some(i) => {
                proof {
                    self.lemma_entry(i as int);
                }
                Some(&self.vals[i])
            },
            None => None,
        }
    }

    /// The keys, each once, in the order in which they first got an entry.
    pub fn keys(&self) -> (r: &[String])
        requires
            self.wf(),
        ensures
            forall|i: int| 0 <= i < r@.len() ==> self@.contains_key(#[trigger] r@[i]@),
            forall|k: Seq<char>| #[trigger] self@.contains_key(k) ==> exists|i: int|
                0 <= i < r@.len() && #[trigger] r@[i]@ == k,
            forall|i: int, j: int| 0 <= i < j < r@.len() ==> #[trigger] r@[i]@ != #[trigger] r@[j]@,
    {
        proof {
            assert forall|i: int| 0 <= i < self.keys@.len() implies self@.contains_key(
                #[trigger] self.keys@[i]@,
            ) by {
                self.lemma_entry(i);
            }
        }
        self.keys.as_slice()
    }

    /// The number of keys.
    pub fn len(&self) -> (r: usize)
        requires
            self.wf(),
        ensures
            r == self@.dom().len(),
    {
        proof {
            let ks = strs(self.keys@);
            assert(ks.no_duplicates());
            ks.unique_seq_to_set();
            assert forall|k: Seq<char>| #[trigger] self@.dom().contains(k) == ks.to_set().contains(k) by {
                if self@.dom().contains(k) {
                    let j = choose|j: int| 0 <= j < self.keys@.len() && #[trigger] self.keys@[j]@ == k;
                    assert(ks[j] == k);
                }
            }
            assert(self@.dom() =~= ks.to_set());
        }
        self.keys.len()
    }
}

/// Appends `value` to the values of `key`, giving `key` an entry first if it has none.
pub(crate) fn set(argv: &mut OptionMap, key: &String, value: String)
    requires
        old(argv).wf(),
    ensures
        final(argv).wf(),
        final(argv)@ == add_value(old(argv)@, key@, value@),
{
    match argv.find(key) {
        Some(i) => {
            proof {
                argv.lemma_entry(i as int);
            }
            let ghost before = *argv;
            argv.vals[i].push(value);
            proof {
                assert forall|k: Seq<char>| #![auto] argv@.contains_key(k) == add_value(before@, key@, value@).contains_key(k) by {
                    if before@.contains_key(k) {
                        let j = choose|j: int| 0 <= j < before.keys@.len() && #[trigger] before.keys@[j]@ == k;
                        assert(argv.keys@[j]@ == k);
                    }
                }
                assert forall|j: int| 0 <= j < argv.keys@.len() implies argv@[argv.keys@[j]@]
                    == add_value(before@, key@, value@)[#[trigger] argv.keys@[j]@] by {
                    argv.lemma_entry(j);
                    before.lemma_entry(j);
                    if j != i {
                        assert(argv.keys@[j]@ != argv.keys@[i as int]@);
                    }
                    assert(strs(argv.vals@[i as int]@) =~= strs(before.vals@[i as int]@).push(value@));
                }
                assert(argv@ =~= add_value(before@, key@, value@));
            }
        },
        None => {
            let ghost before = *argv;
            argv.keys.push(key.clone());
            argv.vals.push(vec![value]);
            proof {
                let n = before.keys@.len() as int;
                assert forall|j: int| 0 <= j < argv.keys@.len() implies argv@.contains_key(#[trigger] argv.keys@[j]@)
                    && argv@[argv.keys@[j]@] == add_value(before@, key@, value@)[argv.keys@[j]@] by {
                    argv.lemma_entry(j);
                    if j < n {
                        before.lemma_entry(j);
                    } else {
                        assert(strs(argv.vals@[j]@) =~= seq![value@]);
                    }
                }
                assert forall|k: Seq<char>| #![auto] argv@.contains_key(k) == add_value(before@, key@, value@).contains_key(k) by {
                    if before@.contains_key(k) {
                        let j = choose|j: int| 0 <= j < before.keys@.len() && #[trigger] before.keys@[j]@ == k;
                        assert(argv.keys@[j]@ == k);
                    }
                    if k == key@ {
                        assert(argv.keys@[n]@ == k);
                    }
                }
                assert(argv@ =~= add_value(before@, key@, value@));
            }
        },
    }
}

/// Gives `key` an entry with no values, unless it already has one.
pub(crate) fn set_bool(argv: &mut OptionMap, key: &String)
    requires
        old(argv).wf(),
    ensures
        final(argv).wf(),
        final(argv)@ == add_key(old(argv)@, key@),
{
    if argv.find(key).is_none() {
        let ghost before = *argv;
        argv.keys.push(key.clone());
        argv.vals.push(Vec::new());
        proof {
            let n = before.keys@.len() as int;
            assert forall|j: int| 0 <= j < argv.keys@.len() implies argv@.contains_key(#[trigger] argv.keys@[j]@)
                && argv@[argv.keys@[j]@] == add_key(before@, key@)[argv.keys@[j]@] by {
                argv.lemma_entry(j);
                if j < n {
                    before.lemma_entry(j);
                } else {
                    assert(strs(argv.vals@[j]@) =~= Seq::empty());
                }
            }
            assert forall|k: Seq<char>| #![auto] argv@.contains_key(k) == add_key(before@, key@).contains_key(k) by {
                if before@.contains_key(k) {
                    let j = choose|j: int| 0 <= j < before.keys@.len() && #[trigger] before.keys@[j]@ == k;
                    assert(argv.keys@[j]@ == k);
                }
                if k == key@ {
                    assert(argv.keys@[n]@ == k);
                }
            }
            assert(argv@ =~= add_key(before@, key@));
        }
    }
}

} // verus!
