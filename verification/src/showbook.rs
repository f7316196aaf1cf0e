//! The bookkeeping of one title-backfill run: which shows have been
//! resolved (each is searched for and its episodes fetched at most once per
//! run), and the pins, the shows picked by hand, which later runs reuse.
//!
//! A show is keyed by its lower-cased name and its year.

use vstd::prelude::*;
use crate::text::{chars_of, eq_vec, lowercase, lowercase_of, slice_vec};

verus! {

/// A show key as plain values: lower-cased name and year.
pub type KeyView = (Seq<char>, i32);

/// Index of the first occurrence of `k` in `keys`.
pub open spec fn key_at(keys: Seq<KeyView>, k: KeyView) -> Option<int>
    decreases keys.len(),
{
    if keys.len() == 0 {
        None
    } else {
        match key_at(keys.drop_last(), k) {
            Some(i) => Some(i),
            None => if keys.last() == k {
                Some(keys.len() - 1)
            } else {
                None
            },
        }
    }
}

/// `key_at` gives the first occurrence, and `None` exactly when there is none.
pub proof fn lemma_key_at(keys: Seq<KeyView>, k: KeyView)
    ensures
        key_at(keys, k) matches Some(i) ==> 0 <= i < keys.len() && keys[i] == k && forall|j: int|
            0 <= j < i ==> keys[j] != k,
        key_at(keys, k) is None ==> forall|j: int| 0 <= j < keys.len() ==> keys[j] != k,
    decreases keys.len(),
{
    if keys.len() > 0 {
        let d = keys.drop_last();
        lemma_key_at(d, k);
        assert forall|j: int| 0 <= j < d.len() implies d[j] == keys[j] by {}
    }
}

/// The first occurrence of `k` is at `i`.
proof fn lemma_key_at_first(keys: Seq<KeyView>, k: KeyView, i: int)
    requires
        0 <= i < keys.len(),
        keys[i] == k,
        forall|j: int| 0 <= j < i ==> keys[j] != k,
    ensures
        key_at(keys, k) == Some(i),
{
    lemma_key_at(keys, k);
    if let Some(i2) = key_at(keys, k) {
        if i2 < i {
            assert(keys[i2] != k);
        } else if i < i2 {
            assert(keys[i] != k);
        }
    }
}

pub open spec fn key_view(k: (Vec<char>, i32)) -> KeyView {
    (k.0@, k.1)
}

/// The resolved shows and the pins of one run.
pub struct ShowBook {
    /// Keys of the resolved shows, in the order they were resolved; a show's
    /// position here is its slot.
    pub resolved: Vec<(Vec<char>, i32)>,
    /// Pins: key, TVMaze id, and the show's name as written.
    pub pins: Vec<(Vec<char>, i32, u64, Vec<char>)>,
    /// A pin was made in this run and is not yet saved.
    pub dirty: bool,
}

impl ShowBook {
    pub open spec fn resolved_keys(&self) -> Seq<KeyView> {
        self.resolved@.map_values(|t: (Vec<char>, i32)| (t.0@, t.1))
    }

    pub open spec fn pin_keys(&self) -> Seq<KeyView> {
        self.pins@.map_values(|t: (Vec<char>, i32, u64, Vec<char>)| (t.0@, t.1))
    }

    /// The slot of a resolved show.
    pub open spec fn slot(&self, k: KeyView) -> Option<int> {
        key_at(self.resolved_keys(), k)
    }

    /// The pinned id and name of a show.
    pub open spec fn pin_at(&self, k: KeyView) -> Option<(u64, Seq<char>)> {
        match key_at(self.pin_keys(), k) {
            Some(i) => Some((self.pins@[i].2, self.pins@[i].3@)),
            None => None,
        }
    }

    /// Nothing resolved, nothing pinned.
    pub fn new() -> (b: ShowBook)
        ensures
            b.resolved_keys() == Seq::<KeyView>::empty(),
            b.pin_keys() == Seq::<KeyView>::empty(),
            !b.dirty,
    {
        let b = ShowBook { resolved: Vec::new(), pins: Vec::new(), dirty: false };
        assert(b.resolved_keys() =~= Seq::<KeyView>::empty());
        assert(b.pin_keys() =~= Seq::<KeyView>::empty());
        b
    }

    /// The key of a show: its name lower-cased, and its year.
    pub fn show_key(show: &str, year: i32) -> (k: (Vec<char>, i32))
        ensures
            k.0@ == lowercase_of(show@),
            k.1 == year,
    {
        (lowercase(&chars_of(show)), year)
    }

    /// The slot of the show with key `k`, if it was resolved in this run.
    pub fn slot_of(&self, k: &(Vec<char>, i32)) -> (r: Option<usize>)
        ensures
            match r {
                Some(s) => self.slot(key_view(*k)) == Some(s as int),
                None => self.slot(key_view(*k)) is None,
            },
    {
        let ghost keys = self.resolved_keys();
        let mut i: usize = 0;
        while i < self.resolved.len()
            invariant
                i <= self.resolved.len(),
                keys == self.resolved_keys(),
                forall|j: int| 0 <= j < i ==> keys[j] != key_view(*k),
            decreases self.resolved.len() - i,
        {
            assert(keys[i as int] == (self.resolved@[i as int].0@, self.resolved@[i as int].1));
            if self.resolved[i].1 == k.1 && eq_vec(&self.resolved[i].0, &k.0) {
                proof {
                    lemma_key_at_first(keys, key_view(*k), i as int);
                }
                return Some(i);
            }
            i = i + 1;
        }
        proof {
            lemma_key_at(keys, key_view(*k));
            if let Some(j) = key_at(keys, key_view(*k)) {
                assert(keys[j] != key_view(*k));
            }
        }
        None
    }

    /// Where `k` stands among the pins, if it is pinned.
    fn pin_index(&self, k: &(Vec<char>, i32)) -> (r: Option<usize>)
        ensures
            match r {
                Some(i) => key_at(self.pin_keys(), key_view(*k)) == Some(i as int) && i < self.pins.len(),
                None => key_at(self.pin_keys(), key_view(*k)) is None,
            },
    {
        let ghost keys = self.pin_keys();
        let mut i: usize = 0;
        while i < self.pins.len()
            invariant
                i <= self.pins.len(),
                keys == self.pin_keys(),
                forall|j: int| 0 <= j < i ==> keys[j] != key_view(*k),
            decreases self.pins.len() - i,
        {
            assert(keys[i as int] == (self.pins@[i as int].0@, self.pins@[i as int].1));
            if self.pins[i].1 == k.1 && eq_vec(&self.pins[i].0, &k.0) {
                proof {
                    lemma_key_at_first(keys, key_view(*k), i as int);
                }
                return Some(i);
            }
            i = i + 1;
        }
        proof {
            lemma_key_at(keys, key_view(*k));
            if let Some(j) = key_at(keys, key_view(*k)) {
                assert(keys[j] != key_view(*k));
            }
        }
        None
    }

    /// The TVMaze id pinned for the show with key `k`.
    pub fn pin_of(&self, k: &(Vec<char>, i32)) -> (r: Option<u64>)
        ensures
            match r {
                Some(id) => self.pin_at(key_view(*k)) matches Some((id2, _)) && id2 == id,
                None => self.pin_at(key_view(*k)) is None,
            },
    {
        match self.pin_index(k) {
            Some(i) => Some(self.pins[i].2),
            None => None,
        }
    }

    /// Pins the show named `label`, with key `k`, to TVMaze id `id`: a later
    /// pin of the same key replaces an earlier one. Nothing else changes.
    pub fn pin(&mut self, k: &(Vec<char>, i32), id: u64, label: &str)
        ensures
            final(self).pin_at(key_view(*k)) == Some((id, label@)),
            forall|k2: KeyView| k2 != key_view(*k) ==> #[trigger] final(self).pin_at(k2) == old(self).pin_at(k2),
            final(self).resolved_keys() == old(self).resolved_keys(),
            final(self).dirty == old(self).dirty,
    {
        let name = slice_vec(&k.0, 0, k.0.len());
        assert(name@ =~= k.0@);
        let lab = chars_of(label);
        let ghost old_keys = self.pin_keys();
        let ghost old_book = *self;
        match self.pin_index(k) {
            Some(i) => {
                proof {
                    lemma_key_at(old_keys, key_view(*k));
                }
                self.pins.set(i, (name, k.1, id, lab));
                assert(self.pin_keys() =~= old_keys);
                assert forall|k2: KeyView| k2 != key_view(*k) implies #[trigger] self.pin_at(k2) == old_book.pin_at(
                    k2,
                ) by {
                    lemma_key_at(old_keys, k2);
                    if let Some(j) = key_at(old_keys, k2) {
                        assert(j != i);
                    }
                }
            },
            None => {
                self.pins.push((name, k.1, id, lab));
                assert(self.pin_keys() =~= old_keys.push(key_view(*k)));
                assert(self.pin_keys().drop_last() =~= old_keys);
                assert forall|k2: KeyView| k2 != key_view(*k) implies #[trigger] self.pin_at(k2) == old_book.pin_at(
                    k2,
                ) by {
                    lemma_key_at(old_keys, k2);
                }
            },
        }
        assert(self.resolved_keys() =~= old_book.resolved_keys());
    }

    /// Records that the show with key `k` has been resolved, and returns its
    /// slot: its existing slot if it was resolved before (then nothing
    /// changes), else the next one. A show picked by hand (`pick` is its id)
    /// is pinned under its name `label`, and the book is marked unsaved; a
    /// show found otherwise leaves the pins as they are.
    pub fn settle(&mut self, k: &(Vec<char>, i32), label: &str, pick: Option<u64>) -> (s: usize)
        ensures
            old(self).slot(key_view(*k)) matches Some(s0) ==> s == s0 && final(self).resolved_keys()
                == old(self).resolved_keys() && final(self).pin_keys() == old(self).pin_keys()
                && final(self).pins@ == old(self).pins@ && final(self).dirty == old(self).dirty,
            old(self).slot(key_view(*k)) is None ==> {
                &&& s == old(self).resolved_keys().len()
                &&& final(self).resolved_keys() == old(self).resolved_keys().push(key_view(*k))
                &&& match pick {
                    Some(id) => {
                        &&& final(self).pin_at(key_view(*k)) == Some((id, label@))
                        &&& forall|k2: KeyView| k2 != key_view(*k) ==> #[trigger] final(self).pin_at(k2)
                            == old(self).pin_at(k2)
                        &&& final(self).dirty
                    },
                    None => final(self).pins@ == old(self).pins@ && final(self).dirty == old(self).dirty,
                }
            },
            final(self).slot(key_view(*k)) == Some(s as int),
            forall|k2: KeyView| k2 != key_view(*k) ==> #[trigger] final(self).slot(k2) == old(self).slot(k2),
    {
        match self.slot_of(k) {
            Some(s) => s,
            None => {
                let ghost old_keys = self.resolved_keys();
                let name = slice_vec(&k.0, 0, k.0.len());
                assert(name@ =~= k.0@);
                let s = self.resolved.len();
                self.resolved.push((name, k.1));
                assert(self.resolved_keys() =~= old_keys.push(key_view(*k)));
                assert(self.resolved_keys().drop_last() =~= old_keys);
                proof {
                    lemma_key_at(old_keys, key_view(*k));
                    assert forall|k2: KeyView| k2 != key_view(*k) implies #[trigger] self.slot(k2) == key_at(
                        old_keys,
                        k2,
                    ) by {}
                }
                let ghost mid_keys = self.resolved_keys();
                let ghost mid = *self;
                assert(mid.pins@ == old(self).pins@);
                assert(mid.pin_keys() =~= old(self).pin_keys());
                match pick {
                    Some(id) => {
                        self.pin(k, id, label);
                        let ghost pinned = *self;
                        self.dirty = true;
                        assert(self.pins@ == pinned.pins@);
                        assert(self.pin_at(key_view(*k)) == Some((id, label@)));
                        assert forall|k2: KeyView| k2 != key_view(*k) implies #[trigger] self.pin_at(k2)
                            == old(self).pin_at(k2) by {
                            assert(pinned.pin_at(k2) == mid.pin_at(k2));
                            assert(mid.pin_at(k2) == old(self).pin_at(k2));
                        }
                    },
                    None => {},
                }
                assert(self.resolved_keys() == mid_keys);
                s
            },
        }
    }
}

} // verus!
