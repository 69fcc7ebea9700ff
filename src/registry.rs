//! The live rooms, each under a unique code.

use vstd::prelude::*;

verus! {

/// The map from code to handle that the entries `s` make, a later entry of a
/// code standing over an earlier one.
pub open spec fn map_of<H>(s: Seq<(String, H)>) -> Map<Seq<char>, H>
    decreases s.len(),
{
    if s.len() == 0 {
        Map::empty()
    } else {
        map_of(s.drop_last()).insert(s.last().0@, s.last().1)
    }
}

/// No two entries of `s` share a code.
pub open spec fn distinct_codes<H>(s: Seq<(String, H)>) -> bool {
    forall|i: int, j: int|
        0 <= i < s.len() && 0 <= j < s.len() && i != j ==> (#[trigger] s[i]).0@ != (#[trigger] s[j]).0@
}

/// The codes of `s` are those of its entries, and with distinct codes each
/// entry's handle is the one of its code, and there are as many codes as
/// entries.
proof fn lemma_map_of<H>(s: Seq<(String, H)>)
    ensures
        map_of(s).dom().finite(),
        forall|k: Seq<char>| #[trigger] map_of(s).contains_key(k) <==> exists|i: int| 0 <= i < s.len() && (#[trigger] s[i]).0@ == k,
        distinct_codes(s) ==> map_of(s).dom().len() == s.len(),
        distinct_codes(s) ==> forall|i: int| 0 <= i < s.len() ==> map_of(s)[(#[trigger] s[i]).0@] == s[i].1,
    decreases s.len(),
{
    broadcast use vstd::set::group_set_axioms, vstd::map::group_map_axioms;
    if s.len() > 0 {
        let init = s.drop_last();
        lemma_map_of(init);
        assert forall|k: Seq<char>| #[trigger] map_of(s).contains_key(k) <==> exists|i: int| 0 <= i < s.len() && (#[trigger] s[i]).0@ == k by {
            if map_of(s).contains_key(k) && k != s.last().0@ {
                let i = choose|i: int| 0 <= i < init.len() && (#[trigger] init[i]).0@ == k;
                assert(s[i] == init[i]);
            }
            if exists|i: int| 0 <= i < s.len() && (#[trigger] s[i]).0@ == k {
                let i = choose|i: int| 0 <= i < s.len() && (#[trigger] s[i]).0@ == k;
                if i < init.len() {
                    assert(init[i] == s[i]);
                }
            }
        }
        if distinct_codes(s) {
            assert(distinct_codes(init));
            assert(!map_of(init).contains_key(s.last().0@)) by {
                if map_of(init).contains_key(s.last().0@) {
                    let i = choose|i: int| 0 <= i < init.len() && (#[trigger] init[i]).0@ == s.last().0@;
                    assert(s[i] == init[i]);
                    assert(s[s.len() - 1] == s.last());
                }
            }
            assert forall|i: int| 0 <= i < s.len() implies map_of(s)[(#[trigger] s[i]).0@] == s[i].1 by {
                if i < init.len() {
                    assert(init[i] == s[i]);
                    assert(s[s.len() - 1] == s.last());
                }
            }
        }
    }
}

/// An arena of live rooms: a handle per code, no code twice.
#[derive(Debug)]
pub struct Registry<H> {
    entries: Vec<(String, H)>,
}

impl<H> View for Registry<H> {
    type V = Map<Seq<char>, H>;

    closed spec fn view(&self) -> Map<Seq<char>, H> {
        map_of(self.entries@)
    }
}

impl<H> Registry<H> {
    /// No code is held twice.
    pub closed spec fn wf(&self) -> bool {
        distinct_codes(self.entries@)
    }

    /// A registry with no room.
    pub fn new() -> (r: Self)
        ensures
            r.wf(),
            r@ == Map::<Seq<char>, H>::empty(),
    {
        Registry { entries: Vec::new() }
    }

    /// The number of rooms.
    pub fn len(&self) -> (r: usize)
        requires
            self.wf(),
        ensures
            r == self@.len(),
            self@.dom().finite(),
    {
        proof {
            lemma_map_of(self.entries@);
        }
        self.entries.len()
    }

    /// The position of the entry of `code`, if there is one.
    fn position(&self, code: &str) -> (r: Option<usize>)
        requires
            self.wf(),
        ensures
            r is None <==> !self@.contains_key(code@),
            r matches Some(i) ==> i < self.entries@.len() && self.entries@[i as int].0@ == code@,
    {
        proof {
            lemma_map_of(self.entries@);
        }
        let wanted = code.to_owned();
        let mut i: usize = 0;
        while i < self.entries.len()
            invariant
                wanted@ == code@,
                i <= self.entries@.len(),
                forall|t: int| 0 <= t < i ==> (#[trigger] self.entries@[t]).0@ != code@,
            decreases self.entries@.len() - i,
        {
            if self.entries[i].0 == wanted {
                proof {
                    lemma_map_of(self.entries@);
                    assert(self.entries@[i as int].0@ == code@);
                }
                return Some(i);
            }
            i += 1;
        }
        None
    }

    /// Whether a room has the code `code`.
    pub fn contains(&self, code: &str) -> (r: bool)
        requires
            self.wf(),
        ensures
            r == self@.contains_key(code@),
    {
        self.position(code).is_some()
    }

    /// The handle of the room of code `code`, if there is one.
    pub fn find(&self, code: &str) -> (r: Option<&H>)
        requires
            self.wf(),
        ensures
            r is None <==> !self@.contains_key(code@),
            r matches Some(h) ==> *h == self@[code@],
    {
        proof {
            lemma_map_of(self.entries@);
        }
        match self.position(code) {
            Some(i) => Some(&self.entries[i].1),
            None => None,
        }
    }

    /// Records `handle` under `code` if no room has that code; says whether
    /// it did.
    pub fn register(&mut self, code: String, handle: H) -> (r: bool)
        requires
            old(self).wf(),
        ensures
            final(self).wf(),
            r == !old(self)@.contains_key(code@),
            final(self)@ == if r { old(self)@.insert(code@, handle) } else { old(self)@ },
    {
        if self.contains(code.as_str()) {
            false
        } else {
            proof {
                lemma_map_of(self.entries@);
            }
            let ghost old_entries = self.entries@;
            self.entries.push((code, handle));
            assert(self.entries@.drop_last() =~= old_entries);
            assert(distinct_codes(self.entries@)) by {
                assert forall|i: int, j: int|
                    0 <= i < self.entries@.len() && 0 <= j < self.entries@.len() && i != j
                    implies (#[trigger] self.entries@[i]).0@ != (#[trigger] self.entries@[j]).0@ by {
                    if i < old_entries.len() && j < old_entries.len() {
                        assert(self.entries@[i] == old_entries[i] && self.entries@[j] == old_entries[j]);
                    } else if i < old_entries.len() {
                        assert(self.entries@[i] == old_entries[i]);
                    } else {
                        assert(self.entries@[j] == old_entries[j]);
                    }
                }
            }
            true
        }
    }

    /// Forgets the room of code `code`, if there is one: for a room whose
    /// handle no longer reaches it.
    pub fn prune(&mut self, code: &str)
        requires
            old(self).wf(),
        ensures
            final(self).wf(),
            final(self)@ == old(self)@.remove(code@),
    {
        proof {
            lemma_map_of(self.entries@);
        }
        match self.position(code) {
            None => {
                assert(self@ =~= self@.remove(code@));
            },
            Some(i) => {
                let ghost s = self.entries@;
                let _gone = self.entries.remove(i);
                let ghost t = self.entries@;
                assert(t =~= s.remove(i as int));
                assert(distinct_codes(t)) by {
                    assert forall|a: int, b: int| 0 <= a < t.len() && 0 <= b < t.len() && a != b
                        implies (#[trigger] t[a]).0@ != (#[trigger] t[b]).0@ by {
                        let sa = if a < i { a } else { a + 1 };
                        let sb = if b < i { b } else { b + 1 };
                        assert(t[a] == s[sa] && t[b] == s[sb]);
                    }
                }
                proof {
                    lemma_map_of(t);
                }
                assert forall|k: Seq<char>| #[trigger] map_of(t).contains_key(k) <==> map_of(s).remove(code@).contains_key(k) by {
                    if map_of(t).contains_key(k) {
                        let a = choose|a: int| 0 <= a < t.len() && (#[trigger] t[a]).0@ == k;
                        let sa = if a < i { a } else { a + 1 };
                        assert(t[a] == s[sa]);
                    }
                    if map_of(s).remove(code@).contains_key(k) {
                        let b = choose|b: int| 0 <= b < s.len() && (#[trigger] s[b]).0@ == k;
                        let ta = if b < i { b } else { b - 1 };
                        assert(t[ta] == s[b]);
                    }
                }
                assert forall|k: Seq<char>| #[trigger] map_of(t).contains_key(k) implies map_of(t)[k] == map_of(s).remove(code@)[k] by {
                    let a = choose|a: int| 0 <= a < t.len() && (#[trigger] t[a]).0@ == k;
                    let sa = if a < i { a } else { a + 1 };
                    assert(t[a] == s[sa]);
                }
                assert(map_of(t) =~= map_of(s).remove(code@));
            },
        }
    }
}

} // verus!
