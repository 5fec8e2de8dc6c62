//! Small sets: of names, and of aircraft addresses in the order in which they came.

use vstd::prelude::*;

verus! {

/// A set of names.
#[derive(Debug)]
pub struct NameSet {
    names: Vec<String>,
}

impl NameSet {
    /// No name stands twice.
    pub closed spec fn wf(self) -> bool {
        forall|i: int, j: int|
            0 <= i < j < self.names@.len() ==> (#[trigger] self.names@[i])@ != (
            #[trigger] self.names@[j])@
    }

    /// The names.
    pub closed spec fn view(&self) -> Set<Seq<char>> {
        Set::new(
            |n: Seq<char>|
                exists|i: int| 0 <= i < self.names@.len() && (#[trigger] self.names@[i])@ == n,
        )
    }

    /// The empty set.
    pub fn new() -> (s: Self)
        ensures
            s.wf(),
            s@ == Set::<Seq<char>>::empty(),
    {
        let s: NameSet = NameSet { names: Vec::new() };
        assert(s@ =~= Set::<Seq<char>>::empty());
        s
    }

    /// The number of names is the size of the set.
    proof fn lemma_len(self)
        requires
            self.wf(),
        ensures
            self@.finite(),
            self@.len() == self.names@.len(),
    {
        let views = self.names@.map_values(|s: String| s@);
        assert(views.no_duplicates());
        assert(self@ =~= views.to_set()) by {
            assert forall|n: Seq<char>| self@.contains(n) <==> views.to_set().contains(n) by {
                if self@.contains(n) {
                    let i = choose|i: int|
                        0 <= i < self.names@.len() && (#[trigger] self.names@[i])@ == n;
                    assert(views[i] == n);
                }
                if views.to_set().contains(n) {
                    let i = choose|i: int| 0 <= i < views.len() && views[i] == n;
                    assert(self.names@[i]@ == n);
                }
            }
        }
        views.unique_seq_to_set();
        vstd::seq_lib::seq_to_set_is_finite(views);
    }

    /// How many names there are.
    pub fn len(&self) -> (n: usize)
        requires
            self.wf(),
        ensures
            self@.finite(),
            n == self@.len(),
    {
        proof {
            self.lemma_len();
        }
        self.names.len()
    }

    /// The place of a name.
    fn position(&self, name: &String) -> (r: Option<usize>)
        ensures
            r is Some <==> self@.contains(name@),
            r matches Some(i) ==> i < self.names@.len() && self.names@[i as int]@ == name@,
    {
        let mut i: usize = 0;
        while i < self.names.len()
            invariant
                i <= self.names@.len(),
                forall|j: int| 0 <= j < i ==> (#[trigger] self.names@[j])@ != name@,
            decreases self.names@.len() - i,
        {
            if self.names[i] == *name {
                return Some(i);
            }
            i += 1;
        }
        None
    }

    /// Adds a name.
    pub fn insert(&mut self, name: &String)
        requires
            old(self).wf(),
        ensures
            final(self).wf(),
            final(self)@ == old(self)@.insert(name@),
    {
        if self.position(name).is_none() {
            let ghost before = self.names@;
            self.names.push(name.clone());
            assert forall|n: Seq<char>| self@.contains(n) <==> old(self)@.insert(name@).contains(n) by {
                if old(self)@.contains(n) {
                    let i = choose|i: int| 0 <= i < before.len() && (#[trigger] before[i])@ == n;
                    assert(self.names@[i]@ == n);
                }
                assert(self.names@[before.len() as int]@ == name@);
            }
            assert forall|i: int, j: int| 0 <= i < j < self.names@.len() implies (
            #[trigger] self.names@[i])@ != (#[trigger] self.names@[j])@ by {
                if j == before.len() {
                    assert(before[i]@ != name@);
                }
            }
        }
        assert(self@ =~= old(self)@.insert(name@));
    }

    /// Takes a name out.
    pub fn remove(&mut self, name: &String)
        requires
            old(self).wf(),
        ensures
            final(self).wf(),
            final(self)@ == old(self)@.remove(name@),
    {
        match self.position(name) {
            Some(k) => {
                let ghost before = self.names@;
                self.names.swap_remove(k);
                let ghost after = self.names@;
                assert forall|n: Seq<char>| self@.contains(n) <==> old(self)@.remove(name@).contains(
                    n,
                ) by {
                    if old(self)@.contains(n) && n != name@ {
                        let i = choose|i: int| 0 <= i < before.len() && (#[trigger] before[i])@ == n;
                        if i == before.len() - 1 {
                            assert(after[k as int]@ == n);
                        } else {
                            assert(after[i]@ == n);
                        }
                    }
                    if self@.contains(n) {
                        let i = choose|i: int| 0 <= i < after.len() && (#[trigger] after[i])@ == n;
                        if i == k {
                            assert(before.last()@ == n);
                            assert(before[before.len() - 1]@ == n);
                            assert(before[k as int]@ != n);
                        } else {
                            assert(before[i]@ == n);
                        }
                    }
                }
                assert forall|i: int, j: int| 0 <= i < j < after.len() implies (
                #[trigger] after[i])@ != (#[trigger] after[j])@ by {
                    let last = before.len() - 1;
                    if i == k {
                        assert(before[j]@ != before[last]@);
                    } else if j == k {
                        assert(before[i]@ != before[last]@);
                    }
                }
            },
            None => {},
        }
        assert(self@ =~= old(self)@.remove(name@));
    }
}

/// A set of aircraft addresses, in the order in which they came.
#[derive(Debug)]
pub struct IcaoSet {
    icaos: Vec<u32>,
}

impl IcaoSet {
    /// No address stands twice.
    pub open spec fn wf(self) -> bool {
        self@.no_duplicates()
    }

    /// The addresses, in the order in which they came.
    pub closed spec fn view(&self) -> Seq<u32> {
        self.icaos@
    }

    /// The empty set.
    pub fn new() -> (s: Self)
        ensures
            s.wf(),
            s@ == Seq::<u32>::empty(),
    {
        IcaoSet { icaos: Vec::new() }
    }

    /// How many addresses there are.
    pub fn len(&self) -> (n: usize)
        ensures
            n == self@.len(),
    {
        self.icaos.len()
    }

    /// An address by its place.
    pub fn at(&self, i: usize) -> (icao: u32)
        requires
            i < self@.len(),
        ensures
            icao == self@[i as int],
    {
        self.icaos[i]
    }

    /// Whether an address is in the set.
    pub fn contains(&self, icao: u32) -> (r: bool)
        ensures
            r == self@.contains(icao),
    {
        let mut i: usize = 0;
        while i < self.icaos.len()
            invariant
                i <= self.icaos@.len(),
                forall|j: int| 0 <= j < i ==> #[trigger] self.icaos@[j] != icao,
            decreases self.icaos@.len() - i,
        {
            if self.icaos[i] == icao {
                return true;
            }
            i += 1;
        }
        false
    }

    /// Adds an address behind the others, unless it is there.
    pub fn insert(&mut self, icao: u32)
        requires
            old(self).wf(),
        ensures
            final(self).wf(),
            final(self)@ == with_icao(old(self)@, icao),
    {
        if !self.contains(icao) {
            self.icaos.push(icao);
        }
    }
}

/// A sequence of addresses with another one, which comes last unless it is there.
pub open spec fn with_icao(s: Seq<u32>, icao: u32) -> Seq<u32> {
    if s.contains(icao) {
        s
    } else {
        s.push(icao)
    }
}

/// An address that is added is there, once; the others stay in their places.
pub proof fn law_added_address_is_there(s: Seq<u32>, icao: u32, other: u32)
    ensures
        with_icao(s, icao).contains(icao),
        other != icao ==> (with_icao(s, icao).contains(other) <==> s.contains(other)),
        s.no_duplicates() ==> with_icao(s, icao).no_duplicates(),
        with_icao(s, icao).take(s.len() as int) == s,
        with_icao(with_icao(s, icao), icao) == with_icao(s, icao),
{
    let t = with_icao(s, icao);
    assert(t.take(s.len() as int) =~= s);
    if !s.contains(icao) {
        assert(t[s.len() as int] == icao);
    }
    if s.contains(other) {
        let i = choose|i: int| 0 <= i < s.len() && s[i] == other;
        assert(t[i] == other);
    }
    if t.contains(other) && other != icao {
        let i = choose|i: int| 0 <= i < t.len() && t[i] == other;
        assert(s[i] == other);
    }
}

} // verus!
