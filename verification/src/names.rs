//! Small integers in place of names: every distinct name gets the next free
//! one, and keeps it.
use vstd::prelude::*;

verus! {

/// The names handed out so far, in order.
pub struct Names {
    pub names: Vec<String>,
}

/// What each issued number stands for.
impl View for Names {
    type V = Seq<Seq<char>>;

    open spec fn view(&self) -> Seq<Seq<char>> {
        Seq::new(self.names@.len(), |i: int| self.names@[i]@)
    }
}

impl Names {
    /// No name was issued twice.
    pub open spec fn valid(&self) -> bool {
        forall|i: int, j: int| 0 <= i < j < self@.len() ==> #[trigger] self@[i] != #[trigger] self@[j]
    }

    pub fn new() -> (names: Names)
        ensures
            names.valid(),
            names@ == Seq::<Seq<char>>::empty(),
    {
        let names = Names { names: Vec::new() };
        assert(names@ =~= Seq::<Seq<char>>::empty());
        names
    }

    /// The number of `name`, issued now if it is new. Two names have one number
    /// exactly when they are equal.
    pub fn number(&mut self, name: String) -> (number: u64)
        requires
            old(self).valid(),
            old(self)@.len() < u64::MAX,
        ensures
            final(self).valid(),
            final(self)@ == if old(self)@.contains(name@) {
                old(self)@
            } else {
                old(self)@.push(name@)
            },
            number < final(self)@.len(),
            final(self)@[number as int] == name@,
    {
        let mut i: usize = 0;
        while i < self.names.len()
            invariant
                i <= self.names@.len(),
                self@ == old(self)@,
                old(self)@.len() < u64::MAX,
                self.valid(),
                forall|j: int| 0 <= j < i ==> #[trigger] self@[j] != name@,
            decreases self.names@.len() - i,
        {
            if self.names[i] == name {
                assert(self@[i as int] == name@);
                return i as u64;
            }
            i = i + 1;
        }
        assert(!self@.contains(name@));
        let number = self.names.len() as u64;
        self.names.push(name);
        proof {
            assert(self@ =~= old(self)@.push(name@));
        }
        number
    }
}

} // verus!
