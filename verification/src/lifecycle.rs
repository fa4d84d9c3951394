//! The scripted process lifecycle: crash and restart commands queued by a
//! script, executed in order by the injector, and acknowledged one by one.
use vstd::prelude::*;

verus! {

/// One command, for the process under a key.
#[derive(Clone, Copy, Debug, PartialEq, Eq, Structural)]
pub enum Op {
    Crash(u64),
    Restart(u64),
}

pub struct Queue {
    pub ops: Vec<Op>,
    /// How many of them the injector has carried out.
    pub executed: usize,
}

impl Queue {
    pub open spec fn valid(&self) -> bool {
        self.executed <= self.ops@.len()
    }

    pub fn new() -> (queue: Queue)
        ensures
            queue.valid(),
            queue.ops@ == Seq::<Op>::empty(),
            queue.executed == 0,
    {
        Queue { ops: Vec::new(), executed: 0 }
    }

    /// Queue a command; the position whose execution acknowledges it.
    pub fn push(&mut self, op: Op) -> (position: usize)
        requires
            old(self).valid(),
        ensures
            final(self).valid(),
            final(self).ops@ == old(self).ops@.push(op),
            final(self).executed == old(self).executed,
            position == final(self).ops@.len(),
    {
        self.ops.push(op);
        self.ops.len()
    }

    /// Whether the command at `position` has been carried out.
    pub fn done(&self, position: usize) -> (done: bool)
        ensures
            done == (self.executed >= position),
    {
        self.executed >= position
    }

    /// The commands still to carry out, in order.
    pub fn pending(&self) -> (pending: Vec<Op>)
        requires
            self.valid(),
        ensures
            pending@ == self.ops@.skip(self.executed as int),
    {
        let mut pending: Vec<Op> = Vec::new();
        let mut i = self.executed;
        while i < self.ops.len()
            invariant
                self.valid(),
                self.executed <= i <= self.ops@.len(),
                pending@ == self.ops@.subrange(self.executed as int, i as int),
            decreases self.ops@.len() - i,
        {
            pending.push(self.ops[i]);
            i = i + 1;
            assert(pending@ =~= self.ops@.subrange(self.executed as int, i as int));
        }
        assert(pending@ =~= self.ops@.skip(self.executed as int));
        pending
    }

    /// Acknowledge the first pending command.
    pub fn acknowledge(&mut self)
        requires
            old(self).valid(),
            old(self).executed < old(self).ops.len(),
        ensures
            final(self).valid(),
            final(self).ops@ == old(self).ops@,
            final(self).executed == old(self).executed + 1,
    {
        self.executed = self.executed + 1;
    }
}

/// A command is acknowledged exactly when it, and everything queued before it,
/// has been carried out.
pub proof fn law_acknowledged_in_order(queue: Queue, position: usize)
    requires
        queue.valid(),
        0 < position <= queue.ops@.len(),
    ensures
        queue.executed >= position <==> queue.ops@.skip(queue.executed as int).len()
            <= queue.ops@.len() - position,
{
}

} // verus!
