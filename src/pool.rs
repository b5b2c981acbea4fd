use vstd::prelude::*;
use crate::error::SimError;

verus! {

/// Relies on `rand::random::<u8>`: one value drawn from the thread-local
/// generator. Nothing is promised about the value.
#[verifier::external_body]
fn draw_u8() -> (r: u8) {
    rand::random::<u8>()
}

/// A fixed pool of random bytes drawn once, handed out in order by a cursor.
pub struct RandomPool {
    values: Vec<u8>,
    cursor: usize,
}

impl RandomPool {
    /// The values of the pool, in the order they are handed out.
    pub closed spec fn values(&self) -> Seq<u8> {
        self.values@
    }

    /// How many values have been handed out since the last reset.
    pub closed spec fn cursor(&self) -> nat {
        self.cursor as nat
    }

    pub open spec fn wf(&self) -> bool {
        self.cursor() <= self.values().len()
    }

    /// How many values are still available.
    pub open spec fn remaining(&self) -> nat {
        (self.values().len() - self.cursor()) as nat
    }

    /// Draws `count` random values up front.
    pub fn new(count: usize) -> (r: RandomPool)
        ensures
            r.wf(),
            r.values().len() == count,
            r.cursor() == 0,
    {
        let mut values: Vec<u8> = Vec::new();
        let mut i: usize = 0;
        while i < count
            invariant
                i <= count,
                values@.len() == i,
            decreases count - i,
        {
            values.push(draw_u8());
            i = i + 1;
        }
        RandomPool { values, cursor: 0 }
    }

    /// A pool that hands out the given values, which makes a run reproducible.
    pub fn from_values(values: Vec<u8>) -> (r: RandomPool)
        ensures
            r.wf(),
            r.values() == values@,
            r.cursor() == 0,
    {
        RandomPool { values, cursor: 0 }
    }

    /// Number of values in the pool.
    pub fn len(&self) -> (r: usize)
        ensures
            r == self.values().len(),
    {
        self.values.len()
    }

    /// Number of values still available.
    pub fn remaining_count(&self) -> (r: usize)
        requires
            self.wf(),
        ensures
            r == self.remaining(),
    {
        self.values.len() - self.cursor
    }

    /// Hands out the next value, or fails with `Exhausted` once every value
    /// has been handed out; the pool never wraps around.
    pub fn next(&mut self) -> (r: Result<u8, SimError>)
        requires
            old(self).wf(),
        ensures
            final(self).wf(),
            final(self).values() == old(self).values(),
            old(self).cursor() < old(self).values().len() ==> {
                &&& r == Ok::<u8, SimError>(old(self).values()[old(self).cursor() as int])
                &&& final(self).cursor() == old(self).cursor() + 1
            },
            old(self).cursor() >= old(self).values().len() ==> {
                &&& r == Err::<u8, SimError>(SimError::Exhausted)
                &&& final(self).cursor() == old(self).cursor()
            },
    {
        if self.cursor < self.values.len() {
            let v = self.values[self.cursor];
            self.cursor = self.cursor + 1;
            Ok(v)
        } else {
            Err(SimError::Exhausted)
        }
    }

    /// Rewinds the cursor to the first value without drawing new ones.
    pub fn reset(&mut self)
        ensures
            final(self).wf(),
            final(self).values() == old(self).values(),
            final(self).cursor() == 0,
    {
        self.cursor = 0;
    }
}

/// A simulated actor: its key is the time at which it is next due.
#[derive(Debug, Clone, Copy, PartialEq, Eq, Structural)]
pub struct Entity {
    pub time: u64,
}

impl Entity {
    /// An entity whose initial key is the next value of the pool.
    pub fn new(pool: &mut RandomPool) -> (r: Result<Entity, SimError>)
        requires
            old(pool).wf(),
        ensures
            final(pool).wf(),
            final(pool).values() == old(pool).values(),
            old(pool).cursor() < old(pool).values().len() ==> {
                &&& r == Ok::<Entity, SimError>(
                    Entity { time: old(pool).values()[old(pool).cursor() as int] as u64 },
                )
                &&& final(pool).cursor() == old(pool).cursor() + 1
            },
            old(pool).cursor() >= old(pool).values().len() ==> {
                &&& r == Err::<Entity, SimError>(SimError::Exhausted)
                &&& final(pool).cursor() == old(pool).cursor()
            },
    {
        match pool.next() {
            Ok(v) => Ok(Entity { time: v as u64 }),
            Err(e) => Err(e),
        }
    }
}

} // verus!
