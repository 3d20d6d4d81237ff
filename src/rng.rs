use vstd::prelude::*;

verus! {

/// One xorshift step.
pub open spec fn xorshift(x: u64) -> u64 {
    let a = x ^ (x << 13u64);
    let b = a ^ (a >> 7u64);
    b ^ (b << 17u64)
}

/// A small deterministic generator owned by one generation run.
pub struct SeededRng {
    pub state: u64,
}

impl SeededRng {
    /// A generator whose sequence is fixed by `seed`; a zero state would stay zero, so it is avoided.
    pub fn new(seed: u64) -> (r: SeededRng)
        ensures
            r.state == (if seed == 0 { 0x9E37_79B9_7F4A_7C15u64 } else { seed }),
    {
        SeededRng { state: if seed == 0 { 0x9E37_79B9_7F4A_7C15u64 } else { seed } }
    }

    pub fn next_u64(&mut self) -> (r: u64)
        ensures
            final(self).state == xorshift(old(self).state),
            r == final(self).state,
    {
        let x = self.state;
        let a = x ^ (x << 13u64);
        let b = a ^ (a >> 7u64);
        let c = b ^ (b << 17u64);
        self.state = c;
        c
    }

    /// A number below `n`.
    pub fn below(&mut self, n: u64) -> (r: u64)
        requires
            n > 0,
        ensures
            final(self).state == xorshift(old(self).state),
            r == final(self).state % n,
            r < n,
    {
        let x = self.next_u64();
        x % n
    }
}

} // verus!
