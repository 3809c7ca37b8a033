//! Small value-passing helpers: a student record and string hand-offs.
use vstd::prelude::*;
use vstd::string::StringSliceAdditionalSpecFns;
use vstd::utf8::encode_utf8;

verus! {

/// A student's name and scores.
pub struct Student {
    pub name: String,
    pub scores: Vec<u32>,
}

/// The sum of `s`.
pub open spec fn sum_of(s: Seq<u32>) -> nat
    decreases s.len(),
{
    if s.len() == 0 {
        0
    } else {
        sum_of(s.subrange(0, s.len() - 1)) + s[s.len() - 1] as nat
    }
}

impl Student {
    /// A student with the given name and scores.
    pub fn new(name: String, scores: Vec<u32>) -> (r: Student)
        ensures
            r.name@ == name@,
            r.scores@ == scores@,
    {
        Student { name, scores }
    }

    /// The sum of the scores.
    pub fn total_score(&self) -> (r: u64)
        requires
            self.scores@.len() <= u32::MAX,
        ensures
            r == sum_of(self.scores@),
    {
        let mut total: u64 = 0;
        let mut k: usize = 0;
        while k < self.scores.len()
            invariant
                self.scores@.len() <= u32::MAX,
                0 <= k <= self.scores@.len(),
                total == sum_of(self.scores@.subrange(0, k as int)),
                total <= k * (u32::MAX as int),
            decreases self.scores@.len() - k,
        {
            assert(self.scores@.subrange(0, k + 1).subrange(0, k as int) =~= self.scores@.subrange(
                0,
                k as int,
            ));
            assert(total + self.scores@[k as int] <= (k + 1) * (u32::MAX as int)) by (nonlinear_arith)
                requires
                    total <= k * (u32::MAX as int),
                    self.scores@[k as int] <= u32::MAX,
            ;
            assert((k + 1) * (u32::MAX as int) <= u64::MAX) by (nonlinear_arith)
                requires
                    k + 1 <= u32::MAX,
            ;
            total = total + self.scores[k] as u64;
            k += 1;
        }
        assert(self.scores@.subrange(0, k as int) =~= self.scores@);
        total
    }
}

/// The length of `s` in bytes.
pub fn calculate_length(s: &String) -> (r: usize)
    ensures
        r == encode_utf8(s@).len() as usize,
{
    let t = s.as_str();
    assert(t.spec_bytes() == encode_utf8(s@));
    t.len()
}

/// A new string, `"yours"`.
pub fn gives_ownership() -> (r: String)
    ensures
        r@ == "yours"@,
{
    String::from_str("yours")
}

/// Hands `a_string` back unchanged.
pub fn takes_and_gives_back(a_string: String) -> (r: String)
    ensures
        r == a_string,
{
    a_string
}

} // verus!
