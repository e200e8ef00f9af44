use vstd::prelude::*;
use vstd::string::StringExecFns;

verus! {

/// Type for the unique ID.
pub type UID = u64;

/// Unique ID generator: hands out 1, 2, 3, ... and never repeats a value.
/// It cannot be cloned, so the process holds one sequence: the broker owns
/// the generator.
pub struct UidGen {
    next: u64,
}

impl UidGen {
    /// The value that the next call of `allocate` returns.
    pub closed spec fn next_uid(&self) -> nat {
        self.next as nat
    }

    /// Every generator starts at 1 and only moves up.
    pub closed spec fn wf(&self) -> bool {
        self.next >= 1
    }

    /// Create a new unique ID generator.
    pub fn new() -> (r: Self)
        ensures
            r.wf(),
            r.next_uid() == 1,
    {
        UidGen { next: 1 }
    }

    /// Whether `allocate` can still hand out a fresh value.
    pub fn can_allocate(&self) -> (r: bool)
        ensures
            r == (self.next_uid() < u64::MAX),
    {
        self.next < u64::MAX
    }

    /// Allocate a new UID.
    pub fn allocate(&mut self) -> (r: UID)
        requires
            old(self).wf(),
            old(self).next_uid() < u64::MAX,
        ensures
            final(self).wf(),
            r == old(self).next_uid(),
            final(self).next_uid() == old(self).next_uid() + 1,
    {
        let r = self.next;
        self.next = self.next + 1;
        r
    }
}

/// The ASCII digit for `d` (below ten).
pub open spec fn digit_char(d: nat) -> char {
    ((d + 48) as u8) as char
}

/// The decimal representation of `n`, without sign or leading zeros.
pub open spec fn decimal(n: nat) -> Seq<char>
    decreases n,
{
    if n < 10 {
        seq![digit_char(n)]
    } else {
        decimal(n / 10).push(digit_char(n % 10))
    }
}

/// The one-character string of digit `d`.
fn digit_str(d: u64) -> (r: &'static str)
    requires
        d < 10,
    ensures
        r@ == seq![digit_char(d as nat)],
{
    proof {
        reveal_strlit("0");
        reveal_strlit("1");
        reveal_strlit("2");
        reveal_strlit("3");
        reveal_strlit("4");
        reveal_strlit("5");
        reveal_strlit("6");
        reveal_strlit("7");
        reveal_strlit("8");
        reveal_strlit("9");
    }
    let r = if d == 0 {
        "0"
    } else if d == 1 {
        "1"
    } else if d == 2 {
        "2"
    } else if d == 3 {
        "3"
    } else if d == 4 {
        "4"
    } else if d == 5 {
        "5"
    } else if d == 6 {
        "6"
    } else if d == 7 {
        "7"
    } else if d == 8 {
        "8"
    } else {
        "9"
    };
    assert(r@ =~= seq![digit_char(d as nat)]);
    r
}

/// The decimal representation of a UID.
pub(crate) fn uid_string(n: UID) -> (r: String)
    ensures
        r@ == decimal(n as nat),
    decreases n,
{
    let d = digit_str(n % 10);
    if n < 10 {
        String::from_str(d)
    } else {
        let mut s = uid_string(n / 10);
        s.append(d);
        proof {
            assert(s@ =~= decimal((n / 10) as nat).push(digit_char((n % 10) as nat)));
        }
        s
    }
}

} // verus!
