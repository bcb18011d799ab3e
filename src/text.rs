//! The text form of a packed vector: its element width and its elements in
//! decimal.

use crate::block_type::BlockType;
use crate::int_vec::IntVec;
use vstd::prelude::*;

verus! {

/// The decimal digit `d`.
pub open spec fn digit_text(d: nat) -> Seq<char> {
    if d == 0 {
        "0"@
    } else if d == 1 {
        "1"@
    } else if d == 2 {
        "2"@
    } else if d == 3 {
        "3"@
    } else if d == 4 {
        "4"@
    } else if d == 5 {
        "5"@
    } else if d == 6 {
        "6"@
    } else if d == 7 {
        "7"@
    } else if d == 8 {
        "8"@
    } else {
        "9"@
    }
}

/// `x` in decimal, without leading zeros.
pub open spec fn decimal_text(x: nat) -> Seq<char>
    decreases x,
{
    if x < 10 {
        digit_text(x)
    } else {
        decimal_text(x / 10) + digit_text(x % 10)
    }
}

/// Each element in decimal, followed by `", "`.
pub open spec fn elements_text(s: Seq<u64>) -> Seq<char>
    decreases s.len(),
{
    if s.len() == 0 {
        Seq::empty()
    } else {
        elements_text(s.drop_last()) + decimal_text(s.last() as nat) + ", "@
    }
}

/// `IntVec { element_bits: k, elements: { e0, e1, ..., } }`.
pub open spec fn debug_text(k: nat, s: Seq<u64>) -> Seq<char> {
    "IntVec { element_bits: "@ + decimal_text(k) + ", elements: { "@ + elements_text(s) + "} }"@
}

fn digit_str(d: u64) -> (r: &'static str)
    requires
        d < 10,
    ensures
        r@ == digit_text(d as nat),
{
    if d == 0 {
        "0"
    } else if d == 1 {
        "1"
    } else if d == 2 {
        "2"
    } else if d == 3 {
        "3"
    } else if d == 4 {
        "4"
    } else if d == 5 {
        "5"
    } else if d == 6 {
        "6"
    } else if d == 7 {
        "7"
    } else if d == 8 {
        "8"
    } else {
        "9"
    }
}

fn push_decimal(out: &mut String, x: u64)
    ensures
        final(out)@ == old(out)@ + decimal_text(x as nat),
    decreases x,
{
    if x >= 10 {
        push_decimal(out, x / 10);
    }
    out.append(digit_str(x % 10));
    proof {
        if x >= 10 {
            assert(final(out)@ =~= old(out)@ + decimal_text(x as nat));
        }
    }
}

impl<Block: BlockType> IntVec<Block> {
    /// The vector as text: its element width and its elements in decimal,
    /// each followed by a comma.
    pub fn to_debug_string(&self) -> (r: String)
        requires
            self.wf(),
        ensures
            r@ == debug_text(self.spec_element_bits(), self@),
    {
        let mut out = String::new();
        out.append("IntVec { element_bits: ");
        push_decimal(&mut out, self.element_bits() as u64);
        out.append(", elements: { ");
        let ghost head = out@;
        let n = self.len();
        let mut i: usize = 0;
        while i < n
            invariant
                self.wf(),
                n == self@.len(),
                i <= n,
                out@ == head + elements_text(self@.subrange(0, i as int)),
            decreases n - i,
        {
            let e = self.get(i).to_u64();
            push_decimal(&mut out, e);
            out.append(", ");
            proof {
                assert(self@.subrange(0, i + 1).drop_last() =~= self@.subrange(0, i as int));
                assert(out@ =~= head + elements_text(self@.subrange(0, i + 1)));
            }
            i += 1;
        }
        out.append("} }");
        proof {
            assert(self@.subrange(0, n as int) =~= self@);
            assert(out@ =~= debug_text(self.spec_element_bits(), self@));
        }
        out
    }
}

} // verus!
