use vstd::prelude::*;
use vstd::string::StringExecFns;
use crate::set::RBSet;

verus! {

/// The character of a decimal digit `d < 10`.
pub open spec fn digit_char(d: nat) -> char {
    if d == 0 { '0' }
    else if d == 1 { '1' }
    else if d == 2 { '2' }
    else if d == 3 { '3' }
    else if d == 4 { '4' }
    else if d == 5 { '5' }
    else if d == 6 { '6' }
    else if d == 7 { '7' }
    else if d == 8 { '8' }
    else { '9' }
}

/// The decimal digits of `n`, most significant first, without leading zeros.
pub open spec fn decimal(n: nat) -> Seq<char>
    decreases n,
{
    if n < 10 {
        seq![digit_char(n)]
    } else {
        decimal(n / 10).push(digit_char(n % 10))
    }
}

/// One interval written as `start..=end` followed by a space.
pub open spec fn entry_text(p: (u32, u32)) -> Seq<char> {
    decimal(p.0 as nat) + "..="@ + decimal(p.1 as nat) + " "@
}

/// The intervals written one after another.
pub open spec fn entries_text(r: Seq<(u32, u32)>) -> Seq<char>
    decreases r.len(),
{
    if r.len() == 0 {
        Seq::empty()
    } else {
        entries_text(r.drop_last()) + entry_text(r.last())
    }
}

/// Relies on the `Display` impl of `u32` (through `ToString`): an unsigned
/// integer is written in decimal, without sign or leading zeros.
#[verifier::external_body]
fn decimal_string(n: u32) -> (r: String)
    ensures
        r@ == decimal(n as nat),
{
    n.to_string()
}

impl RBSet {
    /// The set as text: each interval as `start..=end` followed by a space,
    /// then a newline.
    pub fn to_string(&self) -> (r: String)
        ensures
            r@ == entries_text(self@) + "\n"@,
    {
        let ranges = self.ranges();
        let n = ranges.len();
        let mut out = String::new();
        let mut i: usize = 0;
        while i < n
            invariant
                ranges@ == self@,
                n == self@.len(),
                i <= n,
                out@ == entries_text(self@.subrange(0, i as int)),
            decreases n - i,
        {
            let (start, end) = ranges[i];
            let s = decimal_string(start);
            out.append(s.as_str());
            out.append("..=");
            let e = decimal_string(end);
            out.append(e.as_str());
            out.append(" ");
            proof {
                assert(self@.subrange(0, i + 1).drop_last() =~= self@.subrange(0, i as int));
                assert(out@ =~= entries_text(self@.subrange(0, i + 1)));
            }
            i += 1;
        }
        out.append("\n");
        assert(self@.subrange(0, n as int) =~= self@);
        out
    }
}

} // verus!
