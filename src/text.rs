use vstd::prelude::*;

verus! {

broadcast use vstd::std_specs::vec::group_vec_axioms, vstd::seq::group_seq_axioms;

/// The decimal digits of `n`, without leading zeros.
pub open spec fn nat_text(n: nat) -> Seq<u8>
    decreases n,
{
    if n < 10 {
        seq![(48 + n) as u8]
    } else {
        nat_text(n / 10).push((48 + n % 10) as u8)
    }
}

/// The decimal text of `i`, with a `-` before a negative one.
pub open spec fn int_text(i: int) -> Seq<u8> {
    if i < 0 {
        seq![45u8] + nat_text((-i) as nat)
    } else {
        nat_text(i as nat)
    }
}

/// Appends the decimal digits of `n` to `out`.
pub fn push_decimal(out: &mut Vec<u8>, n: u64)
    ensures
        final(out)@ == old(out)@ + nat_text(n as nat),
{
    let mut digits: Vec<u8> = Vec::new();
    let mut m = n;
    // the digits, last first
    loop
        invariant_except_break
            nat_text(n as nat) == nat_text(m as nat) + digits@.reverse(),
        ensures
            nat_text(n as nat) == digits@.reverse(),
        decreases m,
    {
        let d = (m % 10) as u8;
        let ghost before = digits@;
        digits.push(48 + d);
        assert(digits@.reverse() =~= seq![(48 + d) as u8] + before.reverse());
        if m < 10 {
            assert(nat_text(m as nat) == seq![(48 + m) as u8]);
            assert(nat_text(n as nat) =~= digits@.reverse());
            break;
        }
        assert(nat_text(m as nat) == nat_text((m / 10) as nat).push((48 + m % 10) as u8));
        m = m / 10;
        assert(nat_text(n as nat) =~= nat_text(m as nat) + digits@.reverse());
    }
    let mut i = digits.len();
    let ghost rev = digits@.reverse();
    let ghost start = out@;
    while i > 0
        invariant
            i <= digits@.len(),
            rev == digits@.reverse(),
            out@ == start + rev.subrange(0, digits@.len() - i),
        decreases i,
    {
        i = i - 1;
        out.push(digits[i]);
        assert(rev[digits@.len() - 1 - i] == digits@[i as int]);
        assert(out@ =~= start + rev.subrange(0, digits@.len() - i));
    }
    assert(rev.subrange(0, digits@.len() as int) =~= rev);
    assert(rev.len() == digits@.len());
}

} // verus!
