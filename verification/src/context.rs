//! What the emitters share while they work on a module.

use std::collections::BTreeMap;

use vstd::prelude::*;

use crate::css::{cond_name, CompFns};
use crate::text::nat_text;

verus! {

/// The number that decimal digits denote, the most significant first.
pub open spec fn decimal_value(digits: Seq<u8>) -> nat
    decreases digits.len(),
{
    if digits.len() == 0 {
        0
    } else {
        decimal_value(digits.drop_last()) * 10 + digits.last() as nat
    }
}

/// A counter without an upper bound, held in decimal.
pub struct Counter {
    /// The digits, the most significant first.
    pub digits: Vec<u8>,
}

impl View for Counter {
    type V = nat;

    open spec fn view(&self) -> nat {
        decimal_value(self.digits@)
    }
}

/// Whether digits are decimal and do not start with a superfluous zero.
pub open spec fn is_decimal(digits: Seq<u8>) -> bool {
    &&& forall|i: int| 0 <= i < digits.len() ==> #[trigger] digits[i] < 10
    &&& digits.len() > 1 ==> digits[0] != 0
}

/// Adds one to a decimal number.
fn increment(digits: &mut Vec<u8>)
    requires
        is_decimal(old(digits)@),
    ensures
        is_decimal(final(digits)@),
        final(digits)@.len() > 0,
        final(digits)@[0] != 0,
        decimal_value(final(digits)@) == decimal_value(old(digits)@) + 1,
    decreases old(digits)@.len(),
{
    match digits.pop() {
        None => {
            digits.push(1);
            assert(digits@.drop_last() == Seq::<u8>::empty());
            assert(decimal_value(Seq::<u8>::empty()) == 0);
        },
        Some(last) => {
            let ghost rest = digits@;
            assert(old(digits)@.drop_last() == rest);
            assert forall|i: int| 0 <= i < rest.len() implies #[trigger] rest[i] < 10 by {
                assert(old(digits)@[i] < 10);
            }
            if last == 9 {
                increment(digits);
                let ghost high = digits@;
                digits.push(0);
                assert(digits@.drop_last() == high);
            } else {
                assert(last == old(digits)@.last() && last < 10);
                digits.push(last + 1);
                assert(digits@.drop_last() == rest);
            }
        },
    }
}

/// A decimal number that does not start with a zero is not zero.
proof fn lemma_decimal_positive(digits: Seq<u8>)
    requires
        digits.len() > 0,
        digits[0] != 0,
    ensures
        decimal_value(digits) > 0,
    decreases digits.len(),
{
    if digits.len() > 1 {
        assert(digits.drop_last()[0] == digits[0]);
        lemma_decimal_positive(digits.drop_last());
    } else {
        assert(digits.last() == digits[0]);
    }
}

impl Counter {
    /// Whether the digits are those of a numeral.
    pub open spec fn wf(self) -> bool {
        self.digits@.len() > 0 && is_decimal(self.digits@)
    }

    /// A counter at zero.
    pub fn new() -> (counter: Counter)
        ensures
            counter.wf(),
            counter@ == 0,
    {
        let mut digits: Vec<u8> = Vec::new();
        digits.push(0);
        assert(digits@.drop_last() == Seq::<u8>::empty());
        assert(decimal_value(Seq::<u8>::empty()) == 0);
        Counter { digits }
    }

    /// Counts one further.
    pub fn advance(&mut self)
        requires
            old(self).wf(),
        ensures
            final(self).wf(),
            final(self)@ == old(self)@ + 1,
    {
        increment(&mut self.digits);
    }

    /// Writes the number in decimal.
    pub fn text(&self) -> (s: String)
        requires
            self.wf(),
        ensures
            s@ == nat_text(self@),
    {
        let mut s = String::new();
        let ghost digits = self.digits@;
        for i in 0..self.digits.len()
            invariant
                digits == self.digits@,
                is_decimal(digits),
                i == 0 ==> s@ == Seq::<char>::empty(),
                i > 0 ==> s@ == nat_text(decimal_value(digits.take(i as int))),
        {
            let d = self.digits[i];
            let ghost before = digits.take(i as int);
            let ghost now = digits.take(i + 1);
            proof {
                assert(now.drop_last() == before);
                assert(now.last() == d);
                assert(digits[i as int] < 10);
                if i > 0 {
                    assert(before[0] == digits[0]);
                    lemma_decimal_positive(before);
                    assert(decimal_value(now) / 10 == decimal_value(before));
                    assert(decimal_value(now) % 10 == d);
                } else {
                    assert(decimal_value(before) == 0);
                }
            }
            s.push((48u8 + d) as char);
            assert(s@ == nat_text(decimal_value(now)));
        }
        assert(digits.take(digits.len() as int) == digits);
        s
    }
}

/// The state that all emitters of a module share.
pub struct Ctx<'a> {
    /// The custom property of each variable that has one.
    pub names: &'a BTreeMap<u32, String>,
    /// The number of the next condition.
    pub cond_counter: Counter,
    /// The comparisons that have been used.
    pub used_comp_fns: CompFns,
}

impl<'a> Ctx<'a> {
    /// Whether the condition counter is a numeral.
    pub open spec fn wf(self) -> bool {
        self.cond_counter.wf()
    }

    /// The state before anything is emitted.
    pub fn new(names: &'a BTreeMap<u32, String>) -> (ctx: Ctx<'a>)
        ensures
            ctx.wf(),
            ctx.names == names,
            ctx.cond_counter@ == 0,
            ctx.used_comp_fns@ == Set::<crate::css::CompFn>::empty(),
    {
        Ctx { names, cond_counter: Counter::new(), used_comp_fns: CompFns::new() }
    }

    /// Allocates the custom property of a fresh condition.
    pub fn next_cond_var(&mut self) -> (name: String)
        requires
            old(self).wf(),
        ensures
            final(self).wf(),
            name@ == cond_name(old(self).cond_counter@),
            final(self).cond_counter@ == old(self).cond_counter@ + 1,
            final(self).names == old(self).names,
            final(self).used_comp_fns == old(self).used_comp_fns,
    {
        let mut name = "--veryl-cond-".to_owned();
        name.append(&self.cond_counter.text());
        self.cond_counter.advance();
        name
    }
}

} // verus!
