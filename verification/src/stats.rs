//! The statistics of one repository, or of all of them together: how many
//! merged pull requests were approved, how many were not, and the rate of
//! the approved among them.

use vstd::prelude::*;
use vstd::arithmetic::div_mod::{lemma_fundamental_div_mod, lemma_mod_bound};
use crate::text::{decimal, digit, digit_char, push_char, push_decimal};

verus! {

/// Counts of merged pull requests, by whether a review approved them.
#[derive(Debug, Clone, Copy, PartialEq, Eq, Structural)]
pub struct PRStats {
    pub approved: usize,
    pub not_approved: usize,
}

/// The approval rate in hundredths, rounded to the nearest hundredth; a rate
/// that lies halfway between two hundredths goes to the even one. Meant for
/// counts that are not both zero.
pub open spec fn rate_hundredths(approved: nat, not_approved: nat) -> nat
    recommends
        approved + not_approved > 0,
{
    let total = approved + not_approved;
    let below = (100 * approved) / total;
    let rest = (100 * approved) % total;
    if 2 * rest > total || (2 * rest == total && below % 2 == 1) {
        below + 1
    } else {
        below
    }
}

/// The approval rate as it is printed: with two decimal places, or `NaN`
/// where there is nothing to take a rate of.
pub open spec fn rate_text(approved: nat, not_approved: nat) -> Seq<char> {
    if approved + not_approved == 0 {
        "NaN"@
    } else {
        let h = rate_hundredths(approved, not_approved);
        seq![digit_char(h / 100), '.', digit_char(h / 10 % 10), digit_char(h % 10)]
    }
}

/// The statistics as they are printed for one repository.
pub open spec fn stats_text(approved: nat, not_approved: nat) -> Seq<char> {
    "total: "@ + decimal(approved + not_approved) + ", approved: "@ + decimal(approved)
        + ", not approved: "@ + decimal(not_approved) + ", rate: "@ + rate_text(
        approved,
        not_approved,
    )
}

/// The statistics as they are printed for all repositories together.
pub open spec fn total_text(approved: nat, not_approved: nat) -> Seq<char> {
    "Total: "@ + decimal(approved + not_approved) + " total, "@ + decimal(approved)
        + " approved, "@ + decimal(not_approved) + " not approved, rate: "@ + rate_text(
        approved,
        not_approved,
    )
}

/// The rate lies between zero and one. Where at least one pull request was
/// counted, the rate in hundredths is at most a hundred, and it is the
/// hundredth nearest to the exact quotient: the two differ by at most half a
/// hundredth.
pub proof fn rate_is_within_unit_interval(approved: nat, not_approved: nat)
    requires
        approved + not_approved > 0,
    ensures
        0 <= rate_hundredths(approved, not_approved) <= 100,
        2 * (rate_hundredths(approved, not_approved) * (approved + not_approved) - 100
            * approved) <= approved + not_approved,
        2 * (100 * approved - rate_hundredths(approved, not_approved) * (approved
            + not_approved)) <= approved + not_approved,
        not_approved == 0 ==> rate_hundredths(approved, not_approved) == 100,
        approved == 0 ==> rate_hundredths(approved, not_approved) == 0,
{
    let total = (approved + not_approved) as int;
    let scaled = 100 * approved as int;
    let below = scaled / total;
    let rest = scaled % total;
    lemma_fundamental_div_mod(scaled, total);
    lemma_mod_bound(scaled, total);
    assert(scaled == total * below + rest);
    assert(below <= 100 && (below == 100 ==> rest == 0)) by (nonlinear_arith)
        requires
            scaled == total * below + rest,
            0 <= rest < total,
            scaled <= 100 * total,
    ;
    assert(below >= 0) by (nonlinear_arith)
        requires
            scaled == total * below + rest,
            0 <= rest < total,
            scaled >= 0,
    ;
    assert((below + 1) * total == below * total + total) by (nonlinear_arith);
    assert(below * total == total * below) by (nonlinear_arith);
    if not_approved == 0 {
        assert(below == 100 && rest == 0) by (nonlinear_arith)
            requires
                scaled == total * below + rest,
                0 <= rest < total,
                scaled == 100 * total,
        ;
    }
    if approved == 0 {
        assert(below == 0 && rest == 0) by (nonlinear_arith)
            requires
                0 == total * below + rest,
                0 <= rest < total,
                below >= 0,
        ;
    }
}

impl PRStats {
    /// Statistics with nothing counted.
    pub fn new() -> (stats: PRStats)
        ensures
            stats.approved == 0,
            stats.not_approved == 0,
    {
        PRStats { approved: 0, not_approved: 0 }
    }

    /// Statistics with the given counts.
    pub fn new_with(approved: usize, not_approved: usize) -> (stats: PRStats)
        ensures
            stats.approved == approved,
            stats.not_approved == not_approved,
    {
        PRStats { approved, not_approved }
    }

    /// Adds the counts of `other` to these.
    pub fn update_from(&mut self, other: &PRStats)
        requires
            old(self).approved + other.approved <= usize::MAX,
            old(self).not_approved + other.not_approved <= usize::MAX,
        ensures
            final(self).approved == old(self).approved + other.approved,
            final(self).not_approved == old(self).not_approved + other.not_approved,
    {
        self.approved = self.approved + other.approved;
        self.not_approved = self.not_approved + other.not_approved;
    }

    /// The number of pull requests counted, approved or not.
    pub fn total(&self) -> (total: u128)
        ensures
            total == self.approved + self.not_approved,
    {
        self.approved as u128 + self.not_approved as u128
    }

    /// The approval rate in hundredths, from 0 to 100, or `None` where no
    /// pull request was counted and there is no rate.
    pub fn rate(&self) -> (rate: Option<u8>)
        ensures
            self.approved + self.not_approved == 0 ==> rate.is_none(),
            self.approved + self.not_approved > 0 ==> rate == Some(
                rate_hundredths(self.approved as nat, self.not_approved as nat) as u8,
            ) && rate_hundredths(self.approved as nat, self.not_approved as nat) <= 100,
    {
        let total: u128 = self.total();
        if total == 0 {
            None
        } else {
            proof {
                rate_is_within_unit_interval(self.approved as nat, self.not_approved as nat);
                lemma_mod_bound(100 * self.approved as int, total as int);
            }
            let scaled: u128 = 100 * (self.approved as u128);
            let below: u128 = scaled / total;
            let rest: u128 = scaled % total;
            if 2 * rest > total || (2 * rest == total && below % 2 == 1) {
                Some((below + 1) as u8)
            } else {
                Some(below as u8)
            }
        }
    }

    /// Appends the rate, as it is printed, to `out`.
    fn push_rate(&self, out: &mut String)
        ensures
            final(out)@ == old(out)@ + rate_text(self.approved as nat, self.not_approved as nat),
    {
        match self.rate() {
            None => {
                out.append("NaN");
            },
            Some(h) => {
                push_char(out, digit(h / 100));
                push_char(out, '.');
                push_char(out, digit(h / 10 % 10));
                push_char(out, digit(h % 10));
                assert(out@ =~= old(out)@ + rate_text(
                    self.approved as nat,
                    self.not_approved as nat,
                ));
            },
        }
    }

    /// Appends the statistics, as they are printed for one repository, to
    /// `out`.
    pub fn push_to(&self, out: &mut String)
        ensures
            final(out)@ == old(out)@ + stats_text(self.approved as nat, self.not_approved as nat),
    {
        out.append("total: ");
        push_decimal(out, self.total());
        out.append(", approved: ");
        push_decimal(out, self.approved as u128);
        out.append(", not approved: ");
        push_decimal(out, self.not_approved as u128);
        out.append(", rate: ");
        self.push_rate(out);
        assert(out@ =~= old(out)@ + stats_text(self.approved as nat, self.not_approved as nat));
    }

    /// The statistics as they are printed for one repository: the total,
    /// the two counts, and the rate with two decimal places.
    pub fn render(&self) -> (text: String)
        ensures
            text@ == stats_text(self.approved as nat, self.not_approved as nat),
    {
        let mut text = String::new();
        self.push_to(&mut text);
        text
    }

    /// The statistics as they are printed for all repositories together.
    pub fn render_total(&self) -> (text: String)
        ensures
            text@ == total_text(self.approved as nat, self.not_approved as nat),
    {
        let mut text = String::new();
        text.append("Total: ");
        push_decimal(&mut text, self.total());
        text.append(" total, ");
        push_decimal(&mut text, self.approved as u128);
        text.append(" approved, ");
        push_decimal(&mut text, self.not_approved as u128);
        text.append(" not approved, rate: ");
        self.push_rate(&mut text);
        assert(text@ =~= total_text(self.approved as nat, self.not_approved as nat));
        text
    }
}

} // verus!
