//! The distribution report: counts per department and their percentage of
//! the total workforce.
//!
//! A percentage is rendered with two fractional digits. It is computed in
//! integer arithmetic, scaled by one hundred and rounded to the nearest
//! (halves up); with no employees at all there is no meaningful share, so
//! every department reports zero rather than an undefined ratio.

use vstd::prelude::*;

use crate::company::{id_filter, Company};
use crate::text::push_char;
use vstd::arithmetic::div_mod::lemma_div_is_ordered;
use vstd::string::StringExecFns;

verus! {

/// The decimal digit character for `d`.
pub open spec fn digit_char(d: nat) -> char {
    ((48 + d) as u8) as char
}

/// The decimal rendering of `n`, most significant digit first, no sign, no
/// leading zero except for zero itself.
pub open spec fn spec_digits(n: nat) -> Seq<char>
    decreases n,
{
    if n < 10 {
        seq![digit_char(n)]
    } else {
        spec_digits(n / 10).push(digit_char(n % 10))
    }
}

/// The decimal rendering of `f`, padded to two digits.
pub open spec fn spec_two_digits(f: nat) -> Seq<char> {
    if f < 10 {
        seq!['0'] + spec_digits(f)
    } else {
        spec_digits(f)
    }
}

/// `n` out of `total` as a percentage scaled by one hundred and rounded to
/// the nearest, halves up; zero when there is no total to take a share of.
pub open spec fn pct_scaled(n: nat, total: nat) -> nat {
    if total == 0 {
        0
    } else {
        (n * 20000 + total) / (2 * total)
    }
}

/// The text of one distribution entry for a department with `n` of the
/// `total` employees.
pub open spec fn spec_entry(n: nat, total: nat) -> Seq<char> {
    spec_digits(pct_scaled(n, total) / 100) + seq!['.'] + spec_two_digits(
        pct_scaled(n, total) % 100,
    ) + "% ("@ + spec_digits(n) + " employees)"@
}

/// Appends the decimal rendering of `n`.
fn append_digits(r: &mut String, n: u32)
    ensures
        final(r)@ == old(r)@ + spec_digits(n as nat),
    decreases n,
{
    if n >= 10 {
        append_digits(r, n / 10);
    }
    push_char(r, ((48 + (n % 10)) as u8) as char);
    proof {
        assert(final(r)@ =~= old(r)@ + spec_digits(n as nat));
    }
}

/// `n` out of `total` as a rounded percentage scaled by one hundred.
fn percentage_scaled(n: u32, total: u32) -> (r: u32)
    requires
        n <= total,
    ensures
        r == pct_scaled(n as nat, total as nat),
        r <= 10000,
{
    if total == 0 {
        return 0;
    }
    let num: u64 = (n as u64) * 20000 + (total as u64);
    let den: u64 = 2 * (total as u64);
    let scaled: u64 = num / den;
    proof {
        assert((n as int) * 20000 <= (total as int) * 20000) by (nonlinear_arith)
            requires
                n <= total,
        ;
        lemma_div_is_ordered(num as int, (total as int) * 20001, den as int);
        assert((total as int) * 20001 / (2 * (total as int)) <= 10000) by (nonlinear_arith)
            requires
                total > 0,
        ;
    }
    scaled as u32
}

/// One distribution entry: the rounded percentage with two fractional
/// digits, then the count, as in `12.50% (3 employees)`.
pub fn distribution_entry(n: u32, total: u32) -> (r: String)
    requires
        n <= total,
    ensures
        r@ == spec_entry(n as nat, total as nat),
{
    let scaled = percentage_scaled(n, total);
    let mut r = String::new();
    append_digits(&mut r, scaled / 100);
    push_char(&mut r, '.');
    if scaled % 100 < 10 {
        push_char(&mut r, '0');
        proof {
            assert(r@ =~= spec_digits((scaled / 100) as nat) + seq!['.'] + seq!['0']);
        }
    }
    append_digits(&mut r, scaled % 100);
    r.append("% (");
    append_digits(&mut r, n);
    r.append(" employees)");
    proof {
        assert(r@ =~= spec_entry(n as nat, total as nat));
    }
    r
}

/// The distribution report: the collection sizes and, per department in
/// order, its name beside its percentage-and-count entry.
pub struct Report {
    pub departments: usize,
    pub employees: u32,
    pub distribution: Vec<(String, String)>,
}

/// What a report of `c` holds: both counts, and one entry per department in
/// order, carrying its stored name and the rendered share of the employees
/// referencing it.
pub open spec fn report_matches(r: Report, c: Company) -> bool {
    &&& r.departments == c.departments@.len()
    &&& r.employees == c.employees@.len()
    &&& r.distribution@.len() == c.departments@.len()
    &&& forall|i: int|
        0 <= i < c.departments@.len() ==> (#[trigger] r.distribution@[i]).0@
            == c.departments@[i].name@ && r.distribution@[i].1@ == spec_entry(
            id_filter(c.employees@, c.departments@[i].id@).len(),
            c.employees@.len(),
        )
}

/// Builds the distribution report of the aggregate.
pub fn build_report(c: &Company) -> (r: Report)
    requires
        c.employees@.len() <= u32::MAX,
    ensures
        report_matches(r, *c),
{
    let total = c.get_total_employees();
    let mut distribution: Vec<(String, String)> = Vec::new();
    let mut i: usize = 0;
    while i < c.departments.len()
        invariant
            i <= c.departments@.len(),
            c.employees@.len() <= u32::MAX,
            total == c.employees@.len(),
            distribution@.len() == i,
            forall|k: int|
                0 <= k < i ==> (#[trigger] distribution@[k]).0@ == c.departments@[k].name@
                    && distribution@[k].1@ == spec_entry(
                    id_filter(c.employees@, c.departments@[k].id@).len(),
                    c.employees@.len(),
                ),
        decreases c.departments@.len() - i,
    {
        let department = &c.departments[i];
        let count = c.get_employees_by_department(&department.id);
        proof {
            assert(id_filter(c.employees@, department.id@).len() <= c.employees@.len());
        }
        let entry = distribution_entry(count, total);
        distribution.push((department.name.clone(), entry));
        i = i + 1;
    }
    Report { departments: c.departments.len(), employees: total, distribution }
}

} // verus!
