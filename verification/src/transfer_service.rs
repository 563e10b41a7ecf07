//! The import and report service over one store: batch import of parsed
//! transactions, the monthly total with the resolved salary folded in, and
//! the textual report lines.

use vstd::prelude::*;

use crate::amount::{format_cents, spec_format_cents};
use crate::category::CategoryPatternData;
use crate::date::prior_year_month;
use crate::repo::{
    has_salary, is_salary_in, lemma_month_total_bound, month_total_x, spec_upsert, TransferRepo,
};
use crate::transfer::{Transfer, TransferData};

verus! {

/// The store after upserting each transaction of `ts`, in order.
pub open spec fn spec_import(
    rows: Seq<TransferData>,
    pats: Seq<CategoryPatternData>,
    ts: Seq<TransferData>,
) -> Seq<TransferData>
    decreases ts.len(),
{
    if ts.len() == 0 {
        rows
    } else {
        spec_upsert(spec_import(rows, pats, ts.drop_last()), pats, ts.last())
    }
}

/// Imports transactions into the store and shapes the monthly report.
pub struct TransferService {
    pub repo: TransferRepo,
}

impl TransferService {
    /// Applies the upsert to every transaction in order, so a reimported
    /// file lands each line on its existing row and adds no duplicate. The
    /// in-memory store has no per-record failure to swallow.
    pub fn import_transactions(&mut self, transfers: &Vec<Transfer>)
        requires
            old(self).repo.wf(),
        ensures
            final(self).repo.wf(),
            final(self).repo.categories == old(self).repo.categories,
            final(self).repo.patterns == old(self).repo.patterns,
            final(self).repo.rows() == spec_import(
                old(self).repo.rows(),
                old(self).repo.pats(),
                transfers.deep_view(),
            ),
    {
        let ghost rows0 = self.repo.rows();
        let ghost pats0 = self.repo.pats();
        let ghost cat0 = self.repo.categories;
        let ghost patv0 = self.repo.patterns;
        let ghost tv = transfers.deep_view();
        let mut i: usize = 0;
        proof {
            assert(tv.take(0) =~= Seq::<TransferData>::empty());
        }
        while i < transfers.len()
            invariant
                i <= transfers.len(),
                tv == transfers.deep_view(),
                tv.len() == transfers.len(),
                self.repo.wf(),
                self.repo.categories == cat0,
                self.repo.patterns == patv0,
                self.repo.pats() == pats0,
                self.repo.rows() == spec_import(rows0, pats0, tv.take(i as int)),
            decreases transfers.len() - i,
        {
            proof {
                assert(tv.take(i + 1).drop_last() =~= tv.take(i as int));
                assert(tv.take(i + 1).last() == tv[i as int]);
                assert(tv[i as int] == transfers@[i as int]@);
            }
            let _ = self.repo.create(&transfers[i]);
            i += 1;
        }
        proof {
            assert(tv.take(tv.len() as int) =~= tv);
        }
    }

    /// The month's total for display: the salary-excluded total plus the
    /// salary the lookback resolves (the prior month's salary row, else the
    /// month's own, else zero).
    pub fn monthly_total(&self, date: crate::date::Date, salary_code: &Vec<u8>) -> (r: i128)
        ensures
            ({
                let rows = self.repo.rows();
                let y = date.year as int;
                let m = date.month as int;
                let pym = prior_year_month(y, m);
                let base = month_total_x(rows, y, m, Some(salary_code@));
                if has_salary(rows, pym.0, pym.1, salary_code@) {
                    exists|i: int|
                        0 <= i < rows.len() && is_salary_in(
                            #[trigger] rows[i],
                            pym.0,
                            pym.1,
                            salary_code@,
                        ) && r == base + rows[i].amount && (forall|j: int|
                            0 <= j < i ==> !is_salary_in(
                                #[trigger] rows[j],
                                pym.0,
                                pym.1,
                                salary_code@,
                            ))
                } else if has_salary(rows, y, m, salary_code@) {
                    exists|i: int|
                        0 <= i < rows.len() && is_salary_in(
                            #[trigger] rows[i],
                            y,
                            m,
                            salary_code@,
                        ) && r == base + rows[i].amount && (forall|j: int|
                            0 <= j < i ==> !is_salary_in(#[trigger] rows[j], y, m, salary_code@))
                } else {
                    r == base
                }
            }),
    {
        let (_, base) = self.repo.get_total_amount_excluding(date, salary_code);
        let sal = self.repo.resolve_salary(date, salary_code);
        let n = self.repo.transfers.len();
        proof {
            lemma_month_total_bound(
                self.repo.rows(),
                date.year as int,
                date.month as int,
                Some(salary_code@),
            );
            assert(self.repo.rows().len() == n as int);
            assert(self.repo.rows().len() <= 0xffff_ffff_ffff_ffff);
            assert(sal as int <= 0x7fff_ffff_ffff_ffff);
            assert(-0x8000_0000_0000_0000 <= sal as int);
        }
        base + (sal as i128)
    }
}

/// The text of one report line: the label, an equals sign, the amount with
/// two decimals, and the currency unit.
pub open spec fn spec_report_line(lbl: Seq<u8>, amt: int) -> Seq<u8> {
    lbl + seq![32u8, 61u8, 32u8] + spec_format_cents(amt) + seq![
        32u8,
        101u8,
        117u8,
        114u8,
        111u8,
        115u8,
    ]
}

/// Builds one report line, `<label> = <amount> euros`, from a label and an
/// amount in cents.
pub fn format_report_line(label: &Vec<u8>, amount: i128) -> (r: Vec<u8>)
    requires
        amount > i128::MIN,
    ensures
        r@ == spec_report_line(label@, amount as int),
{
    let mut r = crate::text::copy_bytes(label);
    r.push(32);
    r.push(61);
    r.push(32);
    let a = format_cents(amount);
    let mut i: usize = 0;
    proof {
        assert(r@ =~= label@ + seq![32u8, 61u8, 32u8] + a@.take(0));
    }
    while i < a.len()
        invariant
            i <= a.len(),
            r@ == label@ + seq![32u8, 61u8, 32u8] + a@.take(i as int),
        decreases a.len() - i,
    {
        let b = a[i];
        r.push(b);
        i += 1;
        proof {
            assert(r@ =~= label@ + seq![32u8, 61u8, 32u8] + a@.take(i as int));
        }
    }
    proof {
        assert(a@.take(a@.len() as int) =~= a@);
    }
    r.push(32);
    r.push(101);
    r.push(117);
    r.push(114);
    r.push(111);
    r.push(115);
    proof {
        assert(r@ =~= spec_report_line(label@, amount as int));
    }
    r
}

} // verus!
