//! The transaction store model and its operations: the idempotent upsert
//! keyed by (date, label, amount), the monthly aggregation queries, and the
//! salary lookback. The store holds the three tables as plain values; rows
//! are unique by their natural key.

use vstd::prelude::*;
use vstd::pervasive::VecAdditionalExecFns;

use crate::category::{
    best_category, spec_best_category, Category, CategoryData, CategoryPattern,
    CategoryPatternData,
};
use crate::date::{prior_year_month, Date};
use crate::text::{bytes_eq, copy_bytes};
use crate::transfer::{Transfer, TransferData};

verus! {

/// The natural key of a transaction: date, label and amount in cents.
pub open spec fn spec_key(t: TransferData) -> (Date, Seq<u8>, i64) {
    (t.date, t.label, t.amount)
}

/// Index of the first row with key `k`, or -1 when no row has it.
pub open spec fn find_key(rows: Seq<TransferData>, k: (Date, Seq<u8>, i64)) -> int
    decreases rows.len(),
{
    if rows.len() == 0 {
        -1
    } else if spec_key(rows[0]) == k {
        0
    } else if find_key(rows.skip(1), k) < 0 {
        -1
    } else {
        find_key(rows.skip(1), k) + 1
    }
}

pub proof fn lemma_find_key(rows: Seq<TransferData>, k: (Date, Seq<u8>, i64))
    ensures
        find_key(rows, k) == -1 <==> (forall|j: int|
            0 <= j < rows.len() ==> spec_key(rows[j]) != k),
        find_key(rows, k) >= 0 ==> find_key(rows, k) < rows.len()
            && spec_key(rows[find_key(rows, k)]) == k
            && (forall|j: int| 0 <= j < find_key(rows, k) ==> spec_key(rows[j]) != k),
    decreases rows.len(),
{
    if rows.len() == 0 {
    } else if spec_key(rows[0]) == k {
    } else {
        lemma_find_key(rows.skip(1), k);
        assert(forall|j: int| 0 <= j < rows.skip(1).len() ==> rows.skip(1)[j] == rows[j + 1]);
        if find_key(rows.skip(1), k) == -1 {
            assert forall|j: int| 0 <= j < rows.len() implies spec_key(rows[j]) != k by {
                if j > 0 {
                    assert(rows.skip(1)[j - 1] == rows[j]);
                }
            }
        } else {
            let r = find_key(rows.skip(1), k);
            assert(rows[r + 1] == rows.skip(1)[r]);
            assert forall|j: int| 0 <= j < r + 1 implies spec_key(rows[j]) != k by {
                if j > 0 {
                    assert(rows.skip(1)[j - 1] == rows[j]);
                }
            }
        }
    }
}

/// `find_key` looks at keys only.
pub proof fn lemma_find_key_same_keys(
    a: Seq<TransferData>,
    b: Seq<TransferData>,
    k: (Date, Seq<u8>, i64),
)
    requires
        a.len() == b.len(),
        forall|j: int| 0 <= j < a.len() ==> spec_key(a[j]) == spec_key(b[j]),
    ensures
        find_key(a, k) == find_key(b, k),
    decreases a.len(),
{
    if a.len() > 0 {
        assert(forall|j: int| 0 <= j < a.skip(1).len() ==> a.skip(1)[j] == a[j + 1]);
        assert(forall|j: int| 0 <= j < b.skip(1).len() ==> b.skip(1)[j] == b[j + 1]);
        lemma_find_key_same_keys(a.skip(1), b.skip(1), k);
    }
}

/// The row the upsert stores for `v`: the existing row with its category
/// recomputed against the current rule set, or a fresh row carrying `v`'s
/// key fields and the computed category.
pub open spec fn upserted_row(
    rows: Seq<TransferData>,
    pats: Seq<CategoryPatternData>,
    v: TransferData,
) -> TransferData {
    let c = spec_best_category(v.label, pats);
    let i = find_key(rows, spec_key(v));
    if i >= 0 {
        TransferData { category: c, ..rows[i] }
    } else {
        TransferData { date: v.date, label: v.label, category: c, amount: v.amount }
    }
}

/// The store after upserting `v`: the row with `v`'s key gets its category
/// recomputed in place, or a new row is appended when the key is absent.
pub open spec fn spec_upsert(
    rows: Seq<TransferData>,
    pats: Seq<CategoryPatternData>,
    v: TransferData,
) -> Seq<TransferData> {
    let i = find_key(rows, spec_key(v));
    if i >= 0 {
        rows.update(i, upserted_row(rows, pats, v))
    } else {
        rows.push(upserted_row(rows, pats, v))
    }
}

/// Idempotent reimport. Upserting the same transaction twice stores exactly
/// one row for its key: the second upsert adds no row and changes no key
/// field; it only recomputes the category of the stored row against the
/// rule set in force at that moment.
pub proof fn lemma_reimport_idempotent(
    rows: Seq<TransferData>,
    pats1: Seq<CategoryPatternData>,
    pats2: Seq<CategoryPatternData>,
    v: TransferData,
)
    ensures
        ({
            let r1 = spec_upsert(rows, pats1, v);
            let r2 = spec_upsert(r1, pats2, v);
            &&& r2.len() == r1.len()
            &&& forall|j: int| 0 <= j < r1.len() ==> spec_key(r2[j]) == spec_key(#[trigger] r1[j])
            &&& find_key(r1, spec_key(v)) >= 0
            &&& r2 == r1.update(
                find_key(r1, spec_key(v)),
                TransferData {
                    category: spec_best_category(v.label, pats2),
                    ..r1[find_key(r1, spec_key(v))]
                },
            )
        }),
{
    let k = spec_key(v);
    let r1 = spec_upsert(rows, pats1, v);
    lemma_find_key(rows, k);
    let i = find_key(rows, k);
    if i >= 0 {
        assert(spec_key(r1[i]) == k);
        assert(forall|j: int| 0 <= j < rows.len() ==> spec_key(r1[j]) == spec_key(rows[j]));
        lemma_find_key_same_keys(r1, rows, k);
        assert(find_key(r1, k) == i);
    } else {
        assert(r1.len() == rows.len() + 1);
        assert(spec_key(r1[rows.len() as int]) == k);
        lemma_find_key(r1, k);
        let f = find_key(r1, k);
        assert(spec_key(r1[rows.len() as int]) == k);
        assert(f >= 0);
        if f < rows.len() {
            assert(r1[f] == rows[f]);
            assert(spec_key(rows[f]) != k);
            assert(false);
        }
        assert(f == rows.len());
    }
}

/// The transaction store: the transfers table with its unique natural key,
/// and the two reference tables the upsert and the reports read.
pub struct TransferRepo {
    pub transfers: Vec<Transfer>,
    pub categories: Vec<Category>,
    pub patterns: Vec<CategoryPattern>,
}

impl TransferRepo {
    pub open spec fn rows(self) -> Seq<TransferData> {
        self.transfers.deep_view()
    }

    pub open spec fn cats(self) -> Seq<CategoryData> {
        self.categories.deep_view()
    }

    pub open spec fn pats(self) -> Seq<CategoryPatternData> {
        self.patterns.deep_view()
    }

    /// No two rows share a natural key.
    pub open spec fn wf(self) -> bool {
        forall|i: int, j: int|
            0 <= i < j < self.rows().len() ==> spec_key(#[trigger] self.rows()[i]) != spec_key(
                #[trigger] self.rows()[j],
            )
    }

    /// An empty store over the given reference tables.
    pub fn new(categories: Vec<Category>, patterns: Vec<CategoryPattern>) -> (r: Self)
        ensures
            r.rows().len() == 0,
            r.categories == categories,
            r.patterns == patterns,
            r.wf(),
    {
        TransferRepo { transfers: Vec::new(), categories, patterns }
    }

    /// The upsert: stores `value` under its natural key, computing its
    /// category by the longest-prefix match; when a row with that key
    /// already exists, only that row's category is recomputed and
    /// overwritten. Returns the stored row. One write per call; the
    /// in-memory store itself cannot fail.
    pub fn create(&mut self, value: &Transfer) -> (r: Transfer)
        requires
            old(self).wf(),
        ensures
            final(self).wf(),
            final(self).categories == old(self).categories,
            final(self).patterns == old(self).patterns,
            final(self).rows() == spec_upsert(old(self).rows(), old(self).pats(), value@),
            r@ == upserted_row(old(self).rows(), old(self).pats(), value@),
    {
        let ghost rows0 = self.rows();
        let ghost k = spec_key(value@);
        let cat = best_category(&value.label, &self.patterns);
        let n = self.transfers.len();
        let mut found: Option<usize> = None;
        let mut i: usize = 0;
        while i < n
            invariant
                i <= n,
                n == self.transfers.len(),
                rows0 == self.rows(),
                k == spec_key(value@),
                rows0.len() == n,
                match found {
                    Option::None => forall|j: int| 0 <= j < i ==> spec_key(rows0[j]) != k,
                    Option::Some(fi) => fi < i && spec_key(rows0[fi as int]) == k && (forall|
                        j: int,
                    |
                        0 <= j < fi ==> spec_key(rows0[j]) != k),
                },
            decreases n - i,
        {
            if found.is_none() {
                let row = &self.transfers[i];
                if row.amount == value.amount && row.date == value.date && bytes_eq(
                    &row.label,
                    &value.label,
                ) {
                    proof {
                        assert(rows0[i as int] == self.transfers@[i as int]@);
                    }
                    found = Some(i);
                }
            }
            i += 1;
        }
        proof {
            lemma_find_key(rows0, k);
            match found {
                Option::None => {
                    assert(find_key(rows0, k) == -1);
                },
                Option::Some(fi) => {
                    let f = find_key(rows0, k);
                    if f < fi {
                        assert(spec_key(rows0[f]) == k);
                        assert(false);
                    }
                    if f > fi {
                        assert(spec_key(rows0[fi as int]) != k);
                        assert(false);
                    }
                    assert(f == fi);
                },
            }
        }
        match found {
            Option::Some(fi) => {
                let existing = &self.transfers[fi];
                let new_row = Transfer {
                    date: existing.date,
                    label: copy_bytes(&existing.label),
                    category: cat,
                    amount: existing.amount,
                };
                proof {
                    assert(new_row@ == upserted_row(rows0, old(self).pats(), value@));
                }
                let out = copy_transfer(&new_row);
                self.transfers.set(fi, new_row);
                proof {
                    assert(self.rows() =~= spec_upsert(rows0, old(self).pats(), value@));
                    assert forall|a: int, b: int| 0 <= a < b < self.rows().len() implies spec_key(
                        #[trigger] self.rows()[a],
                    ) != spec_key(#[trigger] self.rows()[b]) by {
                        assert(spec_key(self.rows()[a]) == spec_key(rows0[a]));
                        assert(spec_key(self.rows()[b]) == spec_key(rows0[b]));
                    }
                }
                out
            },
            Option::None => {
                let new_row = Transfer {
                    date: value.date,
                    label: copy_bytes(&value.label),
                    category: cat,
                    amount: value.amount,
                };
                proof {
                    assert(new_row@ == upserted_row(rows0, old(self).pats(), value@));
                }
                let out = copy_transfer(&new_row);
                self.transfers.push(new_row);
                proof {
                    assert(self.rows() =~= spec_upsert(rows0, old(self).pats(), value@));
                    assert forall|a: int, b: int| 0 <= a < b < self.rows().len() implies spec_key(
                        #[trigger] self.rows()[a],
                    ) != spec_key(#[trigger] self.rows()[b]) by {
                        if b < rows0.len() {
                            assert(spec_key(self.rows()[a]) == spec_key(rows0[a]));
                            assert(spec_key(self.rows()[b]) == spec_key(rows0[b]));
                        } else {
                            assert(spec_key(self.rows()[a]) == spec_key(rows0[a]));
                            assert(spec_key(self.rows()[b]) == k);
                        }
                    }
                }
                out
            },
        }
    }
}

/// The sentinel display label that groups uncategorized transactions.
pub open spec fn sentinel() -> Seq<u8> {
    seq![95u8, 95u8, 97u8, 117u8, 99u8, 117u8, 110u8, 101u8, 95u8, 95u8]
}

/// The display label of the first category with code `code`, or the code
/// itself when no category carries it.
pub open spec fn label_for(cats: Seq<CategoryData>, code: Seq<u8>) -> Seq<u8>
    decreases cats.len(),
{
    if cats.len() == 0 {
        code
    } else if cats[0].code == code {
        cats[0].label
    } else {
        label_for(cats.skip(1), code)
    }
}

/// The display label a transaction is grouped under: the sentinel when it
/// has no category, else the category's display label.
pub open spec fn group_label(t: TransferData, cats: Seq<CategoryData>) -> Seq<u8> {
    match t.category {
        Option::None => sentinel(),
        Option::Some(c) => label_for(cats, c),
    }
}

pub open spec fn in_month(t: TransferData, y: int, m: int) -> bool {
    t.date.year == y && t.date.month == m
}

/// Whether `t` is shut out of an aggregation that excludes category `excl`.
pub open spec fn excluded(t: TransferData, excl: Option<Seq<u8>>) -> bool {
    match excl {
        Option::None => false,
        Option::Some(c) => t.category == Some(c),
    }
}

/// Whether `t` counts toward month (`y`, `m`) under exclusion `excl`.
pub open spec fn counts(t: TransferData, y: int, m: int, excl: Option<Seq<u8>>) -> bool {
    in_month(t, y, m) && !excluded(t, excl)
}

/// Whether some counting row of the month is grouped under `lbl`.
pub open spec fn label_occurs(
    rows: Seq<TransferData>,
    y: int,
    m: int,
    ev: Option<Seq<u8>>,
    cats: Seq<CategoryData>,
    lbl: Seq<u8>,
) -> bool {
    exists|k: int|
        0 <= k < rows.len() && counts(#[trigger] rows[k], y, m, ev) && group_label(rows[k], cats)
            == lbl
}

/// A label that occurs among the first `a` rows occurs among the first `b`.
pub proof fn lemma_label_occurs_extend(
    rows: Seq<TransferData>,
    y: int,
    m: int,
    ev: Option<Seq<u8>>,
    cats: Seq<CategoryData>,
    lbl: Seq<u8>,
    a: int,
    b: int,
)
    requires
        0 <= a <= b <= rows.len(),
        label_occurs(rows.take(a), y, m, ev, cats, lbl),
    ensures
        label_occurs(rows.take(b), y, m, ev, cats, lbl),
{
    let k = choose|k: int|
        0 <= k < rows.take(a).len() && counts(#[trigger] rows.take(a)[k], y, m, ev) && group_label(
            rows.take(a)[k],
            cats,
        ) == lbl;
    assert(rows.take(b)[k] == rows.take(a)[k]);
    assert(counts(rows.take(b)[k], y, m, ev) && group_label(rows.take(b)[k], cats) == lbl);
}

/// Sum of the amounts of the counting rows grouped under `lbl`.
pub open spec fn sum_label(
    rows: Seq<TransferData>,
    y: int,
    m: int,
    lbl: Seq<u8>,
    cats: Seq<CategoryData>,
    excl: Option<Seq<u8>>,
) -> int
    decreases rows.len(),
{
    if rows.len() == 0 {
        0
    } else {
        sum_label(rows.drop_last(), y, m, lbl, cats, excl) + if counts(rows.last(), y, m, excl)
            && group_label(rows.last(), cats) == lbl {
            rows.last().amount as int
        } else {
            0int
        }
    }
}

/// Signed sum of the amounts of all counting rows of the month.
pub open spec fn month_total_x(
    rows: Seq<TransferData>,
    y: int,
    m: int,
    excl: Option<Seq<u8>>,
) -> int
    decreases rows.len(),
{
    if rows.len() == 0 {
        0
    } else {
        month_total_x(rows.drop_last(), y, m, excl) + if counts(rows.last(), y, m, excl) {
            rows.last().amount as int
        } else {
            0int
        }
    }
}

/// Sum of the month's rows whose category is exactly `cat`.
pub open spec fn month_cat_total(rows: Seq<TransferData>, y: int, m: int, cat: Seq<u8>) -> int
    decreases rows.len(),
{
    if rows.len() == 0 {
        0
    } else {
        month_cat_total(rows.drop_last(), y, m, cat) + if in_month(rows.last(), y, m)
            && rows.last().category == Some(cat) {
            rows.last().amount as int
        } else {
            0int
        }
    }
}

/// Aggregation exclusion. The month's unrestricted total is the
/// salary-excluded total plus the sum of the month's rows categorized as
/// the excluded category.
pub proof fn lemma_total_decomposition(rows: Seq<TransferData>, y: int, m: int, cat: Seq<u8>)
    ensures
        month_total_x(rows, y, m, None) == month_total_x(rows, y, m, Some(cat)) + month_cat_total(
            rows,
            y,
            m,
            cat,
        ),
    decreases rows.len(),
{
    if rows.len() > 0 {
        lemma_total_decomposition(rows.drop_last(), y, m, cat);
    }
}

/// A month total is bounded by the number of rows times the largest amount.
pub proof fn lemma_month_total_bound(
    rows: Seq<TransferData>,
    y: int,
    m: int,
    excl: Option<Seq<u8>>,
)
    ensures
        -(rows.len() * 0x8000_0000_0000_0000) <= month_total_x(rows, y, m, excl) <= rows.len()
            * 0x8000_0000_0000_0000,
    decreases rows.len(),
{
    if rows.len() > 0 {
        lemma_month_total_bound(rows.drop_last(), y, m, excl);
    }
}

/// When no row of the store counts under `lbl`, the label's sum is zero.
pub proof fn lemma_sum_label_zero(
    rows: Seq<TransferData>,
    y: int,
    m: int,
    lbl: Seq<u8>,
    cats: Seq<CategoryData>,
    excl: Option<Seq<u8>>,
)
    requires
        forall|j: int|
            0 <= j < rows.len() ==> !(counts(#[trigger] rows[j], y, m, excl) && group_label(
                rows[j],
                cats,
            ) == lbl),
    ensures
        sum_label(rows, y, m, lbl, cats, excl) == 0,
    decreases rows.len(),
{
    if rows.len() > 0 {
        assert(forall|j: int| 0 <= j < rows.len() - 1 ==> rows.drop_last()[j] == rows[j]);
        lemma_sum_label_zero(rows.drop_last(), y, m, lbl, cats, excl);
        assert(rows.last() == rows[rows.len() - 1]);
    }
}

/// Whether `t` is a salary row of month (`y`, `m`).
pub open spec fn is_salary_in(t: TransferData, y: int, m: int, sal: Seq<u8>) -> bool {
    in_month(t, y, m) && t.category == Some(sal)
}

/// Whether the store holds a salary row dated in month (`y`, `m`).
pub open spec fn has_salary(rows: Seq<TransferData>, y: int, m: int, sal: Seq<u8>) -> bool {
    exists|i: int| 0 <= i < rows.len() && is_salary_in(#[trigger] rows[i], y, m, sal)
}

/// The sentinel label as a byte string.
pub fn sentinel_label() -> (r: Vec<u8>)
    ensures
        r@ == sentinel(),
{
    let mut r: Vec<u8> = Vec::new();
    r.push(95);
    r.push(95);
    r.push(97);
    r.push(117);
    r.push(99);
    r.push(117);
    r.push(110);
    r.push(101);
    r.push(95);
    r.push(95);
    proof {
        assert(r@ =~= sentinel());
    }
    r
}

/// Looks up the display label for `code`, as `label_for` describes.
fn label_lookup(categories: &Vec<Category>, code: &Vec<u8>) -> (r: Vec<u8>)
    ensures
        r@ == label_for(categories.deep_view(), code@),
{
    let ghost cv = categories.deep_view();
    let mut i: usize = 0;
    proof {
        assert(cv.skip(0) =~= cv);
    }
    while i < categories.len()
        invariant
            i <= categories.len(),
            cv == categories.deep_view(),
            cv.len() == categories.len(),
            label_for(cv, code@) == label_for(cv.skip(i as int), code@),
        decreases categories.len() - i,
    {
        proof {
            assert(cv.skip(i as int)[0] == cv[i as int]);
            assert(cv.skip(i as int).skip(1) =~= cv.skip(i + 1));
            assert(cv[i as int] == categories@[i as int]@);
        }
        let c = &categories[i];
        if bytes_eq(&c.code, code) {
            return copy_bytes(&c.label);
        }
        i += 1;
    }
    copy_bytes(code)
}

/// The display label `t` is grouped under.
fn group_label_of(t: &Transfer, categories: &Vec<Category>) -> (r: Vec<u8>)
    ensures
        r@ == group_label(t@, categories.deep_view()),
{
    match &t.category {
        Option::None => sentinel_label(),
        Option::Some(c) => label_lookup(categories, c),
    }
}

/// The label under which the grand total is reported.
pub open spec fn total_label() -> Seq<u8> {
    seq![84u8, 79u8, 84u8, 65u8, 76u8]
}

fn total_label_vec() -> (r: Vec<u8>)
    ensures
        r@ == total_label(),
{
    let mut r: Vec<u8> = Vec::new();
    r.push(84);
    r.push(79);
    r.push(84);
    r.push(65);
    r.push(76);
    proof {
        assert(r@ =~= total_label());
    }
    r
}

impl TransferRepo {
    /// Signed sum over the month of `date`, under the optional exclusion.
    fn total_x(&self, date: Date, excl: Option<&Vec<u8>>) -> (r: i128)
        ensures
            r == month_total_x(
                self.rows(),
                date.year as int,
                date.month as int,
                match excl {
                    Option::None => None,
                    Option::Some(v) => Some(v@),
                },
            ),
    {
        let ghost rows = self.rows();
        let ghost ev: Option<Seq<u8>> = match excl {
            Option::None => None,
            Option::Some(v) => Some(v@),
        };
        let ghost y = date.year as int;
        let ghost m = date.month as int;
        let mut sum: i128 = 0;
        let mut i: usize = 0;
        proof {
            assert(rows.take(0) =~= Seq::<TransferData>::empty());
        }
        while i < self.transfers.len()
            invariant
                i <= self.transfers.len(),
                rows == self.rows(),
                rows.len() == self.transfers.len(),
                ev == (match excl {
                    Option::None => None,
                    Option::Some(v) => Some(v@),
                }),
                y == date.year as int,
                m == date.month as int,
                sum == month_total_x(rows.take(i as int), y, m, ev),
                -(i * 0x8000_0000_0000_0000) <= sum <= i * 0x8000_0000_0000_0000,
            decreases self.transfers.len() - i,
        {
            proof {
                assert(rows.take(i + 1).drop_last() =~= rows.take(i as int));
                assert(rows.take(i + 1).last() == rows[i as int]);
                assert(rows[i as int] == self.transfers@[i as int]@);
            }
            let t = &self.transfers[i];
            let inm = t.date.year == date.year && t.date.month == date.month;
            let mut exc = false;
            match (excl, &t.category) {
                (Option::Some(e), Option::Some(c)) => {
                    exc = bytes_eq(c, e);
                },
                _ => {},
            }
            proof {
                assert(inm == in_month(rows[i as int], y, m));
                assert(exc == excluded(rows[i as int], ev));
                assert((i + 1) as int <= 0xffff_ffff_ffff_ffff);
            }
            if inm && !exc {
                sum = sum + (t.amount as i128);
            }
            i += 1;
        }
        proof {
            assert(rows.take(rows.len() as int) =~= rows);
        }
        sum
    }

    /// Signed sum of the month's amounts, labeled for the report.
    pub fn get_total_amount(&self, date: Date) -> (r: (Vec<u8>, i128))
        ensures
            r.0@ == total_label(),
            r.1 == month_total_x(self.rows(), date.year as int, date.month as int, None),
    {
        let t = self.total_x(date, None);
        (total_label_vec(), t)
    }

    /// Signed sum of the month's amounts with one category excluded.
    pub fn get_total_amount_excluding(&self, date: Date, excluded_category: &Vec<u8>) -> (r: (
        Vec<u8>,
        i128,
    ))
        ensures
            r.0@ == total_label(),
            r.1 == month_total_x(
                self.rows(),
                date.year as int,
                date.month as int,
                Some(excluded_category@),
            ),
    {
        let t = self.total_x(date, Some(excluded_category));
        (total_label_vec(), t)
    }
}

impl TransferRepo {
    /// Per-label sums over the month of `date`, under the optional
    /// exclusion: one entry per distinct display label among the counting
    /// rows, each carrying that label's sum. No order is promised.
    fn amounts_x(&self, date: Date, excl: Option<&Vec<u8>>) -> (r: Vec<(Vec<u8>, i128)>)
        ensures
            ({
                let rows = self.rows();
                let cats = self.cats();
                let y = date.year as int;
                let m = date.month as int;
                let ev = match excl {
                    Option::None => None,
                    Option::Some(v) => Some(v@),
                };
                &&& forall|i: int|
                    0 <= i < r@.len() ==> (#[trigger] r@[i]).1 == sum_label(
                        rows,
                        y,
                        m,
                        r@[i].0@,
                        cats,
                        ev,
                    )
                &&& forall|i: int, j: int| 0 <= i < j < r@.len() ==> r@[i].0@ != r@[j].0@
                &&& forall|k: int|
                    0 <= k < rows.len() && counts(#[trigger] rows[k], y, m, ev) ==> exists|i: int|
                        0 <= i < r@.len() && (#[trigger] r@[i]).0@ == group_label(rows[k], cats)
                &&& forall|i: int|
                    0 <= i < r@.len() ==> label_occurs(rows, y, m, ev, cats, (#[trigger] r@[i]).0@)
            }),
    {
        let ghost rows = self.rows();
        let ghost cats = self.cats();
        let ghost ev: Option<Seq<u8>> = match excl {
            Option::None => None,
            Option::Some(v) => Some(v@),
        };
        let ghost y = date.year as int;
        let ghost m = date.month as int;
        let mut res: Vec<(Vec<u8>, i128)> = Vec::new();
        let mut kk: usize = 0;
        let n = self.transfers.len();
        proof {
            assert(rows.take(0) =~= Seq::<TransferData>::empty());
            assert(rows.len() == n as int);
            assert(rows.len() <= 0xffff_ffff_ffff_ffff);
        }
        while kk < self.transfers.len()
            invariant
                kk <= self.transfers.len(),
                rows == self.rows(),
                cats == self.cats(),
                rows.len() == self.transfers.len(),
                rows.len() <= 0xffff_ffff_ffff_ffff,
                ev == (match excl {
                    Option::None => None,
                    Option::Some(v) => Some(v@),
                }),
                y == date.year as int,
                m == date.month as int,
                forall|i: int|
                    0 <= i < res@.len() ==> (#[trigger] res@[i]).1 == sum_label(
                        rows.take(kk as int),
                        y,
                        m,
                        res@[i].0@,
                        cats,
                        ev,
                    ),
                forall|i: int|
                    0 <= i < res@.len() ==> -((kk as int) * 0x8000_0000_0000_0000) <= (
                    #[trigger] res@[i]).1 <= (kk as int) * 0x8000_0000_0000_0000,
                forall|i: int, j: int| 0 <= i < j < res@.len() ==> res@[i].0@ != res@[j].0@,
                forall|k: int|
                    0 <= k < kk && counts(#[trigger] rows[k], y, m, ev) ==> exists|i: int|
                        0 <= i < res@.len() && (#[trigger] res@[i]).0@ == group_label(
                            rows[k],
                            cats,
                        ),
                forall|i: int|
                    0 <= i < res@.len() ==> label_occurs(
                        rows.take(kk as int),
                        y,
                        m,
                        ev,
                        cats,
                        (#[trigger] res@[i]).0@,
                    ),
            decreases self.transfers.len() - kk,
        {
            proof {
                assert(rows[kk as int] == self.transfers@[kk as int]@);
            }
            let t = &self.transfers[kk];
            accumulate_row(
                &mut res,
                t,
                &self.categories,
                date,
                excl,
                Ghost(rows),
                Ghost(cats),
                Ghost(ev),
                Ghost(kk as int),
            );
            kk += 1;
        }
        proof {
            assert(rows.take(rows.len() as int) =~= rows);
        }
        res
    }

    /// Per-category breakdown of the month of `date`: the sum of amounts
    /// grouped by category display label, uncategorized rows under the
    /// sentinel label.
    pub fn get_amount_by_category(&self, date: Date) -> (r: Vec<(Vec<u8>, i128)>)
        ensures
            ({
                let rows = self.rows();
                let cats = self.cats();
                let y = date.year as int;
                let m = date.month as int;
                &&& forall|i: int|
                    0 <= i < r@.len() ==> (#[trigger] r@[i]).1 == sum_label(
                        rows,
                        y,
                        m,
                        r@[i].0@,
                        cats,
                        None,
                    )
                &&& forall|i: int, j: int| 0 <= i < j < r@.len() ==> r@[i].0@ != r@[j].0@
                &&& forall|k: int|
                    0 <= k < rows.len() && counts(#[trigger] rows[k], y, m, None) ==> exists|
                        i: int,
                    |
                        0 <= i < r@.len() && (#[trigger] r@[i]).0@ == group_label(rows[k], cats)
                &&& forall|i: int|
                    0 <= i < r@.len() ==> label_occurs(
                        rows,
                        y,
                        m,
                        None,
                        cats,
                        (#[trigger] r@[i]).0@,
                    )
            }),
    {
        self.amounts_x(date, None)
    }

    /// Per-category breakdown with one category left out of both the
    /// grouping and the sums.
    pub fn get_amount_by_category_excluding(
        &self,
        date: Date,
        excluded_category: &Vec<u8>,
    ) -> (r: Vec<(Vec<u8>, i128)>)
        ensures
            ({
                let rows = self.rows();
                let cats = self.cats();
                let y = date.year as int;
                let m = date.month as int;
                let ev = Some(excluded_category@);
                &&& forall|i: int|
                    0 <= i < r@.len() ==> (#[trigger] r@[i]).1 == sum_label(
                        rows,
                        y,
                        m,
                        r@[i].0@,
                        cats,
                        ev,
                    )
                &&& forall|i: int, j: int| 0 <= i < j < r@.len() ==> r@[i].0@ != r@[j].0@
                &&& forall|k: int|
                    0 <= k < rows.len() && counts(#[trigger] rows[k], y, m, ev) ==> exists|i: int|
                        0 <= i < r@.len() && (#[trigger] r@[i]).0@ == group_label(rows[k], cats)
                &&& forall|i: int|
                    0 <= i < r@.len() ==> label_occurs(rows, y, m, ev, cats, (#[trigger] r@[i]).0@)
            }),
    {
        self.amounts_x(date, Some(excluded_category))
    }

    /// First row of month (`y`, `mo`) categorized as `sal`, scanning in
    /// store order.
    fn first_salary(&self, y: u32, mo: u8, sal: &Vec<u8>) -> (r: Option<i64>)
        ensures
            match r {
                Option::Some(a) => exists|i: int|
                    0 <= i < self.rows().len() && is_salary_in(
                        #[trigger] self.rows()[i],
                        y as int,
                        mo as int,
                        sal@,
                    ) && self.rows()[i].amount == a && (forall|j: int|
                        0 <= j < i ==> !is_salary_in(
                            #[trigger] self.rows()[j],
                            y as int,
                            mo as int,
                            sal@,
                        )),
                Option::None => !has_salary(self.rows(), y as int, mo as int, sal@),
            },
    {
        let ghost rows = self.rows();
        let mut i: usize = 0;
        while i < self.transfers.len()
            invariant
                i <= self.transfers.len(),
                rows == self.rows(),
                rows.len() == self.transfers.len(),
                forall|j: int|
                    0 <= j < i ==> !is_salary_in(#[trigger] rows[j], y as int, mo as int, sal@),
            decreases self.transfers.len() - i,
        {
            proof {
                assert(rows[i as int] == self.transfers@[i as int]@);
            }
            let t = &self.transfers[i];
            if t.date.year == y && t.date.month == mo {
                match &t.category {
                    Option::Some(c) => {
                        if bytes_eq(c, sal) {
                            return Some(t.amount);
                        }
                    },
                    Option::None => {},
                }
            }
            i += 1;
        }
        None
    }

    /// The salary amount for the month of `date`: the first salary row of
    /// the prior month, else the first salary row of the month itself, else
    /// zero. A missing salary row is not an error.
    pub fn resolve_salary(&self, date: Date, salary_code: &Vec<u8>) -> (r: i64)
        ensures
            ({
                let rows = self.rows();
                let y = date.year as int;
                let m = date.month as int;
                let pym = prior_year_month(y, m);
                if has_salary(rows, pym.0, pym.1, salary_code@) {
                    exists|i: int|
                        0 <= i < rows.len() && is_salary_in(
                            #[trigger] rows[i],
                            pym.0,
                            pym.1,
                            salary_code@,
                        ) && rows[i].amount == r && (forall|j: int|
                            0 <= j < i ==> !is_salary_in(
                                #[trigger] rows[j],
                                pym.0,
                                pym.1,
                                salary_code@,
                            ))
                } else if has_salary(rows, y, m, salary_code@) {
                    exists|i: int|
                        0 <= i < rows.len() && is_salary_in(
                            #[trigger] rows[i],
                            y,
                            m,
                            salary_code@,
                        ) && rows[i].amount == r && (forall|j: int|
                            0 <= j < i ==> !is_salary_in(#[trigger] rows[j], y, m, salary_code@))
                } else {
                    r == 0
                }
            }),
    {
        let ghost rows = self.rows();
        let ghost pym = prior_year_month(date.year as int, date.month as int);
        let prior: Option<i64> = if date.month >= 2 {
            self.first_salary(date.year, date.month - 1, salary_code)
        } else if date.month == 1 && date.year >= 1 {
            self.first_salary(date.year - 1, 12, salary_code)
        } else {
            // January of year zero looks back to a year before the calendar,
            // and a zero month to a month before January: no row carries
            // either, so the lookback finds nothing.
            proof {
                assert forall|i: int| 0 <= i < rows.len() implies !is_salary_in(
                    #[trigger] rows[i],
                    pym.0,
                    pym.1,
                    salary_code@,
                ) by {
                    assert(rows[i].date.year as int >= 0);
                    assert(rows[i].date.month as int >= 0);
                }
            }
            None
        };
        match prior {
            Option::Some(a) => a,
            Option::None => {
                match self.first_salary(date.year, date.month, salary_code) {
                    Option::Some(a) => a,
                    Option::None => 0,
                }
            },
        }
    }
}

/// One step of the per-label fold when the counting row's label already
/// has an entry: that entry's sum grows by the row's amount.
#[verifier::rlimit(100)]
#[verifier::spinoff_prover]
proof fn lemma_acc_update(
    old_res: Seq<(Vec<u8>, i128)>,
    new_res: Seq<(Vec<u8>, i128)>,
    rows: Seq<TransferData>,
    cats: Seq<CategoryData>,
    y: int,
    m: int,
    ev: Option<Seq<u8>>,
    kk: int,
    f: int,
)
    requires
        0 <= kk < rows.len(),
        counts(rows[kk], y, m, ev),
        0 <= f < old_res.len(),
        old_res[f].0@ == group_label(rows[kk], cats),
        new_res.len() == old_res.len(),
        new_res[f].0@ == old_res[f].0@,
        new_res[f].1 == old_res[f].1 + rows[kk].amount,
        forall|i: int| 0 <= i < old_res.len() && i != f ==> new_res[i] == old_res[i],
        forall|i: int|
            0 <= i < old_res.len() ==> (#[trigger] old_res[i]).1 == sum_label(
                rows.take(kk),
                y,
                m,
                old_res[i].0@,
                cats,
                ev,
            ),
        forall|i: int|
            0 <= i < old_res.len() ==> -(kk * 0x8000_0000_0000_0000) <= (#[trigger] old_res[i]).1
                <= kk * 0x8000_0000_0000_0000,
        forall|i: int, j: int| 0 <= i < j < old_res.len() ==> old_res[i].0@ != old_res[j].0@,
        forall|k: int|
            0 <= k < kk && counts(#[trigger] rows[k], y, m, ev) ==> exists|i: int|
                0 <= i < old_res.len() && (#[trigger] old_res[i]).0@ == group_label(rows[k], cats),
        forall|i: int|
            0 <= i < old_res.len() ==> label_occurs(
                rows.take(kk),
                y,
                m,
                ev,
                cats,
                (#[trigger] old_res[i]).0@,
            ),
    ensures
        forall|i: int|
            0 <= i < new_res.len() ==> (#[trigger] new_res[i]).1 == sum_label(
                rows.take(kk + 1),
                y,
                m,
                new_res[i].0@,
                cats,
                ev,
            ),
        forall|i: int|
            0 <= i < new_res.len() ==> -((kk + 1) * 0x8000_0000_0000_0000) <= (
            #[trigger] new_res[i]).1 <= (kk + 1) * 0x8000_0000_0000_0000,
        forall|i: int, j: int| 0 <= i < j < new_res.len() ==> new_res[i].0@ != new_res[j].0@,
        forall|k: int|
            0 <= k < kk + 1 && counts(#[trigger] rows[k], y, m, ev) ==> exists|i: int|
                0 <= i < new_res.len() && (#[trigger] new_res[i]).0@ == group_label(rows[k], cats),
        forall|i: int|
            0 <= i < new_res.len() ==> label_occurs(
                rows.take(kk + 1),
                y,
                m,
                ev,
                cats,
                (#[trigger] new_res[i]).0@,
            ),
{
    let lbl = group_label(rows[kk], cats);
    assert(rows.take(kk + 1).drop_last() =~= rows.take(kk));
    assert(rows.take(kk + 1).last() == rows[kk]);
    assert forall|i: int| 0 <= i < new_res.len() implies (#[trigger] new_res[i]).1 == sum_label(
        rows.take(kk + 1),
        y,
        m,
        new_res[i].0@,
        cats,
        ev,
    ) by {
        if i == f {
            assert(sum_label(rows.take(kk + 1), y, m, lbl, cats, ev) == sum_label(
                rows.take(kk),
                y,
                m,
                lbl,
                cats,
                ev,
            ) + rows[kk].amount as int);
        } else {
            assert(new_res[i] == old_res[i]);
            assert(new_res[i].0@ != lbl);
            assert(sum_label(rows.take(kk + 1), y, m, new_res[i].0@, cats, ev) == sum_label(
                rows.take(kk),
                y,
                m,
                new_res[i].0@,
                cats,
                ev,
            ));
        }
    }
    assert forall|k: int| 0 <= k < kk + 1 && counts(#[trigger] rows[k], y, m, ev) implies exists|
        i: int,
    |
        0 <= i < new_res.len() && (#[trigger] new_res[i]).0@ == group_label(rows[k], cats) by {
        if k < kk {
            let wi = choose|i: int|
                0 <= i < old_res.len() && (#[trigger] old_res[i]).0@ == group_label(rows[k], cats);
            assert(new_res[wi].0@ == old_res[wi].0@);
        } else {
            assert(new_res[f].0@ == group_label(rows[k], cats));
        }
    }
    assert forall|i: int| 0 <= i < new_res.len() implies label_occurs(
        rows.take(kk + 1),
        y,
        m,
        ev,
        cats,
        (#[trigger] new_res[i]).0@,
    ) by {
        if i == f {
            assert(rows.take(kk + 1)[kk] == rows[kk]);
            assert(counts(rows.take(kk + 1)[kk], y, m, ev) && group_label(
                rows.take(kk + 1)[kk],
                cats,
            ) == new_res[i].0@);
        } else {
            assert(new_res[i] == old_res[i]);
            assert(label_occurs(rows.take(kk), y, m, ev, cats, old_res[i].0@));
            lemma_label_occurs_extend(rows, y, m, ev, cats, new_res[i].0@, kk, kk + 1);
        }
    }
}

/// One step of the per-label fold when the counting row's label is new: a
/// fresh entry opens with the row's amount.
#[verifier::rlimit(100)]
#[verifier::spinoff_prover]
proof fn lemma_acc_push(
    old_res: Seq<(Vec<u8>, i128)>,
    new_res: Seq<(Vec<u8>, i128)>,
    rows: Seq<TransferData>,
    cats: Seq<CategoryData>,
    y: int,
    m: int,
    ev: Option<Seq<u8>>,
    kk: int,
)
    requires
        0 <= kk < rows.len(),
        counts(rows[kk], y, m, ev),
        forall|q: int| 0 <= q < old_res.len() ==> (#[trigger] old_res[q]).0@ != group_label(
            rows[kk],
            cats,
        ),
        new_res.len() == old_res.len() + 1,
        new_res[new_res.len() - 1].0@ == group_label(rows[kk], cats),
        new_res[new_res.len() - 1].1 == rows[kk].amount as int,
        forall|i: int| 0 <= i < old_res.len() ==> new_res[i] == old_res[i],
        forall|i: int|
            0 <= i < old_res.len() ==> (#[trigger] old_res[i]).1 == sum_label(
                rows.take(kk),
                y,
                m,
                old_res[i].0@,
                cats,
                ev,
            ),
        forall|i: int|
            0 <= i < old_res.len() ==> -(kk * 0x8000_0000_0000_0000) <= (#[trigger] old_res[i]).1
                <= kk * 0x8000_0000_0000_0000,
        forall|i: int, j: int| 0 <= i < j < old_res.len() ==> old_res[i].0@ != old_res[j].0@,
        forall|k: int|
            0 <= k < kk && counts(#[trigger] rows[k], y, m, ev) ==> exists|i: int|
                0 <= i < old_res.len() && (#[trigger] old_res[i]).0@ == group_label(rows[k], cats),
        forall|i: int|
            0 <= i < old_res.len() ==> label_occurs(
                rows.take(kk),
                y,
                m,
                ev,
                cats,
                (#[trigger] old_res[i]).0@,
            ),
    ensures
        forall|i: int|
            0 <= i < new_res.len() ==> (#[trigger] new_res[i]).1 == sum_label(
                rows.take(kk + 1),
                y,
                m,
                new_res[i].0@,
                cats,
                ev,
            ),
        forall|i: int|
            0 <= i < new_res.len() ==> -((kk + 1) * 0x8000_0000_0000_0000) <= (
            #[trigger] new_res[i]).1 <= (kk + 1) * 0x8000_0000_0000_0000,
        forall|i: int, j: int| 0 <= i < j < new_res.len() ==> new_res[i].0@ != new_res[j].0@,
        forall|k: int|
            0 <= k < kk + 1 && counts(#[trigger] rows[k], y, m, ev) ==> exists|i: int|
                0 <= i < new_res.len() && (#[trigger] new_res[i]).0@ == group_label(rows[k], cats),
        forall|i: int|
            0 <= i < new_res.len() ==> label_occurs(
                rows.take(kk + 1),
                y,
                m,
                ev,
                cats,
                (#[trigger] new_res[i]).0@,
            ),
{
    let lbl = group_label(rows[kk], cats);
    assert(rows.take(kk + 1).drop_last() =~= rows.take(kk));
    assert(rows.take(kk + 1).last() == rows[kk]);
    assert forall|j: int| 0 <= j < rows.take(kk).len() implies !(counts(
        #[trigger] rows.take(kk)[j],
        y,
        m,
        ev,
    ) && group_label(rows.take(kk)[j], cats) == lbl) by {
        assert(rows.take(kk)[j] == rows[j]);
        if counts(rows[j], y, m, ev) && group_label(rows[j], cats) == lbl {
            let wi = choose|i: int|
                0 <= i < old_res.len() && (#[trigger] old_res[i]).0@ == group_label(rows[j], cats);
            assert(old_res[wi].0@ != lbl);
            assert(false);
        }
    }
    lemma_sum_label_zero(rows.take(kk), y, m, lbl, cats, ev);
    assert forall|i: int| 0 <= i < new_res.len() implies (#[trigger] new_res[i]).1 == sum_label(
        rows.take(kk + 1),
        y,
        m,
        new_res[i].0@,
        cats,
        ev,
    ) by {
        if i < new_res.len() - 1 {
            assert(new_res[i] == old_res[i]);
            assert(new_res[i].0@ != lbl);
            assert(sum_label(rows.take(kk + 1), y, m, new_res[i].0@, cats, ev) == sum_label(
                rows.take(kk),
                y,
                m,
                new_res[i].0@,
                cats,
                ev,
            ));
        } else {
            assert(sum_label(rows.take(kk + 1), y, m, lbl, cats, ev) == 0 + rows[kk].amount as int);
        }
    }
    assert forall|k: int| 0 <= k < kk + 1 && counts(#[trigger] rows[k], y, m, ev) implies exists|
        i: int,
    |
        0 <= i < new_res.len() && (#[trigger] new_res[i]).0@ == group_label(rows[k], cats) by {
        if k < kk {
            let wi = choose|i: int|
                0 <= i < old_res.len() && (#[trigger] old_res[i]).0@ == group_label(rows[k], cats);
            assert(new_res[wi].0@ == group_label(rows[k], cats));
        } else {
            assert(new_res[new_res.len() - 1].0@ == group_label(rows[k], cats));
        }
    }
    assert forall|i: int| 0 <= i < new_res.len() implies label_occurs(
        rows.take(kk + 1),
        y,
        m,
        ev,
        cats,
        (#[trigger] new_res[i]).0@,
    ) by {
        if i < new_res.len() - 1 {
            assert(new_res[i] == old_res[i]);
            assert(label_occurs(rows.take(kk), y, m, ev, cats, old_res[i].0@));
            lemma_label_occurs_extend(rows, y, m, ev, cats, new_res[i].0@, kk, kk + 1);
        } else {
            assert(rows.take(kk + 1)[kk] == rows[kk]);
            assert(counts(rows.take(kk + 1)[kk], y, m, ev) && group_label(
                rows.take(kk + 1)[kk],
                cats,
            ) == new_res[i].0@);
        }
    }
}

/// One step of the per-label fold over a row that does not count: nothing
/// changes.
#[verifier::rlimit(100)]
#[verifier::spinoff_prover]
proof fn lemma_acc_skip(
    res: Seq<(Vec<u8>, i128)>,
    rows: Seq<TransferData>,
    cats: Seq<CategoryData>,
    y: int,
    m: int,
    ev: Option<Seq<u8>>,
    kk: int,
)
    requires
        0 <= kk < rows.len(),
        !counts(rows[kk], y, m, ev),
        forall|i: int|
            0 <= i < res.len() ==> (#[trigger] res[i]).1 == sum_label(
                rows.take(kk),
                y,
                m,
                res[i].0@,
                cats,
                ev,
            ),
        forall|k: int|
            0 <= k < kk && counts(#[trigger] rows[k], y, m, ev) ==> exists|i: int|
                0 <= i < res.len() && (#[trigger] res[i]).0@ == group_label(rows[k], cats),
        forall|i: int|
            0 <= i < res.len() ==> label_occurs(
                rows.take(kk),
                y,
                m,
                ev,
                cats,
                (#[trigger] res[i]).0@,
            ),
    ensures
        forall|i: int|
            0 <= i < res.len() ==> (#[trigger] res[i]).1 == sum_label(
                rows.take(kk + 1),
                y,
                m,
                res[i].0@,
                cats,
                ev,
            ),
        forall|k: int|
            0 <= k < kk + 1 && counts(#[trigger] rows[k], y, m, ev) ==> exists|i: int|
                0 <= i < res.len() && (#[trigger] res[i]).0@ == group_label(rows[k], cats),
        forall|i: int|
            0 <= i < res.len() ==> label_occurs(
                rows.take(kk + 1),
                y,
                m,
                ev,
                cats,
                (#[trigger] res[i]).0@,
            ),
{
    assert(rows.take(kk + 1).drop_last() =~= rows.take(kk));
    assert(rows.take(kk + 1).last() == rows[kk]);
    assert forall|i: int| 0 <= i < res.len() implies (#[trigger] res[i]).1 == sum_label(
        rows.take(kk + 1),
        y,
        m,
        res[i].0@,
        cats,
        ev,
    ) by {
        assert(sum_label(rows.take(kk + 1), y, m, res[i].0@, cats, ev) == sum_label(
            rows.take(kk),
            y,
            m,
            res[i].0@,
            cats,
            ev,
        ));
    }
    assert forall|i: int| 0 <= i < res.len() implies label_occurs(
        rows.take(kk + 1),
        y,
        m,
        ev,
        cats,
        (#[trigger] res[i]).0@,
    ) by {
        assert(label_occurs(rows.take(kk), y, m, ev, cats, res[i].0@));
        lemma_label_occurs_extend(rows, y, m, ev, cats, res[i].0@, kk, kk + 1);
    }
}

/// Folds one row into the running per-label sums: a counting row's amount
/// joins its label's entry, opening the entry when the label is new; any
/// other row changes nothing.
#[verifier::rlimit(100)]
#[verifier::spinoff_prover]
fn accumulate_row(
    res: &mut Vec<(Vec<u8>, i128)>,
    t: &Transfer,
    categories: &Vec<Category>,
    date: Date,
    excl: Option<&Vec<u8>>,
    Ghost(rows): Ghost<Seq<TransferData>>,
    Ghost(cats): Ghost<Seq<CategoryData>>,
    Ghost(ev): Ghost<Option<Seq<u8>>>,
    Ghost(kk): Ghost<int>,
)
    requires
        0 <= kk < rows.len(),
        rows.len() <= 0xffff_ffff_ffff_ffff,
        rows[kk] == t@,
        cats == categories.deep_view(),
        ev == (match excl {
            Option::None => None,
            Option::Some(v) => Some(v@),
        }),
        forall|i: int|
            0 <= i < old(res)@.len() ==> (#[trigger] old(res)@[i]).1 == sum_label(
                rows.take(kk),
                date.year as int,
                date.month as int,
                old(res)@[i].0@,
                cats,
                ev,
            ),
        forall|i: int|
            0 <= i < old(res)@.len() ==> -(kk * 0x8000_0000_0000_0000) <= (
            #[trigger] old(res)@[i]).1 <= kk * 0x8000_0000_0000_0000,
        forall|i: int, j: int| 0 <= i < j < old(res)@.len() ==> old(res)@[i].0@ != old(res)@[j].0@,
        forall|k: int|
            0 <= k < kk && counts(#[trigger] rows[k], date.year as int, date.month as int, ev)
                ==> exists|i: int|
                0 <= i < old(res)@.len() && (#[trigger] old(res)@[i]).0@ == group_label(
                    rows[k],
                    cats,
                ),
        forall|i: int|
            0 <= i < old(res)@.len() ==> label_occurs(
                rows.take(kk),
                date.year as int,
                date.month as int,
                ev,
                cats,
                (#[trigger] old(res)@[i]).0@,
            ),
    ensures
        forall|i: int|
            0 <= i < final(res)@.len() ==> (#[trigger] final(res)@[i]).1 == sum_label(
                rows.take(kk + 1),
                date.year as int,
                date.month as int,
                final(res)@[i].0@,
                cats,
                ev,
            ),
        forall|i: int|
            0 <= i < final(res)@.len() ==> -((kk + 1) * 0x8000_0000_0000_0000) <= (
            #[trigger] final(res)@[i]).1 <= (kk + 1) * 0x8000_0000_0000_0000,
        forall|i: int, j: int|
            0 <= i < j < final(res)@.len() ==> final(res)@[i].0@ != final(res)@[j].0@,
        forall|k: int|
            0 <= k < kk + 1 && counts(#[trigger] rows[k], date.year as int, date.month as int, ev)
                ==> exists|i: int|
                0 <= i < final(res)@.len() && (#[trigger] final(res)@[i]).0@ == group_label(
                    rows[k],
                    cats,
                ),
        forall|i: int|
            0 <= i < final(res)@.len() ==> label_occurs(
                rows.take(kk + 1),
                date.year as int,
                date.month as int,
                ev,
                cats,
                (#[trigger] final(res)@[i]).0@,
            ),
{
    let ghost y = date.year as int;
    let ghost m = date.month as int;
    let inm = t.date.year == date.year && t.date.month == date.month;
    let mut exc = false;
    match (excl, &t.category) {
        (Option::Some(e), Option::Some(c)) => {
            exc = bytes_eq(c, e);
        },
        _ => {},
    }
    proof {
        assert(inm == in_month(rows[kk], y, m));
        assert(exc == excluded(rows[kk], ev));
    }
    if inm && !exc {
        let lbl = group_label_of(t, categories);
        let mut fi: Option<usize> = None;
        let mut i2: usize = 0;
        while i2 < res.len()
            invariant
                i2 <= res.len(),
                match fi {
                    Option::None => forall|q: int| 0 <= q < i2 ==> (#[trigger] res@[q]).0@ != lbl@,
                    Option::Some(f) => f < res.len() && res@[f as int].0@ == lbl@,
                },
            decreases res.len() - i2,
        {
            if fi.is_none() {
                let pair = &res[i2];
                if bytes_eq(&pair.0, &lbl) {
                    fi = Some(i2);
                }
            }
            i2 += 1;
        }
        let ghost old_res = res@;
        match fi {
            Option::Some(f) => {
                let cur = res[f].1;
                let lblcopy = copy_bytes(&res[f].0);
                proof {
                    assert(kk + 1 <= 0xffff_ffff_ffff_ffff);
                }
                res.set(f, (lblcopy, cur + (t.amount as i128)));
                proof {
                    lemma_acc_update(old_res, res@, rows, cats, y, m, ev, kk, f as int);
                }
            },
            Option::None => {
                res.push((lbl, t.amount as i128));
                proof {
                    assert(res@ =~= old_res.push(res@[res@.len() - 1]));
                    lemma_acc_push(old_res, res@, rows, cats, y, m, ev, kk);
                }
            },
        }
    } else {
        proof {
            lemma_acc_skip(res@, rows, cats, y, m, ev, kk);
        }
    }
}

/// A field-for-field copy of a transfer.
pub fn copy_transfer(t: &Transfer) -> (r: Transfer)
    ensures
        r@ == t@,
{
    Transfer {
        date: t.date,
        label: copy_bytes(&t.label),
        category: match &t.category {
            Option::Some(c) => Some(copy_bytes(c)),
            Option::None => None,
        },
        amount: t.amount,
    }
}

} // verus!
