use bank_report::category::{best_category, Category, CategoryPattern};
use bank_report::config::Config;
use bank_report::date::Date;
use bank_report::parser::BankFileParser;
use bank_report::repo::TransferRepo;
use bank_report::transfer::{ParseError, Transfer};
use bank_report::transfer_service::{format_report_line, TransferService};

fn pattern(p: &[u8], code: &[u8]) -> CategoryPattern {
    CategoryPattern { pattern: p.to_vec(), category_code: code.to_vec() }
}

fn category(code: &[u8], label: &[u8]) -> Category {
    Category { code: code.to_vec(), label: label.to_vec() }
}

fn day(year: u32, month: u8, day: u8) -> Date {
    Date { year, month, day }
}

fn transfer(date: Date, label: &[u8], amount: i64) -> Transfer {
    Transfer { date, label: label.to_vec(), category: None, amount }
}

#[test]
fn longest_prefix_wins() {
    let rules = vec![
        pattern(b"CARREFOUR", b"groceries"),
        pattern(b"CARREFOUR MARKET", b"groceries_market"),
    ];
    let label = b"CARREFOUR MARKET PARIS".to_vec();
    let got = best_category(&label, &rules);
    assert_eq!(got, Some(b"groceries_market".to_vec()));
}

#[test]
fn longest_prefix_wins_in_any_rule_order() {
    let rules = vec![
        pattern(b"CARREFOUR MARKET", b"groceries_market"),
        pattern(b"CARREFOUR", b"groceries"),
    ];
    let label = b"CARREFOUR MARKET PARIS".to_vec();
    let got = best_category(&label, &rules);
    assert_eq!(got, Some(b"groceries_market".to_vec()));
}

#[test]
fn no_match_resolves_to_null() {
    let rules = vec![
        pattern(b"CARREFOUR", b"groceries"),
        pattern(b"SNCF", b"transport"),
    ];
    let label = b"UNKNOWN SHOP".to_vec();
    assert_eq!(best_category(&label, &rules), None);
}

#[test]
fn equal_length_tie_breaks_on_least_code() {
    let rules = vec![
        pattern(b"CARREFOUR", b"zz_late"),
        pattern(b"CARREFOUR", b"aa_early"),
    ];
    let label = b"CARREFOUR CITY".to_vec();
    assert_eq!(best_category(&label, &rules), Some(b"aa_early".to_vec()));
}

#[test]
fn upsert_computes_category() {
    let mut repo = TransferRepo::new(
        vec![category(b"groceries", b"Groceries")],
        vec![pattern(b"CARREFOUR", b"groceries")],
    );
    let stored = repo.create(&transfer(day(2024, 12, 3), b"CARREFOUR PARIS", -5000));
    assert_eq!(stored.category, Some(b"groceries".to_vec()));
    assert_eq!(repo.transfers.len(), 1);
    assert_eq!(repo.transfers[0].label, b"CARREFOUR PARIS".to_vec());
    assert_eq!(repo.transfers[0].amount, -5000);
}

#[test]
fn reimport_is_idempotent() {
    let mut repo = TransferRepo::new(Vec::new(), vec![pattern(b"CARREFOUR", b"groceries")]);
    let t = transfer(day(2024, 12, 3), b"CARREFOUR PARIS", -5000);
    let first = repo.create(&t);
    assert_eq!(repo.transfers.len(), 1);
    assert_eq!(first.category, Some(b"groceries".to_vec()));

    // The rule set changes between the two imports of the same record.
    repo.patterns = vec![pattern(b"CARREFOUR", b"food")];
    let second = repo.create(&t);

    // Still exactly one stored row; only the category changed.
    assert_eq!(repo.transfers.len(), 1);
    assert_eq!(second.category, Some(b"food".to_vec()));
    assert_eq!(repo.transfers[0].date, day(2024, 12, 3));
    assert_eq!(repo.transfers[0].label, b"CARREFOUR PARIS".to_vec());
    assert_eq!(repo.transfers[0].amount, -5000);
    assert_eq!(repo.transfers[0].category, Some(b"food".to_vec()));
}

#[test]
fn amount_with_comma_parses_to_cents() {
    let line = b"03/12/2024\t\"SHOP\"\t12,34".to_vec();
    let t = Transfer::from_str(&line, day(2024, 12, 1)).unwrap();
    assert_eq!(t.amount, 1234);
}

#[test]
fn amount_plain_number_parses_as_whole_units() {
    let line = b"03/12/2024\t\"SHOP\"\t1234".to_vec();
    let t = Transfer::from_str(&line, day(2024, 12, 1)).unwrap();
    assert_eq!(t.amount, 123400);
}

#[test]
fn amount_rounds_half_away_from_zero() {
    let line = b"03/12/2024\t\"SHOP\"\t-0,995".to_vec();
    let t = Transfer::from_str(&line, day(2024, 12, 1)).unwrap();
    assert_eq!(t.amount, -100);
}

#[test]
fn malformed_amount_rejects_the_line() {
    let line = b"03/12/2024\t\"SHOP\"\t12x34".to_vec();
    let got = Transfer::from_str(&line, day(2024, 12, 1));
    assert!(matches!(got, Err(ParseError::BadAmount)));
}

#[test]
fn too_few_fields_rejects_the_line() {
    let line = b"just some text".to_vec();
    let got = Transfer::from_str(&line, day(2024, 12, 1));
    assert!(matches!(got, Err(ParseError::TooFewFields)));
}

#[test]
fn bad_date_falls_back_to_default() {
    let line = b"not a date\t\"SHOP\"\t1,00".to_vec();
    let t = Transfer::from_str(&line, day(2024, 12, 1)).unwrap();
    assert_eq!(t.date, day(2024, 12, 1));
    assert_eq!(t.amount, 100);
}

#[test]
fn quotes_are_stripped_from_labels() {
    let line = b"03/12/2024\t\"CARREFOUR \"CITY\"\"\t5,00".to_vec();
    let t = Transfer::from_str(&line, day(2024, 12, 1)).unwrap();
    assert_eq!(t.label, b"CARREFOUR CITY".to_vec());
}

#[test]
fn salary_from_prior_month_wins() {
    let mut repo = TransferRepo::new(Vec::new(), vec![pattern(b"EMPLOYER", b"salary")]);
    repo.create(&transfer(day(2024, 11, 28), b"EMPLOYER WAGE", 200000));
    repo.create(&transfer(day(2024, 12, 2), b"EMPLOYER WAGE", 180000));
    let sal = repo.resolve_salary(day(2024, 12, 1), &b"salary".to_vec());
    assert_eq!(sal, 200000);
}

#[test]
fn salary_falls_back_to_target_month() {
    let mut repo = TransferRepo::new(Vec::new(), vec![pattern(b"EMPLOYER", b"salary")]);
    repo.create(&transfer(day(2024, 12, 2), b"EMPLOYER WAGE", 180000));
    let sal = repo.resolve_salary(day(2024, 12, 1), &b"salary".to_vec());
    assert_eq!(sal, 180000);
}

#[test]
fn salary_defaults_to_zero() {
    let repo = TransferRepo::new(Vec::new(), vec![pattern(b"EMPLOYER", b"salary")]);
    let sal = repo.resolve_salary(day(2024, 12, 1), &b"salary".to_vec());
    assert_eq!(sal, 0);
}

#[test]
fn salary_lookback_crosses_the_year_boundary() {
    let mut repo = TransferRepo::new(Vec::new(), vec![pattern(b"EMPLOYER", b"salary")]);
    repo.create(&transfer(day(2023, 12, 29), b"EMPLOYER WAGE", 210000));
    let sal = repo.resolve_salary(day(2024, 1, 1), &b"salary".to_vec());
    assert_eq!(sal, 210000);
}

#[test]
fn exclusion_splits_the_total() {
    let mut repo = TransferRepo::new(
        vec![category(b"groceries", b"Groceries"), category(b"salary", b"Salary")],
        vec![pattern(b"CARREFOUR", b"groceries"), pattern(b"EMPLOYER", b"salary")],
    );
    repo.create(&transfer(day(2024, 12, 3), b"CARREFOUR PARIS", -5000));
    repo.create(&transfer(day(2024, 12, 2), b"EMPLOYER WAGE", 200000));
    let (_, excluded) = repo.get_total_amount_excluding(day(2024, 12, 1), &b"salary".to_vec());
    assert_eq!(excluded, -5000);
    let (lbl, total) = repo.get_total_amount(day(2024, 12, 1));
    assert_eq!(lbl, b"TOTAL".to_vec());
    assert_eq!(total, 195000);
}

#[test]
fn totals_ignore_other_months() {
    let mut repo = TransferRepo::new(Vec::new(), Vec::new());
    repo.create(&transfer(day(2024, 11, 3), b"OLD", -1000));
    repo.create(&transfer(day(2024, 12, 3), b"NEW", -2000));
    let (_, total) = repo.get_total_amount(day(2024, 12, 1));
    assert_eq!(total, -2000);
}

#[test]
fn breakdown_groups_by_display_label() {
    let mut repo = TransferRepo::new(
        vec![category(b"groceries", b"Groceries")],
        vec![pattern(b"CARREFOUR", b"groceries")],
    );
    repo.create(&transfer(day(2024, 12, 3), b"CARREFOUR A", -5000));
    repo.create(&transfer(day(2024, 12, 4), b"CARREFOUR B", -2500));
    repo.create(&transfer(day(2024, 12, 5), b"MYSTERY SHOP", -100));
    let rows = repo.get_amount_by_category(day(2024, 12, 1));
    assert_eq!(rows.len(), 2);
    let mut grocery_sum = None;
    let mut uncategorized_sum = None;
    for (label, sum) in &rows {
        if label.as_slice() == b"Groceries" {
            grocery_sum = Some(*sum);
        } else if label.as_slice() == b"__aucune__" {
            uncategorized_sum = Some(*sum);
        } else {
            panic!("unexpected group label");
        }
    }
    assert_eq!(grocery_sum, Some(-7500));
    assert_eq!(uncategorized_sum, Some(-100));
}

#[test]
fn breakdown_can_exclude_salary() {
    let mut repo = TransferRepo::new(
        vec![category(b"groceries", b"Groceries"), category(b"salary", b"Salary")],
        vec![pattern(b"CARREFOUR", b"groceries"), pattern(b"EMPLOYER", b"salary")],
    );
    repo.create(&transfer(day(2024, 12, 3), b"CARREFOUR A", -5000));
    repo.create(&transfer(day(2024, 12, 2), b"EMPLOYER WAGE", 200000));
    let rows = repo.get_amount_by_category_excluding(day(2024, 12, 1), &b"salary".to_vec());
    assert_eq!(rows.len(), 1);
    assert_eq!(rows[0].0, b"Groceries".to_vec());
    assert_eq!(rows[0].1, -5000);
}

#[test]
fn header_lines_are_skipped() {
    let mut raw: Vec<u8> = Vec::new();
    raw.extend_from_slice(b"Bank export\n");
    raw.extend_from_slice(b"Account 123\n");
    raw.extend_from_slice(b"from; to; whatever\n");
    raw.extend_from_slice(b"\n");
    raw.extend_from_slice(b"boilerplate\n");
    raw.extend_from_slice(b"more boilerplate\n");
    raw.extend_from_slice(b"Date\tLabel\tAmount\n");
    raw.extend_from_slice(b"03/12/2024\t\"SHOP A\"\t-12,34\n");
    raw.extend_from_slice(b"04/12/2024\t\"SHOP B\"\t5,00\n");
    let parser = BankFileParser::new(day(2024, 12, 1));
    let got = parser.parse_bytes(&raw);
    assert_eq!(got.len(), 2);
    assert_eq!(got[0].label, b"SHOP A".to_vec());
    assert_eq!(got[0].amount, -1234);
    assert_eq!(got[0].date, day(2024, 12, 3));
    assert_eq!(got[1].label, b"SHOP B".to_vec());
    assert_eq!(got[1].amount, 500);
}

#[test]
fn malformed_lines_are_dropped_silently() {
    let mut raw: Vec<u8> = Vec::new();
    for _ in 0..7 {
        raw.extend_from_slice(b"header\n");
    }
    raw.extend_from_slice(b"03/12/2024\t\"GOOD\"\t1,00\n");
    raw.extend_from_slice(b"no tabs at all\n");
    raw.extend_from_slice(b"04/12/2024\t\"ALSO GOOD\"\t2,00\n");
    let parser = BankFileParser::new(day(2024, 12, 1));
    let got = parser.parse_bytes(&raw);
    assert_eq!(got.len(), 2);
    assert_eq!(got[0].label, b"GOOD".to_vec());
    assert_eq!(got[1].label, b"ALSO GOOD".to_vec());
}

#[test]
fn accented_labels_are_decoded_from_latin1() {
    let mut raw: Vec<u8> = Vec::new();
    for _ in 0..7 {
        raw.extend_from_slice(b"header\n");
    }
    // "CAFE" with an e-acute in ISO-8859-1 (one byte, 0xE9).
    raw.extend_from_slice(b"03/12/2024\t\"CAF\xe9\"\t3,50\n");
    let parser = BankFileParser::new(day(2024, 12, 1));
    let got = parser.parse_bytes(&raw);
    assert_eq!(got.len(), 1);
    // The stored label carries the decoded character in UTF-8 (two bytes).
    assert_eq!(got[0].label, b"CAF\xc3\xa9".to_vec());
    assert_eq!(String::from_utf8(got[0].label.clone()).unwrap(), "CAF\u{e9}");
}

#[test]
fn filename_follows_the_month() {
    let parser = BankFileParser::new(day(2024, 3, 1));
    assert_eq!(parser.get_filename(), b"2024-03.tsv".to_vec());
}

#[test]
fn config_accepts_month_and_day_forms() {
    let c = Config { date: b"2024-12".to_vec() };
    assert_eq!(c.get_date().unwrap(), day(2024, 12, 1));
    let c2 = Config { date: b"2024-12-05".to_vec() };
    assert_eq!(c2.get_date().unwrap(), day(2024, 12, 5));
}

#[test]
fn config_rejects_other_shapes() {
    assert!(Config { date: b"2024".to_vec() }.get_date().is_err());
    assert!(Config { date: b"2024-13".to_vec() }.get_date().is_err());
    assert!(Config { date: b"2024-02-30".to_vec() }.get_date().is_err());
    assert!(Config { date: b"24-12".to_vec() }.get_date().is_err());
}

#[test]
fn leap_day_is_accepted_only_in_leap_years() {
    assert!(Config { date: b"2024-02-29".to_vec() }.get_date().is_ok());
    assert!(Config { date: b"2023-02-29".to_vec() }.get_date().is_err());
}

#[test]
fn service_imports_batches_and_totals_with_salary() {
    let repo = TransferRepo::new(
        vec![category(b"groceries", b"Groceries"), category(b"salary", b"Salary")],
        vec![pattern(b"CARREFOUR", b"groceries"), pattern(b"EMPLOYER", b"salary")],
    );
    let mut service = TransferService { repo };
    let batch = vec![
        transfer(day(2024, 12, 3), b"CARREFOUR PARIS", -5000),
        transfer(day(2024, 11, 28), b"EMPLOYER WAGE", 200000),
        transfer(day(2024, 12, 3), b"CARREFOUR PARIS", -5000),
    ];
    service.import_transactions(&batch);
    assert_eq!(service.repo.transfers.len(), 2);
    // Salary-excluded December total plus the November salary.
    assert_eq!(service.monthly_total(day(2024, 12, 1), &b"salary".to_vec()), 195000);
}

#[test]
fn report_line_is_formatted_with_two_decimals() {
    let line = format_report_line(&b"TOTAL".to_vec(), 195000);
    assert_eq!(line, b"TOTAL = 1950.00 euros".to_vec());
    let neg = format_report_line(&b"Groceries".to_vec(), -5000);
    assert_eq!(neg, b"Groceries = -50.00 euros".to_vec());
    let cents = format_report_line(&b"x".to_vec(), 7);
    assert_eq!(cents, b"x = 0.07 euros".to_vec());
}
