use csv2ledger::amount::Amount;
use csv2ledger::ledger::Entry;
use csv2ledger::ledger::Transaction;
use csv2ledger::process::Record2Entry;
use csv2ledger::swedbank::Date;
use csv2ledger::swedbank::SwedbankRow;

fn sample_row() -> SwedbankRow {
    SwedbankRow {
        clearingnummer: 8327,
        kontonummer: 933108747,
        valuta: String::from("SEK"),
        bokforingsdag: Date { year: 2021, month: 3, day: 1 },
        transaktionsdag: Date { year: 2021, month: 3, day: 1 },
        referens: String::from("REF1"),
        beskrivning: String::from("ICA SUPERMARKET"),
        belopp: Amount { negative: true, mantissa: 12550, scale: 2 },
        bokfort_saldo: Amount { negative: false, mantissa: 320112, scale: 2 },
    }
}

#[test]
fn it_works() {
    let result = 2 + 2;
    assert_eq!(result, 4);
}

#[test]
fn example_entry_renders() {
    let cfg = Record2Entry::new();
    let entry = cfg.row2entry(&sample_row());
    let text = entry.render();
    let expected = "2021-03-01 ICA SUPERMARKET\n\
                    \t; referens: REF1\n\
                    \tAssets:Bank:8327:933108747\t-125.50 SEK\n\
                    \tExpenses:Import:ICA SUPERMARKET\t125.50 SEK\n";
    assert_eq!(text, expected);
}

#[test]
fn description_override_changes_counter_leg() {
    let mut cfg = Record2Entry::new();
    cfg.set_description(
        String::from("ICA SUPERMARKET"),
        String::from("Groceries"),
    );
    let entry = cfg.row2entry(&sample_row());
    assert_eq!(entry.transactions[1].account_path, "Expenses:Groceries");
}

#[test]
fn secondary_date_appears_when_dates_differ() {
    let cfg = Record2Entry::new();
    let mut row = sample_row();
    row.bokforingsdag = Date { year: 2021, month: 3, day: 2 };
    let entry = cfg.row2entry(&row);
    let text = entry.render();
    assert!(text.starts_with("2021-03-01=2021-03-02 ICA SUPERMARKET\n"));
}

#[test]
fn secondary_date_absent_when_dates_equal() {
    let cfg = Record2Entry::new();
    let entry = cfg.row2entry(&sample_row());
    let text = entry.render();
    assert!(text.starts_with("2021-03-01 ICA SUPERMARKET\n"));
    assert!(!text.contains('='));
}

#[test]
fn zero_amount_routes_to_income() {
    let cfg = Record2Entry::new();
    let mut row = sample_row();
    row.belopp = Amount { negative: false, mantissa: 0, scale: 2 };
    let entry = cfg.row2entry(&row);
    assert_eq!(
        entry.transactions[1].account_path,
        "Income:Import:ICA SUPERMARKET"
    );
}

#[test]
fn negative_amount_routes_to_expenses() {
    let cfg = Record2Entry::new();
    let entry = cfg.row2entry(&sample_row());
    assert_eq!(
        entry.transactions[1].account_path,
        "Expenses:Import:ICA SUPERMARKET"
    );
}

#[test]
fn entry_amounts_balance() {
    let cfg = Record2Entry::new();
    let entry = cfg.row2entry(&sample_row());
    let a = &entry.transactions[0].amount;
    let b = &entry.transactions[1].amount;
    assert_eq!(a.mantissa, b.mantissa);
    assert_eq!(a.scale, b.scale);
    assert_ne!(a.negative, b.negative);
    let va = if a.negative { -(a.mantissa as i128) } else { a.mantissa as i128 };
    let vb = if b.negative { -(b.mantissa as i128) } else { b.mantissa as i128 };
    assert_eq!(va + vb, 0);
}

#[test]
fn account_alias_fallback_joins_numbers() {
    let cfg = Record2Entry::new();
    assert_eq!(cfg.account_name(8327, 933108747), "8327:933108747");
}

#[test]
fn account_alias_override_used_when_configured() {
    let mut cfg = Record2Entry::new();
    cfg.set_account(8327, 933108747, String::from("Checking"));
    assert_eq!(cfg.account_name(8327, 933108747), "Checking");
    assert_eq!(cfg.account_name(8327, 1), "8327:1");
    assert_eq!(cfg.account_name(1, 933108747), "1:933108747");
}

#[test]
fn description_fallback_prefixes_import() {
    let cfg = Record2Entry::new();
    assert_eq!(cfg.account_from_desc("COOP"), "Import:COOP");
}

#[test]
fn general_names_default_to_literals() {
    let cfg = Record2Entry::new();
    assert_eq!(cfg.assets_name(), "Assets");
    assert_eq!(cfg.expenses_name(), "Expenses");
    assert_eq!(cfg.income_name(), "Income");
}

#[test]
fn general_names_respect_overrides() {
    let mut cfg = Record2Entry::new();
    cfg.set_general(String::from("Assets"), String::from("Tillgangar"));
    cfg.set_general(String::from("Expenses"), String::from("Kostnader"));
    assert_eq!(cfg.assets_name(), "Tillgangar");
    assert_eq!(cfg.expenses_name(), "Kostnader");
    assert_eq!(cfg.income_name(), "Income");
    let entry = cfg.row2entry(&sample_row());
    assert_eq!(
        entry.transactions[0].account_path,
        "Tillgangar:Bank:8327:933108747"
    );
    assert_eq!(
        entry.transactions[1].account_path,
        "Kostnader:Import:ICA SUPERMARKET"
    );
}

#[test]
fn rows_render_in_input_order() {
    let cfg = Record2Entry::new();
    let mut row_b = sample_row();
    row_b.beskrivning = String::from("SL BILJETT");
    row_b.belopp = Amount { negative: true, mantissa: 3900, scale: 2 };
    let rows = vec![sample_row(), row_b];
    let text = cfg.rows_to_ledger(&rows);
    let first = text.find("ICA SUPERMARKET").expect("first row missing");
    let second = text.find("SL BILJETT").expect("second row missing");
    assert!(first < second);
    let one = cfg.row2entry(&rows[0]).render();
    let two = cfg.row2entry(&rows[1]).render();
    assert_eq!(text, format!("{}\n{}\n", one, two));
}

#[test]
fn two_rows_render_as_exact_concatenation() {
    let mut cfg = Record2Entry::new();
    cfg.set_description(String::from("LON"), String::from("Salary"));
    let mut row_a = sample_row();
    row_a.bokforingsdag = Date { year: 2021, month: 3, day: 2 };
    let mut row_b = sample_row();
    row_b.beskrivning = String::from("LON");
    row_b.referens = String::from("REF2");
    row_b.belopp = Amount { negative: false, mantissa: 2500000, scale: 2 };
    row_b.bokfort_saldo = Amount { negative: false, mantissa: 2820112, scale: 2 };
    let rows = vec![row_a, row_b];
    let text = cfg.rows_to_ledger(&rows);
    let expected = "2021-03-01=2021-03-02 ICA SUPERMARKET\n\
                    \t; referens: REF1\n\
                    \tAssets:Bank:8327:933108747\t-125.50 SEK\n\
                    \tExpenses:Import:ICA SUPERMARKET\t125.50 SEK\n\
                    \n\
                    2021-03-01 LON\n\
                    \t; referens: REF2\n\
                    \tAssets:Bank:8327:933108747\t25000.00 SEK\n\
                    \tIncome:Salary\t-25000.00 SEK\n\
                    \n";
    assert_eq!(text, expected);
}

#[test]
fn transaction_comment_renders_after_amount() {
    let entry = Entry {
        primary_date: Date { year: 2021, month: 3, day: 1 },
        secondary_date: None,
        description: String::from("MANUAL"),
        comments: Vec::new(),
        transactions: vec![Transaction {
            account_path: String::from("Assets:Cash"),
            amount: Amount { negative: false, mantissa: 100, scale: 2 },
            currency: String::from("SEK"),
            balance_assertion: None,
            comment: Some(String::from("note")),
        }],
    };
    assert_eq!(entry.render(), "2021-03-01 MANUAL\n\tAssets:Cash\t1.00 SEK ; note\n");
}

#[test]
fn dates_render_zero_padded() {
    let cfg = Record2Entry::new();
    let mut row = sample_row();
    row.transaktionsdag = Date { year: 980, month: 12, day: 9 };
    row.bokforingsdag = Date { year: 981, month: 1, day: 10 };
    let entry = cfg.row2entry(&row);
    assert!(entry.render().starts_with("0980-12-09=0981-01-10 "));
}

#[test]
fn empty_input_renders_nothing() {
    let cfg = Record2Entry::new();
    let rows: Vec<SwedbankRow> = Vec::new();
    assert_eq!(cfg.rows_to_ledger(&rows), "");
}
