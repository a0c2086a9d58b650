use exact_ledger::ledger::{balances, BalanceSheet, Transaction};
use exact_ledger::parser::parse_mixed_number;
use exact_ledger::rational::ExactRational;

fn entry(account: &str, amount: &str) -> (String, ExactRational) {
    (account.to_string(), parse_mixed_number(amount).unwrap())
}

fn tx(credits: Vec<(String, ExactRational)>, debits: Vec<(String, ExactRational)>) -> Transaction {
    Transaction::new(&credits, &debits)
}

fn sheet_rows(sheet: &BalanceSheet) -> Vec<(String, String)> {
    let mut out = Vec::new();
    let mut i = 0;
    while i < sheet.len() {
        out.push((sheet.account_at(i).clone(), sheet.amount_at(i).serialize()));
        i += 1;
    }
    out
}

#[test]
fn calculate_balances() {
    // a run whose net result pins the sign conventions down:
    // EEE ends at -88, AAA at 115 - 85
    let txs = vec![
        tx(vec![entry("AAA", "115")], vec![entry("EEE", "88")]),
        tx(vec![], vec![entry("AAA", "85")]),
    ];
    let sheet = balances(&txs);
    assert_eq!(sheet.get("EEE"), Some(&ExactRational::from_integer(-88)));
    assert_eq!(sheet.get("AAA"), Some(&ExactRational::from_integer(115 - 85)));
}

#[test]
fn end_to_end_two_transactions() {
    let txs = vec![
        tx(vec![entry("AAA", "100")], vec![entry("BBB", "100")]),
        tx(vec![entry("BBB", "15")], vec![entry("AAA", "15")]),
    ];
    let sheet = balances(&txs);
    assert_eq!(
        sheet_rows(&sheet),
        vec![
            ("AAA".to_string(), "85/1".to_string()),
            ("BBB".to_string(), "-85/1".to_string()),
        ]
    );
}

#[test]
fn cancelling_entries_produce_empty_sheet() {
    let txs = vec![tx(vec![entry("AAA", "1/2")], vec![entry("AAA", "1/2")])];
    let sheet = balances(&txs);
    assert_eq!(sheet.len(), 0);
    assert_eq!(sheet.get("AAA"), None);
}

#[test]
fn cancellation_across_transactions_is_pruned() {
    // AAA cancels only over the whole run, never within one transaction
    let txs = vec![
        tx(vec![entry("AAA", "2 1/4"), entry("BBB", "1")], vec![]),
        tx(vec![], vec![entry("AAA", "9/4")]),
    ];
    let sheet = balances(&txs);
    assert_eq!(sheet.get("AAA"), None);
    assert_eq!(sheet.get("BBB"), Some(&ExactRational::from_integer(1)));
    assert_eq!(sheet.len(), 1);
}

#[test]
fn reordering_transactions_changes_nothing() {
    let a = tx(vec![entry("AAA", "1/3")], vec![entry("BBB", "2")]);
    let b = tx(vec![entry("BBB", "1/2")], vec![entry("AAA", "5")]);
    let c = tx(vec![entry("CCC", "7/6")], vec![entry("AAA", "1/6")]);
    let one = balances(&vec![a, b, c]);

    let a2 = tx(vec![entry("AAA", "1/3")], vec![entry("BBB", "2")]);
    let b2 = tx(vec![entry("BBB", "1/2")], vec![entry("AAA", "5")]);
    let c2 = tx(vec![entry("CCC", "7/6")], vec![entry("AAA", "1/6")]);
    let two = balances(&vec![c2, a2, b2]);

    assert_eq!(sheet_rows(&one), sheet_rows(&two));
}

#[test]
fn output_is_sorted_by_account() {
    let txs = vec![tx(
        vec![entry("ZZZ", "1"), entry("MMM", "2"), entry("AAA", "3")],
        vec![],
    )];
    let rows = sheet_rows(&balances(&txs));
    assert_eq!(
        rows,
        vec![
            ("AAA".to_string(), "3/1".to_string()),
            ("MMM".to_string(), "2/1".to_string()),
            ("ZZZ".to_string(), "1/1".to_string()),
        ]
    );
}

#[test]
fn duplicate_accounts_within_one_transaction_accumulate() {
    let txs = vec![tx(
        vec![entry("AAA", "1/2"), entry("AAA", "1/3")],
        vec![],
    )];
    let sheet = balances(&txs);
    assert_eq!(sheet.get("AAA"), Some(&ExactRational::from_fraction(5, 6)));
}

#[test]
fn exact_fractions_never_drift() {
    // a hundred additions of 1/3, then a hundred subtractions
    let mut txs = Vec::new();
    for _ in 0..100 {
        txs.push(tx(vec![entry("AAA", "1/3")], vec![]));
    }
    for _ in 0..100 {
        txs.push(tx(vec![], vec![entry("AAA", "1/3")]));
    }
    let sheet = balances(&txs);
    assert_eq!(sheet.len(), 0);
}
