use appvkek::batch::chunk_bounds;
use appvkek::errors::Error;
use appvkek::extract::extract;
use appvkek::extract::Approvals;
use appvkek::extract::Transaction;
use appvkek::report::allowance_report;
use appvkek::report::check_metadata;
use appvkek::report::render_contract_report;
use appvkek::report::ContractReport;
use appvkek::report::TokenMeta;

fn owner() -> Vec<u8> {
    format!("0x{}", "a".repeat(40)).into_bytes()
}

fn contract() -> Vec<u8> {
    format!("0x{}", "c".repeat(40)).into_bytes()
}

fn spender() -> Vec<u8> {
    format!("0x{}", "d".repeat(40)).into_bytes()
}

/// `approve(spender, amount)` call data: selector, the spender padded to a
/// 32-byte word, and the amount as a 32-byte word.
fn approve_call_data(spender: &[u8], amount: u64) -> Vec<u8> {
    let digits = String::from_utf8(spender[2..].to_vec()).unwrap();
    format!("0x095ea7b3{}{}{:064x}", "0".repeat(24), digits, amount).into_bytes()
}

fn approve_tx(from: &[u8], to: &[u8], spender: &[u8], amount: u64, is_error: bool) -> Transaction {
    Transaction {
        from: from.to_vec(),
        to: to.to_vec(),
        is_error,
        input: approve_call_data(spender, amount),
    }
}

#[test]
fn approvals_insert_is_idempotent() {
    let mut map = Approvals::new();
    map.insert(contract(), spender());
    map.insert(contract(), spender());
    assert_eq!(map.entries.len(), 1);
    assert_eq!(map.entries[0].spenders.len(), 1);
    let spender2: Vec<u8> = format!("0x{}", "e".repeat(40)).into_bytes();
    map.insert(contract(), spender2);
    assert_eq!(map.entries.len(), 1);
    assert_eq!(map.entries[0].spenders.len(), 2);
}

#[test]
fn extract_single_approval() {
    let txs = vec![approve_tx(&owner(), &contract(), &spender(), 1000, false)];
    let map = extract(&owner(), &txs).unwrap();
    assert_eq!(map.entries.len(), 1);
    assert_eq!(map.entries[0].contract, contract());
    assert_eq!(map.entries[0].spenders, vec![spender()]);
}

#[test]
fn extract_deduplicates_same_pair_different_amounts() {
    // Two approvals of the same (contract, spender) with different amounts
    // collapse to exactly one relationship entry.
    let txs = vec![
        approve_tx(&owner(), &contract(), &spender(), 1000, false),
        approve_tx(&owner(), &contract(), &spender(), 999999, false),
    ];
    let map = extract(&owner(), &txs).unwrap();
    assert_eq!(map.entries.len(), 1);
    assert_eq!(map.entries[0].spenders.len(), 1);
}

#[test]
fn extract_normalizes_case_to_one_key() {
    // The same contract spelled in different cases never makes two entries.
    let upper: Vec<u8> = format!("0x{}", "C".repeat(40)).into_bytes();
    let txs = vec![
        approve_tx(&owner(), &contract(), &spender(), 1, false),
        approve_tx(&owner(), &upper, &spender(), 2, false),
    ];
    let map = extract(&owner(), &txs).unwrap();
    assert_eq!(map.entries.len(), 1);
    assert_eq!(map.entries[0].contract, contract());
}

#[test]
fn extract_excludes_failed_foreign_and_other_methods() {
    // A failed transaction, one from another sender, and one calling a
    // different method each contribute no relationship.
    let other_owner: Vec<u8> = format!("0x{}", "b".repeat(40)).into_bytes();
    let mut transfer_input = approve_call_data(&spender(), 5);
    // another selector: transfer(address,uint256)
    transfer_input[2..10].copy_from_slice(b"a9059cbb");
    let txs = vec![
        approve_tx(&owner(), &contract(), &spender(), 1, true),
        approve_tx(&other_owner, &contract(), &spender(), 1, false),
        Transaction {
            from: owner(),
            to: contract(),
            is_error: false,
            input: transfer_input,
        },
    ];
    let map = extract(&owner(), &txs).unwrap();
    assert_eq!(map.entries.len(), 0);
}

#[test]
fn extract_collects_spenders_per_contract() {
    let spender2: Vec<u8> = format!("0x{}", "e".repeat(40)).into_bytes();
    let contract2: Vec<u8> = format!("0x{}", "f".repeat(40)).into_bytes();
    let txs = vec![
        approve_tx(&owner(), &contract(), &spender(), 1, false),
        approve_tx(&owner(), &contract(), &spender2, 2, false),
        approve_tx(&owner(), &contract2, &spender(), 3, false),
    ];
    let map = extract(&owner(), &txs).unwrap();
    assert_eq!(map.entries.len(), 2);
    assert_eq!(map.entries[0].contract, contract());
    assert_eq!(map.entries[0].spenders, vec![spender(), spender2.clone()]);
    assert_eq!(map.entries[1].contract, contract2);
    assert_eq!(map.entries[1].spenders, vec![spender()]);
}

#[test]
fn extract_fails_on_short_approve_call_data() {
    // An included approve whose call data holds only one word is fatal.
    let short_input = format!("0x095ea7b3{}{}", "0".repeat(24), "d".repeat(40)).into_bytes();
    let txs = vec![Transaction {
        from: owner(),
        to: contract(),
        is_error: false,
        input: short_input,
    }];
    assert_eq!(extract(&owner(), &txs).unwrap_err(), Error::MalformedCallData);
}

#[test]
fn report_scenario_scaled_allowance() {
    // One approve; metadata {name: TOK, decimals: 2}; live allowance 500.
    let txs = vec![approve_tx(&owner(), &contract(), &spender(), 1000, false)];
    let map = extract(&owner(), &txs).unwrap();
    let bounds = chunk_bounds(map.entries.len(), 2000);
    assert_eq!(bounds, vec![(0, 1)]);
    let entry = &map.entries[0];
    let meta = check_metadata(&entry.contract, Ok(b"TOK".to_vec()), Ok(2)).unwrap();
    let allowances: Vec<Result<Vec<u8>, Vec<u8>>> = vec![Ok(b"500".to_vec())];
    let report = allowance_report(&entry.contract, meta, &entry.spenders, &allowances);
    let lines = render_contract_report(&report);
    assert_eq!(lines.len(), 2);
    assert_eq!(lines[0], format!("[TOK] 0x{}", "c".repeat(40)).into_bytes());
    assert_eq!(lines[1], format!("  * 0x{} - 5", "d".repeat(40)).into_bytes());
}

#[test]
fn report_scenario_metadata_failure_isolated() {
    // The contract whose metadata fetch fails degrades to an error line;
    // an unrelated contract in the same run still reports normally.
    let failing = contract();
    let fine: Vec<u8> = format!("0x{}", "f".repeat(40)).into_bytes();
    let failed = check_metadata(&failing, Err(b"boom".to_vec()), Ok(2)).unwrap_err();
    let lines = render_contract_report(&failed);
    assert_eq!(lines.len(), 1);
    assert_eq!(lines[0], format!("[Error] 0x{} - name: boom", "c".repeat(40)).into_bytes());
    let meta = check_metadata(&fine, Ok(b"OK".to_vec()), Ok(0)).unwrap();
    let allowances: Vec<Result<Vec<u8>, Vec<u8>>> = vec![Ok(b"7".to_vec())];
    let spenders = vec![spender()];
    let report = allowance_report(&fine, meta, &spenders, &allowances);
    let lines = render_contract_report(&report);
    assert_eq!(lines[0], format!("[OK] 0x{}", "f".repeat(40)).into_bytes());
    assert_eq!(lines[1], format!("  * 0x{} - 7", "d".repeat(40)).into_bytes());
}

#[test]
fn report_decimals_failure_message() {
    let failed = check_metadata(&contract(), Ok(b"TOK".to_vec()), Err(b"revert".to_vec()))
        .unwrap_err();
    match &failed {
        ContractReport::Failed { address, kind, message } => {
            assert_eq!(address, &contract());
            assert_eq!(*kind, Error::MetadataQueryFailed);
            assert_eq!(message, &b"decimals: revert".to_vec());
        }
        ContractReport::Resolved(_) => panic!("metadata failure must degrade the report"),
    }
}

#[test]
fn report_allowance_failure_names_spender() {
    // Any single allowance failure degrades the whole contract's report.
    let spender2: Vec<u8> = format!("0x{}", "e".repeat(40)).into_bytes();
    let spenders = vec![spender(), spender2.clone()];
    let allowances: Vec<Result<Vec<u8>, Vec<u8>>> =
        vec![Ok(b"500".to_vec()), Err(b"timeout".to_vec())];
    let meta = TokenMeta { name: b"TOK".to_vec(), decimals: 2 };
    let report = allowance_report(&contract(), meta, &spenders, &allowances);
    match &report {
        ContractReport::Failed { address, kind, message } => {
            assert_eq!(address, &contract());
            assert_eq!(*kind, Error::AllowanceQueryFailed);
            assert_eq!(message, &format!("0x{}: timeout", "e".repeat(40)).into_bytes());
        }
        ContractReport::Resolved(_) => panic!("allowance failure must degrade the report"),
    }
}

#[test]
fn report_resolved_structure() {
    let spenders = vec![spender()];
    let allowances: Vec<Result<Vec<u8>, Vec<u8>>> = vec![Ok(b"12345".to_vec())];
    let meta = TokenMeta { name: b"TOK".to_vec(), decimals: 3 };
    let report = allowance_report(&contract(), meta, &spenders, &allowances);
    match &report {
        ContractReport::Resolved(t) => {
            assert_eq!(t.name, b"TOK".to_vec());
            assert_eq!(t.address, contract());
            assert_eq!(t.decimals, 3);
            assert_eq!(t.spender_allowances.len(), 1);
            assert_eq!(t.spender_allowances[0].0, spender());
            assert_eq!(t.spender_allowances[0].1, b"12.345".to_vec());
        }
        ContractReport::Failed { .. } => panic!("all reads succeeded, report must resolve"),
    }
}
