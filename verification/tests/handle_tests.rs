use nautilus_index::codec::encode;
use nautilus_index::{IndexAccount, NautilusError, NautilusIndex, NautilusIndexData, Wallet};
use solana_program::pubkey::Pubkey;
use solana_program::rent::Rent;

fn program_id_bytes() -> Vec<u8> {
    vec![7u8; 32]
}

fn fresh_account(owner: Vec<u8>, data: Vec<u8>, lamports: u64) -> IndexAccount {
    IndexAccount {
        key: vec![9u8; 32],
        owner,
        lamports,
        data,
        is_signer: false,
        is_writable: true,
    }
}

fn rich_payer() -> Wallet {
    Wallet { key: vec![1u8; 32], lamports: 1_000_000_000 }
}

#[test]
fn load_empty_buffer_fails_with_deserialize_error() {
    let pid = program_id_bytes();
    let account = fresh_account(pid.clone(), Vec::new(), 0);
    let expected_addr = Pubkey::new_from_array([9u8; 32]).to_string();
    match NautilusIndex::load(pid, account) {
        Err(NautilusError::DeserializeDataFailed(table, addr)) => {
            assert_eq!(table, "nautilus_index");
            assert_eq!(addr, expected_addr);
        }
        other => panic!("expected DeserializeDataFailed, got {:?}", other.map(|_| ())),
    }
}

#[test]
fn load_wrong_owner_fails_with_load_error() {
    let pid = program_id_bytes();
    let empty = encode(&NautilusIndexData::default());
    let account = fresh_account(vec![8u8; 32], empty, 0);
    let expected_addr = Pubkey::new_from_array([9u8; 32]).to_string();
    match NautilusIndex::load(pid, account) {
        Err(NautilusError::LoadDataFailed(table, addr)) => {
            assert_eq!(table, "nautilus_index");
            assert_eq!(addr, expected_addr);
        }
        other => panic!("expected LoadDataFailed, got {:?}", other.map(|_| ())),
    }
}

#[test]
fn load_reads_the_stored_counts() {
    let pid = program_id_bytes();
    let mut d = NautilusIndexData::default();
    d.add_record("users");
    d.add_record("users");
    d.add_record("orders");
    let account = fresh_account(pid.clone(), encode(&d), 0);
    let h = NautilusIndex::load(pid, account).expect("valid buffer must load");
    assert_eq!(h.get_count("users"), Some(2));
    assert_eq!(h.get_count("orders"), Some(1));
    assert_eq!(h.get_count("inventory"), None);
    assert_eq!(h.get_next_count("users"), 3);
}

#[test]
fn add_record_scenario_counts_sizes_and_balances() {
    let pid = program_id_bytes();
    let rent = Rent::default();
    let empty = encode(&NautilusIndexData::default());
    let account = fresh_account(pid.clone(), empty, rent.minimum_balance(4));
    let mut h = NautilusIndex::load(pid, account).expect("empty map must load");
    let mut payer = rich_payer();
    let payer_before = payer.lamports;
    let account_before = h.lamports();

    // "users" is new: the encoding grows by 8 + 5 bytes to 17.
    let required = rent.minimum_balance(17);
    assert_eq!(h.add_record("users", &mut payer, required).unwrap(), 1);
    assert_eq!(h.account.data.len(), 17);
    assert_eq!(h.account.data.len(), h.span());
    assert!(h.lamports() >= required);

    // Same table again: no growth, no further funding needed.
    let lamports_before_second = h.lamports();
    assert_eq!(h.add_record("users", &mut payer, required).unwrap(), 2);
    assert_eq!(h.lamports(), lamports_before_second);
    assert_eq!(h.account.data.len(), h.span());

    // A second table: the encoding grows by 8 + 6 bytes to 31.
    let required_two = rent.minimum_balance(31);
    assert_eq!(h.add_record("orders", &mut payer, required_two).unwrap(), 1);
    assert_eq!(h.account.data.len(), 31);
    assert_eq!(h.account.data.len(), h.span());
    assert!(h.lamports() >= required_two);

    assert_eq!(h.get_count("users"), Some(2));
    assert_eq!(h.get_count("orders"), Some(1));

    // Value is conserved: what the payer lost, the account gained.
    assert_eq!(
        payer_before - payer.lamports,
        h.lamports() - account_before
    );
}

#[test]
fn add_record_insufficient_payer_changes_nothing() {
    let pid = program_id_bytes();
    let empty = encode(&NautilusIndexData::default());
    let account = fresh_account(pid.clone(), empty.clone(), 0);
    let mut h = NautilusIndex::load(pid, account).expect("empty map must load");
    let mut payer = Wallet { key: vec![1u8; 32], lamports: 10 };
    let required = 1_000_000;
    match h.add_record("users", &mut payer, required) {
        Err(NautilusError::InsufficientFunds(needed, available)) => {
            assert_eq!(needed, required);
            assert_eq!(available, 10);
        }
        other => panic!("expected InsufficientFunds, got {:?}", other),
    }
    assert_eq!(h.account.data, empty);
    assert_eq!(h.lamports(), 0);
    assert_eq!(payer.lamports, 10);
    assert_eq!(h.get_count("users"), None);
}

#[test]
fn transfer_lamports_moves_and_conserves() {
    let pid = program_id_bytes();
    let empty = encode(&NautilusIndexData::default());
    let account = fresh_account(pid.clone(), empty, 500);
    let mut h = NautilusIndex::load(pid, account).expect("empty map must load");
    let mut to = Wallet { key: vec![2u8; 32], lamports: 40 };
    h.transfer_lamports(&mut to, 300).expect("balance covers the amount");
    assert_eq!(h.lamports(), 200);
    assert_eq!(to.lamports, 340);
    match h.transfer_lamports(&mut to, 201) {
        Err(NautilusError::InsufficientFunds(needed, available)) => {
            assert_eq!(needed, 201);
            assert_eq!(available, 200);
        }
        other => panic!("expected InsufficientFunds, got {:?}", other),
    }
    assert_eq!(h.lamports(), 200);
    assert_eq!(to.lamports, 340);
}

#[test]
fn pda_matches_the_platform_derivation() {
    let pid_bytes = program_id_bytes();
    let pid = Pubkey::new_from_array([7u8; 32]);
    let (expected, expected_bump) =
        Pubkey::find_program_address(&[b"nautilus_index", &[0u8]], &pid);
    let account = fresh_account(pid_bytes.clone(), Vec::new(), 0);
    let h = NautilusIndex::new(pid_bytes, account);
    let (addr, bump) = h.pda().expect("a bump seed exists for this program");
    assert_eq!(addr, expected.to_bytes().to_vec());
    assert_eq!(bump, expected_bump);
    let (seed_a, seed_b) = h.seeds();
    assert_eq!(seed_a, b"nautilus_index".to_vec());
    assert_eq!(seed_b, vec![0u8]);
}

#[test]
fn create_with_payer_births_the_account() {
    let pid_bytes = program_id_bytes();
    let pid = Pubkey::new_from_array([7u8; 32]);
    let (derived, _) = Pubkey::find_program_address(&[b"nautilus_index", &[0u8]], &pid);
    let account = IndexAccount {
        key: derived.to_bytes().to_vec(),
        owner: vec![0u8; 32],
        lamports: 0,
        data: Vec::new(),
        is_signer: false,
        is_writable: true,
    };
    let mut h = NautilusIndex::new(pid_bytes.clone(), account);
    let mut payer = rich_payer();
    let payer_before = payer.lamports;
    let required = Rent::default().minimum_balance(4);
    h.create_with_payer(&mut payer, required).expect("creation must succeed");
    assert_eq!(h.owner().clone(), pid_bytes);
    assert_eq!(h.lamports(), required);
    assert_eq!(h.account.data, vec![0u8, 0, 0, 0]);
    assert_eq!(payer.lamports, payer_before - required);
    assert_eq!(h.get_next_count("users"), 1);

    // The address is now occupied: a second creation must fail.
    match h.create_with_payer(&mut payer, required) {
        Err(NautilusError::AccountAlreadyInUse(addr)) => {
            assert_eq!(addr, derived.to_string());
        }
        other => panic!("expected AccountAlreadyInUse, got {:?}", other),
    }
}

#[test]
fn create_with_payer_rejects_a_wrong_address() {
    let pid_bytes = program_id_bytes();
    let account = fresh_account(vec![0u8; 32], Vec::new(), 0);
    let expected_addr = Pubkey::new_from_array([9u8; 32]).to_string();
    let mut h = NautilusIndex::new(pid_bytes, account);
    let mut payer = rich_payer();
    match h.create_with_payer(&mut payer, 100) {
        Err(NautilusError::InvalidSeeds(addr)) => {
            assert_eq!(addr, expected_addr);
        }
        other => panic!("expected InvalidSeeds, got {:?}", other),
    }
}

#[test]
fn create_with_payer_rejects_a_poor_payer() {
    let pid_bytes = program_id_bytes();
    let pid = Pubkey::new_from_array([7u8; 32]);
    let (derived, _) = Pubkey::find_program_address(&[b"nautilus_index", &[0u8]], &pid);
    let account = IndexAccount {
        key: derived.to_bytes().to_vec(),
        owner: vec![0u8; 32],
        lamports: 0,
        data: Vec::new(),
        is_signer: false,
        is_writable: true,
    };
    let mut h = NautilusIndex::new(pid_bytes, account);
    let mut payer = Wallet { key: vec![1u8; 32], lamports: 5 };
    match h.create_with_payer(&mut payer, 100) {
        Err(NautilusError::InsufficientFunds(needed, available)) => {
            assert_eq!(needed, 100);
            assert_eq!(available, 5);
        }
        other => panic!("expected InsufficientFunds, got {:?}", other),
    }
    assert_eq!(payer.lamports, 5);
    assert_eq!(h.lamports(), 0);
}

#[test]
fn handle_getters_report_the_account() {
    let pid = program_id_bytes();
    let account = IndexAccount {
        key: vec![9u8; 32],
        owner: pid.clone(),
        lamports: 55,
        data: Vec::new(),
        is_signer: true,
        is_writable: false,
    };
    let h = NautilusIndex::new(pid.clone(), account);
    assert_eq!(h.key().clone(), vec![9u8; 32]);
    assert_eq!(h.owner().clone(), pid);
    assert_eq!(h.lamports(), 55);
    assert!(h.is_signer());
    assert!(!h.is_writable());
    assert_eq!(h.primary_key(), vec![0u8]);
}
