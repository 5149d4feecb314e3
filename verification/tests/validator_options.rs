use agave::pubkey::Pubkey;
use agave::validator_options::{
    parse_account_index, process_account_indexes, validators_set, AccountIndex, IdentityInValidatorsSet,
};

fn key(n: u8) -> Pubkey {
    let mut bytes = [0u8; 32];
    bytes[0] = n;
    Pubkey(bytes)
}

fn sorted<T: Ord + Clone>(v: &[T]) -> Vec<T> {
    let mut v = v.to_vec();
    v.sort();
    v
}

#[test]
fn index_names_parse() {
    assert_eq!(parse_account_index("program-id"), AccountIndex::ProgramId);
    assert_eq!(parse_account_index("spl-token-mint"), AccountIndex::SplTokenMint);
    assert_eq!(parse_account_index("spl-token-owner"), AccountIndex::SplTokenOwner);
}

#[test]
fn no_indexes_means_no_keys() {
    let r = process_account_indexes(&[], &[key(1)], &[key(2)]);
    assert!(r.indexes.is_empty());
    assert_eq!(r.keys, None);
}

#[test]
fn indexes_without_keys_cover_everything() {
    let r = process_account_indexes(&["program-id", "spl-token-mint", "program-id"], &[], &[]);
    assert_eq!(r.indexes.len(), 2);
    assert!(r.indexes.contains(&AccountIndex::ProgramId));
    assert!(r.indexes.contains(&AccountIndex::SplTokenMint));
    assert_eq!(r.keys, None);
}

#[test]
fn excluded_keys_win_over_included_ones() {
    let r = process_account_indexes(&["spl-token-owner"], &[key(1)], &[key(2), key(3), key(2)]);
    assert_eq!(r.indexes, vec![AccountIndex::SplTokenOwner]);
    let k = r.keys.unwrap();
    assert!(k.exclude);
    assert_eq!(sorted(&k.keys.iter().map(|p| p.0).collect::<Vec<_>>()), vec![key(2).0, key(3).0]);
}

#[test]
fn included_keys_alone() {
    let r = process_account_indexes(&["program-id"], &[key(1), key(1), key(4)], &[]);
    let k = r.keys.unwrap();
    assert!(!k.exclude);
    assert_eq!(k.keys, vec![key(1), key(4)]);
}

#[test]
fn validators_set_refuses_own_identity() {
    let me = key(9);
    assert_eq!(validators_set(&me, None), Ok(None));
    assert_eq!(validators_set(&me, Some(&[key(1), me])), Err(IdentityInValidatorsSet));
    assert_eq!(validators_set(&me, Some(&[key(1), key(2), key(1)])), Ok(Some(vec![key(1), key(2)])));
    assert_eq!(validators_set(&me, Some(&[])), Ok(Some(vec![])));
}
