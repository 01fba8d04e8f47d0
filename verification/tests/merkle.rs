//! Merkle branches and block context.

use sha2::Digest;
use zns_resolver::merkle::{
    merkle_branch, merkle_fold, merkle_root, parse_header, parse_txids, trim, BlockContext,
    ContextError,
};

fn txids(n: usize) -> Vec<[u8; 32]> {
    (0..n).map(|i| [i as u8; 32]).collect()
}

/// The branch and the fold must agree for every leaf of every tree shape,
/// including odd levels (duplicated last element).
#[test]
fn branch_round_trips_through_kernel_fold() {
    for n in 1..=8 {
        let ids = txids(n);
        let root = merkle_root(&ids);
        for (i, id) in ids.iter().enumerate() {
            let branch = merkle_branch(&ids, i);
            assert_eq!(merkle_fold(*id, &branch, i as u32), root, "n={n} leaf={i}");
        }
    }
}

#[test]
fn wrong_leaf_does_not_fold_to_root() {
    let ids = txids(4);
    let root = merkle_root(&ids);
    let branch = merkle_branch(&ids, 2);
    assert_ne!(merkle_fold([0xff; 32], &branch, 2), root);
    // Right leaf, wrong position.
    assert_ne!(merkle_fold(ids[2], &branch, 3), root);
}

#[test]
fn a_parent_is_the_double_hash_of_its_children() {
    let ids = txids(2);
    let mut joined = ids[0].to_vec();
    joined.extend_from_slice(&ids[1]);
    let once = sha2::Sha256::digest(&joined);
    let twice: [u8; 32] = sha2::Sha256::digest(once).into();
    assert_eq!(merkle_root(&ids), twice);
    assert_eq!(merkle_branch(&ids, 0), vec![ids[1]]);
    // An odd last leaf is its own sibling.
    assert_eq!(merkle_branch(&txids(3), 2)[0], [2u8; 32]);
    assert!(merkle_branch(&txids(1), 0).is_empty());
}

fn list(items: &[&str]) -> Option<Vec<Option<String>>> {
    Some(items.iter().map(|s| Some(s.to_string())).collect())
}

#[test]
fn displayed_txids_are_read_reversed() {
    let shown = format!("2a{}01", "00".repeat(30));
    let read = parse_txids(&list(&[&shown])).ok().unwrap();
    assert_eq!(read[0][0], 0x01);
    assert_eq!(read[0][31], 0x2a);
    assert_eq!(parse_txids(&list(&[])).ok().unwrap().len(), 0);
}

#[test]
fn each_malformed_answer_has_its_error() {
    assert!(matches!(parse_txids(&None), Err(ContextError::NoTxList)));
    assert!(matches!(parse_txids(&Some(vec![None])), Err(ContextError::NonStringTxid)));
    assert!(matches!(parse_txids(&list(&["zz"])), Err(ContextError::TxidHex)));
    assert!(matches!(parse_txids(&list(&["00ff"])), Err(ContextError::TxidLength)));
    assert!(matches!(parse_header("0g"), Err(ContextError::RawHex)));
    assert!(matches!(parse_header("00"), Err(ContextError::Header)));
    assert!(matches!(
        BlockContext::from_answers(&None, ""),
        Err(ContextError::NoTxList)
    ));
    assert!(matches!(
        BlockContext::from_answers(&list(&[]), "00"),
        Err(ContextError::Header)
    ));
}

/// A header is the block's first bytes: 140 fixed ones, the solution's length
/// and the solution.
fn raw_block() -> Vec<u8> {
    let mut raw = vec![0u8; 140];
    raw[0] = 4;
    raw.extend_from_slice(&[0xfd, 0x40, 0x05]);
    raw.extend_from_slice(&[7u8; 1344]);
    raw
}

#[test]
fn a_header_is_cut_from_the_raw_block() {
    let header = raw_block();
    let mut raw = header.clone();
    raw.extend_from_slice(&[1, 2, 3]);
    let text: String = raw.iter().map(|b| format!("{b:02x}")).collect();
    let padded = format!(" \n{text}\t");
    assert_eq!(parse_header(&padded).ok().unwrap(), header);

    let context = BlockContext::from_answers(&list(&["11".repeat(32).as_str()]), &text).ok().unwrap();
    assert_eq!(context.header, header);
    assert_eq!(context.txids, vec![[0x11; 32]]);
}

#[test]
fn a_header_s_length_prefix_is_in_its_shortest_form() {
    let with = |prefix: &[u8], solution: usize| {
        let mut raw = vec![1u8; 140];
        raw.extend_from_slice(prefix);
        raw.extend(vec![7u8; solution]);
        raw
    };
    let read = |raw: &[u8]| {
        let text: String = raw.iter().map(|b| format!("{b:02x}")).collect();
        parse_header(&text)
    };
    for (prefix, solution) in [
        (&[0u8][..], 0),
        (&[252][..], 252),
        (&[253, 253, 0][..], 253),
        (&[254, 0, 0, 1, 0][..], 0x1_0000),
    ] {
        let header = with(prefix, solution);
        assert_eq!(read(&header).ok().unwrap(), header);
        let mut longer = header.clone();
        longer.push(9);
        assert_eq!(read(&longer).ok().unwrap(), header);
        assert!(matches!(read(&header[..header.len() - 1]), Err(ContextError::Header)));
    }
    for prefix in [&[253u8, 252, 0][..], &[254, 0xff, 0xff, 0, 0][..], &[255; 9][..], &[253, 1][..]] {
        assert!(matches!(read(&with(prefix, 300)), Err(ContextError::Header)));
    }
}

#[test]
fn text_is_trimmed_at_both_ends() {
    assert_eq!(trim("  a b\u{a0}\n"), "a b");
    assert_eq!(trim("\u{3000}"), "");
    assert_eq!(trim("x"), "x");
}
