use ethereum_snapshot::address::Address;
use ethereum_snapshot::balance::Balance;
use ethereum_snapshot::error::BalanceError;
use ethereum_snapshot::query::{
    balance_requests, balances_of_replies, mapping_total_requests, mapping_totals_of_replies,
    pool_token, query_contract, BALANCE_OF, GET_RESERVES, TOTAL_SUPPLY, USER_INFO,
};
use ethereum_snapshot::rpc::{call_data_text, collect, EthCall, Expected, RpcReply};

fn address(last: u8) -> Address {
    let mut bytes = [0u8; 20];
    bytes[19] = last;
    Address::from_bytes(bytes)
}

fn reply(id: u64, result: &str) -> RpcReply {
    RpcReply { id, result: Some(result.to_string()) }
}

#[test]
fn balance_call_has_selector_and_padded_holder() {
    let token = Address::from_hex("0xd27b7d42d24d8f7c1cf5c46ccd3b986c396fde17").unwrap();
    let holder = Address::from_hex("0x1111111111111111111111111111111111111111").unwrap();
    let calls = balance_requests(&token, &vec![holder], 250);
    assert_eq!(
        calls,
        vec![EthCall {
            id: 1,
            to: "0xd27b7d42d24d8f7c1cf5c46ccd3b986c396fde17".to_string(),
            data: "0x70a082310000000000000000000000001111111111111111111111111111111111111111"
                .to_string(),
            block: "0xfa".to_string(),
        }]
    );
}

#[test]
fn balance_calls_are_numbered_from_one_in_holder_order() {
    let token = address(9);
    let holders = vec![address(0xaa), address(0xbb), address(0xcc)];
    let calls = balance_requests(&token, &holders, 17_000_000);
    assert_eq!(calls.len(), 3);
    for (i, call) in calls.iter().enumerate() {
        assert_eq!(call.id, i as u64 + 1);
        assert_eq!(call.to, "0x0000000000000000000000000000000000000009");
        assert_eq!(call.block, "0x1036640");
        assert_eq!(call.data.len(), 2 + 8 + 64);
    }
    assert!(calls[0].data.ends_with("00aa"));
    assert!(calls[1].data.ends_with("00bb"));
    assert!(calls[2].data.ends_with("00cc"));
}

#[test]
fn no_holder_gives_an_empty_batch() {
    assert_eq!(balance_requests(&address(9), &vec![], 1), Vec::<EthCall>::new());
    assert_eq!(balances_of_replies(0, &vec![]), Ok(vec![]));
}

#[test]
fn staking_call_names_the_pool_and_the_holder() {
    let staking = address(7);
    let calls = mapping_total_requests(&staking, &vec![address(0xaa)], 16);
    assert_eq!(
        calls,
        vec![EthCall {
            id: 1,
            to: "0x0000000000000000000000000000000000000007".to_string(),
            data: "0x93f1a40b\
                0000000000000000000000000000000000000000000000000000000000000040\
                00000000000000000000000000000000000000000000000000000000000000aa"
                .to_string(),
            block: "0x10".to_string(),
        }]
    );
}

#[test]
fn single_calls_have_no_argument_and_the_id_one() {
    let pool = pool_token();
    assert_eq!(pool.to_hex(), "0xd27b7d42d24d8f7c1cf5c46ccd3b986c396fde17");
    assert_eq!(
        query_contract(&pool, 250, &GET_RESERVES),
        EthCall {
            id: 1,
            to: "0xd27b7d42d24d8f7c1cf5c46ccd3b986c396fde17".to_string(),
            data: "0x0902f1ac".to_string(),
            block: "0xfa".to_string(),
        }
    );
    assert_eq!(query_contract(&pool, 0, &TOTAL_SUPPLY).data, "0x18160ddd");
    assert_eq!(query_contract(&pool, 0, &TOTAL_SUPPLY).block, "0x0");
}

#[test]
fn call_data_is_selector_then_arguments() {
    assert_eq!(call_data_text(&BALANCE_OF, &vec![]), "0x70a08231");
    assert_eq!(call_data_text(&BALANCE_OF, &vec![0x00, 0x0f, 0xf0, 0xff]), "0x70a08231000ff0ff");
}

#[test]
fn answers_in_order() {
    let replies = vec![reply(1, "0x1"), reply(2, "0x0"), reply(3, "0xff")];
    assert_eq!(
        balances_of_replies(3, &replies),
        Ok(vec![Balance::from_u64(1), Balance::zero(), Balance::from_u64(255)])
    );
}

#[test]
fn answers_in_reverse_order_go_to_their_holders() {
    let replies = vec![reply(3, "0xff"), reply(2, "0x0"), reply(1, "0x1")];
    assert_eq!(
        balances_of_replies(3, &replies),
        Ok(vec![Balance::from_u64(1), Balance::zero(), Balance::from_u64(255)])
    );
}

#[test]
fn answers_in_any_order_go_to_their_holders() {
    let expected: Vec<Balance> = (1..=6u64).map(|id| Balance::from_u64(id * 100)).collect();
    let orders: [[u64; 6]; 4] =
        [[1, 2, 3, 4, 5, 6], [6, 5, 4, 3, 2, 1], [2, 1, 4, 3, 6, 5], [4, 6, 1, 5, 2, 3]];
    for order in orders {
        let replies: Vec<RpcReply> =
            order.iter().map(|id| reply(*id, &format!("0x{:x}", id * 100))).collect();
        assert_eq!(balances_of_replies(6, &replies), Ok(expected.clone()));
    }
}

#[test]
fn an_answer_that_is_no_number_fails_the_batch() {
    let replies = vec![reply(1, "0x1"), reply(2, "0xzz"), reply(3, "0xff")];
    assert_eq!(balances_of_replies(3, &replies), Err(BalanceError::ParsingError));
}

#[test]
fn an_answer_without_result_fails_the_batch() {
    let replies = vec![reply(1, "0x1"), RpcReply { id: 2, result: None }];
    assert_eq!(balances_of_replies(2, &replies), Err(BalanceError::ParsingError));
}

#[test]
fn a_missing_answer_fails_the_batch() {
    let replies = vec![reply(1, "0x1"), reply(3, "0x3")];
    assert_eq!(balances_of_replies(3, &replies), Err(BalanceError::ParsingError));
    assert_eq!(balances_of_replies(1, &vec![]), Err(BalanceError::ParsingError));
}

#[test]
fn an_id_twice_fails_the_batch() {
    let replies = vec![reply(1, "0x1"), reply(1, "0x1"), reply(2, "0x2")];
    assert_eq!(balances_of_replies(2, &replies), Err(BalanceError::ParsingError));
    assert_eq!(balances_of_replies(3, &replies), Err(BalanceError::ParsingError));
}

#[test]
fn an_unknown_id_fails_the_batch() {
    assert_eq!(
        balances_of_replies(2, &vec![reply(0, "0x1"), reply(1, "0x1"), reply(2, "0x2")]),
        Err(BalanceError::ParsingError)
    );
    assert_eq!(
        balances_of_replies(2, &vec![reply(1, "0x1"), reply(2, "0x2"), reply(3, "0x3")]),
        Err(BalanceError::ParsingError)
    );
    assert_eq!(
        balances_of_replies(1, &vec![reply(u64::MAX, "0x1")]),
        Err(BalanceError::ParsingError)
    );
}

#[test]
fn staking_answers_are_read_by_their_first_word() {
    let word = |n: u64| format!("0x{:064x}{:064x}", n, 77);
    let replies = vec![reply(2, &word(20)), reply(1, &word(10))];
    assert_eq!(
        mapping_totals_of_replies(2, &replies),
        Ok(vec![Balance::from_u64(10), Balance::from_u64(20)])
    );
    assert_eq!(
        mapping_totals_of_replies(1, &vec![reply(1, "0xa")]),
        Err(BalanceError::ParsingError)
    );
    assert_eq!(
        collect(1, &vec![reply(1, "0xa")], Expected::Quantity),
        Ok(vec![Balance::from_u64(10)])
    );
}

#[test]
fn selectors_are_the_hashes_of_the_signatures() {
    let selector = |signature: &str| {
        let hash = ethers::utils::keccak256(signature.as_bytes());
        [hash[0], hash[1], hash[2], hash[3]]
    };
    assert_eq!(BALANCE_OF, selector("balanceOf(address)"));
    assert_eq!(GET_RESERVES, selector("getReserves()"));
    assert_eq!(TOTAL_SUPPLY, selector("totalSupply()"));
    assert_eq!(USER_INFO, selector("userInfo(uint256,address)"));
}

#[test]
fn more_or_fewer_answers_than_calls_fail_the_batch() {
    assert_eq!(balances_of_replies(0, &vec![reply(1, "0x1")]), Err(BalanceError::ParsingError));
    assert_eq!(balances_of_replies(2, &vec![reply(1, "0x1")]), Err(BalanceError::ParsingError));
    assert_eq!(
        balances_of_replies(usize::MAX, &vec![reply(1, "0x1")]),
        Err(BalanceError::ParsingError)
    );
}
