use divtokens::dap::client::{decode_scalar, Client};
use divtokens::dap::messages::{IssueRequest, IssueResponse, RedeemRequest};
use divtokens::dap::plan::CoinSpec;
use divtokens::dap::relation::{root_relation, spend_relation};
use divtokens::dap::server::{decode_field, DapError, Server};
use divtokens::dap::spent::SpentIndex;
use divtokens::dap::types::{
    Coin, SchnorrSig, DEFAULT_LEAF, HEIGHT, POSEIDON_EXP, POSEIDON_WIDTH, PP,
};
use divtokens::field::fp::Fp;
use divtokens::field::fp_ed::FpEd;
use divtokens::ggm::{u16_to_bv, GGM};
use divtokens::merkle_tree::SparseMerkleTree;
use divtokens::poseidon::{setup_params, Curve, Poseidon};
use divtokens::schnorr::{Schnorr, SecretKey, Signature, SignatureScheme};
use rand::Rng;

const L: usize = 12;

fn parameters(height: usize) -> (PP, SecretKey) {
    let sig_params = Schnorr::setup();
    let (pk, sk) = Schnorr::keygen(&sig_params);
    let params = setup_params(Curve::Bls381, POSEIDON_EXP, POSEIDON_WIDTH).unwrap();
    let hasher = Poseidon::new(params);
    let groth_pks = vec![vec![]; height + 1];
    (
        PP {
            sig_params,
            hasher,
            pk,
            groth_pks,
        },
        sk,
    )
}

fn server(height: usize) -> Server {
    let (pp, sk) = parameters(height);
    Server::new(pp, sk, vec![vec![]; height + 1])
}

// The coin of the node at depth `denom` with the given index in the wallet
// of `seed`, as an honest client makes it.
fn coin(seed: &[u8; 32], height: usize, denom: u8, index: u16) -> Coin {
    let ggm = GGM::new();
    let key = ggm.eval(seed, &u16_to_bv(index, denom as usize));
    let first = ggm.expand(&key, (height - denom as usize) as u8)[0];
    Coin {
        denom,
        key,
        instance_bytes: Fp::from_le_bytes_mod_order(&first).serialize(),
        proof_bytes: vec![],
    }
}

fn accepted(count: usize) -> Vec<Option<bool>> {
    vec![Some(true); count]
}

fn leaf(seed: &[u8; 32], height: usize, i: usize) -> Fp {
    Fp::from_le_bytes_mod_order(&GGM::new().expand(seed, height as u8)[i])
}

#[test]
fn constants() {
    assert_eq!(DEFAULT_LEAF, [0u8; 32]);
    assert_eq!(POSEIDON_EXP, 3);
    assert_eq!(POSEIDON_WIDTH, 3);
    assert_eq!(HEIGHT, 12);
}

#[test]
fn e2e_dap() {
    // Start server
    let mut server = server(4);

    // Start client
    let mut client = Client::new(server.pp.clone());

    // Client makes issue request
    let issue_request = client.issue_request();

    // Server signs issue request and returns issue response
    let issue_response = server.issue(issue_request).unwrap();

    // Client processes issue response
    assert_eq!(client.issue_process(issue_response), Ok(()));

    // Client cuts coins out, with a placeholder where the proof goes
    let witnesses = client.redeem_plan(5).unwrap();
    for w in witnesses.iter() {
        let coin = w.into_coin(vec![1, 2, 3]);
        client.store_coin(coin);
    }

    // Client makes redeem request
    let redeem_request = client.redeem_request(5).unwrap();
    assert_eq!(redeem_request.coins.len(), 2);

    // Server checks validity of coins: the placeholders are no proofs
    let verdicts = server.check_proofs(&redeem_request.coins);
    assert_eq!(verdicts, vec![None, None]);
    assert!(!server.redeem(redeem_request.clone()).valid);

    // with the verifier's consent the bundle settles, once
    assert!(server.settle(&redeem_request.coins, &accepted(2)));
    assert!(!server.settle(&redeem_request.coins, &accepted(2)));
}

#[test]
fn issue_round_trip() {
    let server = server(3);
    let mut client = Client::new(server.pp.clone());
    let request = client.issue_request();
    assert_eq!(request.com, client.wallet[0].com.serialize());
    assert!(client.wallet[0].sig.is_none());
    let response = server.issue(request).unwrap();
    assert_eq!(client.issue_process(response.clone()), Ok(()));
    let sig = client.wallet[0].sig.unwrap();
    assert_eq!(sig.verifier_challenge, response.sig.verifier_challenge);
    assert_eq!(sig.prover_response.serialize(), response.sig.prover_response);
    assert!(Schnorr::verify(
        &client.pp.sig_params,
        &client.pp.pk,
        &client.wallet[0].com,
        &sig
    ));
}

#[test]
fn wallet_is_what_its_seed_gives() {
    let (pp, _) = parameters(3);
    let mut client = Client::new(pp);
    let seed = [5u8; 32];
    let open = Fp::from_le_bytes_mod_order(&[8, 8, 8]);
    let request = client.issue_request_with(seed, open);
    let entry = &client.wallet[0];
    assert_eq!(entry.key, seed);
    assert_eq!(entry.open, open);
    assert_eq!(entry.free, vec![Some(0), None, None, None]);
    assert_eq!(entry.leaves.len(), 8);
    for i in 0..8 {
        assert_eq!(entry.leaves[i], leaf(&seed, 3, i));
    }
    let smt = SparseMerkleTree::new_sequential(&entry.leaves, &client.pp.hasher).unwrap();
    assert_eq!(entry.root, smt.root());
    assert_eq!(entry.smt.tree, smt.tree);
    assert_eq!(
        entry.com,
        client.pp.hasher.hash(&[entry.root, open]).unwrap()
    );
    assert_eq!(request.com, entry.com.serialize());
    assert_ne!(entry.com, entry.root);
    // a second wallet comes behind the first
    client.issue_request();
    assert_eq!(client.wallet.len(), 2);
    assert_eq!(client.wallet[0].key, seed);
    assert_ne!(client.wallet[1].key, seed);
}

#[test]
fn malformed_issue_request() {
    let server = server(2);
    assert_eq!(
        server.issue(IssueRequest { com: vec![] }).err(),
        Some(DapError::Malformed)
    );
    assert_eq!(
        server.issue(IssueRequest { com: vec![0; 31] }).err(),
        Some(DapError::Malformed)
    );
    assert_eq!(
        server.issue(IssueRequest { com: vec![0; 33] }).err(),
        Some(DapError::Malformed)
    );
    assert_eq!(
        server.issue(IssueRequest { com: vec![0xff; 32] }).err(),
        Some(DapError::Malformed)
    );
    assert!(server.issue(IssueRequest { com: vec![0; 32] }).is_ok());
}

#[test]
fn issue_signs_the_commitment() {
    let server = server(2);
    let com = Fp::from_le_bytes_mod_order(&[1, 2, 3]);
    let response = server
        .issue(IssueRequest {
            com: com.serialize(),
        })
        .unwrap();
    let sig = Signature {
        prover_response: decode_scalar(&response.sig.prover_response).unwrap(),
        verifier_challenge: response.sig.verifier_challenge,
    };
    assert!(Schnorr::verify(
        &server.pp.sig_params,
        &server.pp.pk,
        &com,
        &sig
    ));
    assert!(!Schnorr::verify(
        &server.pp.sig_params,
        &server.pp.pk,
        &Fp::one(),
        &sig
    ));
}

#[test]
fn bad_issue_responses() {
    let server = server(2);
    let mut client = Client::new(server.pp.clone());
    let request = client.issue_request();
    let good = server.issue(request).unwrap();

    let malformed = IssueResponse {
        sig: SchnorrSig {
            prover_response: vec![0xff; 32],
            verifier_challenge: good.sig.verifier_challenge,
        },
    };
    assert_eq!(client.issue_process(malformed), Err(DapError::Malformed));
    assert_eq!(client.wallet.len(), 1);
    assert!(client.wallet[0].sig.is_none());
    let short = IssueResponse {
        sig: SchnorrSig {
            prover_response: vec![0; 5],
            verifier_challenge: good.sig.verifier_challenge,
        },
    };
    assert_eq!(client.issue_process(short), Err(DapError::Malformed));
    assert_eq!(client.wallet.len(), 1);

    // a signature on another commitment throws the wallet away
    let other = server
        .issue(IssueRequest {
            com: Fp::one().serialize(),
        })
        .unwrap();
    client.issue_request();
    assert_eq!(client.wallet.len(), 2);
    let second_seed = client.wallet[1].key;
    assert_eq!(
        client.issue_process(other),
        Err(DapError::InvalidSignature)
    );
    assert_eq!(client.wallet.len(), 1);
    assert_eq!(client.wallet[0].key, second_seed);
}

#[test]
fn decoding() {
    assert!(decode_field(&vec![0; 32]).is_some());
    assert!(decode_field(&vec![0; 33]).is_none());
    assert!(decode_field(&vec![0xff; 32]).is_none());
    assert_eq!(
        decode_field(&Fp::one().serialize()),
        Some(Fp::one())
    );
    let three = FpEd::from_le_bytes_mod_order(&[3]);
    assert_eq!(decode_scalar(&three.serialize()), Some(three));
    assert!(decode_scalar(&vec![0; 31]).is_none());
    assert!(decode_scalar(&vec![0xff; 32]).is_none());
}

#[test]
fn one_leaf_is_accepted() {
    let mut server = server(L);
    let seed = rand::thread_rng().gen::<[u8; 32]>();
    let ggm = GGM::new();
    let first = leaf(&seed, L, 0);
    let coin = Coin {
        denom: L as u8,
        key: ggm.eval(&seed, &u16_to_bv(0, L)),
        instance_bytes: first.serialize(),
        proof_bytes: vec![],
    };
    assert!(server.settle(&vec![coin], &accepted(1)));
    assert!(server.spent.contains(&first));
    assert!(!server.spent.contains(&leaf(&seed, L, 1)));
}

#[test]
fn the_same_coin_twice_is_refused() {
    let mut server = server(L);
    let seed = rand::thread_rng().gen::<[u8; 32]>();
    let coin = coin(&seed, L, L as u8, 0);
    assert!(server.settle(&vec![coin.clone()], &accepted(1)));
    assert!(!server.settle(&vec![coin.clone()], &accepted(1)));
    // and twice in one bundle
    let other = coin_at(&seed, 1);
    assert!(!server.settle(&vec![other.clone(), other.clone()], &accepted(2)));
    assert!(!server.spent.contains(&leaf(&seed, L, 1)));
    assert!(server.settle(&vec![other], &accepted(1)));
}

fn coin_at(seed: &[u8; 32], index: u16) -> Coin {
    coin(seed, L, L as u8, index)
}

#[test]
fn twelve_coins_make_4095() {
    let mut server = server(L);
    let mut client = Client::new(server.pp.clone());
    client.issue_request();
    let seed = client.wallet[0].key;
    let witnesses = client.redeem_plan(4095).unwrap();
    assert_eq!(witnesses.len(), 12);
    for (k, w) in witnesses.iter().enumerate() {
        // denominations 2^11 down to 2^0, from the left
        assert_eq!(w.spec.denom as usize, k + 1);
        assert_eq!(w.spec.index as usize, (1 << (k + 1)) - 2);
        let coin = w.into_coin(vec![k as u8]);
        assert_eq!(coin.denom, coin_like(&seed, &w.spec).denom);
        assert_eq!(coin.key, coin_like(&seed, &w.spec).key);
        assert_eq!(coin.instance_bytes, coin_like(&seed, &w.spec).instance_bytes);
        client.store_coin(coin);
    }
    // the plan changed nothing
    assert_eq!(client.wallet[0].free[0], Some(0));
    let coins = client.redeem_request(4095).unwrap().coins;
    assert_eq!(coins.len(), 12);
    assert_eq!(coins, client.wallet[0].coins);
    assert!(server.settle(&coins, &accepted(12)));
    let all = GGM::new().expand(&seed, L as u8);
    let recorded = all
        .iter()
        .filter(|b| server.spent.contains(&Fp::from_le_bytes_mod_order(&b[..])))
        .count();
    assert_eq!(recorded, 4095);
    assert!(!server.spent.contains(&leaf(&seed, L, 4095)));
    // one leaf is left, and no more
    let mut left = vec![None; L + 1];
    left[L] = Some(4095);
    assert_eq!(client.wallet[0].free, left);
    assert!(client.redeem_plan(2).is_none());
    let last = client.redeem_plan(1).unwrap();
    assert_eq!(last[0].spec, CoinSpec { denom: 12, index: 4095 });
    assert!(client.redeem_request(1).is_none());
    client.store_coin(last[0].into_coin(vec![]));
    assert_eq!(client.redeem_request(1).unwrap().coins.len(), 1);
    assert!(client.redeem_plan(1).is_none());
    assert_eq!(client.wallet[0].free, vec![None; L + 1]);
}

fn coin_like(seed: &[u8; 32], spec: &CoinSpec) -> Coin {
    coin(seed, L, spec.denom, spec.index as u16)
}

#[test]
fn a_subtree_over_spent_leaves_is_refused() {
    let mut server = server(L);
    let seed = rand::thread_rng().gen::<[u8; 32]>();
    let two = vec![coin_at(&seed, 0), coin_at(&seed, 1)];
    assert!(server.settle(&two, &accepted(2)));
    let above = coin(&seed, L, (L - 1) as u8, 0);
    assert!(!server.settle(&vec![above], &accepted(1)));
    // the refused subtree left nothing behind: its neighbour still settles
    let beside = coin(&seed, L, (L - 1) as u8, 1);
    assert!(server.settle(&vec![beside], &accepted(1)));
    assert!(server.spent.contains(&leaf(&seed, L, 2)));
    assert!(server.spent.contains(&leaf(&seed, L, 3)));
    assert!(!server.spent.contains(&leaf(&seed, L, 4)));
}

#[test]
fn a_tampered_instance_is_refused() {
    let mut server = server(L);
    let seed = rand::thread_rng().gen::<[u8; 32]>();
    let mut coin = coin_at(&seed, 0);
    coin.instance_bytes = leaf(&seed, L, 1).serialize();
    assert!(!server.settle(&vec![coin.clone()], &accepted(1)));
    assert!(!server.redeem(RedeemRequest { coins: vec![coin] }).valid);
    assert!(!server.spent.contains(&leaf(&seed, L, 0)));
    assert!(!server.spent.contains(&leaf(&seed, L, 1)));
}

#[test]
fn of_two_redeems_of_one_coin_one_is_accepted() {
    let server = std::sync::Mutex::new(server(L));
    let seed = rand::thread_rng().gen::<[u8; 32]>();
    let coin = coin_at(&seed, 7);
    let outcomes: Vec<bool> = (0..2)
        .map(|_| {
            let mut guard = server.lock().unwrap();
            guard.settle(&vec![coin.clone()], &accepted(1))
        })
        .collect();
    assert_eq!(outcomes.iter().filter(|v| **v).count(), 1);
}

#[test]
fn bundles_that_share_a_leaf_in_either_order() {
    let seed = rand::thread_rng().gen::<[u8; 32]>();
    let a = vec![coin(&seed, 4, 2, 0)];
    let b = vec![coin(&seed, 4, 4, 3), coin(&seed, 4, 4, 5)];
    let between = vec![coin(&seed, 4, 1, 1)];
    let mut first = server(4);
    assert!(first.settle(&a, &accepted(1)));
    assert!(first.settle(&between, &accepted(1)));
    assert!(!first.settle(&b, &accepted(2)));
    let mut second = server(4);
    assert!(second.settle(&b, &accepted(2)));
    assert!(second.settle(&between, &accepted(1)));
    assert!(!second.settle(&a, &accepted(1)));
}

#[test]
fn a_wallet_is_worth_its_leaves_and_no_more() {
    let mut server = server(3);
    let seed = rand::thread_rng().gen::<[u8; 32]>();
    let mut total = 0;
    for denom in 0..=3u8 {
        for index in 0..(1u16 << denom) {
            let c = coin(&seed, 3, denom, index);
            if server.settle(&vec![c], &accepted(1)) {
                total += 1 << (3 - denom);
            }
        }
    }
    assert_eq!(total, 8);
    let mut server = self::server(3);
    let mut total = 0;
    for denom in (0..=3u8).rev() {
        for index in 0..(1u16 << denom) {
            let c = coin(&seed, 3, denom, index);
            if server.settle(&vec![c], &accepted(1)) {
                total += 1 << (3 - denom);
            }
        }
    }
    assert_eq!(total, 8);
}

#[test]
fn refusals_of_single_coins() {
    let mut server = server(3);
    let seed = [4u8; 32];
    let good = coin(&seed, 3, 2, 1);
    // what the verifier did not accept
    assert!(!server.settle(&vec![good.clone()], &vec![Some(false)]));
    assert!(!server.settle(&vec![good.clone()], &vec![None]));
    // verdicts that are not one for each coin
    assert!(!server.settle(&vec![good.clone()], &vec![]));
    assert!(!server.settle(&vec![good.clone()], &accepted(2)));
    // a depth below the wallet
    let mut deep = good.clone();
    deep.denom = 4;
    assert!(!server.settle(&vec![deep], &accepted(1)));
    // an instance that is no field element
    let mut odd = good.clone();
    odd.instance_bytes = vec![0xff; 32];
    assert!(!server.settle(&vec![odd], &accepted(1)));
    let mut long = good.clone();
    long.instance_bytes.push(0);
    assert!(!server.settle(&vec![long], &accepted(1)));
    // a depth that the key was not made for
    let mut shallow = good.clone();
    shallow.denom = 1;
    assert!(!server.settle(&vec![shallow], &accepted(1)));
    // a good coin behind a bad one is not recorded
    let bad = coin(&[5u8; 32], 3, 3, 0);
    assert!(!server.settle(&vec![good.clone(), bad], &vec![Some(true), Some(false)]));
    assert!(!server.spent.contains(&leaf(&seed, 3, 2)));
    // nothing of all this was recorded
    assert!(server.settle(&vec![good], &accepted(1)));
    assert!(server.spent.contains(&leaf(&seed, 3, 2)));
    assert!(server.spent.contains(&leaf(&seed, 3, 3)));
    // the empty bundle settles and records nothing
    assert!(server.settle(&vec![], &vec![]));
}

#[test]
fn the_whole_wallet_as_one_coin() {
    let mut server = server(3);
    let seed = [6u8; 32];
    let whole = Coin {
        denom: 0,
        key: seed,
        instance_bytes: leaf(&seed, 3, 0).serialize(),
        proof_bytes: vec![],
    };
    assert_eq!(whole, coin(&seed, 3, 0, 0));
    assert!(server.settle(&vec![whole], &accepted(1)));
    for i in 0..8 {
        assert!(server.spent.contains(&leaf(&seed, 3, i)));
    }
}

#[test]
fn spent_index() {
    let mut index = SpentIndex::new();
    let a = Fp::from_le_bytes_mod_order(&[1]);
    let mut high = [0u8; 32];
    high[16] = 1;
    let b = Fp::from_le_bytes_mod_order(&high);
    assert!(!index.contains(&a));
    index.insert(&a);
    assert!(index.contains(&a));
    assert!(!index.contains(&b));
    assert!(!index.contains(&Fp::zero()));
    index.insert(&b);
    index.insert(&a);
    assert!(index.contains(&a));
    assert!(index.contains(&b));
}

fn spend(client: &mut Client, n: u16) -> Option<Vec<CoinSpec>> {
    let witnesses = client.redeem_plan(n)?;
    for w in witnesses.iter() {
        client.store_coin(w.into_coin(vec![n as u8]));
    }
    let request = client.redeem_request(n).unwrap();
    assert_eq!(request.coins.len(), witnesses.len());
    Some(witnesses.iter().map(|w| w.spec).collect())
}

#[test]
fn witnesses_are_those_of_the_wallet() {
    let (pp, _) = parameters(4);
    let mut client = Client::new(pp);
    client.issue_request();
    let seed = client.wallet[0].key;
    let root = client.wallet[0].root;
    assert_eq!(client.redeem_plan(0).unwrap().len(), 0);
    assert!(client.redeem_request(0).is_none());
    assert!(client.redeem_plan(17).is_none());
    let witnesses = client.redeem_plan(6).unwrap();
    assert_eq!(client.wallet[0].free, vec![Some(0), None, None, None, None]);
    let specs: Vec<CoinSpec> = witnesses.iter().map(|w| w.spec).collect();
    assert_eq!(
        specs,
        vec![CoinSpec { denom: 2, index: 0 }, CoinSpec { denom: 3, index: 2 }]
    );
    let ggm = GGM::new();
    let all = ggm.expand(&seed, 4);
    for w in witnesses.iter() {
        let rest = 4 - w.spec.denom;
        let first = (w.spec.index as usize) << rest;
        assert_eq!(
            w.key,
            ggm.eval(&seed, &u16_to_bv(w.spec.index as u16, w.spec.denom as usize))
        );
        assert_eq!(w.instance, Fp::from_le_bytes_mod_order(&all[first]));
        assert_eq!(w.path.path.len(), 4);
        assert_eq!(
            w.path.check_membership(&root, &w.instance, &client.pp.hasher),
            Ok(true)
        );
        let coin = w.into_coin(vec![9]);
        assert_eq!(coin.denom, w.spec.denom);
        assert_eq!(coin.key, w.key);
        assert_eq!(coin.instance_bytes, w.instance.serialize());
        assert_eq!(coin.proof_bytes, vec![9]);
    }
}

#[test]
fn a_value_is_cut_as_its_binary_digits() {
    let (pp, _) = parameters(4);
    let mut client = Client::new(pp);
    client.issue_request();
    // 6 = 4 + 2 from the whole wallet
    assert_eq!(
        spend(&mut client, 6).unwrap(),
        vec![CoinSpec { denom: 2, index: 0 }, CoinSpec { denom: 3, index: 2 }]
    );
    assert_eq!(
        client.wallet[0].free,
        vec![None, Some(1), None, Some(3), None]
    );
    // one leaf after that: out of the smallest node that is left
    assert_eq!(
        spend(&mut client, 1).unwrap(),
        vec![CoinSpec { denom: 4, index: 6 }]
    );
    // two leaves are one node still, though the leaves cut so far end at an
    // odd leaf: the node is taken from where one is left
    assert_eq!(
        spend(&mut client, 2).unwrap(),
        vec![CoinSpec { denom: 3, index: 4 }]
    );
    assert_eq!(
        client.wallet[0].free,
        vec![None, None, Some(3), Some(5), Some(7)]
    );
    // 7 leaves are left: 8 cannot be cut, 5 = 4 + 1 can
    assert!(client.redeem_plan(8).is_none());
    assert_eq!(
        spend(&mut client, 5).unwrap(),
        vec![CoinSpec { denom: 2, index: 3 }, CoinSpec { denom: 4, index: 7 }]
    );
    assert_eq!(client.wallet[0].free, vec![None, None, None, Some(5), None]);
    assert!(client.redeem_plan(3).is_none());
    assert_eq!(
        spend(&mut client, 2).unwrap(),
        vec![CoinSpec { denom: 3, index: 5 }]
    );
    assert!(client.redeem_plan(1).is_none());
    assert_eq!(client.wallet[0].free, vec![None; 5]);
    // every value has as many coins as binary digits set
    for n in 1..=16u16 {
        let (pp, _) = parameters(4);
        let mut client = Client::new(pp);
        client.issue_request();
        let nodes = spend(&mut client, n).unwrap();
        assert_eq!(nodes.len() as u32, n.count_ones());
        let worth: u16 = nodes.iter().map(|s| 1u16 << (4 - s.denom)).sum();
        assert_eq!(worth, n);
    }
}

#[test]
fn a_request_takes_its_proofs_from_the_coins_kept() {
    let (pp, _) = parameters(4);
    let mut client = Client::new(pp);
    client.issue_request();
    let seed = client.wallet[0].key;
    // no proof is kept: nothing is handed in and nothing is cut
    assert!(client.redeem_request(5).is_none());
    assert_eq!(client.wallet[0].free, vec![Some(0), None, None, None, None]);
    let witnesses = client.redeem_plan(5).unwrap();
    let first = witnesses[0].into_coin(vec![1]);
    let second = witnesses[1].into_coin(vec![2]);
    client.store_coin(first.clone());
    // one of two proofs is not enough
    assert!(client.redeem_request(5).is_none());
    // a coin of another node, of another wallet or with another instance is
    // no proof for this one
    client.store_coin(coin(&seed, 4, 4, 7));
    client.store_coin(coin(&[1u8; 32], 4, 4, 4));
    let mut odd = second.clone();
    odd.instance_bytes = Fp::one().serialize();
    client.store_coin(odd);
    assert!(client.redeem_request(5).is_none());
    assert_eq!(client.wallet[0].free, vec![Some(0), None, None, None, None]);
    // the first coin kept for the node gives the proof
    client.store_coin(second.clone());
    let mut later = second.clone();
    later.proof_bytes = vec![3];
    client.store_coin(later);
    let request = client.redeem_request(5).unwrap();
    assert_eq!(request.coins, vec![first, second]);
    assert_eq!(request.coins[0].denom, 2);
    assert_eq!(request.coins[1].denom, 4);
    assert_eq!(
        request.coins[1].key,
        GGM::new().eval(&seed, &u16_to_bv(4, 4))
    );
    assert_eq!(request.coins[1].instance_bytes, leaf(&seed, 4, 4).serialize());
    assert_eq!(
        client.wallet[0].free,
        vec![None, Some(1), None, Some(3), Some(5)]
    );
    // the same value again is cut out of what is left
    assert!(client.redeem_request(5).is_none());
    let again = client.redeem_plan(5).unwrap();
    assert_eq!(again[0].spec, CoinSpec { denom: 2, index: 2 });
    assert_eq!(again[1].spec, CoinSpec { denom: 4, index: 5 });
}

#[test]
fn a_single_leaf_of_a_fresh_wallet() {
    let (pp, _) = parameters(L);
    let mut client = Client::new(pp);
    client.issue_request();
    let seed = client.wallet[0].key;
    let w = client.redeem_plan(1).unwrap().remove(0);
    client.store_coin(w.into_coin(vec![7]));
    let request = client.redeem_request(1).unwrap();
    assert_eq!(request.coins.len(), 1);
    assert_eq!(request.coins[0].denom, 12);
    assert_eq!(
        request.coins[0].key,
        GGM::new().eval(&seed, &u16_to_bv(0, 12))
    );
    assert_eq!(
        request.coins[0].instance_bytes,
        client.wallet[0].leaves[0].serialize()
    );
    assert_eq!(request.coins[0].proof_bytes, vec![7]);
}

#[test]
fn a_signed_wallet_satisfies_the_relation_of_its_coins() {
    let server = server(3);
    let mut client = Client::new(server.pp.clone());
    let request = client.issue_request();
    let response = server.issue(request).unwrap();
    client.issue_process(response).unwrap();
    let witnesses = client.redeem_plan(7).unwrap();
    assert_eq!(witnesses.len(), 3);
    let entry = &client.wallet[0];
    let sig = entry.sig.unwrap();
    let pp = &client.pp;
    assert!(root_relation(pp, &sig, &entry.root, &entry.com, &entry.open));
    for w in witnesses.iter() {
        assert!(spend_relation(
            pp,
            &sig,
            &entry.root,
            &entry.com,
            &entry.open,
            &w.instance,
            &w.path
        ));
    }
    // another opening, another root, another leaf, another signature
    let other = Fp::from_le_bytes_mod_order(&[1, 2, 3]);
    assert!(!root_relation(pp, &sig, &entry.root, &entry.com, &other));
    assert!(!root_relation(pp, &sig, &other, &entry.com, &entry.open));
    assert!(!root_relation(pp, &sig, &entry.root, &other, &entry.open));
    let w = &witnesses[0];
    assert!(!spend_relation(
        pp,
        &sig,
        &entry.root,
        &entry.com,
        &entry.open,
        &other,
        &w.path
    ));
    let mut bad = sig;
    bad.verifier_challenge[3] ^= 0x40;
    assert!(!root_relation(pp, &bad, &entry.root, &entry.com, &entry.open));
    assert!(!spend_relation(
        pp,
        &bad,
        &entry.root,
        &entry.com,
        &entry.open,
        &w.instance,
        &w.path
    ));
}

#[test]
fn nodes_are_taken_from_the_deepest_node_that_holds_them() {
    let mut free = vec![Some(0), None, None, None];
    // nothing deeper is left: the root gives way
    assert_eq!(
        divtokens::dap::cut::take_node(&mut free, 2, 3),
        Some(CoinSpec { denom: 2, index: 0 })
    );
    assert_eq!(free, vec![None, Some(1), Some(1), None]);
    // a node left at the depth itself is taken as it is
    assert_eq!(
        divtokens::dap::cut::take_node(&mut free, 1, 3),
        Some(CoinSpec { denom: 1, index: 1 })
    );
    assert_eq!(free, vec![None, None, Some(1), None]);
    // nothing is left at depth 1 or above
    assert_eq!(divtokens::dap::cut::take_node(&mut free, 1, 3), None);
    assert_eq!(free, vec![None, None, Some(1), None]);
    assert_eq!(
        divtokens::dap::cut::take_node(&mut free, 3, 3),
        Some(CoinSpec { denom: 3, index: 2 })
    );
    assert_eq!(free, vec![None, None, None, Some(3)]);

    let whole = vec![Some(0), None, None, None];
    let (nodes, left) = divtokens::dap::cut::cut_value(&whole, 5, 3).unwrap();
    assert_eq!(
        nodes,
        vec![CoinSpec { denom: 1, index: 0 }, CoinSpec { denom: 3, index: 4 }]
    );
    assert_eq!(left, vec![None, None, Some(3), Some(5)]);
    assert_eq!(whole, vec![Some(0), None, None, None]);
    let (nodes, left) = divtokens::dap::cut::cut_value(&left, 3, 3).unwrap();
    assert_eq!(
        nodes,
        vec![CoinSpec { denom: 2, index: 3 }, CoinSpec { denom: 3, index: 5 }]
    );
    assert_eq!(left, vec![None; 4]);
    assert!(divtokens::dap::cut::cut_value(&left, 1, 3).is_none());
    assert_eq!(divtokens::dap::cut::cut_value(&left, 0, 3).unwrap().0.len(), 0);
    assert!(divtokens::dap::cut::cut_value(&whole, 9, 3).is_none());
    assert!(divtokens::dap::cut::cut_value(&whole, 16, 3).is_none());
    assert_eq!(
        divtokens::dap::cut::cut_value(&whole, 8, 3).unwrap().0,
        vec![CoinSpec { denom: 0, index: 0 }]
    );

    assert!(divtokens::dap::client::bytes_equal(&vec![1, 2], &vec![1, 2]));
    assert!(!divtokens::dap::client::bytes_equal(&vec![1, 2], &vec![1, 3]));
    assert!(!divtokens::dap::client::bytes_equal(&vec![1, 2], &vec![1]));
    assert_eq!(divtokens::dap::client::copy_bytes(&vec![4, 5, 6]), vec![4, 5, 6]);
}
