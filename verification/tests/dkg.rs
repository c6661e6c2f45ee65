use frost_dkg::curve::{mul_gen, point_add, Point};
use frost_dkg::error::FrostError;
use frost_dkg::field::{f_add, f_mul, MODULUS};
use frost_dkg::machine::{Keys, State, StateMachine};
use frost_dkg::params::Params;
use frost_dkg::rng::StreamRng;

fn make_machines(n: u16, t: u16, context: &[u8]) -> Vec<StateMachine> {
    (1..=n)
        .map(|i| StateMachine::new(Params::new(n, t, i).unwrap(), context.to_vec()))
        .collect()
}

fn make_rngs(n: u16, seed_base: u64) -> Vec<StreamRng> {
    (1..=n).map(|i| StreamRng::new(seed_base.wrapping_add(i as u64))).collect()
}

fn round1(machines: &mut Vec<StateMachine>, rngs: &mut Vec<StreamRng>) -> Vec<Vec<u8>> {
    machines
        .iter_mut()
        .zip(rngs.iter_mut())
        .map(|(m, rng)| m.generate_coefficients(rng).unwrap())
        .collect()
}

fn peer_map(msgs: &[Vec<u8>], own: u16) -> Vec<(u16, Vec<u8>)> {
    msgs.iter()
        .enumerate()
        .filter(|(j, _)| (j + 1) as u16 != own)
        .map(|(j, m)| ((j + 1) as u16, m.clone()))
        .collect()
}

fn round2(
    machines: &mut Vec<StateMachine>,
    rngs: &mut Vec<StreamRng>,
    msgs: &[Vec<u8>],
) -> Vec<Vec<(u16, Vec<u8>)>> {
    machines
        .iter_mut()
        .zip(rngs.iter_mut())
        .enumerate()
        .map(|(j, (m, rng))| {
            m.generate_secret_shares(rng, peer_map(msgs, (j + 1) as u16)).unwrap()
        })
        .collect()
}

fn shares_for(outgoing: &[Vec<(u16, Vec<u8>)>], recipient: u16) -> Vec<(u16, Vec<u8>)> {
    let mut res = Vec::new();
    for (j, out) in outgoing.iter().enumerate() {
        let sender = (j + 1) as u16;
        if sender == recipient {
            continue;
        }
        let share = out.iter().find(|(to, _)| *to == recipient).unwrap().1.clone();
        res.push((sender, share));
    }
    res
}

fn run_full(n: u16, t: u16, context: &[u8], seed_base: u64) -> Vec<Keys> {
    let mut machines = make_machines(n, t, context);
    let mut rngs = make_rngs(n, seed_base);
    let msgs = round1(&mut machines, &mut rngs);
    let outgoing = round2(&mut machines, &mut rngs, &msgs);
    machines
        .iter_mut()
        .enumerate()
        .map(|(j, m)| m.complete(shares_for(&outgoing, (j + 1) as u16)).unwrap())
        .collect()
}

fn pow_mod(mut b: u128, mut e: u128) -> u128 {
    let m = MODULUS as u128;
    let mut acc: u128 = 1;
    b %= m;
    while e > 0 {
        if e & 1 == 1 {
            acc = acc * b % m;
        }
        b = b * b % m;
        e >>= 1;
    }
    acc
}

fn inv_mod(a: u64) -> u64 {
    pow_mod(a as u128, (MODULUS - 2) as u128) as u64
}

fn sub_mod(a: u64, b: u64) -> u64 {
    if a >= b {
        a - b
    } else {
        a + (MODULUS - b)
    }
}

/// Lagrange interpolation at zero over the given quorum of 1-based indices.
fn interpolate_at_zero(quorum: &[u16], shares: &[u64]) -> u64 {
    let mut acc: u64 = 0;
    for (k, &i) in quorum.iter().enumerate() {
        let mut lam: u64 = 1;
        for &j in quorum.iter() {
            if j == i {
                continue;
            }
            let num = j as u64;
            let den = sub_mod(j as u64, i as u64);
            lam = f_mul(lam, f_mul(num, inv_mod(den)));
        }
        acc = f_add(acc, f_mul(lam, shares[k]));
    }
    acc
}

fn assert_all_agree(keys: &[Keys]) {
    let gk = keys[0].group_key;
    for k in keys.iter() {
        assert_eq!(k.group_key, gk);
        assert_eq!(k.verification_shares, keys[0].verification_shares);
        assert!(k.offset.is_none());
    }
    for (j, k) in keys.iter().enumerate() {
        assert_eq!(mul_gen(k.secret_share), k.verification_shares[j]);
    }
}

#[test]
fn honest_runs_complete_and_agree() {
    for &(n, t) in &[(1u16, 1u16), (2, 2), (3, 2), (4, 3), (5, 3), (8, 8)] {
        let keys = run_full(n, t, b"suite", 42);
        assert_eq!(keys.len(), n as usize);
        assert_all_agree(&keys);
    }
}

#[test]
fn three_of_two_reconstructs_from_any_quorum() {
    let keys = run_full(3, 2, b"ctx-a", 7);
    assert_all_agree(&keys);
    let gk = keys[0].group_key;
    for quorum in &[[1u16, 2u16], [1, 3], [2, 3]] {
        let shares: Vec<u64> =
            quorum.iter().map(|&i| keys[i as usize - 1].secret_share).collect();
        let secret = interpolate_at_zero(quorum, &shares);
        assert_eq!(mul_gen(secret), gk);
    }
}

#[test]
fn boundary_two_of_two_reconstructs() {
    let keys = run_full(2, 2, b"pair", 99);
    assert_all_agree(&keys);
    let s1 = keys[0].secret_share;
    let s2 = keys[1].secret_share;
    // the verification shares are the images of the individual shares
    assert_eq!(point_add(mul_gen(s1), mul_gen(s2)).v, {
        let both = f_add(s1, s2);
        mul_gen(both).v
    });
    let secret = interpolate_at_zero(&[1, 2], &[s1, s2]);
    assert_eq!(mul_gen(secret), keys[0].group_key);
}

#[test]
fn corrupted_commitment_blames_its_sender() {
    // n = 5, t = 3: flip a byte of A_{2,0} in participant 4's view
    let n = 5u16;
    let t = 3u16;
    let mut machines = make_machines(n, t, b"corrupt");
    let mut rngs = make_rngs(n, 1234);
    let msgs = round1(&mut machines, &mut rngs);
    let mut map = peer_map(&msgs, 4);
    for entry in map.iter_mut() {
        if entry.0 == 2 {
            entry.1[0] ^= 0x01;
        }
    }
    let err = machines[3].generate_secret_shares(&mut rngs[3], map).unwrap_err();
    assert_eq!(err, FrostError::InvalidProofOfKnowledge(2));
}

#[test]
fn every_bit_flip_is_attributed_to_the_flipped_message() {
    let n = 3u16;
    let t = 2u16;
    let baseline = {
        let mut machines = make_machines(n, t, b"flip");
        let mut rngs = make_rngs(n, 77);
        round1(&mut machines, &mut rngs)
    };
    let msg_len = baseline[1].len();
    for byte in 0..msg_len {
        for bit in 0..8u8 {
            let mut machines = make_machines(n, t, b"flip");
            let mut rngs = make_rngs(n, 77);
            let msgs = round1(&mut machines, &mut rngs);
            let mut map = peer_map(&msgs, 1);
            for entry in map.iter_mut() {
                if entry.0 == 2 {
                    entry.1[byte] ^= 1 << bit;
                }
            }
            let err = machines[0].generate_secret_shares(&mut rngs[0], map).unwrap_err();
            assert!(
                err == FrostError::InvalidProofOfKnowledge(2)
                    || err == FrostError::InvalidCommitment(2),
                "byte {} bit {} gave {:?}",
                byte,
                bit,
                err
            );
        }
    }
}

#[test]
fn tampered_share_blames_its_sender() {
    // n = 4, t = 3: participant 1 sends participant 3 share + 1
    let n = 4u16;
    let t = 3u16;
    let mut machines = make_machines(n, t, b"tamper");
    let mut rngs = make_rngs(n, 555);
    let msgs = round1(&mut machines, &mut rngs);
    let mut outgoing = round2(&mut machines, &mut rngs, &msgs);
    for entry in outgoing[0].iter_mut() {
        if entry.0 == 3 {
            let v = u64::from_le_bytes(entry.1.as_slice().try_into().unwrap());
            entry.1 = f_add(v, 1).to_le_bytes().to_vec();
        }
    }
    let err = machines[2].complete(shares_for(&outgoing, 3)).unwrap_err();
    assert_eq!(err, FrostError::InvalidCommitment(1));
    for j in [0usize, 1, 3] {
        let keys = machines[j].complete(shares_for(&outgoing, (j + 1) as u16)).unwrap();
        assert_eq!(mul_gen(keys.secret_share), keys.verification_shares[j]);
    }
}

#[test]
fn non_canonical_share_bytes_are_rejected() {
    let n = 3u16;
    let t = 2u16;
    let mut machines = make_machines(n, t, b"canon");
    let mut rngs = make_rngs(n, 31);
    let msgs = round1(&mut machines, &mut rngs);
    let mut outgoing = round2(&mut machines, &mut rngs, &msgs);
    for entry in outgoing[1].iter_mut() {
        if entry.0 == 1 {
            entry.1 = vec![0xffu8; 8];
        }
    }
    let err = machines[0].complete(shares_for(&outgoing, 1)).unwrap_err();
    assert_eq!(err, FrostError::InvalidShare(2));
}

#[test]
fn share_map_must_cover_everyone_exactly_once() {
    let n = 3u16;
    let t = 2u16;
    let mut machines = make_machines(n, t, b"cover");
    let mut rngs = make_rngs(n, 8);
    let msgs = round1(&mut machines, &mut rngs);
    let outgoing = round2(&mut machines, &mut rngs, &msgs);
    let full = shares_for(&outgoing, 1);
    let missing: Vec<(u16, Vec<u8>)> =
        full.iter().filter(|(l, _)| *l != 3).cloned().collect();
    let err = machines[0].complete(missing).unwrap_err();
    assert_eq!(err, FrostError::MissingParticipant(3));
    let mut duplicated = full.clone();
    duplicated.push(full[0].clone());
    let err = machines[0].complete(duplicated).unwrap_err();
    assert_eq!(err, FrostError::DuplicatedIndex(full[0].0));
}

#[test]
fn replay_with_same_coins_is_identical() {
    let mut machines_a = make_machines(3, 2, b"replay");
    let mut rngs_a = make_rngs(3, 4242);
    let msgs_a = round1(&mut machines_a, &mut rngs_a);
    let mut machines_b = make_machines(3, 2, b"replay");
    let mut rngs_b = make_rngs(3, 4242);
    let msgs_b = round1(&mut machines_b, &mut rngs_b);
    assert_eq!(msgs_a, msgs_b);
    let keys_a = run_full(3, 2, b"replay", 4242);
    let keys_b = run_full(3, 2, b"replay", 4242);
    assert_eq!(keys_a[0].group_key, keys_b[0].group_key);
    assert_eq!(keys_a[0].verification_shares, keys_b[0].verification_shares);
    assert_eq!(keys_a[1].secret_share, keys_b[1].secret_share);
}

#[test]
fn context_binds_the_run() {
    // same coins, different context strings: the round-1 messages are
    // distinct (the proofs of knowledge answer different challenges), and
    // neither is accepted under the other context
    let mut machines_one = make_machines(3, 2, b"ctx-one");
    let mut rngs_one = make_rngs(3, 1000);
    let msgs_one = round1(&mut machines_one, &mut rngs_one);
    let mut machines_two = make_machines(3, 2, b"ctx-two");
    let mut rngs_two = make_rngs(3, 1000);
    let msgs_two = round1(&mut machines_two, &mut rngs_two);
    for (a, b) in msgs_one.iter().zip(msgs_two.iter()) {
        assert_ne!(a, b);
    }

    // grafting a message from the other context fails verification
    let mut machines_a = make_machines(3, 2, b"ctx-one");
    let mut rngs_a = make_rngs(3, 1000);
    let msgs_a = round1(&mut machines_a, &mut rngs_a);
    let mut machines_b = make_machines(3, 2, b"ctx-two");
    let mut rngs_b = make_rngs(3, 1000);
    let msgs_b = round1(&mut machines_b, &mut rngs_b);
    let mut map = peer_map(&msgs_a, 1);
    for entry in map.iter_mut() {
        if entry.0 == 2 {
            entry.1 = msgs_b[1].clone();
        }
    }
    let err = machines_a[0].generate_secret_shares(&mut rngs_a[0], map).unwrap_err();
    assert_eq!(err, FrostError::InvalidProofOfKnowledge(2));
}

#[test]
fn transitions_must_follow_the_single_path() {
    let n = 4u16;
    let t = 2u16;
    let mut machines = make_machines(n, t, b"order");
    let mut rngs = make_rngs(n, 3);

    // round 2 before round 1
    let err = machines[0]
        .generate_secret_shares(&mut rngs[0], Vec::new())
        .unwrap_err();
    assert_eq!(
        err,
        FrostError::InvalidKeyGenTransition(State::GeneratedCoefficients, State::Fresh)
    );
    assert_eq!(machines[0].state(), State::Fresh);

    // completion before round 2
    let err = machines[0].complete(Vec::new()).unwrap_err();
    assert_eq!(
        err,
        FrostError::InvalidKeyGenTransition(State::GeneratedSecretShares, State::Fresh)
    );
    assert_eq!(machines[0].state(), State::Fresh);

    // round 1 twice
    let msgs = round1(&mut machines, &mut rngs);
    let err = machines[0].generate_coefficients(&mut rngs[0]).unwrap_err();
    assert_eq!(
        err,
        FrostError::InvalidKeyGenTransition(State::Fresh, State::GeneratedCoefficients)
    );
    assert_eq!(machines[0].state(), State::GeneratedCoefficients);

    // the legal path still works afterwards
    let outgoing = round2(&mut machines, &mut rngs, &msgs);
    let keys = machines[0].complete(shares_for(&outgoing, 1)).unwrap();
    assert_eq!(machines[0].state(), State::Complete);
    assert_eq!(mul_gen(keys.secret_share), keys.verification_shares[0]);

    // no round may be re-entered after completion
    let err = machines[0].complete(shares_for(&outgoing, 1)).unwrap_err();
    assert_eq!(
        err,
        FrostError::InvalidKeyGenTransition(State::GeneratedSecretShares, State::Complete)
    );
    assert_eq!(machines[0].state(), State::Complete);
}

#[test]
fn round1_message_has_the_wire_length() {
    for &(n, t) in &[(2u16, 2u16), (5, 3), (8, 1)] {
        let mut machines = make_machines(n, t, b"len");
        let mut rngs = make_rngs(n, 21);
        let msgs = round1(&mut machines, &mut rngs);
        for m in msgs.iter() {
            // t commitments, the nonce commitment, and the response
            assert_eq!(m.len(), 8 * t as usize + 8 + 8);
        }
    }
}

#[test]
fn failed_round_leaves_the_machine_usable() {
    let n = 3u16;
    let t = 2u16;
    let mut machines = make_machines(n, t, b"retry");
    let mut rngs = make_rngs(n, 17);
    let msgs = round1(&mut machines, &mut rngs);
    // a bad map fails, the machine stays in its state, a good map succeeds
    let err = machines[0]
        .generate_secret_shares(&mut rngs[0], Vec::new())
        .unwrap_err();
    assert_eq!(err, FrostError::MissingParticipant(2));
    assert_eq!(machines[0].state(), State::GeneratedCoefficients);
    machines[0]
        .generate_secret_shares(&mut rngs[0], peer_map(&msgs, 1))
        .unwrap();
    assert_eq!(machines[0].state(), State::GeneratedSecretShares);
}

#[test]
fn round1_message_map_must_cover_everyone() {
    let n = 3u16;
    let t = 2u16;
    let mut machines = make_machines(n, t, b"r1cover");
    let mut rngs = make_rngs(n, 64);
    let msgs = round1(&mut machines, &mut rngs);
    let full = peer_map(&msgs, 1);
    let missing: Vec<(u16, Vec<u8>)> =
        full.iter().filter(|(l, _)| *l != 2).cloned().collect();
    let err = machines[0].generate_secret_shares(&mut rngs[0], missing).unwrap_err();
    assert_eq!(err, FrostError::MissingParticipant(2));
    let mut with_own = full.clone();
    with_own.push((1, msgs[0].clone()));
    let err = machines[0].generate_secret_shares(&mut rngs[0], with_own).unwrap_err();
    assert_eq!(err, FrostError::DuplicatedIndex(1));
}

#[test]
fn wrong_length_messages_are_attributed_by_segment() {
    let n = 3u16;
    let t = 2u16;
    let mut machines = make_machines(n, t, b"length");
    let mut rngs = make_rngs(n, 12);
    let msgs = round1(&mut machines, &mut rngs);

    // shorter than the commitment segment
    let mut map = peer_map(&msgs, 1);
    for entry in map.iter_mut() {
        if entry.0 == 2 {
            entry.1 = vec![0u8; 5];
        }
    }
    let err = machines[0].generate_secret_shares(&mut rngs[0], map).unwrap_err();
    assert_eq!(err, FrostError::InvalidCommitment(2));

    // commitments intact, proof segment truncated
    let mut machines = make_machines(n, t, b"length");
    let mut rngs = make_rngs(n, 12);
    let msgs = round1(&mut machines, &mut rngs);
    let mut map = peer_map(&msgs, 1);
    for entry in map.iter_mut() {
        if entry.0 == 3 {
            entry.1.truncate(msgs[2].len() - 4);
        }
    }
    let err = machines[0].generate_secret_shares(&mut rngs[0], map).unwrap_err();
    assert_eq!(err, FrostError::InvalidProofOfKnowledge(3));
}
