use aes::cipher::{BlockCipherEncrypt, KeyInit};
use aes::Aes128;
use mpz::block::Block;
use mpz::ot::ferret::config::{
    default_parameter_selector, is_costable, is_workable, iteration_cost, FerretConfig,
    LpnParameters,
};
use mpz::ot::ferret::cuckoo::{Buckets, CuckooHash};
use mpz::ot::ferret::mpcot::receiver::{MPCOTReceiver, MPCOTReceiverError};
use mpz::ot::ferret::mpcot::sender::{MPCOTSender, MPCOTSenderError};
use mpz::ot::ferret::mpcot::{LpnType, Reason};
use mpz::ot::ferret::msgs::{
    BootstrapError, Derandomize, RCOTReceiverOutput, RCOTSenderOutput, SenderCheck, SenderExtend,
    Step,
};
use mpz::ot::ferret::receiver::{Receiver, ReceiverError};
use mpz::ot::ferret::sender::{Sender, SenderError};
use mpz::ot::TransferId;
use rand::rngs::StdRng;
use rand::{RngExt, SeedableRng};
use std::cell::RefCell;

const TEST_PARAMS: LpnParameters = LpnParameters { n: 9600, k: 1220, t: 600 };

fn encrypt(cipher: &Aes128, x: Block) -> Block {
    let mut block = x.to_bytes().into();
    cipher.encrypt_block(&mut block);
    Block::new(block.into())
}

/// A generator in counter mode.
fn prg((seed, n): (Block, u64)) -> Block {
    encrypt(&Aes128::new(&seed.to_bytes().into()), Block(n as u128))
}

/// Hash functions from three keys.
fn ciphers(keys: (Block, Block, Block)) -> impl Fn((u32, Block)) -> Block {
    let ciphers =
        [keys.0, keys.1, keys.2].map(|key: Block| Aes128::new(&key.to_bytes().into()));
    move |(i, x)| encrypt(&ciphers[i as usize], x)
}

fn hashes() -> impl Fn((u32, Block)) -> Block {
    ciphers((prg((Block(0), 0)), prg((Block(0), 1)), prg((Block(0), 2))))
}

#[test]
fn test_cuckoo_buckets() {
    const NUM: usize = 50;

    let hashes = hashes();

    let input: [usize; NUM] = std::array::from_fn(|i| i);
    let cuckoo = CuckooHash::new(&hashes, &input).unwrap();
    let buckets = Buckets::new(&hashes, NUM, 2 * NUM);

    for (bucket_idx, item) in cuckoo.table.iter().enumerate() {
        if let Some(item) = item {
            // Assert this item is in the corresponding bucket.
            assert_eq!(
                bucket_idx,
                buckets.items[item.value as usize][item.hash_idx as usize].0
            );
        }
    }
    assert_eq!(cuckoo.iter().iter().flatten().count(), NUM);
    assert_eq!(buckets.iter_buckets().iter().sum::<usize>(), 3 * 2 * NUM);
}

#[test]
fn test_indices_not_regular() {
    let mut rng = StdRng::seed_from_u64(0);

    let interval_len = 8;
    let idx_count = 4;
    let mut idxs: Vec<_> = (0..idx_count)
        .map(|i| rng.random_range(interval_len * i..interval_len * (i + 1)))
        .collect();

    //Corrupt an index.
    idxs[idx_count - 1] = idxs[idx_count - 2];

    assert!(matches!(
        MPCOTReceiver::new(Block(0), LpnType::Regular, &prg, &ciphers)
            .start_extend(&idxs, interval_len * idx_count)
            .unwrap_err(),
        MPCOTReceiverError::NotRegular
    ));
}

#[test]
fn mpcot_parameter_errors() {
    let refused = |count: usize, len: usize| {
        MPCOTSender::new(Block(0), LpnType::Regular, &prg, &ciphers).start_extend(count, len).err()
    };
    let error = |count, len, reason| Some(MPCOTSenderError::Params { count, len, reason });
    assert_eq!(refused(5, 4), error(5, 4, Reason::ExceedsLength));
    assert_eq!(refused(3, 8), error(3, 8, Reason::NotMultiple));
    assert_eq!(refused(2, 12), error(2, 12, Reason::NotPowerOfTwo));
    assert_eq!(refused(2, 16), None);

    let refused = |idxs: &[usize], len: usize| {
        MPCOTReceiver::new(Block(0), LpnType::Regular, &prg, &ciphers).start_extend(idxs, len).err()
    };
    let error = |count, len, reason| Some(MPCOTReceiverError::Params { count, len, reason });
    assert_eq!(refused(&[0, 1, 2], 2), error(3, 2, Reason::ExceedsLength));
    assert_eq!(refused(&[0, 1, 2], 8), error(3, 8, Reason::NotMultiple));
    assert_eq!(refused(&[0, 7], 12), error(2, 12, Reason::NotPowerOfTwo));

    let (sender, _) = MPCOTSender::new(Block(0), LpnType::Regular, &prg, &ciphers).start_extend(2, 16).unwrap();
    assert_eq!(
        sender.extend(&[Block(0)]).unwrap_err(),
        MPCOTSenderError::SPCOTLength { expected: 16, actual: 1 }
    );
}

/// With uniform noise, the outputs differ by the correlation at the queried
/// indices and nowhere else.
#[test]
fn mpcot_uniform() {
    let (idxs, len) = ([3usize, 17, 40, 63, 90], 100);
    let mut rng = StdRng::seed_from_u64(3);
    let delta = Block(rng.random());
    let (sender, logs) =
        MPCOTSender::new(Block(0), LpnType::Uniform, &prg, &ciphers).start_extend(idxs.len(), len).unwrap();
    let (receiver, receiver_logs, queries) =
        MPCOTReceiver::new(Block(0), LpnType::Uniform, &prg, &ciphers).start_extend(&idxs, len).unwrap();
    assert_eq!(logs, receiver_logs);
    assert_eq!(logs.len(), 8);
    assert_eq!(queries.len(), 8);
    let buckets = Buckets::new(&hashes(), idxs.len(), len);
    for ((log, query), size) in logs.iter().zip(&queries).zip(buckets.iter_buckets()) {
        assert_eq!(1 << log, (size + 1).next_power_of_two());
        assert!(*query < 1 << log);
    }

    let total: usize = logs.iter().map(|l| 1 << l).sum();
    let vs: Vec<Block> = (0..total).map(|_| Block(rng.random())).collect();
    let mut ws = vs.clone();
    let mut start = 0;
    for (log, query) in logs.iter().zip(&queries) {
        ws[start + query] ^= delta;
        start += 1 << log;
    }
    let s = sender.extend(&vs).unwrap();
    let r = receiver.extend(&ws).unwrap();
    assert_eq!(s.len(), len);
    for i in 0..len {
        assert_eq!(r[i], if idxs.contains(&i) { s[i] ^ delta } else { s[i] });
    }
}

type Selector = fn((LpnType, usize, usize)) -> LpnParameters;

#[test]
fn costs() {
    assert_eq!(iteration_cost(LpnType::Uniform, TEST_PARAMS), 900 * 6 + 1220 + 128);
    let p = LpnParameters { n: 2048, k: 300, t: 64 };
    assert_eq!(iteration_cost(LpnType::Regular, p), 64 * 5 + 300 + 128);
}

#[test]
fn parameter_selection() {
    let a = LpnParameters { n: 2048, k: 300, t: 64 };
    let b = LpnParameters { n: 4096, k: 600, t: 128 };
    let c = LpnParameters { n: 8192, k: 1200, t: 128 };
    let select =
        |available, additional| default_parameter_selector(LpnType::Regular, &[a, b, c], available, additional);
    // The costs are 748, 1368 and 2096.
    assert_eq!(select(10_000, 1300), a);
    assert_eq!(select(10_000, 1301), b);
    assert_eq!(select(10_000, 2729), c);
    assert_eq!(select(10_000, 1_000_000), c);
    assert_eq!(select(1367, 1_000_000), a);
    assert_eq!(select(1368, 1_000_000), b);
    assert_eq!(select(0, 0), a);
}

#[test]
fn configuration() {
    let config: FerretConfig<Selector> = FerretConfig::new(vec![TEST_PARAMS]);
    assert_eq!(config.lpn_type(), LpnType::Uniform);
    assert!(config.reserve_bootstrap());
    assert_eq!(config.bootstrap_cost(), 6748);
    assert_eq!(config.select_params(6748, 1), TEST_PARAMS);

    let other = LpnParameters { n: 1, k: 2, t: 3 };
    let selector: Selector = |(_, _, _)| LpnParameters { n: 1, k: 2, t: 3 };
    let config = FerretConfig::builder(vec![LpnParameters { n: 2048, k: 300, t: 64 }])
        .lpn_type(LpnType::Regular)
        .reserve_bootstrap(false)
        .param_selector(selector)
        .build();
    assert_eq!(config.lpn_type(), LpnType::Regular);
    assert!(!config.reserve_bootstrap());
    assert_eq!(config.select_params(1, 2), other);
}

fn bootstrap(count: usize, delta: Block) -> (Vec<Block>, Vec<bool>, Vec<Block>) {
    let mut rng = StdRng::seed_from_u64(count as u64);
    let keys: Vec<Block> = (0..count).map(|_| Block(rng.random())).collect();
    let choices: Vec<bool> = (0..count).map(|_| rng.random()).collect();
    let macs = keys
        .iter()
        .zip(&choices)
        .map(|(k, c)| if *c { *k ^ delta } else { *k })
        .collect();
    (keys, choices, macs)
}

/// A code for a seed and a length.
fn code((seed, k): (Block, u32)) -> impl Fn(usize) -> [usize; 10] {
    let offset = (seed.0 % 1000) as usize;
    move |i| std::array::from_fn(|j| (i * 7919 + j * 104_729 + i * j * 31 + offset) % k as usize)
}

fn sample(args: (LpnType, usize, usize)) -> Vec<usize> {
    let (ty, n, t) = args;
    let mut rng = StdRng::seed_from_u64(11);
    match ty {
        LpnType::Regular => (0..t).map(|i| i * (n / t) + rng.random_range(0..n / t)).collect(),
        LpnType::Uniform => (0..t).map(|i| i * (n / t) + i % 3).collect(),
    }
}

/// Runs the protocol with ideal single-point transfers until both parties have
/// what was asked for. What they hand out is correlated.
fn run(lpn_type: LpnType, params: LpnParameters, count: usize) {
    let mut rng = StdRng::seed_from_u64(21);
    let delta = Block(rng.random());
    let config = || -> FerretConfig<Selector> {
        FerretConfig::builder(vec![params]).lpn_type(lpn_type).build()
    };
    let mut sender = Sender::new(config(), delta);
    let mut receiver = Receiver::new(config());
    assert_eq!(sender.delta(), delta);
    assert!(sender.wants_init() && receiver.wants_init());
    let init = receiver.initialize(Block(99)).unwrap();
    sender.initialize(init).unwrap();

    sender.allocate(count);
    receiver.allocate(count);
    assert!(sender.queue_send_rcot(count / 2).is_none());
    assert!(sender.queue_send_rcot(count / 2).is_none());
    assert!(receiver.queue_recv_rcot(count / 2).is_none());
    assert!(receiver.queue_recv_rcot(count / 2).is_none());
    assert!(sender.wants_bootstrap() && receiver.wants_bootstrap());

    let (drawn_s, drawn_r) = (RefCell::new(Vec::new()), RefCell::new(Vec::new()));
    let prg_s = |a: (Block, u64)| {
        drawn_s.borrow_mut().push(a);
        prg(a)
    };
    let prg_r = |a: (Block, u64)| {
        drawn_r.borrow_mut().push(a);
        prg(a)
    };
    let mut iterations = 0;
    let (mut sent, mut received) = (Vec::new(), Vec::new());
    while sender.wants_extend() {
        iterations += 1;
        assert!(receiver.wants_extend());
        let joined = RefCell::new(Vec::<Block>::new());
        let extend = receiver
            .start_extend(
                &|n| {
                    let (_, choices, msgs) = bootstrap(n, delta);
                    Ok(RCOTReceiverOutput { id: TransferId(0), choices, msgs })
                },
                &prg_r,
                &prg,
                &ciphers,
                &sample,
                &|(_, _, masks)| Ok(Derandomize { flip: masks }),
            )
            .unwrap();
        sender
            .start_extend(
                &|n| Ok(RCOTSenderOutput { id: TransferId(0), keys: bootstrap(n, delta).0 }),
                &prg_s,
                &prg,
                &ciphers,
            )
            .unwrap();
        let msg = sender
            .extend(extend, &|(lengths, keys, flip)| {
                assert_eq!(keys.len(), lengths.iter().sum::<usize>());
                assert_eq!(keys.len(), flip.len());
                let total: usize = lengths.iter().map(|l| 1 << l).sum();
                let mut rng = StdRng::seed_from_u64(5);
                let vs: Vec<Block> = (0..total).map(|_| Block(rng.random())).collect();
                *joined.borrow_mut() = vs.clone();
                Ok((vs, Vec::new(), Vec::new()))
            })
            .unwrap();
        let check = receiver
            .extend(
                msg,
                &|(lengths, idxs, macs, _)| {
                    assert_eq!(macs.len(), lengths.iter().sum::<usize>());
                    let mut ws = joined.borrow().clone();
                    let mut start = 0;
                    for (log, idx) in lengths.iter().zip(&idxs) {
                        ws[start + idx] ^= delta;
                        start += 1 << log;
                    }
                    Ok(ws)
                },
                &|(macs, masks)| {
                    assert_eq!((macs.len(), masks.len()), (128, 128));
                    Ok(Derandomize { flip: masks })
                },
            )
            .unwrap();
        let check = sender
            .check(check, &|(keys, flip)| {
                assert_eq!((keys.len(), flip.len()), (128, 128));
                Ok([4; 32])
            })
            .unwrap();
        receiver
            .finish_extend(
                check,
                &|hashed| if hashed == [4; 32] { Ok(()) } else { Err("check".to_string()) },
                &prg_r,
                &code,
                &mut received,
            )
            .unwrap();
        sender.finish_extend(&prg_s, &code, &mut sent).unwrap();
    }
    // Each iteration draws two values of the generator that both share.
    let expected: Vec<_> = (0..2 * iterations).map(|n| (Block(99), n)).collect();
    assert_eq!(*drawn_s.borrow(), expected);
    assert_eq!(*drawn_r.borrow(), expected);

    assert!(!receiver.wants_extend());
    assert_eq!(sender.available(), receiver.available());
    let rest = sender.available();
    sent.push(sender.try_send_rcot(rest).unwrap());
    received.push(receiver.try_recv_rcot(rest).unwrap());

    assert_eq!(sent.len(), 3);
    assert_eq!(received.len(), 3);
    for (s, r) in sent.iter().zip(&received) {
        assert_eq!(s.id, r.id);
        assert_eq!(s.keys.len(), r.msgs.len());
        assert_eq!(s.keys.len(), r.choices.len());
        for i in 0..s.keys.len() {
            let expected = if r.choices[i] { s.keys[i] ^ delta } else { s.keys[i] };
            assert_eq!(r.msgs[i], expected);
        }
        assert!(r.choices.contains(&true) && r.choices.contains(&false));
    }
    // What is reserved for the next bootstrap is kept.
    assert!(!sender.wants_bootstrap());
    assert!(matches!(
        sender.try_send_rcot(1),
        Err(SenderError::InsufficientCOTs { expected: 1, actual: 0 })
    ));
    assert!(matches!(
        receiver.try_recv_rcot(1),
        Err(ReceiverError::InsufficientCOTs { expected: 1, actual: 0 })
    ));
}

#[test]
fn extension_uniform() {
    run(LpnType::Uniform, TEST_PARAMS, 4000);
}

#[test]
fn extension_regular() {
    run(LpnType::Regular, LpnParameters { n: 2048, k: 300, t: 64 }, 3000);
}

fn regular() -> FerretConfig<Selector> {
    FerretConfig::builder(vec![LpnParameters { n: 2048, k: 300, t: 64 }])
        .lpn_type(LpnType::Regular)
        .build()
}

/// A step out of order fails, and so does every step after it.
#[test]
fn steps_out_of_order() {
    let mut outputs = Vec::new();
    let mut sender = Sender::new(regular(), Block(1));
    assert!(matches!(
        sender.finish_extend(&prg, &code, &mut outputs),
        Err(SenderError::State(Step::Finish))
    ));
    assert!(!sender.wants_init());
    let init = Receiver::new(regular()).initialize(Block(1)).unwrap();
    assert!(matches!(sender.initialize(init), Err(SenderError::State(Step::Initialize))));

    let mut receiver = Receiver::new(regular());
    receiver.initialize(Block(1)).unwrap();
    assert!(matches!(
        receiver.initialize(Block(1)),
        Err(ReceiverError::State(Step::Initialize))
    ));
    assert!(matches!(
        receiver.extend(
            SenderExtend { ms: Vec::new(), sums: Vec::new() },
            &|_| Ok(Vec::new()),
            &|_| Ok(Derandomize { flip: Vec::new() })
        ),
        Err(ReceiverError::State(Step::Extending))
    ));
    assert!(matches!(
        receiver.finish_extend(
            SenderCheck { hashed_v: [0; 32] },
            &|_| Ok(()),
            &prg,
            &code,
            &mut Vec::new()
        ),
        Err(ReceiverError::State(Step::Finish))
    ));
}

#[test]
fn bootstrap_failures() {
    let sender = || {
        let mut sender = Sender::new(regular(), Block(1));
        sender.initialize(Receiver::new(regular()).initialize(Block(1)).unwrap()).unwrap();
        sender
    };
    assert!(matches!(
        sender().start_extend(&|_| Err(BootstrapError::Locked), &prg, &prg, &ciphers),
        Err(SenderError::MutexLocked)
    ));
    assert!(matches!(
        sender().start_extend(
            &|_| Err(BootstrapError::Failed("empty".to_string())),
            &prg,
            &prg,
            &ciphers
        ),
        Err(SenderError::Bootstrap(e)) if e == "empty"
    ));
    let asked = RefCell::new(0);
    sender()
        .alloc_bootstrap(&|n| {
            *asked.borrow_mut() = n;
            Ok(())
        })
        .unwrap();
    assert_eq!(*asked.borrow(), 748);
    assert!(matches!(
        sender().alloc_bootstrap(&|_| Err(BootstrapError::Locked)),
        Err(SenderError::MutexLocked)
    ));

    let mut receiver = Receiver::new(regular());
    receiver.initialize(Block(1)).unwrap();
    assert!(matches!(
        receiver.alloc_bootstrap(&|_| Err(BootstrapError::Failed("full".to_string()))),
        Err(ReceiverError::Bootstrap(e)) if e == "full"
    ));
    assert!(matches!(
        receiver.start_extend(
            &|_| Err(BootstrapError::Locked),
            &prg,
            &prg,
            &ciphers,
            &sample,
            &|_| Ok(Derandomize { flip: Vec::new() })
        ),
        Err(ReceiverError::MutexLocked)
    ));
}

/// A failed single-point transfer or check is reported.
#[test]
fn spcot_failures() {
    let mut receiver = Receiver::new(regular());
    receiver.initialize(Block(1)).unwrap();
    let r = receiver.start_extend(
        &|n| {
            let (_, choices, msgs) = bootstrap(n, Block(5));
            Ok(RCOTReceiverOutput { id: TransferId(0), choices, msgs })
        },
        &prg,
        &prg,
        &ciphers,
        &sample,
        &|_| Err("derandomize".to_string()),
    );
    assert!(matches!(r, Err(ReceiverError::Spcot(e)) if e == "derandomize"));
}

#[test]
fn configuration_validity() {
    let valid = |ty, n, k, t| -> bool {
        let config: FerretConfig<Selector> =
            FerretConfig::builder(vec![LpnParameters { n, k, t }]).lpn_type(ty).build();
        config.is_valid()
    };
    assert!(valid(LpnType::Uniform, 9600, 1220, 600));
    assert!(valid(LpnType::Regular, 2048, 300, 64));
    assert!(!valid(LpnType::Regular, 2048, 300, 0));
    assert!(!valid(LpnType::Regular, 2047, 300, 64));
    assert!(!valid(LpnType::Regular, 2048, 2048, 64));
    assert!(!valid(LpnType::Uniform, 1 << 33, 1220, 600));
    let empty: FerretConfig<Selector> = FerretConfig::new(Vec::new());
    assert!(!empty.is_valid());

    let huge = LpnParameters { n: usize::MAX, k: 1, t: 1 };
    assert!(!is_costable(LpnType::Uniform, huge));
    assert!(!is_workable(LpnType::Uniform, huge));
    assert!(is_workable(LpnType::Regular, huge));
    assert!(!is_costable(LpnType::Regular, LpnParameters { n: 64, k: usize::MAX, t: 1 }));
}
