use nbf::cli::{demo_config, id_text, parse_target, pick_route, pool, TargetError};
use nbf::error::HexError;
use nbf::{NodeAddr, NodeId};
use rand::rngs::StdRng;
use rand::SeedableRng;

fn peers(n: u8) -> Vec<(NodeId, NodeAddr, [u8; 32])> {
    (0..n).map(|i| ([i; 20], NodeAddr::V4 { ip: [10, 0, 0, i], port: 1 }, [i; 32])).collect()
}

#[test]
fn identifiers_as_text() {
    let mut id: NodeId = [0xAB; 20];
    id[0] = 0x01;
    id[19] = 0xF0;
    let text = id_text(&id);
    assert_eq!(text, "01abababababababababababababababababababf0"[..2].to_string()
        + &"ab".repeat(18) + "f0");
    assert_eq!(text.len(), 40);
    assert_eq!(parse_target(text.as_bytes()), Ok(id));
    assert_eq!(parse_target(text.to_uppercase().as_bytes()), Ok(id));
}

#[test]
fn texts_that_are_no_identifier() {
    assert_eq!(parse_target(b"abc"), Err(TargetError::Hex(HexError::OddLength)));
    let bad = HexError::Character { c: 'g', index: 1 };
    assert_eq!(parse_target(b"agxx"), Err(TargetError::Hex(bad)));
    assert_eq!(parse_target(b"abcd"), Err(TargetError::Length(2)));
    assert_eq!(parse_target(b""), Err(TargetError::Length(0)));
}

#[test]
fn routes_avoid_the_target_and_repeat_nobody() {
    let target: NodeId = [2; 20];
    assert_eq!(pool(&peers(4), &target), vec![[0; 20], [1; 20], [3; 20]]);
    for seed in 0..50 {
        let mut rng = StdRng::seed_from_u64(seed);
        let route = pick_route(&peers(6), &target, &mut rng).unwrap();
        assert_eq!(route.len(), 4);
        assert_eq!(route[3], target);
        for i in 0..4 {
            assert!(!route[..i].contains(&route[i]));
        }
    }
    let mut rng = StdRng::seed_from_u64(1);
    assert_eq!(pick_route(&peers(3), &target, &mut rng), Err(2));
    assert!(pick_route(&peers(4), &target, &mut rng).is_ok());
}

#[test]
fn the_demonstration() {
    let first = demo_config(0, true);
    assert_eq!((first.cell_port, first.dht_port), (12000, 12001));
    assert!(first.seeds.is_empty());
    let third = demo_config(2, false);
    assert_eq!((third.cell_port, third.dht_port), (12004, 12005));
    assert_eq!(third.seeds, vec!["127.0.0.1:12001".to_string()]);
    assert!(!third.cover.on && third.rng_seed.is_none());
    assert_eq!((third.cover.min_interval_ms, third.cover.max_interval_ms), (500, 2000));
}
