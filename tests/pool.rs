use pingora_pool::backend::Backend;
use pingora_pool::balancer::{select_from, LoadBalancer, Snapshot, LB};
use pingora_pool::error::LbError;
use pingora_pool::pool::{BackendSet, HealthMap};
use pingora_pool::selection::{HashLB, Random, RoundRobin, SelectionAlgorithm};

fn set_of(addresses: &[&str]) -> BackendSet {
    let mut set = BackendSet::new();
    for a in addresses {
        set.insert(Backend::new(a).unwrap());
    }
    set
}

fn addresses(set: &BackendSet) -> Vec<String> {
    set.iter_ordered().iter().map(|b| b.address().to_string()).collect()
}

#[test]
fn backend_identity_ignores_weight() {
    let a = Backend::new("1.1.1.1:443").unwrap();
    let b = Backend::new_with_weight("1.1.1.1:443", 7).unwrap();
    let c = Backend::new("1.1.1.1:443").unwrap();
    assert_eq!(a.weight(), 1);
    assert_eq!(b.weight(), 7);
    assert_eq!(a.identity(), b.identity());
    assert_eq!(a.identity(), c.identity());
    assert_eq!(a.address(), "1.1.1.1:443");
    let d = Backend::new("1.0.0.1:443").unwrap();
    assert_ne!(a.identity(), d.identity());
}

#[test]
fn backend_accepts_host_and_port() {
    for a in ["example.com:80", "127.0.0.1:0", "h:65535", "[2001:db8::1]:443", "[::1]:8080"] {
        assert!(Backend::new(a).is_ok(), "{a}");
    }
}

#[test]
fn backend_rejects_malformed_addresses() {
    for a in [
        "",
        "example.com",
        ":80",
        "host:",
        "host:65536",
        "host:12a",
        "host:123456",
        "2001:db8::1:443",
        "::1:80",
        "[::1:80",
    ] {
        assert!(matches!(Backend::new(a), Err(LbError::InvalidAddress)), "{a}");
    }
}

#[test]
fn insert_same_address_twice_keeps_one() {
    let mut set = BackendSet::new();
    set.insert(Backend::new("10.0.0.1:80").unwrap());
    set.insert(Backend::new_with_weight("10.0.0.1:80", 3).unwrap());
    assert_eq!(set.len(), 1);
    assert_eq!(set.get(0).weight(), 1);
}

#[test]
fn backend_set_is_ordered_by_identity() {
    let set = set_of(&["1.1.1.1:443", "1.0.0.1:443", "127.0.0.1:343", "10.0.0.9:80"]);
    assert_eq!(set.len(), 4);
    let ids: Vec<u64> = set.iter_ordered().iter().map(|b| b.identity()).collect();
    for w in ids.windows(2) {
        assert!(w[0] < w[1]);
    }
    let other = set_of(&["10.0.0.9:80", "127.0.0.1:343", "1.0.0.1:443", "1.1.1.1:443"]);
    assert_eq!(addresses(&set), addresses(&other));
    assert!(set.contains_identity(Backend::new("1.0.0.1:443").unwrap().identity()));
    assert!(!set.contains_identity(Backend::new("1.0.0.2:443").unwrap().identity()));
}

#[test]
fn health_map_absent_is_healthy() {
    let mut h = HealthMap::new();
    assert!(h.is_healthy(42));
    assert_eq!(h.get(42), None);
    h.mark_health(42, false);
    assert!(!h.is_healthy(42));
    assert_eq!(h.get(42), Some(false));
}

#[test]
fn round_robin_counts_up() {
    let mut rr = RoundRobin::new(3);
    assert_eq!(rr.next(b"x"), 0);
    assert_eq!(rr.next(b""), 1);
    assert_eq!(rr.next(b"y"), 2);
    assert_eq!(rr.next(b"y"), 3);
}

#[test]
fn round_robin_visits_every_backend_in_order() {
    let set = set_of(&["1.1.1.1:443", "1.0.0.1:443", "127.0.0.1:343"]);
    let order = addresses(&set);
    let mut lb: LoadBalancer<RoundRobin> = LoadBalancer::new(Snapshot::new(set, HealthMap::new()));
    let mut seen = Vec::new();
    for _ in 0..3 {
        seen.push(lb.select(b"", 3).unwrap().address().to_string());
    }
    assert_eq!(seen, order);
    assert_eq!(lb.select(b"", 3).unwrap().address(), order[0]);
}

#[test]
fn hash_is_deterministic() {
    let mut a = HashLB::new(5);
    let mut b = HashLB::new(5);
    let x = a.next(b"client-1");
    assert_eq!(x, b.next(b"client-1"));
    assert_eq!(x, a.next(b"client-1"));
    assert!(x < 5);
    assert_eq!(a.backends(), 5);
}

#[test]
fn hash_with_no_backends_is_not_ready() {
    let h = HashLB::new(0);
    assert!(!h.is_ready());
    let set = set_of(&["1.1.1.1:443"]);
    let mut lb: LoadBalancer<HashLB> = LoadBalancer::new(Snapshot::new(set, HealthMap::new()));
    assert!(lb.select(b"k", 4).is_ok());
    let mut zero: LoadBalancer<HashLB> =
        LoadBalancer::new(Snapshot::new(BackendSet::new(), HealthMap::new()));
    assert!(matches!(zero.select(b"k", 4), Err(LbError::NoHealthyBackends)));
}

#[test]
fn hash_built_for_zero_refuses_selection() {
    let set = set_of(&["1.1.1.1:443"]);
    let mut lb: LoadBalancer<HashLB> =
        LoadBalancer::new(Snapshot::new(BackendSet::new(), HealthMap::new()));
    lb.update(Ok((set, HealthMap::new()))).unwrap();
    assert!(matches!(lb.select(b"k", 4), Err(LbError::NoBackendsAvailable)));
}

#[test]
fn random_selects_some_backend() {
    let set = set_of(&["1.1.1.1:443", "1.0.0.1:443"]);
    let order = addresses(&set);
    let mut lb: LoadBalancer<Random> = LoadBalancer::new(Snapshot::new(set, HealthMap::new()));
    for _ in 0..20 {
        let b = lb.select(b"", 2).unwrap();
        assert!(order.contains(&b.address().to_string()));
    }
}

#[test]
fn select_all_unhealthy_fails() {
    let set = set_of(&["1.1.1.1:443", "1.0.0.1:443", "127.0.0.1:343"]);
    let mut health = HealthMap::new();
    for b in set.iter_ordered() {
        health.mark_health(b.identity(), false);
    }
    let mut lb: LoadBalancer<RoundRobin> = LoadBalancer::new(Snapshot::new(set, health));
    assert!(matches!(lb.select(b"", 3), Err(LbError::NoHealthyBackends)));
    assert!(matches!(lb.select(b"", 256), Err(LbError::NoHealthyBackends)));
}

#[test]
fn select_empty_pool_fails() {
    let mut lb: LoadBalancer<RoundRobin> =
        LoadBalancer::new(Snapshot::new(BackendSet::new(), HealthMap::new()));
    assert!(matches!(lb.select(b"", 256), Err(LbError::NoHealthyBackends)));
    let snap = Snapshot::new(BackendSet::new(), HealthMap::new());
    assert!(matches!(select_from(&snap, 7, 3), Err(LbError::NoHealthyBackends)));
}

#[test]
fn select_skips_unhealthy() {
    let set = set_of(&["1.1.1.1:443", "1.0.0.1:443", "127.0.0.1:343"]);
    let order = addresses(&set);
    let mut health = HealthMap::new();
    health.mark_health(set.get(0).identity(), false);
    let snap = Snapshot::new(set, health);
    assert_eq!(select_from(&snap, 0, 3).unwrap().address(), order[1]);
    assert_eq!(select_from(&snap, 3, 3).unwrap().address(), order[1]);
    assert_eq!(select_from(&snap, 2, 3).unwrap().address(), order[2]);
    assert_eq!(select_from(&snap, 5, 2).unwrap().address(), order[2]);
    assert!(matches!(select_from(&snap, 0, 1), Err(LbError::NoHealthyBackends)));
    assert!(matches!(select_from(&snap, 0, 0), Err(LbError::NoHealthyBackends)));
}

#[test]
fn failed_refresh_keeps_snapshot() {
    let set = set_of(&["1.1.1.1:443", "1.0.0.1:443"]);
    let order = addresses(&set);
    let mut lb: LoadBalancer<RoundRobin> = LoadBalancer::new(Snapshot::new(set, HealthMap::new()));
    assert!(matches!(lb.update(Err(LbError::DiscoveryError)), Err(LbError::DiscoveryError)));
    assert_eq!(addresses(&lb.snapshot().backends), order);
    for _ in 0..4 {
        let b = lb.select(b"", 2).unwrap();
        assert!(order.contains(&b.address().to_string()));
    }
}

#[test]
fn refresh_merges_health() {
    let set = set_of(&["1.1.1.1:443", "1.0.0.1:443"]);
    let kept = Backend::new("1.1.1.1:443").unwrap().identity();
    let dropped = Backend::new("1.0.0.1:443").unwrap().identity();
    let added = Backend::new("9.9.9.9:443").unwrap().identity();
    let mut lb: LoadBalancer<RoundRobin> = LoadBalancer::new(Snapshot::new(set, HealthMap::new()));
    lb.mark_health(kept, false);
    lb.mark_health(dropped, false);
    let mut fresh = HealthMap::new();
    fresh.mark_health(kept, true);
    fresh.mark_health(added, true);
    lb.update(Ok((set_of(&["1.1.1.1:443", "9.9.9.9:443"]), fresh))).unwrap();
    let h = &lb.snapshot().health;
    assert_eq!(h.get(kept), Some(false));
    assert_eq!(h.get(added), Some(true));
    assert_eq!(h.get(dropped), None);
    assert_eq!(lb.select(b"", 2).unwrap().address(), "9.9.9.9:443");
}

#[test]
fn proxy_balancer_round_robins() {
    let set = set_of(&["1.1.1.1:443", "1.0.0.1:443", "127.0.0.1:343"]);
    let order = addresses(&set);
    let mut lb = LB(LoadBalancer::new(Snapshot::new(set, HealthMap::new())));
    for i in 0..6 {
        assert_eq!(lb.upstream_peer().unwrap().address(), order[i % 3]);
    }
}
