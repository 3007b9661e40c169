use pingora_pool::backend::Backend;
use pingora_pool::dns::{parse_ipv6, parse_resolver, parse_resolver_list, ResolverHost, DNS};
use pingora_pool::error::LbError;

#[test]
fn discovery_of_one_a_record() {
    let dns = DNS::new_with_resolve("example.com:443", vec!["8.8.8.8:53".to_string()]).unwrap();
    assert_eq!(dns.domain(), "example.com");
    assert_eq!(dns.port(), 443);
    let (set, health) = dns.discovered(&vec!["93.184.216.34".to_string()]);
    assert_eq!(set.len(), 1);
    let b = set.get(0);
    assert_eq!(b.address(), "93.184.216.34:443");
    assert_eq!(b.weight(), 1);
    assert_eq!(b.identity(), Backend::new("93.184.216.34:443").unwrap().identity());
    assert_eq!(health.get(b.identity()), Some(true));
}

#[test]
fn discovery_uses_service_port_and_skips_bad_records() {
    let dns = DNS::new_with_resolve("svc.local:8080", vec!["10.0.0.1:53".to_string()]).unwrap();
    let answers = vec![
        "10.1.0.2".to_string(),
        "".to_string(),
        "10.1.0.1".to_string(),
        "10.1.0.2".to_string(),
        "2001:db8::1".to_string(),
    ];
    let (set, health) = dns.discovered(&answers);
    assert_eq!(set.len(), 3);
    let mut got: Vec<String> = set.iter_ordered().iter().map(|b| b.address().to_string()).collect();
    got.sort();
    assert_eq!(got, vec!["10.1.0.1:8080", "10.1.0.2:8080", "[2001:db8::1]:8080"]);
    for b in set.iter_ordered() {
        assert!(health.is_healthy(b.identity()));
        assert_eq!(health.get(b.identity()), Some(true));
    }
}

#[test]
fn ipv6_answer_is_bracketed() {
    let dns = DNS::new_with_resolve("example.com:443", vec!["8.8.8.8:53".to_string()]).unwrap();
    let (set, health) = dns.discovered(&vec!["2001:db8::1".to_string()]);
    assert_eq!(set.len(), 1);
    assert_eq!(set.get(0).address(), "[2001:db8::1]:443");
    assert_eq!(health.get(set.get(0).identity()), Some(true));
}

#[test]
fn discovery_failure_is_an_error() {
    let dns = DNS::new_with_resolve("example.com", vec!["8.8.8.8:53".to_string()]).unwrap();
    assert!(matches!(dns.discover_from(None), Err(LbError::DiscoveryError)));
    let (set, _) = dns.discover_from(Some(vec!["1.2.3.4".to_string()])).unwrap();
    assert_eq!(set.get(0).address(), "1.2.3.4:80");
}

#[test]
fn service_port_defaults_to_80() {
    let dns = DNS::new("www.example.com", None).unwrap();
    assert_eq!(dns.domain(), "www.example.com");
    assert_eq!(dns.port(), 80);
    let dns = DNS::new("www.example.com:8088", None).unwrap();
    assert_eq!(dns.port(), 8088);
}

#[test]
fn fallback_resolver_when_unset_or_empty() {
    for env in [None, Some("")] {
        let dns = DNS::new("example.com", env).unwrap();
        assert_eq!(dns.resolvers().len(), 1);
        assert_eq!(dns.resolvers()[0].host, ResolverHost::V4([8, 8, 8, 8]));
        assert_eq!(dns.resolvers()[0].port, 53);
    }
}

#[test]
fn resolver_env_override_spreads_queries() {
    let dns = DNS::new("example.com", Some("10.0.0.1:53,10.0.0.2:53")).unwrap();
    assert_eq!(dns.resolvers().len(), 2);
    assert_eq!(dns.resolvers()[0].host, ResolverHost::V4([10, 0, 0, 1]));
    assert_eq!(dns.resolvers()[1].host, ResolverHost::V4([10, 0, 0, 2]));
    let mut first = 0;
    let mut second = 0;
    for _ in 0..4000 {
        let r = dns.pick_resolver();
        if r.host == ResolverHost::V4([10, 0, 0, 1]) {
            first += 1;
        } else if r.host == ResolverHost::V4([10, 0, 0, 2]) {
            second += 1;
        } else {
            panic!("unknown resolver");
        }
    }
    assert!(first > 1600 && second > 1600, "{first} {second}");
}

#[test]
fn single_resolver_is_always_used() {
    let dns = DNS::new_with_resolve("example.com", vec!["1.1.1.1:5353".to_string()]).unwrap();
    for _ in 0..10 {
        let r = dns.pick_resolver();
        assert_eq!(r.host, ResolverHost::V4([1, 1, 1, 1]));
        assert_eq!(r.port, 5353);
    }
}

#[test]
fn configuration_errors() {
    assert!(matches!(DNS::new("", None), Err(LbError::EmptyService)));
    assert!(matches!(
        DNS::new_with_resolve("", vec!["8.8.8.8:53".to_string()]),
        Err(LbError::EmptyService)
    ));
    assert!(matches!(DNS::new_with_resolve("example.com", vec![]), Err(LbError::EmptyResolverList)));
    assert!(matches!(
        DNS::new_with_resolve("example.com", vec!["8.8.8.8:53".to_string(), "resolver".to_string()]),
        Err(LbError::InvalidResolverAddress)
    ));
    assert!(matches!(
        DNS::new("example.com", Some("10.0.0.1:53,,10.0.0.2:53")),
        Err(LbError::InvalidResolverAddress)
    ));
    assert!(matches!(DNS::new("example.com:http", None), Err(LbError::InvalidAddress)));
    assert!(matches!(DNS::new(":443", None), Err(LbError::InvalidAddress)));
}

#[test]
fn resolver_address_grammar() {
    let r = parse_resolver("192.168.1.254:5353").unwrap();
    assert_eq!(r.host, ResolverHost::V4([192, 168, 1, 254]));
    assert_eq!(r.port, 5353);
    for bad in [
        "8.8.8.8", "8.8.8:53", "8.8.8.8.8:53", "256.1.1.1:53", "01.1.1.1:53", "8.8.8.8:", ":53",
        "8.8..8:53", "a.b.c.d:53", "8.8.8.8:70000",
    ] {
        assert!(matches!(parse_resolver(bad), Err(LbError::InvalidResolverAddress)), "{bad}");
    }
    let list = parse_resolver_list("1.2.3.4:53,5.6.7.8:54").unwrap();
    assert_eq!(list.len(), 2);
    assert_eq!(list[1].host, ResolverHost::V4([5, 6, 7, 8]));
    assert_eq!(list[1].port, 54);
}

#[test]
fn ipv6_resolvers_are_accepted() {
    let r = parse_resolver("[2001:4860:4860::8888]:53").unwrap();
    assert_eq!(r.host, ResolverHost::V6("2001:4860:4860::8888".to_string()));
    assert_eq!(r.port, 53);
    let dns = DNS::new_with_resolve(
        "example.com",
        vec!["[2001:4860:4860::8888]:53".to_string(), "8.8.8.8:53".to_string()],
    )
    .unwrap();
    assert_eq!(dns.resolvers().len(), 2);
    assert_eq!(dns.resolvers()[1].host, ResolverHost::V4([8, 8, 8, 8]));
    let dns = DNS::new("example.com", Some("[::1]:5353,10.0.0.1:53")).unwrap();
    assert_eq!(dns.resolvers()[0].host, ResolverHost::V6("::1".to_string()));
    assert_eq!(dns.resolvers()[0].port, 5353);
}

#[test]
fn ipv6_grammar() {
    for good in [
        "1:2:3:4:5:6:7:8",
        "::",
        "::1",
        "1::",
        "1::2",
        "fe80::1:2",
        "2001:DB8:0:0:0:0:0:1",
        "1:2:3:4:5:6:7::",
        "::2:3:4:5:6:7:8",
        "1:2:3::5:6:7:8",
    ] {
        assert!(parse_ipv6(good), "{good}");
    }
    for bad in [
        "",
        ":",
        "1:2:3:4:5:6:7",
        "1:2:3:4:5:6:7:8:9",
        "1::2::3",
        ":::",
        "12345::1",
        "g::1",
        "1:2:3:4::5:6:7:8",
        ":1:2:3:4:5:6:7",
        "1:2:3:4:5:6:7:",
    ] {
        assert!(!parse_ipv6(bad), "{bad}");
    }
    for bad in ["[1::2]", "[1::2:53", "1::2]:53", "[]:53", "[1::2::3]:53"] {
        assert!(matches!(parse_resolver(bad), Err(LbError::InvalidResolverAddress)), "{bad}");
    }
}
