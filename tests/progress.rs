use nexmark_state::progress::{Location, Port, Source, Target};

#[test]
fn locations_know_their_side() {
    let t = Location::new_target(3, 1);
    let s = Location::new_source(3, 1);
    assert!(t.is_target() && !t.is_source());
    assert!(s.is_source() && !s.is_target());
    assert_eq!(t.port, Port::Target(1));
    assert_eq!(Location::from(Target { index: 2, port: 0 }), Location::new_target(2, 0));
    assert_eq!(Location::from(Source { index: 2, port: 0 }), Location::new_source(2, 0));
    assert_ne!(t, s);
}
