use wolf_gang::actor::{ActorID, Health};

#[test]
fn health_starts_full() {
    let h = Health::new(10);
    assert_eq!(h.get_max_health(), 10);
    assert_eq!(format!("{:?}", h), "Health { max_health: 10, health: 10 }");
}

#[test]
fn health_is_clamped_between_zero_and_the_maximum() {
    let mut h = Health::new(10);
    h.add_health(-3);
    assert_eq!(format!("{:?}", h), "Health { max_health: 10, health: 7 }");
    h.add_health(-20);
    assert_eq!(format!("{:?}", h), "Health { max_health: 10, health: 0 }");
    h.add_health(4);
    assert_eq!(format!("{:?}", h), "Health { max_health: 10, health: 4 }");
    h.add_health(50);
    assert_eq!(format!("{:?}", h), "Health { max_health: 10, health: 10 }");
    assert_eq!(h.get_max_health(), 10);
}

#[test]
fn actor_ids_are_random() {
    let a = ActorID::new();
    let b = ActorID::new();
    assert_ne!(a.val(), b.val());
    assert_eq!(a.val(), a.val());
    // A version 4 uuid carries its version in bits 76..80.
    assert_eq!((a.val() >> 76) & 0xf, 4);
    // ... and the RFC 4122 variant (binary 10) in bits 62..64.
    assert_eq!((a.val() >> 62) & 0x3, 2);
    assert_eq!((b.val() >> 62) & 0x3, 2);
}
