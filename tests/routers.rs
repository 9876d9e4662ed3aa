use clips::router::{READ, SIGNAL, WRITE};
use clips::{character_or_none, router_slots, CLIPSEnvironment, CLIPSError, RouterSupport};

#[test]
fn write_only_router_gets_no_read_callbacks() {
    let slots = router_slots(RouterSupport::from_bits(WRITE));
    assert!(slots.query && slots.exit && slots.write);
    assert!(!slots.read);
    assert!(!slots.unread);
}

#[test]
fn reading_router_gets_read_and_unread() {
    let slots = router_slots(RouterSupport::from_bits(READ | SIGNAL));
    assert!(slots.read && slots.unread && !slots.write);
}

#[test]
fn no_character_is_minus_one() {
    assert_eq!(character_or_none(None), -1);
    assert_eq!(character_or_none(Some(65)), 65);
}

#[test]
fn signals_go_to_signalling_routers_in_order() {
    let mut env = CLIPSEnvironment::new(0);
    assert!(env.add_router("a".to_string(), RouterSupport::from_bits(WRITE | SIGNAL)).is_ok());
    assert!(env.add_router("b".to_string(), RouterSupport::from_bits(WRITE)).is_ok());
    assert!(env.add_router("c".to_string(), RouterSupport::from_bits(SIGNAL)).is_ok());
    assert_eq!(env.send_routers_signal(), vec![0, 2]);
    assert!(matches!(
        env.add_router("a".to_string(), RouterSupport::from_bits(READ)),
        Err(CLIPSError::AddRouter)
    ));
}

#[test]
fn a_refused_router_registration_is_taken_back() {
    let mut env = CLIPSEnvironment::new(0);
    assert!(env.add_router("a".to_string(), RouterSupport::from_bits(SIGNAL)).is_ok());
    assert!(env.add_router("b".to_string(), RouterSupport::from_bits(SIGNAL)).is_ok());
    env.pop_router();
    assert_eq!(env.send_routers_signal(), vec![0]);
    assert!(env.add_router("b".to_string(), RouterSupport::from_bits(WRITE)).is_ok());
}
