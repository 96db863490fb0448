use tubular::family::{self, FamilyAction, AF_INET, AF_INET6, IPV4_SLOT, IPV6_SLOT};
use tubular::sk_lookup::{assign_verdict, SK_DROP, SK_PASS};

#[test]
fn families_go_to_their_own_slot() {
    assert_eq!(family::on_lookup(443, AF_INET), FamilyAction::LookupSlot { slot: IPV4_SLOT });
    assert_eq!(family::on_lookup(443, AF_INET6), FamilyAction::LookupSlot { slot: IPV6_SLOT });
    assert_eq!(IPV4_SLOT, 0);
    assert_eq!(IPV6_SLOT, 1);
}

#[test]
fn other_ports_and_families_pass() {
    assert_eq!(family::on_lookup(22, AF_INET), FamilyAction::Verdict(SK_PASS));
    assert_eq!(family::on_lookup(443, 1), FamilyAction::Verdict(SK_PASS));
    assert_eq!(family::on_lookup(8443, AF_INET6), FamilyAction::Verdict(SK_PASS));
}

#[test]
fn empty_slot_or_failed_assign_drops() {
    assert_eq!(family::on_socket(false), FamilyAction::Verdict(SK_DROP));
    assert_eq!(family::on_socket(true), FamilyAction::AssignSocket);
    assert_eq!(family::on_assign(0), FamilyAction::Verdict(SK_PASS));
    assert_eq!(family::on_assign(-2), FamilyAction::Verdict(SK_DROP));
    assert_eq!(assign_verdict(1), SK_DROP);
    assert_eq!(family::panic(), FamilyAction::Spin);
}
