//! Who plays which part when two parties set up a garbled-circuit session.

use vstd::prelude::*;

verus! {

/// The two parties of a session.
#[derive(Clone, Copy, PartialEq, Eq, Structural, Debug)]
pub enum Role {
    Alice,
    Bob,
}

/// The part a party plays in the dual-execution protocol.
#[derive(Clone, Copy, PartialEq, Eq, Structural, Debug)]
pub enum DeapRole {
    Leader,
    Follower,
}

/// One end of an oblivious-transfer channel.
#[derive(Clone, Copy, PartialEq, Eq, Structural, Debug)]
pub enum OtEnd {
    Sender,
    Receiver,
}

/// Alice leads and Bob follows.
pub open spec fn spec_deap_role(role: Role) -> DeapRole {
    match role {
        Role::Alice => DeapRole::Leader,
        Role::Bob => DeapRole::Follower,
    }
}

/// The order in which a party sets up (and preprocesses) its two OT ends:
/// Alice her sender first, Bob his receiver first.
pub open spec fn spec_ot_setup_order(role: Role) -> (OtEnd, OtEnd) {
    match role {
        Role::Alice => (OtEnd::Sender, OtEnd::Receiver),
        Role::Bob => (OtEnd::Receiver, OtEnd::Sender),
    }
}

/// The dual-execution role of a party.
pub fn deap_role(role: Role) -> (res: DeapRole)
    ensures
        res == spec_deap_role(role),
{
    match role {
        Role::Alice => DeapRole::Leader,
        Role::Bob => DeapRole::Follower,
    }
}

/// The order in which a party sets up its OT sender and receiver.
pub fn ot_setup_order(role: Role) -> (res: (OtEnd, OtEnd))
    ensures
        res == spec_ot_setup_order(role),
{
    match role {
        Role::Alice => (OtEnd::Sender, OtEnd::Receiver),
        Role::Bob => (OtEnd::Receiver, OtEnd::Sender),
    }
}

/// The two parties' setups pair up: at each step one party sets up an OT
/// sender while the other sets up a receiver, and each party sets up both of
/// its ends; and exactly one of them leads.
pub proof fn lemma_setup_pairs_up()
    ensures
        spec_ot_setup_order(Role::Alice).0 != spec_ot_setup_order(Role::Bob).0,
        spec_ot_setup_order(Role::Alice).1 != spec_ot_setup_order(Role::Bob).1,
        forall|r: Role| #[trigger] spec_ot_setup_order(r).0 != spec_ot_setup_order(r).1,
        spec_deap_role(Role::Alice) != spec_deap_role(Role::Bob),
{
}

} // verus!
