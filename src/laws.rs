//! Laws that relate the semantics of one framework.

use crate::af::AF;
use crate::semantics::{
    accepted, attacks_on, complete_at, is_complete, strict_subset, Acceptability, Semantics,
};
use vstd::prelude::*;

verus! {

/// Every stable labelling of a framework is one of its complete labellings.
pub proof fn stable_within_complete(af: AF)
    ensures
        af.stable_labellings().subset_of(af.complete_labellings()),
{
}

/// Without attacks, the only complete labelling accepts every argument.
pub proof fn no_attacks_accept_all(af: AF)
    requires
        af.attack_seq().len() == 0,
    ensures
        af.complete_labellings() == set![Seq::new(af.arg_count(), |i: int| Acceptability::IN)],
{
    let n = af.arg_count();
    let all_in = Seq::new(n, |i: int| Acceptability::IN);
    assert forall|l: Seq<Acceptability>| #[trigger] af.complete_labellings().contains(l) <==> l == all_in by {
        if is_complete(n, af.attack_seq(), l) {
            assert forall|i: int| 0 <= i < n implies l[i] == all_in[i] by {
                assert(complete_at(af.attack_seq(), l, i));
            }
            assert(l =~= all_in);
        }
        if l == all_in {
            assert forall|i: int| 0 <= i < n implies #[trigger] complete_at(af.attack_seq(), l, i) by {}
        }
    }
    assert(af.complete_labellings() =~= set![all_in]);
}

/// An argument attacked by itself and by nothing else is undecided in every
/// complete labelling.
pub proof fn self_attacker_undecided(af: AF, i: int)
    requires
        0 <= i < af.arg_count(),
        forall|j: int| #[trigger] attacks_on(af.attack_seq(), j, i) <==> j == i,
    ensures
        forall|l: Seq<Acceptability>| #[trigger]
            af.complete_labellings().contains(l) ==> l[i] == Acceptability::UNDEC,
{
    assert forall|l: Seq<Acceptability>| #[trigger]
        af.complete_labellings().contains(l) implies l[i] == Acceptability::UNDEC by {
        assert(complete_at(af.attack_seq(), l, i));
        assert(attacks_on(af.attack_seq(), i, i));
    }
}

/// The preferred labellings are exactly the complete labellings whose
/// accepted arguments no complete labelling strictly extends.
pub proof fn preferred_are_maximal_complete(af: AF)
    ensures
        forall|l: Seq<Acceptability>| #[trigger]
            af.preferred_labellings().contains(l) <==> af.complete_labellings().contains(l)
                && forall|l2: Seq<Acceptability>| #[trigger]
                af.complete_labellings().contains(l2) ==> !strict_subset(accepted(l), accepted(l2)),
{
    assert forall|l: Seq<Acceptability>| #[trigger] af.preferred_labellings().contains(l) implies forall|
        l2: Seq<Acceptability>,
    | #[trigger] af.complete_labellings().contains(l2) ==> !strict_subset(accepted(l), accepted(l2)) by {
        assert forall|l2: Seq<Acceptability>| #[trigger] af.complete_labellings().contains(l2) implies !strict_subset(
            accepted(l),
            accepted(l2),
        ) by {
            assert(is_complete(af.arg_count(), af.attack_seq(), l2));
        }
    }
    assert forall|l: Seq<Acceptability>|
        af.complete_labellings().contains(l) && (forall|l2: Seq<Acceptability>| #[trigger]
            af.complete_labellings().contains(l2) ==> !strict_subset(accepted(l), accepted(l2))) implies #[trigger] af.preferred_labellings().contains(l) by {
        assert forall|l2: Seq<Acceptability>| #[trigger] is_complete(af.arg_count(), af.attack_seq(), l2) implies !strict_subset(
            accepted(l),
            accepted(l2),
        ) by {
            assert(af.complete_labellings().contains(l2));
        }
    }
}

} // verus!
