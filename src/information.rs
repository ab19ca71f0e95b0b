use vstd::prelude::*;
use crate::error::PlayerID;
use crate::secret_role::SecretRole;

verus! {

/// A fact about the players, entered by hand or deduced from the history.
#[derive(Clone, Debug, PartialEq, Eq)]
pub enum Information {
    ConfirmedNotHitler(PlayerID),
    PolicyConflict(PlayerID, PlayerID),
    LiberalInvestigation { investigator: PlayerID, investigatee: PlayerID },
    FascistInvestigation { investigator: PlayerID, investigatee: PlayerID },
    HardFact(PlayerID, SecretRole),
    AtLeastOneFascist(Vec<PlayerID>),
}

/// A view of a fact with its player list as a sequence.
pub enum InformationView {
    ConfirmedNotHitler(PlayerID),
    PolicyConflict(PlayerID, PlayerID),
    LiberalInvestigation { investigator: PlayerID, investigatee: PlayerID },
    FascistInvestigation { investigator: PlayerID, investigatee: PlayerID },
    HardFact(PlayerID, SecretRole),
    AtLeastOneFascist(Seq<PlayerID>),
}

impl View for Information {
    type V = InformationView;

    open spec fn view(&self) -> InformationView {
        match self {
            Information::ConfirmedNotHitler(p) => InformationView::ConfirmedNotHitler(*p),
            Information::PolicyConflict(l, r) => InformationView::PolicyConflict(*l, *r),
            Information::LiberalInvestigation { investigator, investigatee } =>
                InformationView::LiberalInvestigation { investigator: *investigator, investigatee: *investigatee },
            Information::FascistInvestigation { investigator, investigatee } =>
                InformationView::FascistInvestigation { investigator: *investigator, investigatee: *investigatee },
            Information::HardFact(p, r) => InformationView::HardFact(*p, *r),
            Information::AtLeastOneFascist(v) => InformationView::AtLeastOneFascist(v@),
        }
    }
}

impl DeepView for Information {
    type V = InformationView;

    open spec fn deep_view(&self) -> InformationView {
        self@
    }
}

/// The players a fact names, in the order they are looked up.
pub open spec fn info_players(i: InformationView) -> Seq<PlayerID> {
    match i {
        InformationView::ConfirmedNotHitler(p) => seq![p],
        InformationView::PolicyConflict(l, r) => seq![l, r],
        InformationView::LiberalInvestigation { investigator, investigatee } => seq![investigator, investigatee],
        InformationView::FascistInvestigation { investigator, investigatee } => seq![investigator, investigatee],
        InformationView::HardFact(p, _) => seq![p],
        InformationView::AtLeastOneFascist(v) => v,
    }
}

impl Information {
    /// A copy of the fact.
    pub fn duplicate(&self) -> (r: Information)
        ensures
            r@ == self@,
    {
        match self {
            Information::ConfirmedNotHitler(p) => Information::ConfirmedNotHitler(*p),
            Information::PolicyConflict(l, r) => Information::PolicyConflict(*l, *r),
            Information::LiberalInvestigation { investigator, investigatee } =>
                Information::LiberalInvestigation { investigator: *investigator, investigatee: *investigatee },
            Information::FascistInvestigation { investigator, investigatee } =>
                Information::FascistInvestigation { investigator: *investigator, investigatee: *investigatee },
            Information::HardFact(p, r) => Information::HardFact(*p, *r),
            Information::AtLeastOneFascist(v) => {
                let mut c: Vec<PlayerID> = Vec::new();
                let mut i: usize = 0;
                while i < v.len()
                    invariant
                        i <= v@.len(),
                        c@ == v@.subrange(0, i as int),
                    decreases v@.len() - i,
                {
                    c.push(v[i]);
                    i = i + 1;
                    assert(c@ =~= v@.subrange(0, i as int));
                }
                assert(v@.subrange(0, v@.len() as int) =~= v@);
                Information::AtLeastOneFascist(c)
            },
        }
    }
}

} // verus!
