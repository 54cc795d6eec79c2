use crate::common::EntryId;
use crate::targeting::Targeting;
use vstd::prelude::*;

verus! {

/// The window in which a card's declared effect fires.
#[derive(Clone, Copy, Debug, PartialEq, Eq, Structural)]
pub enum WindowsTag {
    Nothing,
    OnSelfStart,
    OnOpponentStart,
    OnStart,
    OnCost,
    OnSet,
    DuringMain,
    OnAttack,
}

/// A declared condition on an effect; only the trivial one exists so far.
#[derive(Clone, Copy, Debug, PartialEq, Eq, Structural)]
pub enum Condition {
    Nothing,
}

/// One elementary mutation of the match state.
#[derive(Clone, Copy, Debug, PartialEq, Eq, Structural)]
pub enum Action {
    Nothing,
    /// Move up to the given number of cards from the target's deck tail to hand.
    Draw(usize),
    /// Place a card into the named board slot, clearing it from the cost area.
    SetCard { card_id: EntryId, zone_id: EntryId },
    /// Deal damage to the targeted player, absorbed by the point pool near zero hp.
    Damage(usize),
    /// Add banked points to the targeted player's pool.
    AddRealPoint(usize),
    /// Spend banked points; silently refused if the pool is short.
    UseRealPoint(usize),
    /// Empty the named slot on both boards into the owners' graveyards.
    FightDestroy { zone_id: EntryId },
    /// Raise a card's per-turn attack counter.
    AttackCounterUp(EntryId, usize),
    /// Lower a card's per-turn attack counter, floored at zero.
    AttackCountDown(EntryId, usize),
}

/// A pending entry of the effect queue: either one action with its source and
/// target, or a composite bundle of further entries.
#[derive(Debug)]
pub enum DoEffect {
    Nothing,
    Action { source: Targeting, targeting: Targeting, action: Action },
    /// Children are appended to the back of the queue (resolve after everything pending).
    AndAction(Vec<DoEffect>),
    /// A choose-one composite; no choice protocol drives it yet, so it resolves to nothing.
    OrAction(Vec<DoEffect>),
}

/// Mathematical shape of a `DoEffect`: the same tree with `Seq` children.
pub ghost enum EffTree {
    Nothing,
    Action { source: Targeting, targeting: Targeting, action: Action },
    And(Seq<EffTree>),
    Or(Seq<EffTree>),
}

pub open spec fn eff_tree(e: DoEffect) -> EffTree
    decreases e,
{
    match e {
        DoEffect::Nothing => EffTree::Nothing,
        DoEffect::Action { source, targeting, action } => EffTree::Action {
            source,
            targeting,
            action,
        },
        DoEffect::AndAction(es) => EffTree::And(eff_tree_seq(es@)),
        DoEffect::OrAction(es) => EffTree::Or(eff_tree_seq(es@)),
    }
}

pub open spec fn eff_tree_seq(s: Seq<DoEffect>) -> Seq<EffTree>
    decreases s,
{
    if s.len() <= 0 {
        Seq::empty()
    } else {
        seq![eff_tree(s[0])] + eff_tree_seq(s.subrange(1, s.len() as int))
    }
}

pub proof fn lemma_eff_tree_seq(s: Seq<DoEffect>)
    ensures
        eff_tree_seq(s).len() == s.len(),
        forall|i: int| 0 <= i < s.len() ==> eff_tree_seq(s)[i] == eff_tree(s[i]),
    decreases s.len(),
{
    if s.len() > 0 {
        lemma_eff_tree_seq(s.subrange(1, s.len() as int));
    }
}

impl View for DoEffect {
    type V = EffTree;

    open spec fn view(&self) -> EffTree {
        eff_tree(*self)
    }
}

/// The model of a whole pending-effect queue, front first.
pub open spec fn effs_model(q: Seq<DoEffect>) -> Seq<EffTree> {
    Seq::new(q.len(), |i: int| eff_tree(q[i]))
}

/// The two ways of mapping a list of effects to trees agree.
pub proof fn lemma_effs_model(s: Seq<DoEffect>)
    ensures
        effs_model(s) == eff_tree_seq(s),
{
    lemma_eff_tree_seq(s);
    assert(effs_model(s) =~= eff_tree_seq(s));
}

pub(crate) fn clone_effect_list(es: &Vec<DoEffect>) -> (r: Vec<DoEffect>)
    ensures
        r@.len() == es@.len(),
        forall|i: int| 0 <= i < es@.len() ==> #[trigger] eff_tree(r@[i]) == eff_tree(es@[i]),
    decreases es@,
{
    let mut r: Vec<DoEffect> = Vec::new();
    let mut i: usize = 0;
    while i < es.len()
        invariant
            0 <= i <= es@.len(),
            r@.len() == i,
            forall|j: int| 0 <= j < i ==> #[trigger] eff_tree(r@[j]) == eff_tree(es@[j]),
        decreases es@.len() - i,
    {
        r.push(clone_effect(&es[i]));
        i = i + 1;
    }
    r
}

fn clone_effect(e: &DoEffect) -> (r: DoEffect)
    ensures
        r@ == e@,
    decreases *e,
{
    match e {
        DoEffect::Nothing => DoEffect::Nothing,
        DoEffect::Action { source, targeting, action } => DoEffect::Action {
            source: *source,
            targeting: *targeting,
            action: *action,
        },
        DoEffect::AndAction(es) => {
            let cl = clone_effect_list(es);
            proof {
                lemma_eff_tree_seq(cl@);
                lemma_eff_tree_seq(es@);
                assert(eff_tree_seq(cl@) =~= eff_tree_seq(es@));
            }
            DoEffect::AndAction(cl)
        },
        DoEffect::OrAction(es) => {
            let cl = clone_effect_list(es);
            proof {
                lemma_eff_tree_seq(cl@);
                lemma_eff_tree_seq(es@);
                assert(eff_tree_seq(cl@) =~= eff_tree_seq(es@));
            }
            DoEffect::OrAction(cl)
        },
    }
}

impl Clone for DoEffect {
    fn clone(&self) -> (r: Self)
        ensures
            r@ == self@,
    {
        clone_effect(self)
    }
}

/// A card-declared reactive effect: which window it fires in and what it does.
#[derive(Debug)]
pub struct Effect {
    pub id: String,
    pub windows_tag: WindowsTag,
    pub condition: Condition,
    pub do_effect: DoEffect,
}

/// Mathematical shape of an `Effect`.
pub ghost struct EffectModel {
    pub id: Seq<char>,
    pub windows_tag: WindowsTag,
    pub condition: Condition,
    pub do_effect: EffTree,
}

impl View for Effect {
    type V = EffectModel;

    open spec fn view(&self) -> EffectModel {
        EffectModel {
            id: self.id@,
            windows_tag: self.windows_tag,
            condition: self.condition,
            do_effect: self.do_effect@,
        }
    }
}

impl Clone for Effect {
    fn clone(&self) -> (r: Self)
        ensures
            r@ == self@,
    {
        Effect {
            id: self.id.clone(),
            windows_tag: self.windows_tag,
            condition: self.condition,
            do_effect: self.do_effect.clone(),
        }
    }
}

/// Assembles an `Effect` step by step, as the catalog authoring surface drives it.
#[derive(Debug)]
pub struct EffectBuilder {
    id: String,
    windows_tag: WindowsTag,
    condition: Condition,
    do_effect: DoEffect,
}

impl View for EffectBuilder {
    type V = EffectModel;

    closed spec fn view(&self) -> EffectModel {
        EffectModel {
            id: self.id@,
            windows_tag: self.windows_tag,
            condition: self.condition,
            do_effect: self.do_effect@,
        }
    }
}

impl EffectBuilder {
    pub fn new(id: String) -> (r: EffectBuilder)
        ensures
            r@ == (EffectModel {
                id: id@,
                windows_tag: WindowsTag::Nothing,
                condition: Condition::Nothing,
                do_effect: EffTree::Nothing,
            }),
    {
        EffectBuilder {
            id,
            windows_tag: WindowsTag::Nothing,
            condition: Condition::Nothing,
            do_effect: DoEffect::Nothing,
        }
    }

    /// Picks the window the effect will fire in.
    pub fn set_window(&mut self, tag: WindowsTag)
        ensures
            final(self)@ == (EffectModel { windows_tag: tag, ..old(self)@ }),
    {
        self.windows_tag = tag;
    }

    /// Declares the effect's action: the owner draws the given number of cards.
    pub fn set_draw(&mut self, num: usize)
        ensures
            final(self)@ == (EffectModel {
                do_effect: EffTree::Action {
                    source: Targeting::Nothing,
                    targeting: Targeting::TargetPlayerSelf,
                    action: Action::Draw(num),
                },
                ..old(self)@
            }),
    {
        self.do_effect = DoEffect::Action {
            source: Targeting::Nothing,
            targeting: Targeting::TargetPlayerSelf,
            action: Action::Draw(num),
        };
    }

    pub fn build(&self) -> (r: Effect)
        ensures
            r@ == self@,
    {
        Effect {
            id: self.id.clone(),
            windows_tag: self.windows_tag,
            condition: self.condition,
            do_effect: self.do_effect.clone(),
        }
    }
}

} // verus!
