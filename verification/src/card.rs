use crate::common::{CardInfoId, EntryId, IdGenerator};
use crate::effect::{Effect, EffectModel};
use crate::lua_api::{cat_find, lemma_cat_find_skip, LuaApi};
use crate::player::PlayerDesk;
use vstd::prelude::*;

verus! {

/// An immutable, catalog-owned card definition.
#[derive(Debug)]
pub struct CardInfo {
    pub id: CardInfoId,
    pub name: String,
    pub cost: usize,
    pub ack: usize,
    pub effects: Vec<Effect>,
}

/// Mathematical shape of a `CardInfo`.
pub ghost struct CardInfoModel {
    pub id: Seq<char>,
    pub name: Seq<char>,
    pub cost: usize,
    pub ack: usize,
    pub effects: Seq<EffectModel>,
}

pub open spec fn effects_model(s: Seq<Effect>) -> Seq<EffectModel> {
    Seq::new(s.len(), |i: int| s[i]@)
}

impl View for CardInfo {
    type V = CardInfoModel;

    open spec fn view(&self) -> CardInfoModel {
        CardInfoModel {
            id: self.id@,
            name: self.name@,
            cost: self.cost,
            ack: self.ack,
            effects: effects_model(self.effects@),
        }
    }
}

pub(crate) fn clone_effects(es: &Vec<Effect>) -> (r: Vec<Effect>)
    ensures
        r@.len() == es@.len(),
        forall|i: int| 0 <= i < es@.len() ==> #[trigger] r@[i]@ == es@[i]@,
{
    let mut r: Vec<Effect> = Vec::new();
    let mut i: usize = 0;
    while i < es.len()
        invariant
            0 <= i <= es@.len(),
            r@.len() == i,
            forall|j: int| 0 <= j < i ==> #[trigger] r@[j]@ == es@[j]@,
        decreases es@.len() - i,
    {
        r.push(es[i].clone());
        i = i + 1;
    }
    r
}

impl Clone for CardInfo {
    fn clone(&self) -> (r: Self)
        ensures
            r@ == self@,
    {
        let r = CardInfo {
            id: self.id.clone(),
            name: self.name.clone(),
            cost: self.cost,
            ack: self.ack,
            effects: clone_effects(&self.effects),
        };
        proof {
            assert(effects_model(r.effects@) =~= effects_model(self.effects@));
        }
        r
    }
}

/// Assembles a `CardInfo` step by step, as the catalog authoring surface drives it.
#[derive(Debug)]
pub struct CardInfoBuilder {
    id: CardInfoId,
    name: String,
    cost: usize,
    ack: usize,
    effects: Vec<Effect>,
}

impl View for CardInfoBuilder {
    type V = CardInfoModel;

    closed spec fn view(&self) -> CardInfoModel {
        CardInfoModel {
            id: self.id@,
            name: self.name@,
            cost: self.cost,
            ack: self.ack,
            effects: effects_model(self.effects@),
        }
    }
}

impl CardInfoBuilder {
    pub fn new(id: String) -> (r: Self)
        ensures
            r@ == (CardInfoModel {
                id: id@,
                name: Seq::<char>::empty(),
                cost: 0,
                ack: 0,
                effects: Seq::<EffectModel>::empty(),
            }),
    {
        let r = CardInfoBuilder { id, name: String::new(), cost: 0, ack: 0, effects: Vec::new() };
        proof {
            assert(effects_model(r.effects@) =~= Seq::<EffectModel>::empty());
        }
        r
    }

    pub fn set_name(&mut self, name: String)
        ensures
            final(self)@ == (CardInfoModel { name: name@, ..old(self)@ }),
    {
        self.name = name;
    }

    pub fn set_cost(&mut self, cost: usize)
        ensures
            final(self)@ == (CardInfoModel { cost, ..old(self)@ }),
    {
        self.cost = cost;
    }

    pub fn set_ack(&mut self, ack: usize)
        ensures
            final(self)@ == (CardInfoModel { ack, ..old(self)@ }),
    {
        self.ack = ack;
    }

    pub fn add_effect(&mut self, effect: Effect)
        ensures
            final(self)@ == (CardInfoModel {
                effects: old(self)@.effects.push(effect@),
                ..old(self)@
            }),
    {
        let ghost before = self@;
        self.effects.push(effect);
        proof {
            assert(effects_model(self.effects@) =~= before.effects.push(effect@));
        }
    }

    pub fn build(self) -> (r: CardInfo)
        ensures
            r@ == self@,
    {
        CardInfo {
            id: self.id,
            name: self.name,
            cost: self.cost,
            ack: self.ack,
            effects: self.effects,
        }
    }
}

/// One card instance of a match: an entry id, its definition, and its per-turn
/// combat counters.
#[derive(Debug)]
pub struct Card {
    pub entry_id: EntryId,
    pub card_info: CardInfo,
    /// Attacks this card has made in the current turn.
    pub attack_counter: usize,
    /// Attacks this card may make per turn.
    pub attack_max: usize,
}

/// Mathematical shape of a `Card`.
pub ghost struct CardModel {
    pub entry_id: EntryId,
    pub info: CardInfoModel,
    pub attack_counter: usize,
    pub attack_max: usize,
}

impl View for Card {
    type V = CardModel;

    open spec fn view(&self) -> CardModel {
        CardModel {
            entry_id: self.entry_id,
            info: self.card_info@,
            attack_counter: self.attack_counter,
            attack_max: self.attack_max,
        }
    }
}

impl Clone for Card {
    fn clone(&self) -> (r: Self)
        ensures
            r@ == self@,
    {
        Card {
            entry_id: self.entry_id,
            card_info: self.card_info.clone(),
            attack_counter: self.attack_counter,
            attack_max: self.attack_max,
        }
    }
}

pub open spec fn cards_model(s: Seq<Card>) -> Seq<CardModel> {
    Seq::new(s.len(), |i: int| s[i]@)
}

/// The instances created for one deck list: one card per listed id that the
/// catalog knows, with fresh entry ids handed out in order. Unknown ids are
/// skipped and consume no entry id.
pub open spec fn spec_init_cards(
    desk: Seq<Seq<char>>,
    cat: Seq<CardInfoModel>,
    next: int,
) -> Seq<CardModel>
    decreases desk.len(),
{
    if desk.len() <= 0 {
        Seq::empty()
    } else {
        match cat_find(cat, desk[0]) {
            Option::Some(info) => seq![
                CardModel {
                    entry_id: (next + 1) as usize,
                    info,
                    attack_counter: 0,
                    attack_max: 1,
                },
            ] + spec_init_cards(desk.subrange(1, desk.len() as int), cat, next + 1),
            Option::None => spec_init_cards(desk.subrange(1, desk.len() as int), cat, next),
        }
    }
}

/// How many ids of the deck list the catalog knows.
pub open spec fn spec_found_count(desk: Seq<Seq<char>>, cat: Seq<CardInfoModel>) -> int
    decreases desk.len(),
{
    if desk.len() <= 0 {
        0
    } else {
        (if cat_find(cat, desk[0]) is Some {
            1int
        } else {
            0int
        }) + spec_found_count(desk.subrange(1, desk.len() as int), cat)
    }
}

pub proof fn lemma_found_count_bound(desk: Seq<Seq<char>>, cat: Seq<CardInfoModel>)
    ensures
        0 <= spec_found_count(desk, cat) <= desk.len(),
    decreases desk.len(),
{
    if desk.len() > 0 {
        lemma_found_count_bound(desk.subrange(1, desk.len() as int), cat);
    }
}

impl Card {
    /// Creates the card instances for one player's deck list.
    pub fn init(player_desk: &PlayerDesk, lua_api: &LuaApi, id_generator: &mut IdGenerator) -> (r:
        Vec<Card>)
        requires
            old(id_generator).0 + player_desk@.len() <= usize::MAX,
        ensures
            cards_model(r@) == spec_init_cards(player_desk@, lua_api@, old(id_generator).0 as int),
            final(id_generator).0 == old(id_generator).0 + spec_found_count(
                player_desk@,
                lua_api@,
            ),
    {
        let ghost desk_full = player_desk@;
        let ghost cat = lua_api@;
        let ghost start = id_generator.0 as int;
        let mut res: Vec<Card> = Vec::new();
        let mut i: usize = 0;
        proof {
            assert(desk_full.subrange(0, desk_full.len() as int) =~= desk_full);
            assert(cards_model(res@) =~= Seq::<CardModel>::empty());
            assert(cards_model(res@) + spec_init_cards(desk_full, cat, start) =~= spec_init_cards(
                desk_full,
                cat,
                start,
            ));
        }
        while i < player_desk.0.len()
            invariant
                0 <= i <= desk_full.len(),
                player_desk@ == desk_full,
                lua_api@ == cat,
                desk_full.len() == player_desk.0@.len(),
                start + desk_full.len() <= usize::MAX,
                start <= id_generator.0 <= start + i,
                spec_init_cards(desk_full, cat, start) == cards_model(res@) + spec_init_cards(
                    desk_full.subrange(i as int, desk_full.len() as int),
                    cat,
                    id_generator.0 as int,
                ),
                id_generator.0 + spec_found_count(
                    desk_full.subrange(i as int, desk_full.len() as int),
                    cat,
                ) == start + spec_found_count(desk_full, cat),
            decreases desk_full.len() - i,
        {
            let ghost suffix = desk_full.subrange(i as int, desk_full.len() as int);
            let ghost suffix1 = desk_full.subrange(i + 1, desk_full.len() as int);
            let ghost g = id_generator.0 as int;
            proof {
                assert(suffix.len() > 0);
                assert(suffix[0] == desk_full[i as int]);
                assert(suffix.subrange(1, suffix.len() as int) =~= suffix1);
                assert(player_desk.0@[i as int]@ == desk_full[i as int]);
            }
            let id = &player_desk.0[i];
            match lua_api.get(id) {
                Option::Some(card_info) => {
                    let entry_id = id_generator.next();
                    let card = Card {
                        entry_id,
                        card_info: card_info.clone(),
                        attack_counter: 0,
                        attack_max: 1,
                    };
                    let ghost old_models = cards_model(res@);
                    let ghost card_model = card@;
                    res.push(card);
                    proof {
                        assert(cards_model(res@) =~= old_models.push(card_model));
                        assert(spec_init_cards(suffix, cat, g) == seq![card_model]
                            + spec_init_cards(suffix1, cat, g + 1));
                        assert(old_models.push(card_model) + spec_init_cards(suffix1, cat, g + 1)
                            =~= old_models + spec_init_cards(suffix, cat, g));
                    }
                },
                Option::None => {
                    proof {
                        assert(spec_init_cards(suffix, cat, g) == spec_init_cards(
                            suffix1,
                            cat,
                            g,
                        ));
                    }
                },
            }
            i = i + 1;
        }
        proof {
            assert(desk_full.subrange(desk_full.len() as int, desk_full.len() as int) =~= Seq::<
                Seq<char>,
            >::empty());
            assert(cards_model(res@) + Seq::<CardModel>::empty() =~= cards_model(res@));
        }
        res
    }
}


/// The entry ids a deck list's instances receive: consecutive values above
/// `next`, strictly increasing along the list.
pub proof fn lemma_init_cards_ids(desk: Seq<Seq<char>>, cat: Seq<CardInfoModel>, next: int)
    requires
        0 <= next,
        next + desk.len() <= usize::MAX,
    ensures
        forall|k: int|
            0 <= k < spec_init_cards(desk, cat, next).len() ==> next < #[trigger] spec_init_cards(
                desk,
                cat,
                next,
            )[k].entry_id <= next + spec_found_count(desk, cat),
        forall|k1: int, k2: int|
            0 <= k1 < k2 < spec_init_cards(desk, cat, next).len() ==> #[trigger] spec_init_cards(
                desk,
                cat,
                next,
            )[k1].entry_id < #[trigger] spec_init_cards(desk, cat, next)[k2].entry_id,
        spec_init_cards(desk, cat, next).len() == spec_found_count(desk, cat),
    decreases desk.len(),
{
    lemma_found_count_bound(desk, cat);
    if desk.len() > 0 {
        let tail = desk.subrange(1, desk.len() as int);
        lemma_found_count_bound(tail, cat);
        match cat_find(cat, desk[0]) {
            Option::Some(info) => {
                lemma_init_cards_ids(tail, cat, next + 1);
                let whole = spec_init_cards(desk, cat, next);
                let rest = spec_init_cards(tail, cat, next + 1);
                assert(whole[0].entry_id == next + 1);
                assert forall|k: int| 0 <= k < whole.len() implies next < (#[trigger] whole[k]).entry_id
                    <= next + spec_found_count(desk, cat) by {
                    if k > 0 {
                        assert(whole[k] == rest[k - 1]);
                    }
                }
                assert forall|k1: int, k2: int| 0 <= k1 < k2 < whole.len() implies (
                #[trigger] whole[k1]).entry_id < (#[trigger] whole[k2]).entry_id by {
                    if k1 > 0 {
                        assert(whole[k1] == rest[k1 - 1]);
                        assert(whole[k2] == rest[k2 - 1]);
                    } else {
                        assert(whole[k2] == rest[k2 - 1]);
                    }
                }
            },
            Option::None => {
                lemma_init_cards_ids(tail, cat, next);
            },
        }
    }
}
} // verus!
