use crate::card::{CardInfo, CardInfoModel};
use crate::common::CardInfoId;
use vstd::prelude::*;

verus! {

/// The card catalog: every card definition available to a match, fully
/// populated by the authoring surface before `Game::new` is called. The engine
/// only looks definitions up by id; it never parses or executes authoring
/// scripts.
#[derive(Debug)]
pub struct LuaApi {
    pub cards: Vec<CardInfo>,
}

impl View for LuaApi {
    type V = Seq<CardInfoModel>;

    open spec fn view(&self) -> Seq<CardInfoModel> {
        Seq::new(self.cards@.len(), |i: int| self.cards@[i]@)
    }
}

/// The first catalog entry carrying the given id, if any.
pub open spec fn cat_find(cat: Seq<CardInfoModel>, id: Seq<char>) -> Option<CardInfoModel>
    decreases cat.len(),
{
    if cat.len() <= 0 {
        Option::None
    } else if cat[0].id == id {
        Option::Some(cat[0])
    } else {
        cat_find(cat.subrange(1, cat.len() as int), id)
    }
}

/// A match-free prefix does not change what `cat_find` returns.
pub proof fn lemma_cat_find_skip(cat: Seq<CardInfoModel>, id: Seq<char>, i: int)
    requires
        0 <= i <= cat.len(),
        forall|j: int| 0 <= j < i ==> cat[j].id != id,
    ensures
        cat_find(cat, id) == cat_find(cat.subrange(i, cat.len() as int), id),
    decreases i,
{
    if i == 0 {
        assert(cat.subrange(0, cat.len() as int) =~= cat);
    } else {
        assert(cat.subrange(1, cat.len() as int).subrange(i - 1, cat.len() - 1) =~= cat.subrange(
            i,
            cat.len() as int,
        ));
        lemma_cat_find_skip(cat.subrange(1, cat.len() as int), id, i - 1);
    }
}

impl LuaApi {
    pub fn new() -> (r: Self)
        ensures
            r@ == Seq::<CardInfoModel>::empty(),
    {
        let r = LuaApi { cards: Vec::new() };
        proof {
            assert(r@ =~= Seq::<CardInfoModel>::empty());
        }
        r
    }

    /// Registers one finished card definition, keeping the ones already there.
    pub fn add_card(&mut self, card: CardInfo)
        ensures
            final(self)@ == old(self)@.push(card@),
    {
        let ghost before = self@;
        let ghost card_model = card@;
        self.cards.push(card);
        proof {
            assert(self@ =~= before.push(card_model));
        }
    }

    /// Looks a card definition up by its catalog id.
    pub fn get(&self, id: &CardInfoId) -> (r: Option<&CardInfo>)
        ensures
            match r {
                Option::Some(c) => cat_find(self@, id@) == Option::Some(c@),
                Option::None => cat_find(self@, id@) is None,
            },
    {
        let mut i: usize = 0;
        while i < self.cards.len()
            invariant
                0 <= i <= self.cards@.len(),
                forall|j: int| 0 <= j < i ==> self@[j].id != id@,
            decreases self.cards@.len() - i,
        {
            if self.cards[i].id == *id {
                proof {
                    lemma_cat_find_skip(self@, id@, i as int);
                    assert(self@.subrange(i as int, self@.len() as int)[0] == self@[i as int]);
                }
                return Some(&self.cards[i]);
            }
            i = i + 1;
        }
        proof {
            lemma_cat_find_skip(self@, id@, self@.len() as int);
            assert(self@.subrange(self@.len() as int, self@.len() as int) =~= Seq::<
                CardInfoModel,
            >::empty());
        }
        None
    }
}

} // verus!
