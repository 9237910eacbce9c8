//! Villager rules: the food a villager carries and eats, its profession data,
//! its trade offers, and what a player's interaction leads to.
use vstd::prelude::*;

use rand::seq::IndexedRandom;

verus! {

// ---------------------------------------------------------------------------
// Data
// ---------------------------------------------------------------------------

/// The biome kind of a villager, in registry order.
#[derive(Clone, Copy, Debug, PartialEq, Eq, Structural)]
pub enum VillagerType {
    Desert,
    Jungle,
    Plains,
    Savanna,
    Snow,
    Swamp,
    Taiga,
}

/// The profession of a villager, in registry order.
#[derive(Clone, Copy, Debug, PartialEq, Eq, Structural)]
pub enum VillagerProfession {
    NoProfession,
    Armorer,
    Butcher,
    Cartographer,
    Cleric,
    Farmer,
    Fisherman,
    Fletcher,
    Leatherworker,
    Librarian,
    Mason,
    Nitwit,
    Shepherd,
    Toolsmith,
    Weaponsmith,
}

/// A villager's type, profession and level.
#[derive(Clone, Copy, Debug, PartialEq, Eq, Structural)]
pub struct VillagerData {
    pub villager_type: VillagerType,
    pub profession: VillagerProfession,
    pub level: i32,
}

/// The data of a villager that has just been made: a plains villager with no
/// profession, at level 1.
pub open spec fn initial_villager_data() -> VillagerData {
    VillagerData {
        villager_type: VillagerType::Plains,
        profession: VillagerProfession::NoProfession,
        level: 1,
    }
}

/// A slot of a villager's inventory: its item kind (0 for none), the food
/// points of one item of that kind, and how many items it holds. A slot with
/// no items is empty.
#[derive(Clone, Copy, Debug, PartialEq, Eq)]
pub struct FoodSlot {
    pub item: u32,
    pub food_points: i32,
    pub count: u8,
}

/// An item kind and a number of items, as a trade asks for or gives them.
#[derive(Clone, Copy, Debug, PartialEq, Eq)]
pub struct TradeItem {
    pub item: u32,
    pub count: i32,
}

/// A trade that a profession can offer at some level. The price multiplier is
/// held by the bit pattern of its `f32`.
#[derive(Clone, Copy, Debug, PartialEq, Eq)]
pub struct Trade {
    pub wants: TradeItem,
    pub gives: TradeItem,
    pub wants_b: Option<TradeItem>,
    pub max_uses: i32,
    pub xp: i32,
    pub price_multiplier: u32,
}

/// The trades of a profession at a level, and how many of them a villager offers.
pub struct TradeSet {
    pub trades: Vec<Trade>,
    pub amount: u32,
}

/// An item stack of an offer.
#[derive(Clone, Copy, Debug, PartialEq, Eq)]
pub struct OfferItem {
    pub item: u32,
    pub count: u8,
}

/// A trade offer as the merchant screen shows it. The price multiplier is held
/// by the bit pattern of its `f32`.
#[derive(Clone, Copy, Debug, PartialEq, Eq)]
pub struct MerchantOffer {
    pub base_cost_a: OfferItem,
    pub output: OfferItem,
    pub cost_b: Option<OfferItem>,
    pub is_disabled: bool,
    pub uses: i32,
    pub max_uses: i32,
    pub xp: i32,
    pub special_price: i32,
    pub price_multiplier: u32,
    pub demand: i32,
}

/// What a player's interaction with a villager leads to.
#[derive(Clone, Copy, Debug, PartialEq, Eq)]
pub enum MobInteraction {
    /// The villager shakes its head.
    Unhappy,
    /// The villager's trading screen opens.
    OpenTrading,
}

/// A kind of gossip that villagers spread about a player.
#[derive(Clone, Copy, Debug, PartialEq, Eq, Structural)]
pub enum GossipType {
    MajorNegative,
    MinorNegative,
    MajorPositive,
    MinorPositive,
    Trading,
}

/// The number that stands for a kind of gossip in a villager's saved data.
pub open spec fn gossip_id(g: GossipType) -> i32 {
    match g {
        GossipType::MajorNegative => 0,
        GossipType::MinorNegative => 1,
        GossipType::MajorPositive => 2,
        GossipType::MinorPositive => 3,
        GossipType::Trading => 4,
    }
}

impl GossipType {
    /// The number that stands for this kind of gossip in saved data.
    pub fn id(&self) -> (r: i32)
        ensures
            r == gossip_id(*self),
    {
        match self {
            GossipType::MajorNegative => 0,
            GossipType::MinorNegative => 1,
            GossipType::MajorPositive => 2,
            GossipType::MinorPositive => 3,
            GossipType::Trading => 4,
        }
    }

    /// The kind of gossip that a saved number stands for; `None` for a number
    /// that stands for none, which reading skips.
    pub fn from_id(id: i32) -> (r: Option<GossipType>)
        ensures
            match r {
                Some(g) => gossip_id(g) == id,
                None => id < 0 || id > 4,
            },
    {
        match id {
            0 => Some(GossipType::MajorNegative),
            1 => Some(GossipType::MinorNegative),
            2 => Some(GossipType::MajorPositive),
            3 => Some(GossipType::MinorPositive),
            4 => Some(GossipType::Trading),
            _ => None,
        }
    }
}

/// Different kinds of gossip are saved as different numbers, so reading back
/// the number of a kind gives that kind.
pub proof fn lemma_gossip_id_injective(g: GossipType, h: GossipType)
    requires
        gossip_id(g) == gossip_id(h),
    ensures
        g == h,
{
}

/// The state of a villager that its rules read and change.
pub struct VillagerEntity {
    pub villager_data: VillagerData,
    pub food_level: i32,
    pub xp: i32,
    pub last_restock_time: i64,
    pub restocks_today: i32,
    /// What the villager carries, as the food rules read it.
    pub inventory: Vec<FoodSlot>,
    /// The slots of the trading screen's own inventory (empty items when unused).
    pub merchant_inventory: Vec<OfferItem>,
    /// Gossip values per kind, by the UUID of the player they are about.
    pub gossips: Gossips,
    pub offers: Vec<MerchantOffer>,
}

/// An item stack slot that holds nothing.
pub open spec fn empty_item() -> OfferItem {
    OfferItem { item: 0, count: 0 }
}

// ---------------------------------------------------------------------------
// Specifications
// ---------------------------------------------------------------------------

/// A slot that holds no items.
pub open spec fn empty_slot() -> FoodSlot {
    FoodSlot { item: 0, food_points: 0, count: 0 }
}

/// The food points that a slot holds.
pub open spec fn slot_points(s: FoodSlot) -> int {
    if s.count == 0 {
        0
    } else {
        s.food_points * s.count
    }
}

/// The food points that an inventory holds.
pub open spec fn food_total(inv: Seq<FoodSlot>) -> int
    decreases inv.len(),
{
    if inv.len() == 0 {
        0
    } else {
        food_total(inv.drop_last()) + slot_points(inv.last())
    }
}

/// Eats items worth `points` each from a stack of `count` items while the food
/// level is below `threshold`; gives the food level and the items left. The
/// food level adds up as an `i32` that wraps around.
pub open spec fn eat_stack(food: i32, points: i32, count: nat, threshold: i32) -> (i32, nat)
    decreases count,
{
    if count > 0 && food < threshold {
        eat_stack(food.wrapping_add(points), points, (count - 1) as nat, threshold)
    } else {
        (food, count)
    }
}

/// Eats through the slots in order: from each slot that holds food worth more
/// than nothing, items are eaten while the food level is below `threshold`; a
/// slot eaten empty becomes an empty slot; eating stops once the food level
/// reaches `threshold`.
pub open spec fn eat_slots(food: i32, inv: Seq<FoodSlot>, threshold: i32) -> (i32, Seq<FoodSlot>)
    decreases inv.len(),
{
    if inv.len() == 0 {
        (food, inv)
    } else {
        let s = inv[0];
        if s.count == 0 || s.food_points <= 0 {
            let (f, rest) = eat_slots(food, inv.drop_first(), threshold);
            (f, seq![s] + rest)
        } else {
            let (f1, c1) = eat_stack(food, s.food_points, s.count as nat, threshold);
            let s1 = if c1 == 0 {
                empty_slot()
            } else {
                FoodSlot { item: s.item, food_points: s.food_points, count: c1 as u8 }
            };
            if f1 >= threshold {
                (f1, seq![s1] + inv.drop_first())
            } else {
                let (f2, rest) = eat_slots(f1, inv.drop_first(), threshold);
                (f2, seq![s1] + rest)
            }
        }
    }
}

/// The food level and inventory after a villager with `food` eats until full.
pub open spec fn spec_eat_until_full(food: i32, inv: Seq<FoodSlot>, threshold: i32) -> (
    i32,
    Seq<FoodSlot>,
) {
    if food >= threshold {
        (food, inv)
    } else {
        eat_slots(food, inv, threshold)
    }
}

/// The offer that a trade makes: its counts cut to a byte, unused, enabled,
/// with no special price and no demand.
pub open spec fn offer_of(t: Trade) -> MerchantOffer {
    MerchantOffer {
        base_cost_a: OfferItem { item: t.wants.item, count: t.wants.count as u8 },
        output: OfferItem { item: t.gives.item, count: t.gives.count as u8 },
        cost_b: match t.wants_b {
            Some(b) => Some(OfferItem { item: b.item, count: b.count as u8 }),
            None => None,
        },
        is_disabled: false,
        uses: 0,
        max_uses: t.max_uses,
        xp: t.xp,
        special_price: 0,
        price_multiplier: t.price_multiplier,
        demand: 0,
    }
}

/// The smaller of two numbers.
pub open spec fn min_nat(a: nat, b: nat) -> nat {
    if a <= b {
        a
    } else {
        b
    }
}

// ---------------------------------------------------------------------------
// Randomness
// ---------------------------------------------------------------------------

/// `rand::rngs::ThreadRng`, the thread's random number generator, carried
/// through as an opaque value.
#[verifier::external_type_specification]
#[verifier::external_body]
pub struct ExThreadRng(rand::rngs::ThreadRng);

/// `rand::rng()`: the thread's random number generator. Nothing is stated of it.
#[verifier::external_body]
fn thread_rng() -> rand::rngs::ThreadRng {
    rand::rng()
}

/// `IndexedRandom::sample` on the trades: `amount` of them, or all when there
/// are fewer, chosen at random without repetition and in random order. The
/// contract states the number chosen and that each trade of the slice is
/// chosen at most as often as it occurs there; which ones come out is chance.
#[verifier::external_body]
fn sample_trades(trades: &[Trade], rng: &mut rand::rngs::ThreadRng, amount: usize) -> (r: Vec<Trade>)
    ensures
        r@.len() == min_nat(amount as nat, trades@.len()),
        r@.to_multiset().subset_of(trades@.to_multiset()),
{
    trades.sample(rng, amount).copied().collect()
}

// ---------------------------------------------------------------------------
// Rules
// ---------------------------------------------------------------------------

/// The offers that the chosen trades make, in the order they were chosen.
pub fn offers_for(chosen: &[Trade]) -> (r: Vec<MerchantOffer>)
    ensures
        r@ == chosen@.map_values(|t: Trade| offer_of(t)),
{
    let mut out: Vec<MerchantOffer> = Vec::new();
    let mut i: usize = 0;
    while i < chosen.len()
        invariant
            i <= chosen@.len(),
            out@ == chosen@.take(i as int).map_values(|t: Trade| offer_of(t)),
        decreases chosen@.len() - i,
    {
        let t = chosen[i];
        let cost_b = match t.wants_b {
            Some(b) => Some(OfferItem { item: b.item, count: b.count as u8 }),
            None => None,
        };
        let offer = MerchantOffer {
            base_cost_a: OfferItem { item: t.wants.item, count: t.wants.count as u8 },
            output: OfferItem { item: t.gives.item, count: t.gives.count as u8 },
            cost_b,
            is_disabled: false,
            uses: 0,
            max_uses: t.max_uses,
            xp: t.xp,
            special_price: 0,
            price_multiplier: t.price_multiplier,
            demand: 0,
        };
        out.push(offer);
        i = i + 1;
        assert(out@ =~= chosen@.take(i as int).map_values(|t: Trade| offer_of(t)));
    }
    assert(chosen@.take(i as int) =~= chosen@);
    out
}

impl VillagerEntity {
    /// A new villager: a plains villager with no profession at level 1, no
    /// food, no experience, no restocks, eight empty inventory slots, a
    /// trading inventory of three empty slots, no gossips and no offers.
    pub fn new() -> (v: VillagerEntity)
        ensures
            v.villager_data == initial_villager_data(),
            v.food_level == 0,
            v.xp == 0,
            v.last_restock_time == 0,
            v.restocks_today == 0,
            v.inventory@ == Seq::new(8, |i: int| empty_slot()),
            v.merchant_inventory@ == Seq::new(3, |i: int| empty_item()),
            v.gossips@.len() == 0,
            v.offers@.len() == 0,
    {
        let mut inventory: Vec<FoodSlot> = Vec::new();
        let mut i: usize = 0;
        while i < 8
            invariant
                i <= 8,
                inventory@ == Seq::new(i as nat, |j: int| empty_slot()),
            decreases 8 - i,
        {
            inventory.push(FoodSlot { item: 0, food_points: 0, count: 0 });
            i = i + 1;
            assert(inventory@ =~= Seq::new(i as nat, |j: int| empty_slot()));
        }
        let mut merchant_inventory: Vec<OfferItem> = Vec::new();
        let mut k: usize = 0;
        while k < 3
            invariant
                k <= 3,
                merchant_inventory@ == Seq::new(k as nat, |j: int| empty_item()),
            decreases 3 - k,
        {
            merchant_inventory.push(OfferItem { item: 0, count: 0 });
            k = k + 1;
            assert(merchant_inventory@ =~= Seq::new(k as nat, |j: int| empty_item()));
        }
        VillagerEntity {
            villager_data: VillagerData {
                villager_type: VillagerType::Plains,
                profession: VillagerProfession::NoProfession,
                level: 1,
            },
            food_level: 0,
            xp: 0,
            last_restock_time: 0,
            restocks_today: 0,
            inventory,
            merchant_inventory,
            gossips: Gossips::new(),
            offers: Vec::new(),
        }
    }

    /// The name shown for a villager.
    pub fn get_display_name(&self) -> (name: String)
        ensures
            name@ == "Villager"@,
    {
        String::from_str("Villager")
    }

    /// The food points that the villager's inventory holds: for each slot that
    /// is not empty, the points of its item times its count.
    pub fn count_food_points_in_inventory(&self) -> (total: i32)
        requires
            forall|i: int|
                0 <= i < self.inventory@.len() ==> i32::MIN <= #[trigger] slot_points(
                    self.inventory@[i],
                ) <= i32::MAX,
            forall|k: int|
                0 <= k <= self.inventory@.len() ==> i32::MIN <= #[trigger] food_total(
                    self.inventory@.take(k),
                ) <= i32::MAX,
        ensures
            total == food_total(self.inventory@),
    {
        let inv = &self.inventory;
        let mut total: i32 = 0;
        let mut i: usize = 0;
        assert(inv@.take(0) =~= Seq::<FoodSlot>::empty());
        while i < inv.len()
            invariant
                i <= inv@.len(),
                inv == &self.inventory,
                total == food_total(inv@.take(i as int)),
                forall|j: int|
                    0 <= j < inv@.len() ==> i32::MIN <= #[trigger] slot_points(inv@[j]) <= i32::MAX,
                forall|k: int|
                    0 <= k <= inv@.len() ==> i32::MIN <= #[trigger] food_total(inv@.take(k))
                        <= i32::MAX,
            decreases inv@.len() - i,
        {
            let s = inv[i];
            proof {
                assert(inv@.take(i + 1).drop_last() =~= inv@.take(i as int));
                assert(inv@.take(i + 1).last() == s);
                assert(i32::MIN <= slot_points(inv@[i as int]) <= i32::MAX);
                assert(i32::MIN <= food_total(inv@.take(i + 1)) <= i32::MAX);
            }
            if s.count != 0 {
                let points = s.food_points * (s.count as i32);
                total = total + points;
            }
            i = i + 1;
        }
        assert(inv@.take(i as int) =~= inv@);
        total
    }

    /// The villager eats until its food level reaches `threshold` (the food
    /// level at which it can breed): nothing when it is already there;
    /// otherwise it goes through its inventory slots in order, eating one
    /// item at a time from each slot whose items are worth food points, adding
    /// their points to its food level (wrapping as an `i32`), emptying a slot
    /// that it eats up, and stopping once the level is reached.
    pub fn eat_until_full(&mut self, threshold: i32)
        ensures
            (final(self).food_level, final(self).inventory@) == spec_eat_until_full(
                old(self).food_level,
                old(self).inventory@,
                threshold,
            ),
            final(self).villager_data == old(self).villager_data,
            final(self).xp == old(self).xp,
            final(self).last_restock_time == old(self).last_restock_time,
            final(self).restocks_today == old(self).restocks_today,
            final(self).offers@ == old(self).offers@,
            final(self).merchant_inventory@ == old(self).merchant_inventory@,
            final(self).gossips@ == old(self).gossips@,
    {
        if self.food_level >= threshold {
            return;
        }
        let ghost inv0 = self.inventory@;
        let ghost food0 = self.food_level;
        let n = self.inventory.len();
        let mut i: usize = 0;
        assert(inv0.skip(0) =~= inv0);
        assert(inv0.take(0) + eat_slots(food0, inv0, threshold).1 =~= eat_slots(
            food0,
            inv0,
            threshold,
        ).1);
        loop
            invariant_except_break
                i <= n,
                n == inv0.len(),
                self.inventory@.len() == n,
                self.inventory@.skip(i as int) == inv0.skip(i as int),
                self.food_level < threshold,
                eat_slots(food0, inv0, threshold) == ({
                    let (f, rest) = eat_slots(self.food_level, inv0.skip(i as int), threshold);
                    (f, self.inventory@.take(i as int) + rest)
                }),
            invariant
                self.villager_data == old(self).villager_data,
                self.xp == old(self).xp,
                self.last_restock_time == old(self).last_restock_time,
                self.restocks_today == old(self).restocks_today,
                self.offers@ == old(self).offers@,
                self.merchant_inventory@ == old(self).merchant_inventory@,
                self.gossips@ == old(self).gossips@,
            ensures
                (self.food_level, self.inventory@) == eat_slots(food0, inv0, threshold),
            decreases n - i,
        {
            if i == n {
                proof {
                    assert(inv0.skip(n as int) =~= Seq::<FoodSlot>::empty());
                    assert(self.inventory@.take(n as int) =~= self.inventory@);
                    assert(self.inventory@ + Seq::<FoodSlot>::empty() =~= self.inventory@);
                }
                break;
            }
            let ghost before_inv = self.inventory@;
            let ghost before_food = self.food_level;
            let ghost tail = inv0.skip(i as int);
            let slot = self.inventory[i];
            assert(tail[0] == slot);
            assert(tail.drop_first() =~= inv0.skip(i + 1));
            if slot.count != 0 && slot.food_points > 0 {
                let points = slot.food_points;
                let mut count = slot.count;
                while count > 0 && self.food_level < threshold
                    invariant
                        count <= slot.count,
                        eat_stack(before_food, points, slot.count as nat, threshold) == eat_stack(
                            self.food_level,
                            points,
                            count as nat,
                            threshold,
                        ),
                        self.inventory@ == before_inv,
                        self.villager_data == old(self).villager_data,
                        self.xp == old(self).xp,
                        self.last_restock_time == old(self).last_restock_time,
                        self.restocks_today == old(self).restocks_today,
                        self.offers@ == old(self).offers@,
                        self.merchant_inventory@ == old(self).merchant_inventory@,
                        self.gossips@ == old(self).gossips@,
                    decreases count,
                {
                    self.food_level = self.food_level.wrapping_add(points);
                    count = count - 1;
                }
                let new_slot = if count == 0 {
                    FoodSlot { item: 0, food_points: 0, count: 0 }
                } else {
                    FoodSlot { item: slot.item, food_points: points, count }
                };
                self.inventory.set(i, new_slot);
                proof {
                    assert(self.inventory@.take(i + 1) =~= before_inv.take(i as int) + seq![new_slot]);
                    assert(self.inventory@.skip(i + 1) =~= before_inv.skip(i + 1));
                    assert(before_inv.skip(i + 1) =~= before_inv.skip(i as int).drop_first());
                }
                if self.food_level >= threshold {
                    proof {
                        assert(self.inventory@ =~= self.inventory@.take(i + 1) + inv0.skip(i + 1));
                        assert(seq![new_slot] + tail.drop_first() =~= seq![new_slot] + inv0.skip(
                            i + 1,
                        ));
                    }
                    break;
                }
                proof {
                    let (f2, rest) = eat_slots(self.food_level, inv0.skip(i + 1), threshold);
                    assert(before_inv.take(i as int) + (seq![new_slot] + rest) =~= self.inventory@.take(
                        i + 1,
                    ) + rest);
                }
            } else {
                proof {
                    let (f2, rest) = eat_slots(self.food_level, inv0.skip(i + 1), threshold);
                    assert(self.inventory@.take(i as int) + (seq![slot] + rest) =~= self.inventory@.take(
                        i + 1,
                    ) + rest);
                }
            }
            i = i + 1;
        }
    }

    /// Sets the villager's data. When its profession changes, its offers are
    /// generated anew from `new_trade_set`, the trade set of the new profession
    /// at the new level, as `generate_trades` does; otherwise they stay. Tells
    /// whether the profession changed, in which case its work sound plays.
    pub fn set_villager_data(&mut self, data: VillagerData, new_trade_set: Option<&TradeSet>) -> (profession_changed: bool)
        ensures
            final(self).villager_data == data,
            profession_changed == (old(self).villager_data.profession != data.profession),
            !profession_changed ==> final(self).offers@ == old(self).offers@,
            profession_changed ==> match new_trade_set {
                None => final(self).offers@.len() == 0,
                Some(ts) => exists|chosen: Seq<Trade>|
                    chosen.len() == min_nat(ts.amount as nat, ts.trades@.len())
                        && chosen.to_multiset().subset_of(ts.trades@.to_multiset())
                        && final(self).offers@ == chosen.map_values(|t: Trade| offer_of(t)),
            },
            final(self).food_level == old(self).food_level,
            final(self).xp == old(self).xp,
            final(self).last_restock_time == old(self).last_restock_time,
            final(self).restocks_today == old(self).restocks_today,
            final(self).inventory@ == old(self).inventory@,
            final(self).merchant_inventory@ == old(self).merchant_inventory@,
            final(self).gossips@ == old(self).gossips@,
    {
        let old_profession = self.villager_data.profession;
        self.villager_data = data;
        let changed = old_profession != data.profession;
        if changed {
            self.generate_trades(new_trade_set);
        }
        changed
    }

    /// Replaces the villager's offers with those of `amount` trades of the
    /// profession's trade set at its level, chosen at random without
    /// repetition (all of them when there are fewer); with no trade set, the
    /// villager offers nothing.
    pub fn generate_trades(&mut self, trade_set: Option<&TradeSet>)
        ensures
            match trade_set {
                None => final(self).offers@.len() == 0,
                Some(ts) => exists|chosen: Seq<Trade>|
                    chosen.len() == min_nat(ts.amount as nat, ts.trades@.len())
                        && chosen.to_multiset().subset_of(ts.trades@.to_multiset())
                        && final(self).offers@ == chosen.map_values(|t: Trade| offer_of(t)),
            },
            final(self).villager_data == old(self).villager_data,
            final(self).food_level == old(self).food_level,
            final(self).xp == old(self).xp,
            final(self).last_restock_time == old(self).last_restock_time,
            final(self).restocks_today == old(self).restocks_today,
            final(self).inventory@ == old(self).inventory@,
            final(self).merchant_inventory@ == old(self).merchant_inventory@,
            final(self).gossips@ == old(self).gossips@,
    {
        self.offers.clear();
        match trade_set {
            Some(ts) => {
                let mut rng = thread_rng();
                let chosen = sample_trades(ts.trades.as_slice(), &mut rng, ts.amount as usize);
                self.offers = offers_for(chosen.as_slice());
                assert(chosen@.len() == min_nat(ts.amount as nat, ts.trades@.len()));
            },
            None => {},
        }
    }

    /// What a player's interaction leads to: a baby villager (negative age) or
    /// one with no offers is unhappy; otherwise its trading screen opens.
    pub fn mob_interact(&self, age: i32) -> (r: MobInteraction)
        ensures
            r == (if age < 0 || self.offers@.len() == 0 {
                MobInteraction::Unhappy
            } else {
                MobInteraction::OpenTrading
            }),
    {
        if age < 0 {
            return MobInteraction::Unhappy;
        }
        if self.offers.len() == 0 {
            return MobInteraction::Unhappy;
        }
        MobInteraction::OpenTrading
    }
}

// ---------------------------------------------------------------------------
// Laws of eating
// ---------------------------------------------------------------------------

/// A slot whose items are worth food points and that holds some.
pub open spec fn edible(s: FoodSlot) -> bool {
    s.count > 0 && s.food_points > 0
}

/// Whether one of the additions that eating from a stack makes wraps around.
pub open spec fn stack_wraps(food: i32, points: i32, count: nat, threshold: i32) -> bool
    decreases count,
{
    count > 0 && food < threshold && (food + points > i32::MAX || food + points < i32::MIN
        || stack_wraps(food.wrapping_add(points), points, (count - 1) as nat, threshold))
}

/// Whether one of the additions that eating through the slots makes wraps around.
pub open spec fn slots_wrap(food: i32, inv: Seq<FoodSlot>, threshold: i32) -> bool
    decreases inv.len(),
{
    if inv.len() == 0 {
        false
    } else {
        let s = inv[0];
        if s.count == 0 || s.food_points <= 0 {
            slots_wrap(food, inv.drop_first(), threshold)
        } else {
            let (f1, c1) = eat_stack(food, s.food_points, s.count as nat, threshold);
            stack_wraps(food, s.food_points, s.count as nat, threshold) || (f1 < threshold
                && slots_wrap(f1, inv.drop_first(), threshold))
        }
    }
}

/// Whether one of the additions that eating until full makes wraps around.
pub open spec fn eating_wraps(food: i32, inv: Seq<FoodSlot>, threshold: i32) -> bool {
    food < threshold && slots_wrap(food, inv, threshold)
}

proof fn lemma_food_total_prepend(s: FoodSlot, rest: Seq<FoodSlot>)
    ensures
        food_total(seq![s] + rest) == slot_points(s) + food_total(rest),
    decreases rest.len(),
{
    if rest.len() == 0 {
        assert((seq![s] + rest).drop_last() =~= Seq::<FoodSlot>::empty());
        assert(food_total(Seq::<FoodSlot>::empty()) == 0);
    } else {
        lemma_food_total_prepend(s, rest.drop_last());
        assert((seq![s] + rest).drop_last() =~= seq![s] + rest.drop_last());
    }
}

proof fn lemma_eat_stack(food: i32, points: i32, count: nat, threshold: i32)
    requires
        points > 0,
        !stack_wraps(food, points, count, threshold),
    ensures
        ({
            let (f1, c1) = eat_stack(food, points, count, threshold);
            &&& c1 <= count
            &&& f1 == food + (count - c1) * points
            &&& f1 >= food
            &&& (c1 > 0 ==> f1 >= threshold)
        }),
    decreases count,
{
    if count > 0 && food < threshold {
        let next = food.wrapping_add(points);
        assert(next == food + points);
        lemma_eat_stack(next, points, (count - 1) as nat, threshold);
        let (f1, c1) = eat_stack(next, points, (count - 1) as nat, threshold);
        assert(f1 == food + points + ((count - 1) - c1) * points);
        assert(points + ((count - 1) - c1) * points == (count - c1) * points) by (nonlinear_arith);
        assert(((count - 1) - c1) * points >= 0) by (nonlinear_arith)
            requires
                c1 <= count - 1,
                points > 0,
        ;
    } else {
        assert((count - count) * points == 0) by (nonlinear_arith);
    }
}

proof fn lemma_eat_stack_stops(food: i32, points: i32, count: nat, threshold: i32)
    ensures
        ({
            let (f1, c1) = eat_stack(food, points, count, threshold);
            c1 > 0 ==> f1 >= threshold
        }),
    decreases count,
{
    if count > 0 && food < threshold {
        lemma_eat_stack_stops(food.wrapping_add(points), points, (count - 1) as nat, threshold);
    }
}

proof fn lemma_eat_slots_conserves(food: i32, inv: Seq<FoodSlot>, threshold: i32)
    requires
        !slots_wrap(food, inv, threshold),
    ensures
        ({
            let (f, out) = eat_slots(food, inv, threshold);
            &&& f + food_total(out) == food + food_total(inv)
            &&& out.len() == inv.len()
            &&& f >= food
        }),
    decreases inv.len(),
{
    if inv.len() > 0 {
        let s = inv[0];
        let t = inv.drop_first();
        assert(inv =~= seq![s] + t);
        lemma_food_total_prepend(s, t);
        if s.count == 0 || s.food_points <= 0 {
            lemma_eat_slots_conserves(food, t, threshold);
            let (f, rest) = eat_slots(food, t, threshold);
            lemma_food_total_prepend(s, rest);
        } else {
            assert(edible(inv[0]));
            lemma_eat_stack(food, s.food_points, s.count as nat, threshold);
            let (f1, c1) = eat_stack(food, s.food_points, s.count as nat, threshold);
            let s1 = if c1 == 0 {
                empty_slot()
            } else {
                FoodSlot { item: s.item, food_points: s.food_points, count: c1 as u8 }
            };
            if c1 == 0 {
                assert(s.food_points * c1 == 0) by (nonlinear_arith)
                    requires
                        c1 == 0,
                ;
            } else {
                assert(s1.count == c1);
            }
            assert(slot_points(s1) == s.food_points * c1);
            assert(slot_points(s) == s.food_points * s.count);
            assert(s.food_points * s.count - s.food_points * c1 == (s.count - c1) * s.food_points)
                by (nonlinear_arith);
            if f1 >= threshold {
                lemma_food_total_prepend(s1, t);
            } else {
                lemma_eat_slots_conserves(f1, t, threshold);
                let (f2, rest) = eat_slots(f1, t, threshold);
                lemma_food_total_prepend(s1, rest);
            }
        }
    }
}

proof fn lemma_eat_slots_full(food: i32, inv: Seq<FoodSlot>, threshold: i32)
    ensures
        ({
            let (f, out) = eat_slots(food, inv, threshold);
            f >= threshold || forall|i: int| 0 <= i < out.len() ==> !edible(#[trigger] out[i])
        }),
    decreases inv.len(),
{
    if inv.len() > 0 {
        let s = inv[0];
        let t = inv.drop_first();
        if s.count == 0 || s.food_points <= 0 {
            lemma_eat_slots_full(food, t, threshold);
            let (f, rest) = eat_slots(food, t, threshold);
            let out = seq![s] + rest;
            if f < threshold {
                assert forall|i: int| 0 <= i < out.len() implies !edible(#[trigger] out[i]) by {
                    if i > 0 {
                        assert(out[i] == rest[i - 1]);
                    }
                }
            }
        } else {
            lemma_eat_stack_stops(food, s.food_points, s.count as nat, threshold);
            let (f1, c1) = eat_stack(food, s.food_points, s.count as nat, threshold);
            if f1 < threshold {
                lemma_eat_slots_full(f1, t, threshold);
                let (f2, rest) = eat_slots(f1, t, threshold);
                let out = seq![empty_slot()] + rest;
                if f2 < threshold {
                    assert forall|i: int| 0 <= i < out.len() implies !edible(#[trigger] out[i]) by {
                        if i > 0 {
                            assert(out[i] == rest[i - 1]);
                        }
                    }
                }
            }
        }
    }
}

/// Eating moves food points from the inventory to the food level and loses
/// none: whenever no addition to the food level wraps around, the food level
/// plus the points left in the inventory stay what they were, the food level
/// never drops, and the inventory keeps its number of slots.
pub proof fn lemma_eating_conserves_food(food: i32, inv: Seq<FoodSlot>, threshold: i32)
    requires
        !eating_wraps(food, inv, threshold),
    ensures
        ({
            let (f, out) = spec_eat_until_full(food, inv, threshold);
            &&& f + food_total(out) == food + food_total(inv)
            &&& out.len() == inv.len()
            &&& f >= food
        }),
{
    if food < threshold {
        lemma_eat_slots_conserves(food, inv, threshold);
    }
}

/// After eating until full, the villager's food level has reached the
/// threshold, or no slot with food is left.
pub proof fn lemma_eats_until_full_or_no_food_left(food: i32, inv: Seq<FoodSlot>, threshold: i32)
    ensures
        ({
            let (f, out) = spec_eat_until_full(food, inv, threshold);
            f >= threshold || forall|i: int| 0 <= i < out.len() ==> !edible(#[trigger] out[i])
        }),
{
    if food < threshold {
        lemma_eat_slots_full(food, inv, threshold);
    }
}

// ---------------------------------------------------------------------------
// Saved data
// ---------------------------------------------------------------------------

/// A value of a villager's saved data. Saved data is positional: values are
/// written one after the other and read back in the same order; a read of a
/// kind of value that is not the next one fails and reads nothing.
#[derive(Clone, Copy, Debug, PartialEq, Eq)]
pub enum SavedValue {
    Int(i32),
    Long(i64),
    Uuid(u128),
    /// An item stack: its item kind and count.
    Stack { item: u32, count: u8 },
}

/// The registry number of a villager type.
pub open spec fn villager_type_id(t: VillagerType) -> i32 {
    match t {
        VillagerType::Desert => 0,
        VillagerType::Jungle => 1,
        VillagerType::Plains => 2,
        VillagerType::Savanna => 3,
        VillagerType::Snow => 4,
        VillagerType::Swamp => 5,
        VillagerType::Taiga => 6,
    }
}

/// The villager type of a registry number; plains for a number of none.
pub open spec fn villager_type_of(id: i32) -> VillagerType {
    if id == 0 {
        VillagerType::Desert
    } else if id == 1 {
        VillagerType::Jungle
    } else if id == 3 {
        VillagerType::Savanna
    } else if id == 4 {
        VillagerType::Snow
    } else if id == 5 {
        VillagerType::Swamp
    } else if id == 6 {
        VillagerType::Taiga
    } else {
        VillagerType::Plains
    }
}

/// The registry number of a profession.
pub open spec fn profession_id(p: VillagerProfession) -> i32 {
    match p {
        VillagerProfession::NoProfession => 0,
        VillagerProfession::Armorer => 1,
        VillagerProfession::Butcher => 2,
        VillagerProfession::Cartographer => 3,
        VillagerProfession::Cleric => 4,
        VillagerProfession::Farmer => 5,
        VillagerProfession::Fisherman => 6,
        VillagerProfession::Fletcher => 7,
        VillagerProfession::Leatherworker => 8,
        VillagerProfession::Librarian => 9,
        VillagerProfession::Mason => 10,
        VillagerProfession::Nitwit => 11,
        VillagerProfession::Shepherd => 12,
        VillagerProfession::Toolsmith => 13,
        VillagerProfession::Weaponsmith => 14,
    }
}

/// The profession of a registry number; no profession for a number of none.
pub open spec fn profession_of(id: i32) -> VillagerProfession {
    if id == 1 {
        VillagerProfession::Armorer
    } else if id == 2 {
        VillagerProfession::Butcher
    } else if id == 3 {
        VillagerProfession::Cartographer
    } else if id == 4 {
        VillagerProfession::Cleric
    } else if id == 5 {
        VillagerProfession::Farmer
    } else if id == 6 {
        VillagerProfession::Fisherman
    } else if id == 7 {
        VillagerProfession::Fletcher
    } else if id == 8 {
        VillagerProfession::Leatherworker
    } else if id == 9 {
        VillagerProfession::Librarian
    } else if id == 10 {
        VillagerProfession::Mason
    } else if id == 11 {
        VillagerProfession::Nitwit
    } else if id == 12 {
        VillagerProfession::Shepherd
    } else if id == 13 {
        VillagerProfession::Toolsmith
    } else if id == 14 {
        VillagerProfession::Weaponsmith
    } else {
        VillagerProfession::NoProfession
    }
}

impl VillagerType {
    /// The registry number of this type.
    pub fn id(&self) -> (r: i32)
        ensures
            r == villager_type_id(*self),
    {
        match self {
            VillagerType::Desert => 0,
            VillagerType::Jungle => 1,
            VillagerType::Plains => 2,
            VillagerType::Savanna => 3,
            VillagerType::Snow => 4,
            VillagerType::Swamp => 5,
            VillagerType::Taiga => 6,
        }
    }

    /// The type of a registry number, or plains.
    pub fn of_id(id: i32) -> (r: VillagerType)
        ensures
            r == villager_type_of(id),
    {
        if id == 0 {
            VillagerType::Desert
        } else if id == 1 {
            VillagerType::Jungle
        } else if id == 3 {
            VillagerType::Savanna
        } else if id == 4 {
            VillagerType::Snow
        } else if id == 5 {
            VillagerType::Swamp
        } else if id == 6 {
            VillagerType::Taiga
        } else {
            VillagerType::Plains
        }
    }
}

impl VillagerProfession {
    /// The registry number of this profession.
    pub fn id(&self) -> (r: i32)
        ensures
            r == profession_id(*self),
    {
        match self {
            VillagerProfession::NoProfession => 0,
            VillagerProfession::Armorer => 1,
            VillagerProfession::Butcher => 2,
            VillagerProfession::Cartographer => 3,
            VillagerProfession::Cleric => 4,
            VillagerProfession::Farmer => 5,
            VillagerProfession::Fisherman => 6,
            VillagerProfession::Fletcher => 7,
            VillagerProfession::Leatherworker => 8,
            VillagerProfession::Librarian => 9,
            VillagerProfession::Mason => 10,
            VillagerProfession::Nitwit => 11,
            VillagerProfession::Shepherd => 12,
            VillagerProfession::Toolsmith => 13,
            VillagerProfession::Weaponsmith => 14,
        }
    }

    /// The profession of a registry number, or no profession.
    pub fn of_id(id: i32) -> (r: VillagerProfession)
        ensures
            r == profession_of(id),
    {
        if id == 1 {
            VillagerProfession::Armorer
        } else if id == 2 {
            VillagerProfession::Butcher
        } else if id == 3 {
            VillagerProfession::Cartographer
        } else if id == 4 {
            VillagerProfession::Cleric
        } else if id == 5 {
            VillagerProfession::Farmer
        } else if id == 6 {
            VillagerProfession::Fisherman
        } else if id == 7 {
            VillagerProfession::Fletcher
        } else if id == 8 {
            VillagerProfession::Leatherworker
        } else if id == 9 {
            VillagerProfession::Librarian
        } else if id == 10 {
            VillagerProfession::Mason
        } else if id == 11 {
            VillagerProfession::Nitwit
        } else if id == 12 {
            VillagerProfession::Shepherd
        } else if id == 13 {
            VillagerProfession::Toolsmith
        } else if id == 14 {
            VillagerProfession::Weaponsmith
        } else {
            VillagerProfession::NoProfession
        }
    }
}

/// The food points of an item kind by the table of food items; 0 for an item
/// the table does not list.
pub open spec fn points_of(table: Seq<(u32, i32)>, item: u32) -> i32
    decreases table.len(),
{
    if table.len() == 0 {
        0
    } else if table[0].0 == item {
        table[0].1
    } else {
        points_of(table.drop_first(), item)
    }
}

/// `s` with `v` under the key `k`: in place of the entry with that key, or
/// added at the end (a map keyed by `k`).
pub open spec fn assoc_insert<K, V>(s: Seq<(K, V)>, k: K, v: V) -> Seq<(K, V)>
    decreases s.len(),
{
    if s.len() == 0 {
        seq![(k, v)]
    } else if s[0].0 == k {
        seq![(k, v)] + s.drop_first()
    } else {
        seq![s[0]] + assoc_insert(s.drop_first(), k, v)
    }
}

/// The gossips as plain values.
pub open spec fn gossips_view(g: Seq<(u128, Vec<(GossipType, i32)>)>) -> Seq<(u128, Seq<(GossipType, i32)>)> {
    g.map_values(|e: (u128, Vec<(GossipType, i32)>)| (e.0, e.1@))
}

/// Gossips as plain values hold each player once, and each kind of gossip
/// once per player.
pub open spec fn gossips_wf(g: Seq<(u128, Seq<(GossipType, i32)>)>) -> bool {
    &&& distinct_keys(g)
    &&& forall|i: int| 0 <= i < g.len() ==> distinct_keys(#[trigger] g[i].1)
}

/// The gossip values per kind about the player `uuid`; none when the gossips
/// hold no record of the player.
pub open spec fn record_of(g: Seq<(u128, Seq<(GossipType, i32)>)>, uuid: u128) -> Seq<(GossipType, i32)>
    decreases g.len(),
{
    if g.len() == 0 {
        Seq::empty()
    } else if g[0].0 == uuid {
        g[0].1
    } else {
        record_of(g.drop_first(), uuid)
    }
}

/// Gossip values per kind, by the UUID of the player they are about: each
/// player once, and each kind of gossip once per player.
#[derive(Debug, PartialEq, Eq)]
pub struct Gossips {
    records: Vec<(u128, Vec<(GossipType, i32)>)>,
}

impl View for Gossips {
    type V = Seq<(u128, Seq<(GossipType, i32)>)>;

    closed spec fn view(&self) -> Seq<(u128, Seq<(GossipType, i32)>)> {
        gossips_view(self.records@)
    }
}

impl Gossips {
    #[verifier::type_invariant]
    closed spec fn inv(self) -> bool {
        gossips_wf(self@)
    }

    /// No gossips.
    pub fn new() -> (g: Gossips)
        ensures
            g@ == Seq::<(u128, Seq<(GossipType, i32)>)>::empty(),
    {
        let g = Gossips { records: Vec::new() };
        assert(g@ =~= Seq::<(u128, Seq<(GossipType, i32)>)>::empty());
        g
    }

    /// The number of players the gossips are about; each occurs once, and
    /// each kind of gossip once per player.
    pub fn len(&self) -> (n: usize)
        ensures
            n == self@.len(),
            gossips_wf(self@),
    {
        proof {
            use_type_invariant(self);
        }
        self.records.len()
    }

    /// The player and the values per kind of the `i`-th record.
    pub fn record(&self, i: usize) -> (r: (u128, &Vec<(GossipType, i32)>))
        requires
            i < self@.len(),
        ensures
            r.0 == self@[i as int].0,
            r.1@ == self@[i as int].1,
            gossips_wf(self@),
    {
        proof {
            use_type_invariant(self);
        }
        let e = &self.records[i];
        (e.0, &e.1)
    }

    /// Sets the gossip of kind `kind` about the player `uuid` to `value`.
    pub fn set(&mut self, uuid: u128, kind: GossipType, value: i32)
        ensures
            final(self)@ == assoc_insert(
                old(self)@,
                uuid,
                assoc_insert(record_of(old(self)@, uuid), kind, value),
            ),
    {
        proof {
            use_type_invariant(&*self);
            lemma_record_of_distinct(self@, uuid);
        }
        let mut types = record_copy(&self.records, uuid);
        insert_gossip_type(&mut types, kind, value);
        proof {
            lemma_assoc_insert_distinct(record_of(self@, uuid), kind, value);
            lemma_assoc_insert_wf(self@, uuid, types@);
        }
        let mut records: Vec<(u128, Vec<(GossipType, i32)>)> = Vec::new();
        std::mem::swap(&mut records, &mut self.records);
        insert_gossip(&mut records, uuid, types);
        self.records = records;
    }
}

/// `assoc_insert` keeps the keys distinct, and each entry it gives is the new
/// one or an entry of `s`.
proof fn lemma_assoc_insert_distinct<K, V>(s: Seq<(K, V)>, k: K, v: V)
    ensures
        distinct_keys(s) ==> distinct_keys(assoc_insert(s, k, v)),
        forall|j: int|
            0 <= j < assoc_insert(s, k, v).len() ==> #[trigger] assoc_insert(s, k, v)[j] == (k, v)
                || s.contains(assoc_insert(s, k, v)[j]),
    decreases s.len(),
{
    let r = assoc_insert(s, k, v);
    if s.len() == 0 {
        assert(r =~= seq![(k, v)]);
    } else if s[0].0 == k {
        let t = s.drop_first();
        assert(r =~= seq![(k, v)] + t);
        assert forall|j: int| 0 <= j < r.len() implies #[trigger] r[j] == (k, v) || s.contains(r[j]) by {
            if j > 0 {
                assert(r[j] == s[j]);
            }
        }
        if distinct_keys(s) {
            assert forall|i: int, j: int| #![trigger r[i], r[j]] 0 <= i < j < r.len() implies r[i].0
                != r[j].0 by {
                assert(r[j] == s[j]);
                if i > 0 {
                    assert(r[i] == s[i]);
                } else {
                    assert(s[0].0 != s[j].0);
                }
            }
        }
    } else {
        let t = s.drop_first();
        lemma_assoc_insert_distinct(t, k, v);
        let rt = assoc_insert(t, k, v);
        assert(r =~= seq![s[0]] + rt);
        assert forall|j: int| 0 <= j < r.len() implies #[trigger] r[j] == (k, v) || s.contains(r[j]) by {
            if j == 0 {
                assert(s[0] == r[0]);
            } else {
                assert(r[j] == rt[j - 1]);
                if rt[j - 1] != (k, v) {
                    assert(t.contains(rt[j - 1]));
                    let w = choose|w: int| 0 <= w < t.len() && t[w] == rt[j - 1];
                    assert(s[w + 1] == t[w]);
                }
            }
        }
        if distinct_keys(s) {
            assert(distinct_keys(t)) by {
                assert forall|i: int, j: int| #![trigger t[i], t[j]] 0 <= i < j < t.len() implies t[i].0
                    != t[j].0 by {
                    assert(t[i] == s[i + 1]);
                    assert(t[j] == s[j + 1]);
                }
            }
            assert forall|i: int, j: int| #![trigger r[i], r[j]] 0 <= i < j < r.len() implies r[i].0
                != r[j].0 by {
                assert(r[j] == rt[j - 1]);
                if i == 0 {
                    if rt[j - 1] != (k, v) {
                        assert(t.contains(rt[j - 1]));
                        let w = choose|w: int| 0 <= w < t.len() && t[w] == rt[j - 1];
                        assert(s[w + 1] == t[w]);
                    }
                } else {
                    assert(r[i] == rt[i - 1]);
                }
            }
        }
    }
}

/// Storing a record whose kinds occur once keeps gossips well formed.
proof fn lemma_assoc_insert_wf(
    g: Seq<(u128, Seq<(GossipType, i32)>)>,
    uuid: u128,
    types: Seq<(GossipType, i32)>,
)
    requires
        gossips_wf(g),
        distinct_keys(types),
    ensures
        gossips_wf(assoc_insert(g, uuid, types)),
{
    lemma_assoc_insert_distinct(g, uuid, types);
    let r = assoc_insert(g, uuid, types);
    assert forall|i: int| 0 <= i < r.len() implies distinct_keys(#[trigger] r[i].1) by {
        if r[i] != (uuid, types) {
            assert(g.contains(r[i]));
            let w = choose|w: int| 0 <= w < g.len() && g[w] == r[i];
            assert(distinct_keys(g[w].1));
        }
    }
}

/// The record of a player in well-formed gossips holds each kind once.
proof fn lemma_record_of_distinct(g: Seq<(u128, Seq<(GossipType, i32)>)>, uuid: u128)
    requires
        gossips_wf(g),
    ensures
        distinct_keys(record_of(g, uuid)),
    decreases g.len(),
{
    if g.len() == 0 {
    } else if g[0].0 == uuid {
        assert(distinct_keys(g[0].1));
    } else {
        let t = g.drop_first();
        assert(gossips_wf(t)) by {
            assert forall|i: int, j: int| #![trigger t[i], t[j]] 0 <= i < j < t.len() implies t[i].0
                != t[j].0 by {
                assert(t[i] == g[i + 1]);
                assert(t[j] == g[j + 1]);
            }
            assert forall|i: int| 0 <= i < t.len() implies distinct_keys(#[trigger] t[i].1) by {
                assert(t[i] == g[i + 1]);
            }
        }
        lemma_record_of_distinct(t, uuid);
    }
}

/// The kinds of gossip.
pub open spec fn all_gossip_types() -> Set<GossipType> {
    set![
        GossipType::MajorNegative,
        GossipType::MinorNegative,
        GossipType::MajorPositive,
        GossipType::MinorPositive,
        GossipType::Trading,
    ]
}

proof fn lemma_distinct_kinds_bounded(t: Seq<(GossipType, i32)>, allowed: Set<GossipType>)
    requires
        distinct_keys(t),
        allowed.finite(),
        forall|i: int| 0 <= i < t.len() ==> allowed.contains(#[trigger] t[i].0),
    ensures
        t.len() <= allowed.len(),
    decreases t.len(),
{
    if t.len() > 0 {
        let r = t.drop_first();
        let rest = allowed.remove(t[0].0);
        assert forall|i: int| 0 <= i < r.len() implies rest.contains(#[trigger] r[i].0) by {
            assert(r[i] == t[i + 1]);
            assert(t[0].0 != t[i + 1].0);
        }
        assert(distinct_keys(r)) by {
            assert forall|i: int, j: int| #![trigger r[i], r[j]] 0 <= i < j < r.len() implies r[i].0
                != r[j].0 by {
                assert(r[i] == t[i + 1]);
                assert(r[j] == t[j + 1]);
            }
        }
        lemma_distinct_kinds_bounded(r, rest);
    }
}

/// A record holds each kind of gossip at most once, so at most five values.
proof fn lemma_record_len(t: Seq<(GossipType, i32)>)
    requires
        distinct_keys(t),
    ensures
        t.len() <= 5,
{
    let all = all_gossip_types();
    assert(all.len() == 5);
    assert forall|i: int| 0 <= i < t.len() implies all.contains(#[trigger] t[i].0) by {
        match t[i].0 {
            GossipType::MajorNegative => {},
            GossipType::MinorNegative => {},
            GossipType::MajorPositive => {},
            GossipType::MinorPositive => {},
            GossipType::Trading => {},
        }
    }
    lemma_distinct_kinds_bounded(t, all);
}

/// A copy of the record of a player.
fn record_copy(records: &Vec<(u128, Vec<(GossipType, i32)>)>, uuid: u128) -> (r: Vec<(GossipType, i32)>)
    ensures
        r@ == record_of(gossips_view(records@), uuid),
{
    let ghost g = gossips_view(records@);
    let mut i: usize = 0;
    assert(g.skip(0) =~= g);
    while i < records.len()
        invariant
            i <= records@.len(),
            g == gossips_view(records@),
            record_of(g, uuid) == record_of(g.skip(i as int), uuid),
        decreases records@.len() - i,
    {
        assert(g.skip(i as int)[0] == g[i as int]);
        assert(g[i as int] == (records@[i as int].0, records@[i as int].1@));
        if records[i].0 == uuid {
            return vstd::slice::slice_to_vec(records[i].1.as_slice());
        }
        assert(g.skip(i as int).drop_first() =~= g.skip(i + 1));
        i = i + 1;
    }
    assert(g.skip(i as int) =~= Seq::<(u128, Seq<(GossipType, i32)>)>::empty());
    Vec::new()
}

/// Reads an `Int` at `pos`: the value and the next position, or nothing read.
pub open spec fn read_int(vals: Seq<SavedValue>, pos: nat) -> (Option<i32>, nat) {
    if pos < vals.len() {
        match vals[pos as int] {
            SavedValue::Int(v) => (Some(v), pos + 1),
            _ => (None, pos),
        }
    } else {
        (None, pos)
    }
}

/// Reads a `Long` at `pos`.
pub open spec fn read_long(vals: Seq<SavedValue>, pos: nat) -> (Option<i64>, nat) {
    if pos < vals.len() {
        match vals[pos as int] {
            SavedValue::Long(v) => (Some(v), pos + 1),
            _ => (None, pos),
        }
    } else {
        (None, pos)
    }
}

/// Reads a `Uuid` at `pos`.
pub open spec fn read_uuid(vals: Seq<SavedValue>, pos: nat) -> (Option<u128>, nat) {
    if pos < vals.len() {
        match vals[pos as int] {
            SavedValue::Uuid(v) => (Some(v), pos + 1),
            _ => (None, pos),
        }
    } else {
        (None, pos)
    }
}

/// Reads `n` item stacks into slots after `acc`; a stack that cannot be read
/// gives an empty slot.
pub open spec fn read_stacks(
    vals: Seq<SavedValue>,
    pos: nat,
    n: nat,
    table: Seq<(u32, i32)>,
    acc: Seq<FoodSlot>,
) -> (Seq<FoodSlot>, nat)
    decreases n,
{
    if n == 0 {
        (acc, pos)
    } else if pos < vals.len() && vals[pos as int] is Stack {
        let item = vals[pos as int]->item;
        let count = vals[pos as int]->count;
        read_stacks(
            vals,
            pos + 1,
            (n - 1) as nat,
            table,
            acc.push(FoodSlot { item, food_points: points_of(table, item), count }),
        )
    } else {
        read_stacks(vals, pos, (n - 1) as nat, table, acc.push(empty_slot()))
    }
}

/// Reads `n` pairs of gossip kind and value into `acc`; a pair whose kind is
/// no kind of gossip, or that cannot be read, is skipped.
pub open spec fn read_types(vals: Seq<SavedValue>, pos: nat, n: nat, acc: Seq<(GossipType, i32)>) -> (
    Seq<(GossipType, i32)>,
    nat,
)
    decreases n,
{
    if n == 0 {
        (acc, pos)
    } else {
        let (g, p1) = read_int(vals, pos);
        let (v, p2) = read_int(vals, p1);
        let acc2 = match (g, v) {
            (Some(gid), Some(value)) => if 0 <= gid <= 4 {
                assoc_insert(acc, gossip_of(gid), value)
            } else {
                acc
            },
            _ => acc,
        };
        read_types(vals, p2, (n - 1) as nat, acc2)
    }
}

/// The kind of gossip of a number `0..=4`.
pub open spec fn gossip_of(id: i32) -> GossipType {
    if id == 0 {
        GossipType::MajorNegative
    } else if id == 1 {
        GossipType::MinorNegative
    } else if id == 2 {
        GossipType::MajorPositive
    } else if id == 3 {
        GossipType::MinorPositive
    } else {
        GossipType::Trading
    }
}

/// A count read from saved data: what a loop `0..n` runs over.
pub open spec fn count_of(n: i32) -> nat {
    if n > 0 {
        n as nat
    } else {
        0
    }
}

/// Reads `n` gossip records into `acc`: a UUID, a count, then that many pairs
/// of kind and value; a record whose UUID or count cannot be read is skipped.
pub open spec fn read_gossips(
    vals: Seq<SavedValue>,
    pos: nat,
    n: nat,
    acc: Seq<(u128, Seq<(GossipType, i32)>)>,
) -> (Seq<(u128, Seq<(GossipType, i32)>)>, nat)
    decreases n,
{
    if n == 0 {
        (acc, pos)
    } else {
        let (u, p1) = read_uuid(vals, pos);
        match u {
            None => read_gossips(vals, p1, (n - 1) as nat, acc),
            Some(uuid) => {
                let (tl, p2) = read_int(vals, p1);
                match tl {
                    None => read_gossips(vals, p2, (n - 1) as nat, acc),
                    Some(t) => {
                        let (types, p3) = read_types(vals, p2, count_of(t), Seq::empty());
                        read_gossips(vals, p3, (n - 1) as nat, assoc_insert(acc, uuid, types))
                    },
                }
            },
        }
    }
}

/// The saved values of a slot.
pub open spec fn stack_value(s: FoodSlot) -> SavedValue {
    SavedValue::Stack { item: s.item, count: s.count }
}

/// The saved values of the pairs of a gossip record.
pub open spec fn saved_types(t: Seq<(GossipType, i32)>) -> Seq<SavedValue>
    decreases t.len(),
{
    if t.len() == 0 {
        Seq::empty()
    } else {
        seq![SavedValue::Int(gossip_id(t[0].0)), SavedValue::Int(t[0].1)] + saved_types(t.drop_first())
    }
}

/// The saved values of the gossip records.
pub open spec fn saved_gossips(g: Seq<(u128, Seq<(GossipType, i32)>)>) -> Seq<SavedValue>
    decreases g.len(),
{
    if g.len() == 0 {
        Seq::empty()
    } else {
        seq![SavedValue::Uuid(g[0].0), SavedValue::Int(g[0].1.len() as i32)] + saved_types(g[0].1)
            + saved_gossips(g.drop_first())
    }
}

/// The saved data of a villager: type, profession and level, food level,
/// experience, last restock time, restocks today, the inventory (its length,
/// then its stacks) and the gossips (their number, then each record).
pub open spec fn spec_saved(
    data: VillagerData,
    food: i32,
    xp: i32,
    restock: i64,
    today: i32,
    inv: Seq<FoodSlot>,
    gossips: Seq<(u128, Seq<(GossipType, i32)>)>,
) -> Seq<SavedValue> {
    seq![
        SavedValue::Int(villager_type_id(data.villager_type)),
        SavedValue::Int(profession_id(data.profession)),
        SavedValue::Int(data.level),
        SavedValue::Int(food),
        SavedValue::Int(xp),
        SavedValue::Long(restock),
        SavedValue::Int(today),
        SavedValue::Int(inv.len() as i32),
    ] + inv.map_values(|s: FoodSlot| stack_value(s)) + seq![SavedValue::Int(gossips.len() as i32)]
        + saved_gossips(gossips)
}

/// What loading saved data sets, field by field, from the values a villager
/// had before: each field is read in the order `spec_saved` writes it, and
/// keeps its value when its read fails; the inventory and the gossips are
/// replaced only when their count is read.
pub open spec fn spec_load(
    data: VillagerData,
    food: i32,
    xp: i32,
    restock: i64,
    today: i32,
    inv: Seq<FoodSlot>,
    gossips: Seq<(u128, Seq<(GossipType, i32)>)>,
    vals: Seq<SavedValue>,
    table: Seq<(u32, i32)>,
) -> (VillagerData, i32, i32, i64, i32, Seq<FoodSlot>, Seq<(u128, Seq<(GossipType, i32)>)>) {
    let (t, p1) = read_int(vals, 0);
    let (pr, p2) = read_int(vals, p1);
    let (l, p3) = read_int(vals, p2);
    let (f, p4) = read_int(vals, p3);
    let (x, p5) = read_int(vals, p4);
    let (r, p6) = read_long(vals, p5);
    let (d, p7) = read_int(vals, p6);
    let (il, p8) = read_int(vals, p7);
    let (inv2, p9) = match il {
        Some(n) => read_stacks(vals, p8, count_of(n), table, Seq::empty()),
        None => (inv, p8),
    };
    let (gl, p10) = read_int(vals, p9);
    let gossips2 = match gl {
        Some(n) => read_gossips(vals, p10, count_of(n), Seq::empty()).0,
        None => gossips,
    };
    (
        VillagerData {
            villager_type: match t {
                Some(id) => villager_type_of(id),
                None => data.villager_type,
            },
            profession: match pr {
                Some(id) => profession_of(id),
                None => data.profession,
            },
            level: match l {
                Some(v) => v,
                None => data.level,
            },
        },
        match f {
            Some(v) => v,
            None => food,
        },
        match x {
            Some(v) => v,
            None => xp,
        },
        match r {
            Some(v) => v,
            None => restock,
        },
        match d {
            Some(v) => v,
            None => today,
        },
        inv2,
        gossips2,
    )
}

fn next_int(vals: &[SavedValue], pos: usize) -> (r: (Option<i32>, usize))
    requires
        pos <= vals@.len(),
    ensures
        (r.0, r.1 as nat) == read_int(vals@, pos as nat),
        r.1 <= vals@.len(),
{
    if pos < vals.len() {
        match vals[pos] {
            SavedValue::Int(v) => (Some(v), pos + 1),
            _ => (None, pos),
        }
    } else {
        (None, pos)
    }
}

fn next_long(vals: &[SavedValue], pos: usize) -> (r: (Option<i64>, usize))
    requires
        pos <= vals@.len(),
    ensures
        (r.0, r.1 as nat) == read_long(vals@, pos as nat),
        r.1 <= vals@.len(),
{
    if pos < vals.len() {
        match vals[pos] {
            SavedValue::Long(v) => (Some(v), pos + 1),
            _ => (None, pos),
        }
    } else {
        (None, pos)
    }
}

fn next_uuid(vals: &[SavedValue], pos: usize) -> (r: (Option<u128>, usize))
    requires
        pos <= vals@.len(),
    ensures
        (r.0, r.1 as nat) == read_uuid(vals@, pos as nat),
        r.1 <= vals@.len(),
{
    if pos < vals.len() {
        match vals[pos] {
            SavedValue::Uuid(v) => (Some(v), pos + 1),
            _ => (None, pos),
        }
    } else {
        (None, pos)
    }
}

fn food_points_in(table: &[(u32, i32)], item: u32) -> (r: i32)
    ensures
        r == points_of(table@, item),
{
    let mut i: usize = 0;
    assert(table@.skip(0) =~= table@);
    while i < table.len()
        invariant
            i <= table@.len(),
            points_of(table@, item) == points_of(table@.skip(i as int), item),
        decreases table@.len() - i,
    {
        assert(table@.skip(i as int)[0] == table@[i as int]);
        if table[i].0 == item {
            return table[i].1;
        }
        assert(table@.skip(i as int).drop_first() =~= table@.skip(i + 1));
        i = i + 1;
    }
    0
}

fn insert_gossip_type(types: &mut Vec<(GossipType, i32)>, g: GossipType, v: i32)
    ensures
        final(types)@ == assoc_insert(old(types)@, g, v),
{
    let ghost s = types@;
    let n = types.len();
    let mut i: usize = 0;
    assert(s.skip(0) =~= s);
    assert(s.take(0) + assoc_insert(s, g, v) =~= assoc_insert(s, g, v));
    while i < n
        invariant
            i <= n,
            n == s.len(),
            types@ == s,
            s == old(types)@,
            assoc_insert(s, g, v) == s.take(i as int) + assoc_insert(s.skip(i as int), g, v),
            forall|j: int| 0 <= j < i ==> s[j].0 != g,
        decreases n - i,
    {
        let k = types[i].0;
        let ghost sk = s.skip(i as int);
        assert(sk[0] == s[i as int]);
        if k == g {
            assert(assoc_insert(sk, g, v) == seq![(g, v)] + sk.drop_first());
            types.set(i, (g, v));
            assert(types@ =~= s.take(i as int) + (seq![(g, v)] + sk.drop_first()));
            return;
        }
        assert(sk.drop_first() =~= s.skip(i + 1));
        assert(s.take(i + 1) =~= s.take(i as int) + seq![s[i as int]]);
        i = i + 1;
    }
    assert(s.skip(n as int) =~= Seq::<(GossipType, i32)>::empty());
    types.push((g, v));
    assert(types@ =~= s.take(n as int) + seq![(g, v)]);
}

fn insert_gossip(gossips: &mut Vec<(u128, Vec<(GossipType, i32)>)>, uuid: u128, types: Vec<(GossipType, i32)>)
    ensures
        gossips_view(final(gossips)@) == assoc_insert(gossips_view(old(gossips)@), uuid, types@),
{
    let ghost s = gossips_view(gossips@);
    let ghost tv = types@;
    let n = gossips.len();
    let mut i: usize = 0;
    assert(s.skip(0) =~= s);
    assert(s.take(0) + assoc_insert(s, uuid, tv) =~= assoc_insert(s, uuid, tv));
    while i < n
        invariant
            i <= n,
            n == s.len(),
            n == gossips@.len(),
            gossips_view(gossips@) == s,
            s == gossips_view(old(gossips)@),
            tv == types@,
            assoc_insert(s, uuid, tv) == s.take(i as int) + assoc_insert(s.skip(i as int), uuid, tv),
        decreases n - i,
    {
        let k = gossips[i].0;
        let ghost sk = s.skip(i as int);
        assert(sk[0] == s[i as int]);
        assert(s[i as int].0 == gossips@[i as int].0);
        if k == uuid {
            assert(assoc_insert(sk, uuid, tv) == seq![(uuid, tv)] + sk.drop_first());
            gossips.set(i, (uuid, types));
            assert(gossips_view(gossips@) =~= s.take(i as int) + (seq![(uuid, tv)] + sk.drop_first()));
            return;
        }
        assert(sk.drop_first() =~= s.skip(i + 1));
        assert(s.take(i + 1) =~= s.take(i as int) + seq![s[i as int]]);
        i = i + 1;
    }
    assert(s.skip(n as int) =~= Seq::<(u128, Seq<(GossipType, i32)>)>::empty());
    gossips.push((uuid, types));
    assert(gossips_view(gossips@) =~= s.take(n as int) + seq![(uuid, tv)]);
}

fn load_stacks(vals: &[SavedValue], pos: usize, n: usize, table: &[(u32, i32)]) -> (r: (Vec<FoodSlot>, usize))
    requires
        pos <= vals@.len(),
    ensures
        (r.0@, r.1 as nat) == read_stacks(vals@, pos as nat, n as nat, table@, Seq::empty()),
        r.1 <= vals@.len(),
{
    let mut out: Vec<FoodSlot> = Vec::new();
    let mut p = pos;
    let mut i: usize = 0;
    while i < n
        invariant
            i <= n,
            p <= vals@.len(),
            read_stacks(vals@, pos as nat, n as nat, table@, Seq::empty()) == read_stacks(
                vals@,
                p as nat,
                (n - i) as nat,
                table@,
                out@,
            ),
        decreases n - i,
    {
        let slot = if p < vals.len() {
            match vals[p] {
                SavedValue::Stack { item, count } => {
                    let points = food_points_in(table, item);
                    p = p + 1;
                    FoodSlot { item, food_points: points, count }
                },
                _ => FoodSlot { item: 0, food_points: 0, count: 0 },
            }
        } else {
            FoodSlot { item: 0, food_points: 0, count: 0 }
        };
        out.push(slot);
        i = i + 1;
    }
    (out, p)
}

fn load_types(vals: &[SavedValue], pos: usize, n: usize) -> (r: (Vec<(GossipType, i32)>, usize))
    requires
        pos <= vals@.len(),
    ensures
        (r.0@, r.1 as nat) == read_types(vals@, pos as nat, n as nat, Seq::empty()),
        r.1 <= vals@.len(),
        distinct_keys(r.0@),
{
    let mut out: Vec<(GossipType, i32)> = Vec::new();
    let mut p = pos;
    let mut i: usize = 0;
    while i < n
        invariant
            i <= n,
            p <= vals@.len(),
            read_types(vals@, pos as nat, n as nat, Seq::empty()) == read_types(
                vals@,
                p as nat,
                (n - i) as nat,
                out@,
            ),
            distinct_keys(out@),
        decreases n - i,
    {
        let (g, p1) = next_int(vals, p);
        let (v, p2) = next_int(vals, p1);
        match (g, v) {
            (Some(gid), Some(value)) => {
                match GossipType::from_id(gid) {
                    Some(kind) => {
                        assert(kind == gossip_of(gid));
                        proof {
                            lemma_assoc_insert_distinct(out@, kind, value);
                        }
                        insert_gossip_type(&mut out, kind, value);
                    },
                    None => {},
                }
            },
            _ => {},
        }
        p = p2;
        i = i + 1;
    }
    (out, p)
}

fn load_gossips(vals: &[SavedValue], pos: usize, n: usize) -> (r: Vec<(u128, Vec<(GossipType, i32)>)>)
    requires
        pos <= vals@.len(),
    ensures
        gossips_view(r@) == read_gossips(vals@, pos as nat, n as nat, Seq::empty()).0,
        gossips_wf(gossips_view(r@)),
{
    let mut out: Vec<(u128, Vec<(GossipType, i32)>)> = Vec::new();
    let mut p = pos;
    let mut i: usize = 0;
    assert(gossips_view(out@) =~= Seq::<(u128, Seq<(GossipType, i32)>)>::empty());
    while i < n
        invariant
            i <= n,
            p <= vals@.len(),
            read_gossips(vals@, pos as nat, n as nat, Seq::empty()) == read_gossips(
                vals@,
                p as nat,
                (n - i) as nat,
                gossips_view(out@),
            ),
            gossips_wf(gossips_view(out@)),
        decreases n - i,
    {
        let (u, p1) = next_uuid(vals, p);
        match u {
            None => {
                p = p1;
            },
            Some(uuid) => {
                let (tl, p2) = next_int(vals, p1);
                match tl {
                    None => {
                        p = p2;
                    },
                    Some(t) => {
                        let count: usize = if t > 0 {
                            t as usize
                        } else {
                            0
                        };
                        let (types, p3) = load_types(vals, p2, count);
                        proof {
                            lemma_assoc_insert_wf(gossips_view(out@), uuid, types@);
                        }
                        insert_gossip(&mut out, uuid, types);
                        p = p3;
                    },
                }
            },
        }
        i = i + 1;
    }
    out
}

impl VillagerEntity {
    /// The villager's saved data. Loading it gives the villager's data back,
    /// whatever the state it is loaded into, as long as the number of slots
    /// and of players fit an `i32` and the table of food items gives each
    /// slot its food points.
    pub fn saved_values(&self) -> (r: Vec<SavedValue>)
        ensures
            r@ == spec_saved(
                self.villager_data,
                self.food_level,
                self.xp,
                self.last_restock_time,
                self.restocks_today,
                self.inventory@,
                self.gossips@,
            ),
            forall|
                before: (VillagerData, i32, i32, i64, i32, Seq<FoodSlot>, Seq<(u128, Seq<(GossipType, i32)>)>),
                table: Seq<(u32, i32)>,
            |
                self.inventory@.len() <= i32::MAX && self.gossips@.len() <= i32::MAX && (forall|i: int|
                    0 <= i < self.inventory@.len() ==> (#[trigger] self.inventory@[i]).food_points
                        == points_of(table, self.inventory@[i].item)) ==> #[trigger] spec_load(
                    before.0,
                    before.1,
                    before.2,
                    before.3,
                    before.4,
                    before.5,
                    before.6,
                    r@,
                    table,
                ) == (
                    self.villager_data,
                    self.food_level,
                    self.xp,
                    self.last_restock_time,
                    self.restocks_today,
                    self.inventory@,
                    self.gossips@,
                ),
    {
        proof {
            use_type_invariant(&self.gossips);
        }
        let mut out: Vec<SavedValue> = Vec::new();
        out.push(SavedValue::Int(self.villager_data.villager_type.id()));
        out.push(SavedValue::Int(self.villager_data.profession.id()));
        out.push(SavedValue::Int(self.villager_data.level));
        out.push(SavedValue::Int(self.food_level));
        out.push(SavedValue::Int(self.xp));
        out.push(SavedValue::Long(self.last_restock_time));
        out.push(SavedValue::Int(self.restocks_today));
        out.push(SavedValue::Int(self.inventory.len() as i32));
        let ghost head = out@;
        let mut i: usize = 0;
        while i < self.inventory.len()
            invariant
                i <= self.inventory@.len(),
                out@ == head + self.inventory@.take(i as int).map_values(|s: FoodSlot| stack_value(s)),
            decreases self.inventory@.len() - i,
        {
            let s = self.inventory[i];
            out.push(SavedValue::Stack { item: s.item, count: s.count });
            i = i + 1;
            assert(out@ =~= head + self.inventory@.take(i as int).map_values(|s: FoodSlot| stack_value(s)));
        }
        assert(self.inventory@.take(i as int) =~= self.inventory@);
        let ghost g = self.gossips@;
        let records = &self.gossips.records;
        out.push(SavedValue::Int(records.len() as i32));
        let ghost head2 = out@;
        let mut k: usize = 0;
        assert(g.take(0) =~= Seq::<(u128, Seq<(GossipType, i32)>)>::empty());
        assert(saved_gossips(Seq::<(u128, Seq<(GossipType, i32)>)>::empty()) =~= Seq::<SavedValue>::empty());
        while k < records.len()
            invariant
                k <= records@.len(),
                g == gossips_view(records@),
                out@ == head2 + saved_gossips(g.take(k as int)),
            decreases records@.len() - k,
        {
            let ghost before = out@;
            let entry = &records[k];
            out.push(SavedValue::Uuid(entry.0));
            out.push(SavedValue::Int(entry.1.len() as i32));
            let ghost mid = out@;
            let mut j: usize = 0;
            assert(saved_types(entry.1@.take(0)) =~= Seq::<SavedValue>::empty());
            while j < entry.1.len()
                invariant
                    j <= entry.1@.len(),
                    out@ == mid + saved_types(entry.1@.take(j as int)),
                decreases entry.1@.len() - j,
            {
                let (kind, value) = entry.1[j];
                out.push(SavedValue::Int(kind.id()));
                out.push(SavedValue::Int(value));
                proof {
                    lemma_saved_types_push(entry.1@.take(j as int), (kind, value));
                    assert(entry.1@.take(j + 1) =~= entry.1@.take(j as int).push((kind, value)));
                }
                j = j + 1;
                assert(out@ =~= mid + saved_types(entry.1@.take(j as int)));
            }
            proof {
                assert(entry.1@.take(j as int) =~= entry.1@);
                let e = g[k as int];
                assert(e == (entry.0, entry.1@));
                lemma_saved_gossips_push(g.take(k as int), e);
                assert(g.take(k + 1) =~= g.take(k as int).push(e));
                assert(out@ =~= head2 + saved_gossips(g.take(k + 1)));
            }
            k = k + 1;
        }
        assert(g.take(k as int) =~= g);
        assert(out@ =~= spec_saved(
            self.villager_data,
            self.food_level,
            self.xp,
            self.last_restock_time,
            self.restocks_today,
            self.inventory@,
            g,
        ));
        proof {
            assert forall|
                before: (VillagerData, i32, i32, i64, i32, Seq<FoodSlot>, Seq<(u128, Seq<(GossipType, i32)>)>),
                table: Seq<(u32, i32)>,
            |
                self.inventory@.len() <= i32::MAX && g.len() <= i32::MAX && (forall|i: int|
                    0 <= i < self.inventory@.len() ==> (#[trigger] self.inventory@[i]).food_points
                        == points_of(table, self.inventory@[i].item)) implies #[trigger] spec_load(
                before.0,
                before.1,
                before.2,
                before.3,
                before.4,
                before.5,
                before.6,
                out@,
                table,
            ) == (
                self.villager_data,
                self.food_level,
                self.xp,
                self.last_restock_time,
                self.restocks_today,
                self.inventory@,
                g,
            ) by {
                lemma_load_after_save(
                    self.villager_data,
                    self.food_level,
                    self.xp,
                    self.last_restock_time,
                    self.restocks_today,
                    self.inventory@,
                    g,
                    table,
                    before,
                );
            }
        }
        out
    }

    /// Loads saved data, reading each field in the order `saved_values`
    /// writes it: a field whose value cannot be read keeps its value; an
    /// unknown type or profession number gives plains or no profession; the
    /// inventory is replaced by as many stacks as its count says (an unreadable
    /// stack gives an empty slot, and each item's food points come from the
    /// table of food items); the gossips are replaced by as many records as
    /// their count says, skipping unknown kinds and unreadable records.
    pub fn load_saved(&mut self, vals: &[SavedValue], food_table: &[(u32, i32)])
        ensures
            (
                final(self).villager_data,
                final(self).food_level,
                final(self).xp,
                final(self).last_restock_time,
                final(self).restocks_today,
                final(self).inventory@,
                final(self).gossips@,
            ) == spec_load(
                old(self).villager_data,
                old(self).food_level,
                old(self).xp,
                old(self).last_restock_time,
                old(self).restocks_today,
                old(self).inventory@,
                old(self).gossips@,
                vals@,
                food_table@,
            ),
            gossips_wf(final(self).gossips@),
            final(self).offers@ == old(self).offers@,
            final(self).merchant_inventory@ == old(self).merchant_inventory@,
    {
        let (t, p1) = next_int(vals, 0);
        if let Some(id) = t {
            self.villager_data.villager_type = VillagerType::of_id(id);
        }
        let (pr, p2) = next_int(vals, p1);
        if let Some(id) = pr {
            self.villager_data.profession = VillagerProfession::of_id(id);
        }
        let (l, p3) = next_int(vals, p2);
        if let Some(v) = l {
            self.villager_data.level = v;
        }
        let (f, p4) = next_int(vals, p3);
        if let Some(v) = f {
            self.food_level = v;
        }
        let (x, p5) = next_int(vals, p4);
        if let Some(v) = x {
            self.xp = v;
        }
        let (r, p6) = next_long(vals, p5);
        if let Some(v) = r {
            self.last_restock_time = v;
        }
        let (d, p7) = next_int(vals, p6);
        if let Some(v) = d {
            self.restocks_today = v;
        }
        let (il, p8) = next_int(vals, p7);
        let p9 = match il {
            Some(n) => {
                let count: usize = if n > 0 {
                    n as usize
                } else {
                    0
                };
                let (stacks, p) = load_stacks(vals, p8, count, food_table);
                self.inventory = stacks;
                p
            },
            None => p8,
        };
        let (gl, p10) = next_int(vals, p9);
        if let Some(n) = gl {
            let count: usize = if n > 0 {
                n as usize
            } else {
                0
            };
            self.gossips = Gossips { records: load_gossips(vals, p10, count) };
        }
        proof {
            use_type_invariant(&self.gossips);
        }
    }
}

proof fn lemma_saved_types_push(t: Seq<(GossipType, i32)>, e: (GossipType, i32))
    ensures
        saved_types(t.push(e)) == saved_types(t) + seq![SavedValue::Int(gossip_id(e.0)), SavedValue::Int(e.1)],
    decreases t.len(),
{
    if t.len() == 0 {
        assert(t.push(e).drop_first() =~= t);
        assert(saved_types(t) =~= Seq::<SavedValue>::empty());
        assert(saved_types(t.push(e)) =~= saved_types(t) + seq![SavedValue::Int(gossip_id(e.0)), SavedValue::Int(e.1)]);
    } else {
        lemma_saved_types_push(t.drop_first(), e);
        assert(t.push(e).drop_first() =~= t.drop_first().push(e));
        assert(saved_types(t.push(e)) =~= saved_types(t) + seq![SavedValue::Int(gossip_id(e.0)), SavedValue::Int(e.1)]);
    }
}

proof fn lemma_saved_gossips_push(g: Seq<(u128, Seq<(GossipType, i32)>)>, e: (u128, Seq<(GossipType, i32)>))
    ensures
        saved_gossips(g.push(e)) == saved_gossips(g) + (seq![SavedValue::Uuid(e.0), SavedValue::Int(e.1.len() as i32)] + saved_types(e.1)),
    decreases g.len(),
{
    if g.len() == 0 {
        assert(g.push(e).drop_first() =~= g);
        assert(saved_gossips(g) =~= Seq::<SavedValue>::empty());
        assert(saved_gossips(g.push(e)) =~= saved_gossips(g) + (seq![SavedValue::Uuid(e.0), SavedValue::Int(e.1.len() as i32)] + saved_types(e.1)));
    } else {
        lemma_saved_gossips_push(g.drop_first(), e);
        assert(g.push(e).drop_first() =~= g.drop_first().push(e));
        assert(saved_gossips(g.push(e)) =~= saved_gossips(g) + (seq![SavedValue::Uuid(e.0), SavedValue::Int(e.1.len() as i32)] + saved_types(e.1)));
    }
}

proof fn lemma_assoc_insert_absent<K, V>(s: Seq<(K, V)>, k: K, v: V)
    requires
        forall|j: int| 0 <= j < s.len() ==> #[trigger] s[j].0 != k,
    ensures
        assoc_insert(s, k, v) == s.push((k, v)),
    decreases s.len(),
{
    if s.len() == 0 {
        assert(seq![(k, v)] =~= s.push((k, v)));
    } else {
        let t = s.drop_first();
        assert(s[0].0 != k);
        assert forall|j: int| 0 <= j < t.len() implies #[trigger] t[j].0 != k by {
            assert(t[j] == s[j + 1]);
        }
        lemma_assoc_insert_absent(t, k, v);
        assert(seq![s[0]] + t.push((k, v)) =~= s.push((k, v)));
    }
}

/// The keys of `s` are distinct.
pub open spec fn distinct_keys<K, V>(s: Seq<(K, V)>) -> bool {
    forall|i: int, j: int| #![trigger s[i], s[j]] 0 <= i < j < s.len() ==> s[i].0 != s[j].0
}

proof fn lemma_read_stacks(vals: Seq<SavedValue>, p: nat, inv: Seq<FoodSlot>, table: Seq<(u32, i32)>, acc: Seq<FoodSlot>)
    requires
        p + inv.len() <= vals.len(),
        vals.subrange(p as int, (p + inv.len()) as int) == inv.map_values(|s: FoodSlot| stack_value(s)),
        forall|i: int| 0 <= i < inv.len() ==> (#[trigger] inv[i]).food_points == points_of(table, inv[i].item),
    ensures
        read_stacks(vals, p, inv.len(), table, acc) == (acc + inv, p + inv.len()),
    decreases inv.len(),
{
    if inv.len() == 0 {
        assert(acc + inv =~= acc);
    } else {
        let s0 = inv[0];
        let t = inv.drop_first();
        assert(vals.subrange(p as int, (p + inv.len()) as int)[0] == vals[p as int]);
        assert(vals[p as int] == stack_value(s0));
        assert(FoodSlot { item: s0.item, food_points: points_of(table, s0.item), count: s0.count } == s0);
        assert(vals.subrange((p + 1) as int, (p + 1 + t.len()) as int) =~= t.map_values(|s: FoodSlot| stack_value(s))) by {
            assert forall|i: int| 0 <= i < t.len() implies #[trigger] vals.subrange((p + 1) as int, (p + 1 + t.len()) as int)[i]
                == t.map_values(|s: FoodSlot| stack_value(s))[i] by {
                assert(vals.subrange(p as int, (p + inv.len()) as int)[i + 1] == vals[p + 1 + i]);
            }
        }
        assert forall|i: int| 0 <= i < t.len() implies (#[trigger] t[i]).food_points == points_of(table, t[i].item) by {
            assert(t[i] == inv[i + 1]);
        }
        lemma_read_stacks(vals, p + 1, t, table, acc.push(s0));
        assert(acc.push(s0) + t =~= acc + inv);
    }
}

proof fn lemma_saved_types_len(t: Seq<(GossipType, i32)>)
    ensures
        saved_types(t).len() == 2 * t.len(),
    decreases t.len(),
{
    if t.len() > 0 {
        lemma_saved_types_len(t.drop_first());
    }
}

proof fn lemma_read_types(vals: Seq<SavedValue>, p: nat, t: Seq<(GossipType, i32)>, acc: Seq<(GossipType, i32)>)
    requires
        p + 2 * t.len() <= vals.len(),
        vals.subrange(p as int, (p + 2 * t.len()) as int) == saved_types(t),
        distinct_keys(acc + t),
    ensures
        read_types(vals, p, t.len(), acc) == (acc + t, p + 2 * t.len()),
    decreases t.len(),
{
    lemma_saved_types_len(t);
    if t.len() == 0 {
        assert(acc + t =~= acc);
    } else {
        let e = t[0];
        let r = t.drop_first();
        lemma_saved_types_len(r);
        let w = vals.subrange(p as int, (p + 2 * t.len()) as int);
        assert(w[0] == vals[p as int]);
        assert(w[1] == vals[(p + 1) as int]);
        assert(saved_types(t) == seq![SavedValue::Int(gossip_id(e.0)), SavedValue::Int(e.1)] + saved_types(r));
        assert(gossip_of(gossip_id(e.0)) == e.0);
        assert forall|j: int| 0 <= j < acc.len() implies #[trigger] acc[j].0 != e.0 by {
            assert((acc + t)[j] == acc[j]);
            assert((acc + t)[acc.len() as int] == e);
        }
        lemma_assoc_insert_absent(acc, e.0, e.1);
        assert(vals.subrange((p + 2) as int, (p + 2 + 2 * r.len()) as int) =~= saved_types(r)) by {
            assert forall|i: int| 0 <= i < 2 * r.len() implies #[trigger] vals.subrange((p + 2) as int, (p + 2 + 2 * r.len()) as int)[i]
                == saved_types(r)[i] by {
                assert(w[i + 2] == vals[p + 2 + i]);
            }
        }
        assert(acc.push(e) + r =~= acc + t);
        lemma_read_types(vals, p + 2, r, acc.push(e));
    }
}

proof fn lemma_read_gossips(
    vals: Seq<SavedValue>,
    p: nat,
    g: Seq<(u128, Seq<(GossipType, i32)>)>,
    acc: Seq<(u128, Seq<(GossipType, i32)>)>,
)
    requires
        p + saved_gossips(g).len() <= vals.len(),
        vals.subrange(p as int, (p + saved_gossips(g).len()) as int) == saved_gossips(g),
        distinct_keys(acc + g),
        forall|i: int| 0 <= i < g.len() ==> distinct_keys((#[trigger] g[i]).1) && g[i].1.len() <= i32::MAX,
    ensures
        read_gossips(vals, p, g.len(), acc).0 == acc + g,
    decreases g.len(),
{
    if g.len() == 0 {
        assert(acc + g =~= acc);
    } else {
        let e = g[0];
        let r = g.drop_first();
        lemma_saved_types_len(e.1);
        let head = seq![SavedValue::Uuid(e.0), SavedValue::Int(e.1.len() as i32)];
        assert(saved_gossips(g) == head + saved_types(e.1) + saved_gossips(r));
        let w = vals.subrange(p as int, (p + saved_gossips(g).len()) as int);
        assert(w[0] == vals[p as int]);
        assert(w[1] == vals[(p + 1) as int]);
        assert(distinct_keys(e.1));
        assert(count_of(e.1.len() as i32) == e.1.len());
        let q = p + 2;
        assert(vals.subrange(q as int, (q + 2 * e.1.len()) as int) =~= saved_types(e.1)) by {
            assert forall|i: int| 0 <= i < 2 * e.1.len() implies #[trigger] vals.subrange(q as int, (q + 2 * e.1.len()) as int)[i]
                == saved_types(e.1)[i] by {
                assert(w[i + 2] == vals[q + i]);
            }
        }
        assert(Seq::<(GossipType, i32)>::empty() + e.1 =~= e.1);
        lemma_read_types(vals, q, e.1, Seq::empty());
        let q2 = q + 2 * e.1.len();
        assert forall|j: int| 0 <= j < acc.len() implies #[trigger] acc[j].0 != e.0 by {
            assert((acc + g)[j] == acc[j]);
            assert((acc + g)[acc.len() as int] == e);
        }
        lemma_assoc_insert_absent(acc, e.0, e.1);
        assert(vals.subrange(q2 as int, (q2 + saved_gossips(r).len()) as int) =~= saved_gossips(r)) by {
            assert forall|i: int| 0 <= i < saved_gossips(r).len() implies #[trigger] vals.subrange(q2 as int, (q2 + saved_gossips(r).len()) as int)[i] == saved_gossips(r)[i] by {
                assert(w[i + 2 + 2 * e.1.len()] == vals[q2 + i]);
            }
        }
        assert(acc.push(e) + r =~= acc + g);
        assert forall|i: int| 0 <= i < r.len() implies distinct_keys((#[trigger] r[i]).1) && r[i].1.len() <= i32::MAX by {
            assert(r[i] == g[i + 1]);
        }
        lemma_read_gossips(vals, q2, r, acc.push(e));
    }
}

/// Loading what a villager saved gives back its data, food level, experience,
/// restock time and count, inventory and gossips, whatever it held before:
/// as long as the number of slots and of players fit an `i32`, the gossips
/// are well formed (as every villager's are), and each slot's food points are
/// those the table gives its item.
pub proof fn lemma_load_after_save(
    data: VillagerData,
    food: i32,
    xp: i32,
    restock: i64,
    today: i32,
    inv: Seq<FoodSlot>,
    gossips: Seq<(u128, Seq<(GossipType, i32)>)>,
    table: Seq<(u32, i32)>,
    before: (VillagerData, i32, i32, i64, i32, Seq<FoodSlot>, Seq<(u128, Seq<(GossipType, i32)>)>),
)
    requires
        inv.len() <= i32::MAX,
        gossips.len() <= i32::MAX,
        gossips_wf(gossips),
        forall|i: int| 0 <= i < inv.len() ==> (#[trigger] inv[i]).food_points == points_of(table, inv[i].item),
    ensures
        spec_load(
            before.0,
            before.1,
            before.2,
            before.3,
            before.4,
            before.5,
            before.6,
            spec_saved(data, food, xp, restock, today, inv, gossips),
            table,
        ) == (data, food, xp, restock, today, inv, gossips),
{
    assert forall|i: int| 0 <= i < gossips.len() implies distinct_keys((#[trigger] gossips[i]).1)
        && gossips[i].1.len() <= i32::MAX by {
        assert(distinct_keys(gossips[i].1));
        lemma_record_len(gossips[i].1);
    }
    let vals = spec_saved(data, food, xp, restock, today, inv, gossips);
    let stacks = inv.map_values(|s: FoodSlot| stack_value(s));
    let n = inv.len();
    assert(vals[0] == SavedValue::Int(villager_type_id(data.villager_type)));
    assert(vals[1] == SavedValue::Int(profession_id(data.profession)));
    assert(vals[2] == SavedValue::Int(data.level));
    assert(vals[3] == SavedValue::Int(food));
    assert(vals[4] == SavedValue::Int(xp));
    assert(vals[5] == SavedValue::Long(restock));
    assert(vals[6] == SavedValue::Int(today));
    assert(vals[7] == SavedValue::Int(n as i32));
    assert(villager_type_of(villager_type_id(data.villager_type)) == data.villager_type);
    assert(profession_of(profession_id(data.profession)) == data.profession);
    assert(count_of(n as i32) == n);
    assert(vals.subrange(8, 8 + n as int) =~= stacks);
    assert(Seq::<FoodSlot>::empty() + inv =~= inv);
    lemma_read_stacks(vals, 8, inv, table, Seq::empty());
    assert(vals[8 + n as int] == SavedValue::Int(gossips.len() as i32));
    assert(count_of(gossips.len() as i32) == gossips.len());
    let p = (9 + n) as nat;
    assert(vals.subrange(p as int, (p + saved_gossips(gossips).len()) as int) =~= saved_gossips(gossips));
    assert(Seq::<(u128, Seq<(GossipType, i32)>)>::empty() + gossips =~= gossips);
    lemma_read_gossips(vals, p, gossips, Seq::empty());
}


/// Each villager type is saved as its registry number (desert 0, jungle 1,
/// plains 2, savanna 3, snow 4, swamp 5, taiga 6), and each of these numbers
/// reads back as that type; any other number reads as plains. The saved data
/// starts with the number of the villager's type, and loading a number first
/// sets the type it reads as.
pub proof fn lemma_villager_type_numbers(
    data: VillagerData,
    food: i32,
    xp: i32,
    restock: i64,
    today: i32,
    inv: Seq<FoodSlot>,
    gossips: Seq<(u128, Seq<(GossipType, i32)>)>,
    k: i32,
    table: Seq<(u32, i32)>,
)
    ensures
        villager_type_id(VillagerType::Desert) == 0,
        villager_type_id(VillagerType::Jungle) == 1,
        villager_type_id(VillagerType::Plains) == 2,
        villager_type_id(VillagerType::Savanna) == 3,
        villager_type_id(VillagerType::Snow) == 4,
        villager_type_id(VillagerType::Swamp) == 5,
        villager_type_id(VillagerType::Taiga) == 6,
        villager_type_of(0) == VillagerType::Desert,
        villager_type_of(1) == VillagerType::Jungle,
        villager_type_of(2) == VillagerType::Plains,
        villager_type_of(3) == VillagerType::Savanna,
        villager_type_of(4) == VillagerType::Snow,
        villager_type_of(5) == VillagerType::Swamp,
        villager_type_of(6) == VillagerType::Taiga,
        k < 0 || k > 6 ==> villager_type_of(k) == VillagerType::Plains,
        spec_saved(data, food, xp, restock, today, inv, gossips)[0] == SavedValue::Int(
            villager_type_id(data.villager_type),
        ),
        spec_load(data, food, xp, restock, today, inv, gossips, seq![SavedValue::Int(k)], table).0.villager_type
            == villager_type_of(k),
{
}

/// Each profession is saved as its registry number (none 0, armorer 1,
/// butcher 2, cartographer 3, cleric 4, farmer 5, fisherman 6, fletcher 7,
/// leatherworker 8, librarian 9, mason 10, nitwit 11, shepherd 12, toolsmith
/// 13, weaponsmith 14), and each of these numbers reads back as that
/// profession; any other number reads as no profession. The second saved
/// value is the number of the villager's profession, and loading a type and
/// a profession number sets the profession it reads as.
pub proof fn lemma_profession_numbers(
    data: VillagerData,
    food: i32,
    xp: i32,
    restock: i64,
    today: i32,
    inv: Seq<FoodSlot>,
    gossips: Seq<(u128, Seq<(GossipType, i32)>)>,
    t: i32,
    k: i32,
    table: Seq<(u32, i32)>,
)
    ensures
        profession_id(VillagerProfession::NoProfession) == 0,
        profession_id(VillagerProfession::Armorer) == 1,
        profession_id(VillagerProfession::Butcher) == 2,
        profession_id(VillagerProfession::Cartographer) == 3,
        profession_id(VillagerProfession::Cleric) == 4,
        profession_id(VillagerProfession::Farmer) == 5,
        profession_id(VillagerProfession::Fisherman) == 6,
        profession_id(VillagerProfession::Fletcher) == 7,
        profession_id(VillagerProfession::Leatherworker) == 8,
        profession_id(VillagerProfession::Librarian) == 9,
        profession_id(VillagerProfession::Mason) == 10,
        profession_id(VillagerProfession::Nitwit) == 11,
        profession_id(VillagerProfession::Shepherd) == 12,
        profession_id(VillagerProfession::Toolsmith) == 13,
        profession_id(VillagerProfession::Weaponsmith) == 14,
        profession_of(0) == VillagerProfession::NoProfession,
        profession_of(1) == VillagerProfession::Armorer,
        profession_of(2) == VillagerProfession::Butcher,
        profession_of(3) == VillagerProfession::Cartographer,
        profession_of(4) == VillagerProfession::Cleric,
        profession_of(5) == VillagerProfession::Farmer,
        profession_of(6) == VillagerProfession::Fisherman,
        profession_of(7) == VillagerProfession::Fletcher,
        profession_of(8) == VillagerProfession::Leatherworker,
        profession_of(9) == VillagerProfession::Librarian,
        profession_of(10) == VillagerProfession::Mason,
        profession_of(11) == VillagerProfession::Nitwit,
        profession_of(12) == VillagerProfession::Shepherd,
        profession_of(13) == VillagerProfession::Toolsmith,
        profession_of(14) == VillagerProfession::Weaponsmith,
        k < 0 || k > 14 ==> profession_of(k) == VillagerProfession::NoProfession,
        spec_saved(data, food, xp, restock, today, inv, gossips)[1] == SavedValue::Int(
            profession_id(data.profession),
        ),
        spec_load(
            data,
            food,
            xp,
            restock,
            today,
            inv,
            gossips,
            seq![SavedValue::Int(t), SavedValue::Int(k)],
            table,
        ).0.profession == profession_of(k),
{
}


/// The kinds of gossip are saved as the numbers 0 to 4: major negative, minor
/// negative, major positive, minor positive, trading; reading each number
/// back gives that kind.
pub proof fn lemma_gossip_numbers()
    ensures
        gossip_id(GossipType::MajorNegative) == 0,
        gossip_id(GossipType::MinorNegative) == 1,
        gossip_id(GossipType::MajorPositive) == 2,
        gossip_id(GossipType::MinorPositive) == 3,
        gossip_id(GossipType::Trading) == 4,
        gossip_of(0) == GossipType::MajorNegative,
        gossip_of(1) == GossipType::MinorNegative,
        gossip_of(2) == GossipType::MajorPositive,
        gossip_of(3) == GossipType::MinorPositive,
        gossip_of(4) == GossipType::Trading,
{
}

/// The offer of a trade asks for and gives the trade's items, with their
/// counts in the low byte (a count below 256 is kept as it is), asks for a
/// second item exactly when the trade does, takes the trade's uses, experience
/// and price multiplier, and starts enabled, unused, at no special price and
/// with no demand.
pub proof fn lemma_offer_of_trade(t: Trade)
    ensures
        offer_of(t).base_cost_a.item == t.wants.item,
        offer_of(t).output.item == t.gives.item,
        0 <= t.wants.count < 256 ==> offer_of(t).base_cost_a.count == t.wants.count,
        0 <= t.gives.count < 256 ==> offer_of(t).output.count == t.gives.count,
        offer_of(t).cost_b is Some == t.wants_b is Some,
        t.wants_b matches Some(b) ==> offer_of(t).cost_b->0.item == b.item && (0 <= b.count < 256
            ==> offer_of(t).cost_b->0.count == b.count),
        offer_of(t).max_uses == t.max_uses,
        offer_of(t).xp == t.xp,
        offer_of(t).price_multiplier == t.price_multiplier,
        !offer_of(t).is_disabled,
        offer_of(t).uses == 0,
        offer_of(t).special_price == 0,
        offer_of(t).demand == 0,
{
}

} // verus!
