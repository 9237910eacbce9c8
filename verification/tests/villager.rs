use pumpkin_logic::villager::{
    offers_for, GossipType, Gossips, SavedValue, VillagerProfession, VillagerType, FoodSlot, MerchantOffer, MobInteraction, OfferItem, Trade, TradeItem, TradeSet,
    VillagerData, VillagerEntity,
};

const THRESHOLD: i32 = 12;

fn data(profession: VillagerProfession) -> VillagerData {
    VillagerData { villager_type: VillagerType::Plains, profession, level: 1 }
}

fn slot(food_points: i32, count: u8) -> FoodSlot {
    FoodSlot { item: (food_points + 1000) as u32, food_points, count }
}

fn empty() -> FoodSlot {
    FoodSlot { item: 0, food_points: 0, count: 0 }
}

fn trade(n: i32) -> Trade {
    Trade {
        wants: TradeItem { item: n as u32, count: 300 },
        gives: TradeItem { item: 100 + n as u32, count: 1 },
        wants_b: if n % 2 == 0 { Some(TradeItem { item: 7, count: 2 }) } else { None },
        max_uses: 12,
        xp: n,
        price_multiplier: 0.05f32.to_bits(),
    }
}

#[test]
fn a_new_villager_starts_empty() {
    let v = VillagerEntity::new();
    assert_eq!(v.villager_data, data(VillagerProfession::NoProfession));
    assert_eq!(v.villager_data.villager_type, VillagerType::Plains);
    assert_eq!(v.villager_data.level, 1);
    assert_eq!(v.merchant_inventory.len(), 3);
    assert_eq!(v.gossips.len(), 0);
    assert_eq!(v.get_display_name(), "Villager");
    assert_eq!(v.food_level, 0);
    assert_eq!(v.xp, 0);
    assert_eq!(v.last_restock_time, 0);
    assert_eq!(v.restocks_today, 0);
    assert_eq!(v.inventory, vec![empty(); 8]);
    assert!(v.offers.is_empty());
}

#[test]
fn food_points_add_up_over_non_empty_slots() {
    let mut v = VillagerEntity::new();
    v.inventory = vec![slot(4, 3), slot(1, 5), empty(), slot(7, 0), slot(0, 9)];
    assert_eq!(v.count_food_points_in_inventory(), 17);
}

#[test]
fn eating_stops_at_the_threshold() {
    let mut v = VillagerEntity::new();
    v.food_level = 1;
    v.inventory = vec![slot(0, 4), slot(4, 2), slot(1, 10), slot(4, 6)];
    v.eat_until_full(THRESHOLD);
    // 1 + 4 + 4 = 9, then 10 more single points would overshoot: 9 + 1 + 1 + 1 = 12
    assert_eq!(v.food_level, 12);
    assert_eq!(v.inventory, vec![slot(0, 4), empty(), slot(1, 7), slot(4, 6)]);
    let before = v.food_level + v.count_food_points_in_inventory();
    assert_eq!(before, 1 + 8 + 10 + 24);
}

#[test]
fn eating_may_overshoot_with_one_item() {
    let mut v = VillagerEntity::new();
    v.food_level = 10;
    v.inventory = vec![slot(4, 3)];
    v.eat_until_full(THRESHOLD);
    assert_eq!(v.food_level, 14);
    assert_eq!(v.inventory, vec![slot(4, 2)]);
}

#[test]
fn a_full_villager_does_not_eat() {
    let mut v = VillagerEntity::new();
    v.food_level = 12;
    v.inventory = vec![slot(4, 3)];
    v.eat_until_full(THRESHOLD);
    assert_eq!(v.food_level, 12);
    assert_eq!(v.inventory, vec![slot(4, 3)]);
}

#[test]
fn a_hungry_villager_eats_all_it_has() {
    let mut v = VillagerEntity::new();
    v.food_level = 0;
    v.inventory = vec![slot(1, 2), slot(-3, 4), slot(2, 1)];
    v.eat_until_full(THRESHOLD);
    assert_eq!(v.food_level, 4);
    assert_eq!(v.inventory, vec![empty(), slot(-3, 4), empty()]);
}

#[test]
fn changing_the_profession_regenerates_trades() {
    let mut v = VillagerEntity::new();
    v.last_restock_time = 77;
    v.restocks_today = 2;
    let set = TradeSet { trades: vec![trade(1), trade(2), trade(3)], amount: 2 };
    let same = VillagerData { villager_type: VillagerType::Snow, profession: VillagerProfession::NoProfession, level: 2 };
    assert!(!v.set_villager_data(same, Some(&set)));
    assert_eq!(v.villager_data, same);
    assert!(v.offers.is_empty());
    assert!(v.set_villager_data(data(VillagerProfession::Farmer), Some(&set)));
    assert_eq!(v.villager_data, data(VillagerProfession::Farmer));
    assert_eq!(v.offers.len(), 2);
    assert_ne!(v.offers[0], v.offers[1]);
    for o in &v.offers {
        assert!(offers_for(&set.trades).contains(o));
    }
    let kept = v.offers.clone();
    assert!(!v.set_villager_data(VillagerData { level: 3, ..data(VillagerProfession::Farmer) }, None));
    assert_eq!(v.offers, kept);
    assert!(v.set_villager_data(data(VillagerProfession::Nitwit), None));
    assert!(v.offers.is_empty());
    assert_eq!((v.last_restock_time, v.restocks_today), (77, 2));
}

#[test]
fn offers_copy_the_trades() {
    let offers = offers_for(&[trade(2), trade(3)]);
    assert_eq!(
        offers[0],
        MerchantOffer {
            base_cost_a: OfferItem { item: 2, count: 44 },
            output: OfferItem { item: 102, count: 1 },
            cost_b: Some(OfferItem { item: 7, count: 2 }),
            is_disabled: false,
            uses: 0,
            max_uses: 12,
            xp: 2,
            special_price: 0,
            price_multiplier: 0.05f32.to_bits(),
            demand: 0,
        }
    );
    assert_eq!(offers[1].cost_b, None);
    assert_eq!(offers[1].xp, 3);
}

#[test]
fn trades_are_chosen_without_repetition() {
    let mut v = VillagerEntity::new();
    let set = TradeSet { trades: (0..6).map(trade).collect(), amount: 2 };
    v.generate_trades(Some(&set));
    assert_eq!(v.offers.len(), 2);
    assert_ne!(v.offers[0], v.offers[1]);
    for o in &v.offers {
        assert!(offers_for(&set.trades).contains(o));
    }
    let small = TradeSet { trades: vec![trade(1), trade(2)], amount: 5 };
    v.generate_trades(Some(&small));
    assert_eq!(v.offers.len(), 2);
    v.generate_trades(None);
    assert!(v.offers.is_empty());
}

#[test]
fn interaction_depends_on_age_and_offers() {
    let mut v = VillagerEntity::new();
    assert_eq!(v.mob_interact(0), MobInteraction::Unhappy);
    v.generate_trades(Some(&TradeSet { trades: vec![trade(1)], amount: 1 }));
    assert_eq!(v.mob_interact(0), MobInteraction::OpenTrading);
    assert_eq!(v.mob_interact(-1), MobInteraction::Unhappy);
}

#[test]
fn gossip_types_are_saved_as_numbers() {
    let all = [
        GossipType::MajorNegative,
        GossipType::MinorNegative,
        GossipType::MajorPositive,
        GossipType::MinorPositive,
        GossipType::Trading,
    ];
    for (i, g) in all.iter().enumerate() {
        assert_eq!(g.id(), i as i32);
        assert_eq!(GossipType::from_id(g.id()), Some(*g));
    }
    assert_eq!(GossipType::from_id(5), None);
    assert_eq!(GossipType::from_id(-1), None);
}

fn stocked_villager() -> VillagerEntity {
    let mut v = VillagerEntity::new();
    v.villager_data = VillagerData { villager_type: VillagerType::Desert, profession: VillagerProfession::Farmer, level: 3 };
    v.food_level = 5;
    v.xp = 7;
    v.last_restock_time = 99;
    v.restocks_today = 2;
    v.inventory = vec![slot(4, 3), empty()];
    v.gossips.set(42, GossipType::MajorPositive, 10);
    v.gossips.set(42, GossipType::Trading, 3);
    v.gossips.set(7, GossipType::MinorNegative, -4);
    v
}

#[test]
fn a_new_villager_saves_its_initial_data() {
    let v = VillagerEntity::new();
    let mut expected = vec![
        SavedValue::Int(2),
        SavedValue::Int(0),
        SavedValue::Int(1),
        SavedValue::Int(0),
        SavedValue::Int(0),
        SavedValue::Long(0),
        SavedValue::Int(0),
        SavedValue::Int(8),
    ];
    for _ in 0..8 {
        expected.push(SavedValue::Stack { item: 0, count: 0 });
    }
    expected.push(SavedValue::Int(0));
    assert_eq!(v.saved_values(), expected);
}

#[test]
fn saved_values_list_stacks_and_gossip_records() {
    let v = stocked_villager();
    let expected = vec![
        SavedValue::Int(0),
        SavedValue::Int(5),
        SavedValue::Int(3),
        SavedValue::Int(5),
        SavedValue::Int(7),
        SavedValue::Long(99),
        SavedValue::Int(2),
        SavedValue::Int(2),
        SavedValue::Stack { item: 1004, count: 3 },
        SavedValue::Stack { item: 0, count: 0 },
        SavedValue::Int(2),
        SavedValue::Uuid(42),
        SavedValue::Int(2),
        SavedValue::Int(2),
        SavedValue::Int(10),
        SavedValue::Int(4),
        SavedValue::Int(3),
        SavedValue::Uuid(7),
        SavedValue::Int(1),
        SavedValue::Int(1),
        SavedValue::Int(-4),
    ];
    assert_eq!(v.saved_values(), expected);
}

#[test]
fn loading_what_was_saved_gives_the_villager_back() {
    let v = stocked_villager();
    let saved = v.saved_values();
    let mut w = VillagerEntity::new();
    w.load_saved(&saved, &[(1004, 4)]);
    assert_eq!(w.villager_data, v.villager_data);
    assert_eq!(w.food_level, v.food_level);
    assert_eq!(w.xp, v.xp);
    assert_eq!(w.last_restock_time, v.last_restock_time);
    assert_eq!(w.restocks_today, v.restocks_today);
    assert_eq!(w.inventory, v.inventory);
    assert_eq!(w.gossips, v.gossips);
    assert_eq!(w.merchant_inventory.len(), 3);
}

#[test]
fn loading_nothing_keeps_every_field() {
    let mut w = stocked_villager();
    w.load_saved(&[], &[]);
    let v = stocked_villager();
    assert_eq!(w.villager_data, v.villager_data);
    assert_eq!(w.food_level, 5);
    assert_eq!(w.inventory, v.inventory);
    assert_eq!(w.gossips, v.gossips);
}

#[test]
fn unknown_type_and_profession_numbers_give_plains_and_no_profession() {
    let mut w = stocked_villager();
    w.load_saved(&[SavedValue::Int(99), SavedValue::Int(-1)], &[]);
    assert_eq!(w.villager_data.villager_type, VillagerType::Plains);
    assert_eq!(w.villager_data.profession, VillagerProfession::NoProfession);
    assert_eq!(w.villager_data.level, 3);
    assert_eq!(w.xp, 7);
}

#[test]
fn a_value_of_another_kind_is_not_consumed() {
    let mut w = stocked_villager();
    w.load_saved(&[SavedValue::Int(4), SavedValue::Long(31)], &[]);
    assert_eq!(w.villager_data.villager_type, VillagerType::Snow);
    assert_eq!(w.villager_data.profession, VillagerProfession::Farmer);
    assert_eq!(w.food_level, 5);
    assert_eq!(w.last_restock_time, 31);
    assert_eq!(w.restocks_today, 2);
}

#[test]
fn unreadable_stacks_become_empty_slots_and_unknown_gossip_kinds_are_skipped() {
    let mut w = stocked_villager();
    let vals = vec![
        SavedValue::Int(1),
        SavedValue::Int(9),
        SavedValue::Int(2),
        SavedValue::Int(0),
        SavedValue::Int(0),
        SavedValue::Long(0),
        SavedValue::Int(0),
        SavedValue::Int(2),
        SavedValue::Stack { item: 1001, count: 6 },
        SavedValue::Int(1),
        SavedValue::Uuid(5),
        SavedValue::Int(3),
        SavedValue::Int(7),
        SavedValue::Int(50),
        SavedValue::Int(3),
        SavedValue::Int(8),
        SavedValue::Int(3),
        SavedValue::Int(9),
    ];
    w.load_saved(&vals, &[(1001, 1)]);
    assert_eq!(w.villager_data.profession, VillagerProfession::Librarian);
    assert_eq!(w.inventory, vec![slot(1, 6), empty()]);
    // the stack read failed on the count of gossips, which is then read as usual
    let mut expected = Gossips::new();
    expected.set(5, GossipType::MinorPositive, 9);
    assert_eq!(w.gossips, expected);
}

#[test]
fn gossips_hold_each_player_and_kind_once() {
    let mut g = Gossips::new();
    g.set(1, GossipType::Trading, 5);
    g.set(2, GossipType::MajorNegative, -1);
    g.set(1, GossipType::MinorPositive, 2);
    g.set(1, GossipType::Trading, 7);
    assert_eq!(g.len(), 2);
    let (uuid, kinds) = g.record(0);
    assert_eq!(uuid, 1);
    assert_eq!(kinds, &vec![(GossipType::Trading, 7), (GossipType::MinorPositive, 2)]);
    let (uuid, kinds) = g.record(1);
    assert_eq!(uuid, 2);
    assert_eq!(kinds, &vec![(GossipType::MajorNegative, -1)]);
}
