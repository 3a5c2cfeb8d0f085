//! Dice, hit points, resources, charges, the decision policy, and whole
//! encounters run against a fixed roll stream.

use battleforge::{
    ActionComponent, ActionCondition, ActionStruct, Charge, Dice, Fight, Formula, Monster,
    MonsterStats, Resource, Roller, StatBlock,
};

fn stats(ac: i32, hp: i32) -> MonsterStats {
    MonsterStats {
        ability: StatBlock::uniform(10),
        saving_throws: StatBlock::uniform(0),
        initiative: 0,
        armor_class: ac,
        hp,
        max_hp: hp,
    }
}

fn attack_action(attack_modifier: i32, damage: &str) -> ActionStruct {
    let damage = Formula::from_text(damage).unwrap();
    let component = ActionComponent::Condition {
        target_count: 1,
        condition: ActionCondition::HitCondition { attack_modifier },
        success: Box::new(ActionComponent::Damage { damage, rolled: 0 }),
        failure: Box::new(ActionComponent::Nothing),
    };
    ActionStruct {
        charges: Charge::Infinite,
        resources: vec![Resource::Action],
        components: vec![component],
    }
}

fn fighter(team_id: u8, ac: i32, hp: i32, attack_modifier: i32, damage: &str) -> Monster {
    Monster {
        id: 0,
        name: String::from("fighter"),
        entity_stats: stats(ac, hp),
        team_id,
        actions: vec![(String::from("Attack"), attack_action(attack_modifier, damage))],
        resources: vec![(Resource::Action, 1)],
    }
}

#[test]
fn dice_roll_is_fixed_under_a_fixed_roller() {
    let d = Dice::new(3, 6);
    assert_eq!(d.roll(&Roller::fixed(4)), 12);
    // the fixed value is clamped into the die's range
    assert_eq!(d.roll(&Roller::fixed(15)), 18);
    assert_eq!(d.roll(&Roller::fixed(-2)), 3);
    assert_eq!(Dice::new(0, 6).roll(&Roller::fixed(4)), 0);
}

#[test]
fn dice_roll_stays_in_range_under_the_process_rng() {
    let d = Dice::new(4, 8);
    let roller = Roller::random();
    for _ in 0..50 {
        let r = d.roll(&roller);
        assert!(4 <= r && r <= 32);
    }
}

#[test]
fn hp_clamps_at_zero_and_at_the_maximum() {
    let mut s = stats(10, 10);
    s.hp = 5;
    s.decrease_hp(7);
    assert_eq!(s.hp(), 0);
    s.increase_hp(100);
    assert_eq!(s.hp(), 10);
    s.decrease_hp(3);
    assert_eq!(s.hp(), 7);
    s.increase_hp(1);
    assert_eq!(s.hp(), 8);
}

#[test]
fn charges_run_out_after_exactly_their_count() {
    let mut a = attack_action(0, "1d4");
    a.set_charge(Charge::Limited(2));
    assert!(a.has_charges());
    a.use_charge();
    assert!(a.has_charges());
    a.use_charge();
    assert!(!a.has_charges());
}

#[test]
fn an_uncharged_action_is_never_chosen_whatever_the_ledger_holds() {
    let mut m = fighter(0, 10, 10, 5, "1d6");
    m.actions[0].1.set_charge(Charge::Limited(0));
    // plenty of resources, yet no eligible action
    m.resources = vec![(Resource::Action, 9), (Resource::Ki, 9)];
    assert!(m.take_action().is_none());
}

#[test]
fn availability_follows_the_ledger() {
    let mut a = attack_action(0, "1d4");
    a.add_resource(Resource::Ki);
    let mut ledger = vec![(Resource::Action, 1), (Resource::Ki, 2)];
    assert!(a.is_available(&ledger));
    a.consume_resources(&mut ledger);
    assert_eq!(ledger, vec![(Resource::Action, 0), (Resource::Ki, 1)]);
    // the spent action is gone until the next turn refill
    assert!(!a.is_available(&ledger));
}

#[test]
fn new_turn_refills_only_per_turn_resources() {
    let mut m = fighter(0, 10, 10, 0, "1d4");
    m.resources = vec![
        (Resource::Action, 0),
        (Resource::BonusAction, 0),
        (Resource::Ki, 3),
        (Resource::Spell(2), 2),
        (Resource::SpellAction, 0),
    ];
    m.new_turn();
    assert_eq!(
        m.resources,
        vec![
            (Resource::Action, 1),
            (Resource::BonusAction, 1),
            (Resource::Ki, 3),
            (Resource::Spell(2), 2),
            (Resource::SpellAction, 1),
        ],
    );
}

#[test]
fn take_action_picks_the_highest_average_and_spends_for_it() {
    let mut m = fighter(0, 10, 10, 0, "1d4");
    m.actions = vec![
        (String::from("Weak"), attack_action(0, "1d4")),
        (String::from("Strong"), attack_action(0, "2d6+3")),
    ];
    let taken = m.take_action().unwrap();
    // the strong attack was chosen: its damage die has six faces
    match &taken.components[0] {
        ActionComponent::Condition { success, .. } => match &**success {
            ActionComponent::Damage { damage, .. } => {
                assert_eq!(damage.dice().face_count(), 6);
                assert_eq!(damage.dice().dice_count(), 2);
            },
            _ => panic!("expected a damage leaf"),
        },
        _ => panic!("expected a condition component"),
    }
    assert_eq!(m.resources, vec![(Resource::Action, 0)]);
    // the one action budget is spent: nothing else can be taken this turn
    assert!(m.take_action().is_none());
}

#[test]
fn highest_spell_slot_scans_the_ledger() {
    let mut m = fighter(0, 10, 10, 0, "1d4");
    assert_eq!(m.highest_spell_slot(), 0);
    m.resources = vec![(Resource::Spell(2), 1), (Resource::Ki, 1), (Resource::Spell(5), 0)];
    assert_eq!(m.highest_spell_slot(), 5);
}

#[test]
fn preroll_gives_every_target_the_same_damage() {
    let mut action = ActionStruct {
        charges: Charge::Infinite,
        resources: vec![Resource::Action],
        components: vec![ActionComponent::Damage {
            damage: Formula::from_text("2d6+1").unwrap(),
            rolled: 0,
        }],
    };
    let roller = Roller::fixed(4);
    action.ready_for_apply(&roller);
    let mut fight = Fight::new(
        vec![fighter(0, 10, 30, 0, "1d4"), fighter(1, 10, 30, 0, "1d4"), fighter(
            1,
            10,
            30,
            0,
            "1d4",
        )],
        roller,
    );
    let comp = &action.get_components()[0];
    comp.apply(0, 1, &mut fight);
    comp.apply(0, 2, &mut fight);
    // one pre-rolled amount, 2 * 4 + 1 = 9, applied identically to both
    assert_eq!(fight.get_hp(1), 21);
    assert_eq!(fight.get_hp(2), 21);
}

#[test]
fn team_alive_lists_each_surviving_team_once() {
    let mut dead = fighter(2, 10, 10, 0, "1d4");
    dead.entity_stats.hp = 0;
    let fight = Fight::new(
        vec![fighter(0, 10, 5, 0, "1d4"), fighter(1, 10, 5, 0, "1d4"), fighter(
            0,
            10,
            5,
            0,
            "1d4",
        ), dead],
        Roller::fixed(10),
    );
    assert_eq!(fight.team_alive(), vec![0, 1]);
}

#[test]
fn targets_are_the_first_living_enemies_in_roster_order() {
    let fight = Fight::new(
        vec![fighter(0, 10, 5, 0, "1d4"), fighter(1, 10, 5, 0, "1d4"), fighter(
            1,
            10,
            5,
            0,
            "1d4",
        ), fighter(1, 10, 5, 0, "1d4")],
        Roller::fixed(10),
    );
    let comp = ActionComponent::Condition {
        target_count: 2,
        condition: ActionCondition::True,
        success: Box::new(ActionComponent::Nothing),
        failure: Box::new(ActionComponent::Nothing),
    };
    let targets = fight.get_entities()[0].get_targets(&fight, &comp);
    assert_eq!(targets, vec![1, 2]);
}

#[test]
fn play_resolves_the_fixed_duel() {
    // Team 0: AC 12, HP 7; Team 1: AC 15, HP 8; both attack at +5 for 1d6.
    // With every d20 fixed at 15 both sides always hit for 6 damage, so
    // the first mover wins and the loser ends at max(0, 8 - 12) = 0.
    let mut fight = Fight::new(
        vec![fighter(0, 12, 7, 5, "1d6"), fighter(1, 15, 8, 5, "1d6")],
        Roller::fixed(15),
    );
    let winner = fight.play();
    assert_eq!(winner, Some(0));
    assert_eq!(fight.get_hp(1), 0);
    assert_eq!(fight.get_hp(0), 1);
}

#[test]
fn play_reports_no_winner_when_nobody_can_hit() {
    // every roll is a 1: 1 + 5 never reaches either armor class, so the
    // encounter stalls and no sole survivor is ever declared
    let mut fight = Fight::new(
        vec![fighter(0, 12, 7, 5, "1d6"), fighter(1, 15, 8, 5, "1d6")],
        Roller::fixed(1),
    );
    assert_eq!(fight.play(), None);
    assert_eq!(fight.get_hp(0), 7);
    assert_eq!(fight.get_hp(1), 8);
}

#[test]
fn saves_halve_or_dodge_per_the_condition() {
    // a save-gated effect: full damage on a failed save, nothing on a pass
    let damage = Formula::from_text("4").unwrap();
    let comp = ActionComponent::Condition {
        target_count: 1,
        condition: ActionCondition::SaveCondition {
            save_dc: 10,
            ability: battleforge::Ability::Dexterity,
        },
        success: Box::new(ActionComponent::Nothing),
        failure: Box::new(ActionComponent::Damage { damage, rolled: 4 }),
    };
    // d20 fixed at 15: 15 + 0 >= 10 passes, the target takes nothing
    let mut fight = Fight::new(
        vec![fighter(0, 10, 10, 0, "1d4"), fighter(1, 10, 10, 0, "1d4")],
        Roller::fixed(15),
    );
    comp.apply(0, 1, &mut fight);
    assert_eq!(fight.get_hp(1), 10);
    // d20 fixed at 5: 5 + 0 < 10 fails, the damage lands
    let mut fight = Fight::new(
        vec![fighter(0, 10, 10, 0, "1d4"), fighter(1, 10, 10, 0, "1d4")],
        Roller::fixed(5),
    );
    comp.apply(0, 1, &mut fight);
    assert_eq!(fight.get_hp(1), 6);
}

#[test]
fn downed_creatures_stay_down_and_are_never_targeted() {
    let mut downed = fighter(0, 10, 10, 5, "1d6");
    downed.entity_stats.hp = 0;
    let mut fight = Fight::new(
        vec![fighter(0, 12, 7, 5, "1d6"), downed, fighter(1, 12, 8, 5, "1d6")],
        Roller::fixed(15),
    );
    assert_eq!(fight.play(), Some(0));
    // the creature that was already down took part in nothing
    assert_eq!(fight.get_hp(1), 0);
}

#[test]
fn play_keeps_gear_and_spends_the_turn_budget() {
    let mut fight = Fight::new(
        vec![fighter(0, 12, 7, 5, "1d6"), fighter(1, 15, 8, 5, "1d6")],
        Roller::fixed(15),
    );
    fight.play();
    // the stored actions survive the encounter untouched
    let winner = &fight.get_entities()[0];
    assert_eq!(winner.actions.len(), 1);
    assert_eq!(winner.actions[0].0, "Attack");
    // and the last turn ran until its budget was spent
    assert_eq!(winner.resources, vec![(Resource::Action, 0)]);
}
