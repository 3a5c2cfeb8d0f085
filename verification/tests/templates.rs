//! Instantiating actions and creatures from templates, including spell
//! upcasting.

use battleforge::{
    ActionComponent, ActionComponentModifier, ActionStruct, ActionTemplate, Charge, Fight,
    Formula, Monster, MonsterStats, MonsterStatsTemplate, MonsterTemplate, Resource, Roller,
    SpellTemplate, StatBlock, StatsTemplate, TemplateBuilder,
};

fn stats_template(ac: i32, hp: &str) -> MonsterStatsTemplate {
    let flat = StatsTemplate {
        strength: 10,
        dexterity: 10,
        constitution: 10,
        wisdom: 10,
        intelligence: 10,
        charisma: 10,
    };
    MonsterStatsTemplate {
        abilities: flat,
        saving_throws: StatsTemplate { strength: 0, dexterity: 2, constitution: 0, wisdom: 0, intelligence: 0, charisma: 0 },
        initiative: 0,
        armor_class: ac,
        hp: Formula::from_text(hp).unwrap(),
    }
}

fn plain_monster(ac: i32, hp: i32) -> Monster {
    Monster {
        id: 0,
        name: String::from("dummy"),
        entity_stats: MonsterStats {
            ability: StatBlock::uniform(10),
            saving_throws: StatBlock::uniform(0),
            initiative: 0,
            armor_class: ac,
            hp,
            max_hp: hp,
        },
        team_id: 0,
        actions: vec![],
        resources: vec![(Resource::Action, 1)],
    }
}

fn empty_builder() -> TemplateBuilder {
    TemplateBuilder::new(vec![], vec![], Roller::fixed(4))
}

#[test]
fn attack_template_builds_one_action() {
    let builder = empty_builder();
    let monster = plain_monster(10, 10);
    let template = ActionTemplate::Attack {
        name: String::from("Club"),
        attack_modifier: 2,
        dammage: Formula::from_text("1d4").unwrap(),
        target_count: 1,
    };
    let actions = ActionStruct::from_template(&builder, &monster, &template);
    assert_eq!(actions.len(), 1);
    assert_eq!(actions[0].0, "Club");
    assert_eq!(actions[0].1.resources, vec![Resource::Action]);
    assert_eq!(actions[0].1.components.len(), 1);
}

#[test]
fn multi_attack_template_builds_one_action_with_all_attacks() {
    let builder = empty_builder();
    let monster = plain_monster(10, 10);
    let claw = ActionTemplate::Attack {
        name: String::from("Claw"),
        attack_modifier: 4,
        dammage: Formula::from_text("1d6").unwrap(),
        target_count: 1,
    };
    let bite = ActionTemplate::Attack {
        name: String::from("Bite"),
        attack_modifier: 4,
        dammage: Formula::from_text("1d8+2").unwrap(),
        target_count: 1,
    };
    let template = ActionTemplate::MultiAttack {
        name: String::from("Frenzy"),
        attacks: vec![claw, bite],
    };
    let actions = ActionStruct::from_template(&builder, &monster, &template);
    assert_eq!(actions.len(), 1);
    assert_eq!(actions[0].0, "Frenzy");
    assert_eq!(actions[0].1.components.len(), 2);
}

fn zap_template() -> SpellTemplate {
    SpellTemplate {
        charges: Charge::Infinite,
        resources: vec![],
        level: 1,
        components: vec![(
            ActionComponent::Condition {
                target_count: 1,
                condition: battleforge::ActionCondition::HitCondition { attack_modifier: 0 },
                success: Box::new(ActionComponent::Damage {
                    damage: Formula::from_text("2d8").unwrap(),
                    rolled: 0,
                }),
                failure: Box::new(ActionComponent::Nothing),
            },
            ActionComponentModifier {
                target_count: 0,
                damage: Formula::from_text("1d8").unwrap(),
            },
        )],
        upcast_components: vec![],
        upcast_level: 0,
        spell_dc: 0,
        spell_attack: 0,
    }
}

#[test]
fn spell_template_builds_one_action_per_castable_level() {
    let mut builder = empty_builder();
    builder.spell_database = vec![(String::from("Zap"), zap_template())];
    let mut monster = plain_monster(10, 10);
    monster.resources = vec![(Resource::Action, 1), (Resource::Spell(3), 2)];
    let template = ActionTemplate::Spell {
        name: String::from("Zap"),
        spell_attack: 6,
        spell_dc: 13,
    };
    let actions = ActionStruct::from_template(&builder, &monster, &template);
    let names: Vec<&str> = actions.iter().map(|(n, _)| n.as_str()).collect();
    assert_eq!(names, vec!["Zap 1", "Zap 2", "Zap 3"]);
    for (i, (_, action)) in actions.iter().enumerate() {
        // each upcast level costs its own slot and adds one d8
        assert_eq!(
            action.resources,
            vec![Resource::SpellAction, Resource::Spell(1 + i as i32)],
        );
        match &action.components[0] {
            ActionComponent::Condition { condition, success, .. } => {
                match condition {
                    battleforge::ActionCondition::HitCondition { attack_modifier } => {
                        assert_eq!(*attack_modifier, 6);
                    },
                    _ => panic!("expected a hit condition"),
                }
                match &**success {
                    ActionComponent::Damage { damage, .. } => {
                        assert_eq!(damage.dice().dice_count(), 2 + i as i32);
                        assert_eq!(damage.dice().face_count(), 8);
                    },
                    _ => panic!("expected a damage leaf"),
                }
            },
            _ => panic!("expected a condition component"),
        }
    }
}

#[test]
fn builder_creates_a_team_assigned_creature() {
    let goblin = MonsterTemplate {
        name: String::from("Gobelin"),
        entity_stats: stats_template(13, "2d6"),
        resources: vec![],
        actions: vec![ActionTemplate::Attack {
            name: String::from("Scimitar"),
            attack_modifier: 4,
            dammage: Formula::from_text("1d6+2").unwrap(),
            target_count: 1,
        }],
    };
    let mut builder = TemplateBuilder::new(vec![goblin], vec![], Roller::fixed(4));
    let m = builder.create("Gobelin").team(1).hp(7).build();
    assert_eq!(m.name, "Gobelin");
    assert_eq!(m.team_id, 1);
    assert_eq!(m.entity_stats.hp, 7);
    assert_eq!(m.entity_stats.max_hp, 7);
    assert_eq!(m.entity_stats.armor_class, 13);
    assert_eq!(m.actions.len(), 1);
    assert_eq!(m.actions[0].0, "Scimitar");
    // the implicit per-turn budget is always present
    assert!(m.resources.contains(&(Resource::Action, 1)));
    assert!(m.resources.contains(&(Resource::BonusAction, 1)));
    assert!(m.resources.contains(&(Resource::SpellAction, 1)));
}

#[test]
fn built_creatures_fight_to_a_winner() {
    let goblin = MonsterTemplate {
        name: String::from("Gobelin"),
        entity_stats: stats_template(12, "2d6"),
        resources: vec![],
        actions: vec![ActionTemplate::Attack {
            name: String::from("Scimitar"),
            attack_modifier: 5,
            dammage: Formula::from_text("1d6").unwrap(),
            target_count: 1,
        }],
    };
    let mut builder = TemplateBuilder::new(vec![goblin], vec![], Roller::fixed(15));
    let a = builder.create("Gobelin").team(0).hp(7).build();
    let b = builder.create("Gobelin").team(1).hp(8).build();
    let mut fight = Fight::new(vec![a, b], Roller::fixed(15));
    assert_eq!(fight.play(), Some(0));
    assert_eq!(fight.get_hp(1), 0);
}
