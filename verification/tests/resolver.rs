use proxygen::card::database::{classify_layout, make_database, same_text, Layout};
use proxygen::{Card, Database, DatabaseEntry, ProxygenError};

fn words(list: &[&str]) -> Option<Vec<String>> {
    Some(list.iter().map(|s| s.to_string()).collect())
}

fn plain(name: &str, layout: &str, types: &[&str]) -> DatabaseEntry {
    DatabaseEntry {
        layout: layout.to_string(),
        name: name.to_string(),
        types: words(types),
        ..Default::default()
    }
}

fn composite(name: &str, layout: &str, names: &[&str]) -> DatabaseEntry {
    DatabaseEntry {
        layout: layout.to_string(),
        name: name.to_string(),
        names: words(names),
        types: words(&["Creature"]),
        ..Default::default()
    }
}

fn snapcaster() -> DatabaseEntry {
    DatabaseEntry {
        layout: "normal".to_string(),
        name: "Snapcaster Mage".to_string(),
        names: None,
        mana_cost: Some("{1}{U}".to_string()),
        supertypes: None,
        types: words(&["Creature"]),
        subtypes: words(&["Human", "Wizard"]),
        text: Some("Flash".to_string()),
        power: Some("2".to_string()),
        toughness: Some("1".to_string()),
        loyalty: None,
    }
}

fn jace() -> DatabaseEntry {
    DatabaseEntry {
        layout: "normal".to_string(),
        name: "Jace, the Mind Sculptor".to_string(),
        mana_cost: Some("{2}{U}{U}".to_string()),
        supertypes: None,
        types: words(&["Planeswalker"]),
        subtypes: words(&["Jace"]),
        text: Some("+2: Look at the top card of target player's library.".to_string()),
        loyalty: Some(3),
        ..Default::default()
    }
}

fn store(entries: Vec<DatabaseEntry>) -> Database {
    make_database(entries.into_iter().map(|e| (e.name.clone(), e)).collect())
}

fn fixture() -> Database {
    store(vec![
        snapcaster(),
        jace(),
        plain("Island", "normal", &["Land"]),
        DatabaseEntry {
            supertypes: words(&["Basic"]),
            subtypes: words(&["Mountain"]),
            ..plain("Mountain", "normal", &["Land"])
        },
        composite("Front Name", "double-faced", &["Front Name", "Back Name"]),
        composite("Back Name", "double-faced", &["Front Name", "Back Name"]),
        with_names(plain("Fire", "split", &["Instant"]), &["Fire", "Ice"]),
        with_names(plain("Ice", "split", &["Instant"]), &["Fire", "Ice"]),
        composite("Top", "flip", &["Top", "Bottom"]),
        composite("Bottom", "flip", &["Top", "Bottom"]),
        composite("Half", "meld", &["Half", "Whole"]),
        composite("Whole", "meld", &["Half", "Whole"]),
        composite("Lonely", "split", &["Only One"]),
        composite("Crowded", "flip", &["Top", "Bottom", "Island"]),
        DatabaseEntry { names: None, ..composite("Nameless", "double-faced", &[]) },
        composite("Orphan", "double-faced", &["Island", "Gone Away"]),
        composite("Foundling", "double-faced", &["Gone Before", "Gone Away"]),
        plain("Leveler Guy", "leveler", &["Creature"]),
        plain("Lim-D\u{fb}l the Necromancer", "normal", &["Creature"]),
        plain("Some Token", "token", &["Creature"]),
    ])
}

fn with_names(e: DatabaseEntry, names: &[&str]) -> DatabaseEntry {
    DatabaseEntry { names: words(names), ..e }
}

fn creature(name: &str, typeline: &str) -> Card {
    Card::Creature {
        name: name.to_string(),
        manacost: String::new(),
        typeline: typeline.to_string(),
        text: String::new(),
        power: String::new(),
        toughness: String::new(),
    }
}

fn noncreature(name: &str, typeline: &str) -> Card {
    Card::Noncreature {
        name: name.to_string(),
        manacost: String::new(),
        typeline: typeline.to_string(),
        text: String::new(),
    }
}

#[test]
fn creature_takes_every_field_of_its_record() {
    let card = fixture().get("Snapcaster Mage").unwrap();
    assert_eq!(
        card,
        Card::Creature {
            name: "Snapcaster Mage".to_string(),
            manacost: "{1}{U}".to_string(),
            typeline: "Creature \u{2014} Human Wizard".to_string(),
            text: "Flash".to_string(),
            power: "2".to_string(),
            toughness: "1".to_string(),
        }
    );
}

#[test]
fn planeswalker_takes_its_loyalty() {
    let card = fixture().get("jace, the mind sculptor").unwrap();
    assert_eq!(
        card,
        Card::Planeswalker {
            name: "Jace, the Mind Sculptor".to_string(),
            manacost: "{2}{U}{U}".to_string(),
            typeline: "Planeswalker \u{2014} Jace".to_string(),
            text: "+2: Look at the top card of target player's library.".to_string(),
            loyalty: 3,
        }
    );
}

#[test]
fn missing_fields_default_to_empty_and_zero() {
    let db = store(vec![
        plain("Bear", "normal", &["Creature"]),
        plain("Walker", "normal", &["Planeswalker"]),
        plain("Spell", "normal", &["Instant"]),
        DatabaseEntry { types: None, ..plain("Typeless", "normal", &[]) },
    ]);
    assert_eq!(db.get("Bear").unwrap(), creature("Bear", "Creature"));
    assert_eq!(
        db.get("Walker").unwrap(),
        Card::Planeswalker {
            name: "Walker".to_string(),
            manacost: String::new(),
            typeline: "Planeswalker".to_string(),
            text: String::new(),
            loyalty: 0,
        }
    );
    assert_eq!(db.get("Spell").unwrap(), noncreature("Spell", "Instant"));
    assert_eq!(db.get("Typeless").unwrap(), noncreature("Typeless", ""));
}

#[test]
fn creature_comes_before_planeswalker() {
    let db = store(vec![
        plain("Both", "normal", &["Planeswalker", "Creature"]),
        plain("Artifact Bear", "normal", &["Artifact", "Creature"]),
        plain("Lowercase", "normal", &["creature"]),
    ]);
    assert_eq!(db.get("Both").unwrap(), creature("Both", "Planeswalker Creature"));
    assert_eq!(db.get("Artifact Bear").unwrap(), creature("Artifact Bear", "Artifact Creature"));
    assert_eq!(db.get("Lowercase").unwrap(), noncreature("Lowercase", "creature"));
}

#[test]
fn typeline_joins_supertypes_types_dash_subtypes() {
    let db = store(vec![
        DatabaseEntry {
            supertypes: words(&["Legendary", "Snow"]),
            subtypes: words(&["Human", "Wizard"]),
            ..plain("Full", "normal", &["Artifact", "Creature"])
        },
        DatabaseEntry { subtypes: words(&[]), ..plain("No Subtypes", "normal", &["Land"]) },
        DatabaseEntry { subtypes: words(&["Aura"]), types: None, ..plain("Only Sub", "normal", &[]) },
        DatabaseEntry { supertypes: words(&["Basic"]), ..plain("Super", "normal", &["Land"]) },
    ]);
    assert_eq!(
        db.get("Full").unwrap(),
        creature("Full", "Legendary Snow Artifact Creature \u{2014} Human Wizard")
    );
    assert_eq!(db.get("No Subtypes").unwrap(), noncreature("No Subtypes", "Land"));
    assert_eq!(db.get("Only Sub").unwrap(), noncreature("Only Sub", "\u{2014} Aura"));
    assert_eq!(db.get("Super").unwrap(), noncreature("Super", "Basic Land"));
    assert_eq!(
        fixture().get("Mountain").unwrap(),
        noncreature("Mountain", "Basic Land \u{2014} Mountain")
    );
}

#[test]
fn leveler_resolves_like_normal() {
    assert_eq!(fixture().get("Leveler Guy").unwrap(), creature("Leveler Guy", "Creature"));
}

#[test]
fn lookup_goes_by_the_key_of_the_name() {
    let db = fixture();
    let card = db.get("Island").unwrap();
    assert_eq!(db.get("  iSLAND ").unwrap(), card);
    assert_eq!(db.get("island").unwrap(), card);
    assert_eq!(db.get("Is/land!").unwrap(), card);
    assert_eq!(
        db.get("lim-dul THE necromancer").unwrap(),
        creature("Lim-D\u{fb}l the Necromancer", "Creature")
    );
    assert_eq!(db.get_entry("ISLAND").unwrap().name, "Island");
}

#[test]
fn unknown_name_fails_with_its_key() {
    let db = fixture();
    match db.get("Not A Real Card") {
        Err(ProxygenError::InvalidCardName(key)) => assert_eq!(key, "not a real card"),
        other => panic!("unexpected: {:?}", other),
    }
    match db.get_entry("  Not  A Real Card!") {
        Err(ProxygenError::InvalidCardName(key)) => assert_eq!(key, "not a real card"),
        other => panic!("unexpected: {:?}", other),
    }
    match Card::from_name(&db, "") {
        Err(ProxygenError::InvalidCardName(key)) => assert_eq!(key, ""),
        other => panic!("unexpected: {:?}", other),
    }
}

#[test]
fn from_name_is_the_lookup_of_the_store() {
    let db = fixture();
    assert_eq!(Card::from_name(&db, "Snapcaster Mage").unwrap(), db.get("Snapcaster Mage").unwrap());
    assert_eq!(Card::from_name(&db, "Fire").unwrap(), db.get("Fire").unwrap());
}

#[test]
fn double_faced_card_holds_front_and_back() {
    let db = fixture();
    let card = db.get("Front Name").unwrap();
    assert_eq!(
        card,
        Card::DoubleFaced {
            front: Box::new(creature("Front Name", "Creature")),
            back: Box::new(creature("Back Name", "Creature")),
        }
    );
    assert_eq!(db.get("Back Name").unwrap(), card);
}

#[test]
fn part_equals_its_name_resolved_as_normal() {
    let db = fixture();
    let front = DatabaseEntry { layout: "normal".to_string(), ..db.get_entry("Front Name").unwrap().clone() };
    let direct = db.parse_card(&front).unwrap();
    match db.get("Front Name").unwrap() {
        Card::DoubleFaced { front, back: _ } => assert_eq!(*front, direct),
        other => panic!("unexpected: {:?}", other),
    }
    let plain_parts = store(vec![
        plain("Day", "normal", &["Creature"]),
        plain("Night", "normal", &["Land"]),
        composite("Both", "double-faced", &["Day", "Night"]),
    ]);
    match plain_parts.get("Both").unwrap() {
        Card::DoubleFaced { front, back } => {
            assert_eq!(*front, plain_parts.get("Day").unwrap());
            assert_eq!(*back, plain_parts.get("Night").unwrap());
        },
        other => panic!("unexpected: {:?}", other),
    }
}

#[test]
fn split_flip_and_meld_keep_their_kind() {
    let db = store(vec![
        with_names(plain("Fire", "split", &["Instant"]), &["Fire", "Ice"]),
        with_names(plain("Ice", "split", &["Instant"]), &["Fire", "Ice"]),
        composite("Top", "flip", &["Top", "Bottom"]),
        composite("Bottom", "flip", &["Top", "Bottom"]),
        composite("Half", "meld", &["Half", "Whole"]),
        composite("Whole", "meld", &["Half", "Whole"]),
    ]);
    assert_eq!(
        db.get("Ice").unwrap(),
        Card::Split {
            left: Box::new(noncreature("Fire", "Instant")),
            right: Box::new(noncreature("Ice", "Instant")),
        }
    );
    assert_eq!(
        db.get("Top").unwrap(),
        Card::Flip {
            top: Box::new(creature("Top", "Creature")),
            bottom: Box::new(creature("Bottom", "Creature")),
        }
    );
    assert_eq!(
        db.get("Whole").unwrap(),
        Card::Meld {
            front: Box::new(creature("Half", "Creature")),
            back: Box::new(creature("Whole", "Creature")),
        }
    );
}

#[test]
fn parts_are_looked_up_by_key() {
    let db = store(vec![
        plain("Lim-D\u{fb}l", "normal", &["Creature"]),
        composite("Pair", "flip", &["  LIM-DUL ", "lim-d\u{db}l!"]),
    ]);
    assert_eq!(
        db.get("Pair").unwrap(),
        Card::Flip {
            top: Box::new(creature("Lim-D\u{fb}l", "Creature")),
            bottom: Box::new(creature("Lim-D\u{fb}l", "Creature")),
        }
    );
}

#[test]
fn resolved_cards_are_flat() {
    let db = fixture();
    for name in ["Front Name", "Top", "Half", "Island", "Snapcaster Mage"] {
        let card = db.get(name).unwrap();
        assert!(card.is_flat(), "{}", name);
    }
    assert!(db.get("Front Name").unwrap().is_two_part());
    assert!(!db.get("Island").unwrap().is_two_part());
    let nested = Card::Split {
        left: Box::new(db.get("Top").unwrap()),
        right: Box::new(db.get("Island").unwrap()),
    };
    assert!(nested.is_two_part());
    assert!(!nested.is_flat());
}

#[test]
fn one_name_is_malformed() {
    let db = fixture();
    match db.get("Lonely") {
        Err(ProxygenError::MulticardHasMalformedNames(name)) => assert_eq!(name, "Lonely"),
        other => panic!("unexpected: {:?}", other),
    }
    match db.get("crowded") {
        Err(ProxygenError::MulticardHasMalformedNames(name)) => assert_eq!(name, "Crowded"),
        other => panic!("unexpected: {:?}", other),
    }
    let empty = composite("Empty", "meld", &[]);
    match db.parse_card(&empty) {
        Err(ProxygenError::MulticardHasMalformedNames(name)) => assert_eq!(name, "Empty"),
        other => panic!("unexpected: {:?}", other),
    }
}

#[test]
fn no_names_is_reported_with_the_name_of_the_record() {
    match fixture().get("nameless") {
        Err(ProxygenError::MulticardHasNoNames(name)) => assert_eq!(name, "Nameless"),
        other => panic!("unexpected: {:?}", other),
    }
}

#[test]
fn missing_part_fails_with_the_key_of_the_first_one_missing() {
    let db = fixture();
    match db.get("Orphan") {
        Err(ProxygenError::InvalidCardName(key)) => assert_eq!(key, "gone away"),
        other => panic!("unexpected: {:?}", other),
    }
    match db.get("Foundling") {
        Err(ProxygenError::InvalidCardName(key)) => assert_eq!(key, "gone before"),
        other => panic!("unexpected: {:?}", other),
    }
}

#[test]
fn unknown_layout_is_left_out_of_the_store() {
    match fixture().get("Some Token") {
        Err(ProxygenError::InvalidCardName(key)) => assert_eq!(key, "some token"),
        other => panic!("unexpected: {:?}", other),
    }
}

#[test]
fn unknown_layout_resolves_to_a_placeholder() {
    let db = fixture();
    for layout in ["token", "scheme", "Normal", "", "double faced"] {
        let record = plain("Odd One", layout, &["Creature"]);
        assert_eq!(
            db.parse_card(&record).unwrap(),
            Card::Unimplemented { name: "Odd One".to_string(), layout: layout.to_string() }
        );
    }
}

#[test]
fn later_record_wins_under_one_key() {
    let db = make_database(vec![
        ("Lim-D\u{fb}l".to_string(), plain("First", "normal", &["Creature"])),
        ("Other".to_string(), plain("Other", "normal", &["Land"])),
        ("lim-dul".to_string(), plain("Second", "normal", &["Land"])),
        ("LIM-DUL".to_string(), plain("Third", "token", &["Land"])),
    ]);
    assert_eq!(db.get("Lim-Dul").unwrap(), noncreature("Second", "Land"));
    assert_eq!(db.get("other").unwrap(), noncreature("Other", "Land"));
}

#[test]
fn record_is_filed_under_the_name_of_the_dataset() {
    let db = make_database(vec![("Listed As".to_string(), plain("Called", "normal", &["Land"]))]);
    assert_eq!(db.get("listed as").unwrap(), noncreature("Called", "Land"));
    assert!(matches!(db.get("Called"), Err(ProxygenError::InvalidCardName(_))));
}

#[test]
fn empty_store_knows_no_name() {
    let db = make_database(Vec::new());
    assert!(matches!(db.get("Island"), Err(ProxygenError::InvalidCardName(_))));
}

#[test]
fn resolving_twice_gives_equal_cards() {
    let db = fixture();
    for name in ["Snapcaster Mage", "Front Name", "Top", "Jace, the Mind Sculptor", "Fire"] {
        assert_eq!(db.get(name).unwrap(), db.get(name).unwrap());
    }
    assert_eq!(format!("{:?}", db.get("Lonely")), format!("{:?}", db.get("Lonely")));
    assert_eq!(format!("{:?}", db.get("nope")), format!("{:?}", db.get("nope")));
}

#[test]
fn layouts_are_told_by_their_exact_word() {
    assert_eq!(classify_layout("normal"), Layout::Normal);
    assert_eq!(classify_layout("leveler"), Layout::Leveler);
    assert_eq!(classify_layout("split"), Layout::Split);
    assert_eq!(classify_layout("flip"), Layout::Flip);
    assert_eq!(classify_layout("double-faced"), Layout::DoubleFaced);
    assert_eq!(classify_layout("meld"), Layout::Meld);
    for other in ["", "Normal", "normal ", "token", "plane", "double_faced"] {
        assert_eq!(classify_layout(other), Layout::Other);
    }
    assert!(same_text("a\u{fb}", "a\u{fb}"));
    assert!(!same_text("a", "A"));
    assert!(!same_text("a", "ab"));
}

#[test]
fn json_error_becomes_a_proxygen_error() {
    let failure = serde_json::from_str::<serde_json::Value>("{").unwrap_err();
    let shown = failure.to_string();
    match ProxygenError::from(failure) {
        ProxygenError::JsonError(e) => assert_eq!(e.to_string(), shown),
        other => panic!("unexpected: {:?}", other),
    }
}
