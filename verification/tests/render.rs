use proxygen::card::render::{base_inner_html, break_manacost, prettify_oracle_text};
use proxygen::Card;
use regex::Regex;

fn creature(name: &str, power: &str, toughness: &str) -> Card {
    Card::Creature {
        name: name.to_string(),
        manacost: "{1}{U}".to_string(),
        typeline: "Creature \u{2014} Human Wizard".to_string(),
        text: "Flash".to_string(),
        power: power.to_string(),
        toughness: toughness.to_string(),
    }
}

fn land(name: &str) -> Card {
    Card::Noncreature {
        name: name.to_string(),
        manacost: String::new(),
        typeline: "Land".to_string(),
        text: String::new(),
    }
}

const LAND_INNER: &str = "<div class=\"name_mana_line\"><p class=\"name\">Island</p>\
<p class=\"manacost\"></p></div><p class=\"typeline\">Land</p><div class=\"oracle_div\"></div>";

fn reference_oracle(text: &str) -> String {
    let pattern = Regex::new(r"(?P<reminder>\(.+\))").unwrap();
    pattern
        .replace_all(text, "<i>$reminder</i>")
        .lines()
        .map(|line| format!("<p class=\"oracle_p\">{}</p>", line))
        .collect()
}

fn reference_manacost(cost: &str) -> String {
    let pattern = Regex::new(r"(?P<symbol>\{.+?\})").unwrap();
    pattern.replace_all(cost, "$symbol<wbr>").into_owned()
}

#[test]
fn oracle_text_becomes_paragraphs() {
    assert_eq!(prettify_oracle_text(""), "");
    assert_eq!(prettify_oracle_text("Flash"), "<p class=\"oracle_p\">Flash</p>");
    assert_eq!(
        prettify_oracle_text("Flash\nFlying\r\nHaste\n"),
        "<p class=\"oracle_p\">Flash</p><p class=\"oracle_p\">Flying</p><p class=\"oracle_p\">Haste</p>"
    );
    assert_eq!(
        prettify_oracle_text("a\n\nb"),
        "<p class=\"oracle_p\">a</p><p class=\"oracle_p\"></p><p class=\"oracle_p\">b</p>"
    );
    assert_eq!(prettify_oracle_text("\n"), "<p class=\"oracle_p\"></p>");
    assert_eq!(prettify_oracle_text("a\r"), "<p class=\"oracle_p\">a\r</p>");
}

#[test]
fn reminder_text_is_set_in_italics() {
    assert_eq!(
        prettify_oracle_text("Flying (It can't be blocked.) Haste"),
        "<p class=\"oracle_p\">Flying <i>(It can't be blocked.)</i> Haste</p>"
    );
    assert_eq!(
        prettify_oracle_text("(a) and (b)"),
        "<p class=\"oracle_p\"><i>(a) and (b)</i></p>"
    );
    assert_eq!(prettify_oracle_text("()"), "<p class=\"oracle_p\">()</p>");
    assert_eq!(prettify_oracle_text("(x"), "<p class=\"oracle_p\">(x</p>");
    assert_eq!(prettify_oracle_text(")x("), "<p class=\"oracle_p\">)x(</p>");
    assert_eq!(prettify_oracle_text("(()"), "<p class=\"oracle_p\"><i>(()</i></p>");
    assert_eq!(
        prettify_oracle_text("(one\ntwo)"),
        "<p class=\"oracle_p\">(one</p><p class=\"oracle_p\">two)</p>"
    );
    assert_eq!(
        prettify_oracle_text("a (b)\nc (d)"),
        "<p class=\"oracle_p\">a <i>(b)</i></p><p class=\"oracle_p\">c <i>(d)</i></p>"
    );
}

#[test]
fn oracle_text_is_not_escaped() {
    assert_eq!(prettify_oracle_text("<b>&</b>"), "<p class=\"oracle_p\"><b>&</b></p>");
}

#[test]
fn oracle_text_agrees_with_the_pattern() {
    let texts = [
        "", "Flash", "Flash\nFlying\r\nHaste\n", "a\n\nb", "\n", "\r\n", "a\r", "a\r\n\r\n",
        "Flying (It can't be blocked.) Haste", "(a) and (b)", "()", "(x", ")x(", "(()", "())",
        "(one\ntwo)", "a (b)\nc (d)", "(a)\r\n(b)\r\n", "((a))", ")(a)(", "(\r)\n", "()\r\n",
        "x(\r\n)", "( )", "(a", "a)", "\n(a)", "(a)\n", "S\u{e9}ance (\u{2014})", "(\n)", "(((",
        ")))", "()()", "()a)", "a(b)c(d)e\nf(g)h",
    ];
    for text in texts {
        assert_eq!(prettify_oracle_text(text), reference_oracle(text), "text {:?}", text);
    }
}

#[test]
fn mana_cost_may_break_behind_every_symbol() {
    assert_eq!(break_manacost(""), "");
    assert_eq!(break_manacost("{1}{U}"), "{1}<wbr>{U}<wbr>");
    assert_eq!(break_manacost("{2/W}{10}"), "{2/W}<wbr>{10}<wbr>");
    assert_eq!(break_manacost("X"), "X");
    assert_eq!(break_manacost("{}"), "{}");
    assert_eq!(break_manacost("{}}"), "{}}<wbr>");
    assert_eq!(break_manacost("{{U}"), "{{U}<wbr>");
    assert_eq!(break_manacost("{U"), "{U");
    assert_eq!(break_manacost("a{U}b"), "a{U}<wbr>b");
    assert_eq!(break_manacost("{U\n}{B}"), "{U\n}{B}<wbr>");
}

#[test]
fn mana_cost_agrees_with_the_pattern() {
    let costs = [
        "", "{1}{U}", "{2/W}{10}", "X", "{}", "{}}", "{{U}", "{U", "a{U}b", "{U\n}{B}", "}{", "{\n}",
        "{a\n}", "{{}}", "{}{}", "{}{U}", "{U}{", "{U}}", "{\u{e9}}", "{a}{\nb}{c}", "{ab\n", "{{{",
        "}}}", "{1}{U}{U}{B}{B}{R}", "{a{b}c}", "{\r}", "x{y}z{", "{}\n}",
    ];
    for cost in costs {
        assert_eq!(break_manacost(cost), reference_manacost(cost), "cost {:?}", cost);
    }
}

#[test]
fn base_markup_holds_name_cost_typeline_and_text() {
    assert_eq!(
        base_inner_html("Snapcaster Mage", "{1}{U}", "Creature \u{2014} Human Wizard", "Flash\n(Reminder.)"),
        "<div class=\"name_mana_line\"><p class=\"name\">Snapcaster Mage</p>\
<p class=\"manacost\">{1}<wbr>{U}<wbr></p></div>\
<p class=\"typeline\">Creature \u{2014} Human Wizard</p>\
<div class=\"oracle_div\"><p class=\"oracle_p\">Flash</p><p class=\"oracle_p\"><i>(Reminder.)</i></p></div>"
    );
    assert_eq!(base_inner_html("Island", "", "Land", ""), LAND_INNER);
}

#[test]
fn name_and_typeline_are_escaped() {
    assert_eq!(
        base_inner_html("<R&D's> \"Secret\" Lair", "<{1}>", "a < b > c & \"d\"", ""),
        "<div class=\"name_mana_line\"><p class=\"name\">&lt;R&amp;D's&gt; &quot;Secret&quot; Lair</p>\
<p class=\"manacost\"><{1}<wbr>></p></div>\
<p class=\"typeline\">a &lt; b &gt; c &amp; &quot;d&quot;</p>\
<div class=\"oracle_div\"></div>"
    );
    assert_eq!(
        base_inner_html("S\u{e9}ance & \u{4e2d}", "", "", ""),
        "<div class=\"name_mana_line\"><p class=\"name\">S\u{e9}ance &amp; \u{4e2d}</p>\
<p class=\"manacost\"></p></div><p class=\"typeline\"></p><div class=\"oracle_div\"></div>"
    );
}

#[test]
fn creature_shows_power_and_toughness() {
    let card = creature("Snapcaster Mage", "2", "1");
    let base = base_inner_html("Snapcaster Mage", "{1}{U}", "Creature \u{2014} Human Wizard", "Flash");
    assert_eq!(card.inner_html(), format!("{}<p class=\"power_toughness\">2/1</p>", base));
    assert_eq!(
        card.to_html(),
        format!(
            "<div class=\"card_frame\"><div class=\"card_inner\">{}<p class=\"power_toughness\">2/1</p></div></div>",
            base
        )
    );
    assert_eq!(
        creature("a", "<*>", "1+&").inner_html(),
        format!(
            "{}<p class=\"power_toughness\">&lt;*&gt;/1+&amp;</p>",
            base_inner_html("a", "{1}{U}", "Creature \u{2014} Human Wizard", "Flash")
        )
    );
}

#[test]
fn planeswalker_shows_loyalty_in_decimal() {
    for (loyalty, shown) in [
        (0u64, "0"),
        (3, "3"),
        (9, "9"),
        (10, "10"),
        (105, "105"),
        (1234567890, "1234567890"),
        (u64::MAX, "18446744073709551615"),
    ] {
        let card = Card::Planeswalker {
            name: "Jace".to_string(),
            manacost: "{2}{U}{U}".to_string(),
            typeline: "Planeswalker \u{2014} Jace".to_string(),
            text: "+2: Scry.".to_string(),
            loyalty,
        };
        let base = base_inner_html("Jace", "{2}{U}{U}", "Planeswalker \u{2014} Jace", "+2: Scry.");
        assert_eq!(card.inner_html(), format!("{}<p class=\"loyalty\">{}</p>", base, shown));
    }
}

#[test]
fn noncreature_is_its_base_in_a_frame() {
    let card = land("Island");
    assert_eq!(card.inner_html(), LAND_INNER);
    assert_eq!(
        card.to_html(),
        format!("<div class=\"card_frame\"><div class=\"card_inner\">{}</div></div>", LAND_INNER)
    );
}

#[test]
fn placeholder_names_the_layout() {
    let card = Card::Unimplemented { name: "Plane & Simple".to_string(), layout: "<plane>".to_string() };
    let inner = "<p class=\"name\">Plane &amp; Simple</p><div class=\"oracle_div\">\
<p class=\"oracle_p\">This type of card (&lt;plane&gt;) is not yet implemented.</p>\
<p class=\"oracle_p\">Go complain to the developer</p></div>";
    assert_eq!(card.inner_html(), inner);
    assert_eq!(
        card.to_html(),
        format!("<div class=\"card_frame\"><div class=\"card_inner\">{}</div></div>", inner)
    );
}

#[test]
fn double_faced_and_meld_cards_take_two_frames() {
    let front = creature("Day", "1", "1");
    let back = land("Night");
    let expected = format!(
        "<div class=\"card_frame\"><div class=\"card_inner\">{}</div></div>\
<div class=\"card_frame\"><div class=\"card_inner\">{}</div></div>",
        front.inner_html(),
        back.inner_html()
    );
    let card = Card::DoubleFaced { front: Box::new(creature("Day", "1", "1")), back: Box::new(land("Night")) };
    assert_eq!(card.to_html(), expected);
    let card = Card::Meld { front: Box::new(creature("Day", "1", "1")), back: Box::new(land("Night")) };
    assert_eq!(card.to_html(), expected);
}

#[test]
fn split_and_flip_cards_share_one_frame() {
    let first = land("Fire").inner_html();
    let second = land("Ice").inner_html();
    let card = Card::Split { left: Box::new(land("Fire")), right: Box::new(land("Ice")) };
    assert_eq!(
        card.to_html(),
        format!(
            "<div class=\"card_frame\"><div class=\"card_inner\"><div class=\"split_left\">{}</div>\
<div class=\"split_bottom\">{}</div></div></div>",
            first, second
        )
    );
    let card = Card::Flip { top: Box::new(land("Fire")), bottom: Box::new(land("Ice")) };
    assert_eq!(
        card.to_html(),
        format!(
            "<div class=\"card_frame\"><div class=\"card_inner\"><div class=\"flip_top\">{}</div>\
<div class=\"flip_bottom\">{}</div></div></div>",
            first, second
        )
    );
}

#[test]
fn types_are_capitalized_and_joined() {
    let types = vec!["legendary".to_string(), "creature".to_string()];
    assert_eq!(proxygen::card::render::prettify_types(&types), "Legendary Creature");
    let types = vec!["human".to_string()];
    assert_eq!(proxygen::card::render::prettify_types(&types), "Human");
    let types = vec!["Elf".to_string(), "1st".to_string(), "z\u{e9}".to_string(), "x".to_string()];
    assert_eq!(proxygen::card::render::prettify_types(&types), "Elf 1st Z\u{e9} X");
    assert_eq!(proxygen::card::render::prettify_types(&[]), "");
}

#[test]
fn small_letters_have_capital_forms() {
    assert_eq!(proxygen::card::render::to_upper('a'), 'A');
    assert_eq!(proxygen::card::render::to_upper('z'), 'Z');
    assert_eq!(proxygen::card::render::to_upper('A'), 'A');
    assert_eq!(proxygen::card::render::to_upper('`'), '`');
    assert_eq!(proxygen::card::render::to_upper('{'), '{');
    assert_eq!(proxygen::card::render::to_upper('\u{e9}'), '\u{e9}');
}
