use biomass::i18n::{
    detect_locale_tag, locale_tag_for_code, normalize_locale_tag, parse_cli_locale,
    resolve_locale, HeaderStrings, LocaleStrings, ModalStrings, StatsStrings,
};

fn locale(tag: &str) -> LocaleStrings {
    let s = |t: &str| t.to_string();
    LocaleStrings {
        locale: s(tag),
        language_name: s(tag),
        header: HeaderStrings { title: s("BIOMASS"), subtitle: s("subtitle") },
        stats: StatsStrings { turn: s("Turn"), walls: s("Walls"), biomass: s("Biomass"), max: s("Max") },
        levels: (1..=10).map(|i| format!("Level {}", i)).collect(),
        modal: ModalStrings {
            containment_complete: s("Containment complete"),
            congratulations: s("Congratulations"),
            all_sectors_contained: s("All sectors contained"),
            containment_breached: s("Containment breached"),
            sector_cleared_template: s("Sector cleared in {turns} turns!"),
            facility_secured_template: s("Facility secured in {turns} turns."),
            all_threats_neutralized: s("All threats neutralized"),
            defeat_reason: s("Defeat"),
            retry_level: s("Retry"),
            replay_level: s("Replay"),
            next_level: s("Next"),
            skip_level: s("Skip"),
            start_from_first: s("Start from first"),
        },
    }
}

/// The available locales, in the order the game loads them.
fn locales() -> Vec<LocaleStrings> {
    ["en-US", "ru-RU", "es-ES", "de-DE", "fr-FR"].iter().map(|t| locale(t)).collect()
}

#[test]
fn test_locale_normalization_and_resolution() {
    let locales = locales();
    assert_eq!(resolve_locale("ru-RU", &locales).locale, "ru-RU");
    assert_eq!(resolve_locale("ru_RU", &locales).locale, "ru-RU");
    assert_eq!(resolve_locale("ru+RU", &locales).locale, "ru-RU");
    assert_eq!(resolve_locale("RU", &locales).locale, "ru-RU");
    assert_eq!(resolve_locale("ru_KZ", &locales).locale, "ru-RU");

    assert_eq!(resolve_locale("es-ES", &locales).locale, "es-ES");
    assert_eq!(resolve_locale("es_MX", &locales).locale, "es-ES");
    assert_eq!(resolve_locale("es", &locales).locale, "es-ES");

    assert_eq!(resolve_locale("de-DE", &locales).locale, "de-DE");
    assert_eq!(resolve_locale("de_AT", &locales).locale, "de-DE");
    assert_eq!(resolve_locale("de", &locales).locale, "de-DE");

    assert_eq!(resolve_locale("fr-FR", &locales).locale, "fr-FR");
    assert_eq!(resolve_locale("fr_CA", &locales).locale, "fr-FR");
    assert_eq!(resolve_locale("fr", &locales).locale, "fr-FR");

    assert_eq!(resolve_locale("en-US", &locales).locale, "en-US");
    assert_eq!(resolve_locale("en_GB", &locales).locale, "en-US");
    assert_eq!(resolve_locale("en", &locales).locale, "en-US");

    // Unknown locale falls back to en-US
    assert_eq!(resolve_locale("ja-JP", &locales).locale, "en-US");
    assert_eq!(resolve_locale("unknown", &locales).locale, "en-US");
}

#[test]
fn test_parse_cli_locale() {
    assert_eq!(
        parse_cli_locale(&["--lang", "ru-RU"]),
        Some("ru-RU".to_string())
    );
    assert_eq!(
        parse_cli_locale(&["-l", "es-ES"]),
        Some("es-ES".to_string())
    );
    assert_eq!(
        parse_cli_locale(&["--lang=de-DE"]),
        Some("de-DE".to_string())
    );
    assert_eq!(parse_cli_locale(&["--lang=fr"]), Some("fr".to_string()));
    assert_eq!(
        parse_cli_locale(&["--other", "val", "-l", "pt+BR"]),
        Some("pt+BR".to_string())
    );
    assert_eq!(parse_cli_locale(&["--other", "val"]), None);
}

#[test]
fn cli_locale_edge_cases() {
    assert_eq!(parse_cli_locale(&[]), None);
    assert_eq!(parse_cli_locale(&["--lang"]), None);
    assert_eq!(parse_cli_locale(&["--lang", "  ", "ja-JP"]), None);
    assert_eq!(parse_cli_locale(&["--lang", "  ", "-l", "ja-JP"]), Some("ja-JP".to_string()));
    assert_eq!(parse_cli_locale(&["--lang= ", "-l", " ko-KR "]), Some("ko-KR".to_string()));
    assert_eq!(parse_cli_locale(&["--language=fr"]), None);
}

#[test]
fn normalize_locale_tag_examples() {
    assert_eq!(normalize_locale_tag("pt_BR"), "pt-br");
    assert_eq!(normalize_locale_tag("pt+BR"), "pt-br");
    assert_eq!(normalize_locale_tag("PT-BR"), "pt-br");
    assert_eq!(normalize_locale_tag("  de_AT \n"), "de-at");
    assert_eq!(normalize_locale_tag(""), "");
    assert_eq!(normalize_locale_tag("Ünï_X"), "Ünï-x");
}

#[test]
fn resolution_prefers_the_first_exact_match() {
    let list = vec![locale("en-US"), locale("en-GB"), locale("ru-RU")];
    assert_eq!(resolve_locale("en_gb", &list).locale, "en-GB");
    assert_eq!(resolve_locale("en-AU", &list).locale, "en-US");
    assert_eq!(resolve_locale("-x", &list).locale, "en-US");
    assert_eq!(resolve_locale("  ru  ", &list).locale, "ru-RU");
}

#[test]
fn format_templates_insert_the_turns() {
    for loc in locales() {
        let cleared = loc.modal.format_sector_cleared(4);
        assert!(cleared.contains('4'));
        assert_eq!(cleared, "Sector cleared in 4 turns!");
        let secured = loc.modal.format_facility_secured(8);
        assert!(secured.contains('8'));
        assert_eq!(secured, "Facility secured in 8 turns.");
    }
    let mut m = locale("en-US").modal;
    m.sector_cleared_template = "{turns}/{turns} {turn}".to_string();
    assert_eq!(m.format_sector_cleared(120), "120/120 {turn}");
    m.sector_cleared_template = "Сектор очищен за {turns} ходов".to_string();
    assert_eq!(m.format_sector_cleared(0), "Сектор очищен за 0 ходов");
}

#[test]
fn detect_locale_tag_prefers_cli_then_environment() {
    assert_eq!(detect_locale_tag(&["--lang", "ru-RU"], &["de_DE.UTF-8"]), "ru-RU");
    assert_eq!(detect_locale_tag(&[], &["de_DE.UTF-8"]), "de_DE");
    assert_eq!(detect_locale_tag(&[], &["C", " POSIX ", "fr_FR"]), "fr_FR");
    assert_eq!(detect_locale_tag(&[], &["", "C"]), "en-US");
    assert_eq!(detect_locale_tag(&["--other"], &[]), "en-US");
}

#[test]
fn browser_language_codes() {
    assert_eq!(locale_tag_for_code(1), "ru-RU");
    assert_eq!(locale_tag_for_code(2), "es-ES");
    assert_eq!(locale_tag_for_code(3), "de-DE");
    assert_eq!(locale_tag_for_code(4), "fr-FR");
    assert_eq!(locale_tag_for_code(0), "en-US");
    assert_eq!(locale_tag_for_code(-7), "en-US");
}

#[test]
fn normalizing_twice_changes_nothing() {
    for tag in ["  pt_BR ", "PT+br", "\u{3000}Ru-RU\t", "", "x_Y+z", "ÄB_C"] {
        let once = normalize_locale_tag(tag);
        assert_eq!(normalize_locale_tag(&once), once);
    }
}
