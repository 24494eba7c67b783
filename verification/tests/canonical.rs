use iptv_proxy::canonical::{
    build_canonical, canonical_key, canonical_key_with_aliases, display_name, fix_mojibake, quality_tier, score_variant, CanonicalSource,
};
use iptv_proxy::config::{CurationConfig, ProviderBoost};
use iptv_proxy::default_order::Curation;
use iptv_proxy::json::Json;
use iptv_proxy::table::TextMap;
use iptv_proxy::xtream::{ChannelKind, LiveStream};

fn texts(pairs: &[(&str, &str)]) -> TextMap<String> {
    let mut m = TextMap::new();
    for (k, v) in pairs {
        m.insert(k.to_string(), v.to_string());
    }
    m
}

fn portugal_curation() -> Curation {
    let cfg = CurationConfig {
        order: Vec::new(),
        aliases: texts(&[
            ("btv", "benfica"),
            ("cnnpt", "cnnportugal"),
            ("panda", "canalpanda"),
            ("rtp3", "rtpnoticias"),
        ]),
        display_overrides: texts(&[
            ("rtpnoticias", "RTP Notícias"),
            ("benfica", "Benfica TV"),
            ("cnnportugal", "CNN Portugal"),
            ("canalpanda", "Canal Panda"),
        ]),
        logo_overrides: texts(&[]),
        provider_boosts: vec![
            ProviderBoost { pattern: "(?i)VODAFONE".into(), score: 3 },
            ProviderBoost { pattern: "(?i)MEO".into(), score: 2 },
        ],
    };
    Curation::from_config(&cfg).expect("fixture should compile")
}

fn empty_curation() -> Curation {
    Curation::empty()
}

fn ls(name: &str, id: u64) -> LiveStream {
    LiveStream {
        stream_id: id,
        name: name.to_string(),
        stream_icon: String::new(),
        category_id: String::new(),
        epg_channel_id: None,
        added: None,
        custom_sid: None,
        tv_archive: None,
        tv_archive_duration: None,
        direct_source: None,
        kind: ChannelKind::Tv,
        origin_host: String::new(),
        radio_format: None,
    }
}

fn ls_archive(name: &str, id: u64, days: u64) -> LiveStream {
    LiveStream {
        tv_archive: Some(Json::Number(Some(1))),
        tv_archive_duration: Some(Json::Text(days.to_string())),
        ..ls(name, id)
    }
}

#[test]
fn benfica_aliases() {
    let c = portugal_curation();
    assert_eq!(canonical_key("BTV", &c), "benfica");
    assert_eq!(canonical_key("BENFICA TV", &c), "benfica");
    assert_eq!(canonical_key("BENFICA TV 1", &c), "benfica");
    assert_eq!(canonical_key("BENFICA TV HD", &c), "benfica");
}

#[test]
fn rtp3_aliases_to_rtpnoticias() {
    let c = portugal_curation();
    assert_eq!(canonical_key("RTP 3", &c), "rtpnoticias");
    assert_eq!(canonical_key("RTP Notícias", &c), "rtpnoticias");
    assert_eq!(canonical_key("MEO: RTP 3 RAW", &c), "rtpnoticias");
    assert_eq!(canonical_key("PT: RTP 3 HD", &c), "rtpnoticias");
}

#[test]
fn rtp3_madeira_stays_distinct() {
    let c = portugal_curation();
    assert_eq!(canonical_key("RTP 3 MADEIRA", &c), "rtp3madeira");
    assert_ne!(canonical_key("RTP 3 MADEIRA", &c), canonical_key("RTP 3", &c));
}

#[test]
fn benfica_tv_2_is_distinct() {
    let c = portugal_curation();
    assert_eq!(canonical_key("BENFICA TV", &c), "benfica");
    assert_ne!(canonical_key("BENFICA TV 2", &c), canonical_key("BENFICA TV", &c));
}

#[test]
fn cm_tv_stays_intact() {
    let c = empty_curation();
    assert_eq!(canonical_key("CM TV", &c), canonical_key("CMTV", &c));
}

#[test]
fn quality_collapses() {
    let c = empty_curation();
    assert_eq!(canonical_key("RTP 1", &c), canonical_key("RTP 1 HD", &c));
    assert_eq!(canonical_key("RTP 1 FHD", &c), canonical_key("RTP 1 RAW", &c));
    assert_eq!(canonical_key("RTP 1 4K", &c), canonical_key("RTP 1", &c));
}

#[test]
fn prefix_strips() {
    let c = empty_curation();
    assert_eq!(canonical_key("MEO: RTP 1", &c), canonical_key("VIP: RTP 1", &c));
    assert_eq!(canonical_key("PT | RTP 1", &c), canonical_key("RTP 1", &c));
}

#[test]
fn ampersand_e() {
    let c = empty_curation();
    assert_eq!(
        canonical_key("CASA & COZINHA", &c),
        canonical_key("CASA E COZINHA", &c)
    );
}

#[test]
fn plus_distinguishes() {
    let c = empty_curation();
    assert_ne!(canonical_key("Disney", &c), canonical_key("Disney+", &c));
    assert_ne!(canonical_key("Panda", &c), canonical_key("Panda +", &c));
}

#[test]
fn separators_dropped() {
    let c = empty_curation();
    let streams = vec![
        ls("RTP 1", 1),
        ls("##### PORTUGAL #####", 0),
        ls("RTP 1 HD", 2),
    ];
    let cans = build_canonical(&streams, &c);
    assert_eq!(cans.len(), 1);
    assert_eq!(cans[0].sources.len(), 2);
}

#[test]
fn raw_scores_highest() {
    let c = empty_curation();
    let streams = vec![
        ls("RTP 1 HD", 1),
        ls("RTP 1 RAW", 2),
        ls("RTP 1 FHD", 3),
        ls("RTP 1 4K", 4),
    ];
    let cans = build_canonical(&streams, &c);
    assert_eq!(cans.len(), 1);
    let names: Vec<_> = cans[0].sources.iter().map(|s| s.name.as_str()).collect();
    assert_eq!(names[0], "RTP 1 RAW");
    assert!(names[1] == "RTP 1 4K");
}

#[test]
fn mojibake_recovers() {
    let n = display_name("BENFICAÃ ÃO");
    assert!(!n.contains("Ã§"), "got: {n}");
}

#[test]
fn mojibake_round_trip_repairs_doubly_encoded_name() {
    // UTF-8 for "RTP Notícias" mis-decoded as Latin-1 produces "RTP NotÃ\u{00AD}cias"
    // (because í = U+00ED encodes to bytes [0xC3, 0xAD], which as Latin-1 read as
    // Ã + soft-hyphen). The generic detector should round-trip it back to the
    // proper UTF-8.
    let bytes = "RTP Notícias".as_bytes();
    let mojibaked: String = bytes.iter().map(|&b| b as char).collect();
    assert_ne!(mojibaked, "RTP Notícias", "fixture should differ from clean form");
    let fixed = fix_mojibake(&mojibaked);
    assert_eq!(fixed, "RTP Notícias");
}

#[test]
fn mojibake_detector_leaves_clean_text_alone() {
    // Already-correct UTF-8 with diacritics must not be touched.
    assert_eq!(fix_mojibake("RTP Notícias"), "RTP Notícias");
    assert_eq!(fix_mojibake("Açores"), "Açores");
    // Pure ASCII: round-trips identical, no non-ASCII alpha present, leave alone.
    assert_eq!(fix_mojibake("RTP 1"), "RTP 1");
    // Non-Latin scripts: each non-Latin-1 char is its own pass-through; the
    // surrounding ASCII runs round-trip identically and are left alone.
    assert_eq!(fix_mojibake("Россия"), "Россия");
    assert_eq!(fix_mojibake("Țara"), "Țara");
}

#[test]
fn mojibake_round_trip_repairs_mixed_with_superscript_markers() {
    // Regression for issue #1: real upstream names mix mojibake bytes with
    // non-Latin-1 markers like the superscript "ᴴᴰ" suffix. The old whole-string
    // gate refused to repair these (any >0xFF char would cause an early no-op),
    // so two channels surfaced as duplicates under keys "caaaepesca" /
    // "caaavision" instead of merging into "cacaepesca" / "cacavision".
    //
    // The Latin-1-run partition repairs each maximal Latin-1 run independently,
    // leaving the superscripts in place for SUPERSCRIPTS_RE in clean() to strip.
    let c = empty_curation();

    // Direct fix_mojibake check.
    let mojibaked = "VIP: CAÃ§A E PESCA \u{1D34}\u{1D30}";
    let fixed = fix_mojibake(mojibaked);
    assert!(fixed.contains("CAçA E PESCA"), "got: {fixed:?}");
    assert!(
        fixed.contains("\u{1D34}\u{1D30}"),
        "superscripts must pass through fix_mojibake: {fixed:?}"
    );

    // End-to-end: the mojibaked + superscript name must canonicalize to the
    // same key as the clean variant (so build_canonical merges them).
    let clean_key = canonical_key("CAÇA E PESCA", &c);
    let dirty_key = canonical_key("VIP: CAÃ§A E PESCA \u{1D34}\u{1D30}", &c);
    assert_eq!(clean_key, "cacaepesca");
    assert_eq!(dirty_key, clean_key);

    // And the parallel CAÇAVISION pair from R1's report.
    assert_eq!(
        canonical_key("CAÇAVISION", &c),
        canonical_key("VIP: CAÃ§AVISION \u{1D34}\u{1D30}", &c)
    );

    // build_canonical merges the two variants under one entry.
    let streams = vec![
        ls("CAÇA E PESCA", 1),
        ls("VIP: CAÃ§A E PESCA \u{1D34}\u{1D30}", 2),
    ];
    let cans = build_canonical(&streams, &c);
    assert_eq!(cans.len(), 1, "expected one merged channel, got {cans:?}");
    assert_eq!(cans[0].sources.len(), 2);
}

#[test]
fn quality_tier_known_provider_names() {
    // From the catch-up provider data: only PT: feeds are marked ◉.
    assert_eq!(quality_tier("PT: RTP 1 HD ◉"), Some("HD"));
    assert_eq!(quality_tier("PT: SIC 4K ◉"), Some("4K"));
    assert_eq!(quality_tier("PT: TVI 4K ◉"), Some("4K"));
    assert_eq!(quality_tier("PT: NEWS NOW HD ◉"), Some("HD"));
}

#[test]
fn quality_tier_priority_raw_over_4k() {
    // RAW always wins. (No catch-up source has RAW today, but score order matters
    // when ranking sources for live.)
    assert_eq!(quality_tier("MEO: RTP 1 RAW"), Some("RAW"));
    assert_eq!(quality_tier("RTP 1 4K"), Some("4K"));
    assert_eq!(quality_tier("RTP 1 UHD"), Some("4K"));
    assert_eq!(quality_tier("RTP 1 FULL HD"), Some("FHD"));
    assert_eq!(quality_tier("RTP 1 FHD"), Some("FHD"));
    assert_eq!(quality_tier("RTP 1 HD"), Some("HD"));
    assert_eq!(quality_tier("RTP 1 SD"), Some("SD"));
}

#[test]
fn quality_tier_missing() {
    // Plain name without a quality token: None. Mostly happens for
    // category separators or the rare unlabelled stream.
    assert_eq!(quality_tier("RTP 1"), None);
    assert_eq!(quality_tier("BENFICA TV"), None);
}

#[test]
fn build_canonical_propagates_archive_flags() {
    let c = empty_curation();
    let streams = vec![
        ls("MEO: RTP 1 RAW", 1),
        ls_archive("PT: RTP 1 HD ◉", 2, 3),
    ];
    let cans = build_canonical(&streams, &c);
    assert_eq!(cans.len(), 1);
    let ch = &cans[0];
    let archive_sources: Vec<&CanonicalSource> = ch
        .sources
        .iter()
        .filter(|s| s.tv_archive)
        .collect();
    assert_eq!(archive_sources.len(), 1);
    assert_eq!(archive_sources[0].stream_id, 2);
    assert_eq!(archive_sources[0].tv_archive_duration, Some(3));
    // The RAW (non-archive) source still ranks first for live.
    assert!(ch.sources[0].name.contains("RAW"));
    assert!(!ch.sources[0].tv_archive);
}

#[test]
fn build_canonical_duration_zero_clears_flag() {
    let c = empty_curation();
    // Some providers set tv_archive=1 but tv_archive_duration="0". Treat as
    // "no usable archive" — we have nothing to ask for.
    let stream = LiveStream {
        tv_archive: Some(Json::Number(Some(1))),
        tv_archive_duration: Some(Json::Text("0".into())),
        ..ls("RTP 1 HD", 99)
    };
    let cans = build_canonical(&[stream], &c);
    assert!(!cans[0].sources[0].tv_archive);
    assert_eq!(cans[0].sources[0].tv_archive_duration, None);
}

#[test]
fn empty_curation_no_ranking_no_aliases_no_overrides() {
    // With empty curation: no aliases (BTV stays distinct from Benfica), no
    // display overrides (the name is whatever prefer_display picks), no provider
    // boosts (MEO/VODAFONE bonuses absent), no rank entries.
    let c = empty_curation();
    assert_eq!(canonical_key("BTV", &c), "btv");
    assert_ne!(canonical_key("BTV", &c), canonical_key("BENFICA TV", &c));
    assert_eq!(c.rank_of("rtp1"), None);
    assert_eq!(c.rank_of("anything"), None);
    // score_variant under empty curation: just universal quality / VIP.
    assert_eq!(score_variant("RTP 1 HD", &c), 15);
    assert_eq!(score_variant("MEO: RTP 1 HD", &c), 15); // no MEO boost
    assert_eq!(score_variant("VODAFONE RTP 1 HD", &c), 15); // no VODAFONE boost
}

#[test]
fn populated_curation_provider_boosts_apply() {
    let c = portugal_curation();
    assert_eq!(score_variant("RTP 1 HD", &c), 15);
    assert_eq!(score_variant("MEO: RTP 1 HD", &c), 15 + 2);
    assert_eq!(score_variant("VODAFONE RTP 1 HD", &c), 15 + 3);
}

#[test]
fn display_filter_keeps_non_latin_letters() {
    // Cyrillic, Greek, Romanian, CJK — all should survive into the display name.
    assert_eq!(display_name("Россия 1"), "Россия 1");
    assert_eq!(display_name("ΕΡΤ 1"), "ΕΡΤ 1");
    assert_eq!(display_name("Țara"), "Țara");
    assert_eq!(display_name("中央電視台"), "中央電視台");
    // Catch-up "◉" marker is \p{So} (Other Symbol) — stripped.
    assert_eq!(display_name("RTP 1 ◉"), "RTP 1");
    // ASCII math symbols (\p{Sm}) are preserved — "Disney+" must survive.
    assert_eq!(display_name("Disney+"), "Disney+");
}

#[test]
fn display_filter_preserves_plus_strips_other_symbols() {
    // Regression for issue #2: \p{Sm} keeps the math-symbol "+" while \p{So}
    // (catch-up "◉", stars "★", etc.) and \p{Sc} (currency) are still stripped.
    assert_eq!(display_name("Disney+"), "Disney+");
    assert_eq!(display_name("Panda + Kids"), "Panda + Kids");
    assert_eq!(display_name("RTP 1 ◉"), "RTP 1");
    assert_eq!(display_name("★ HBO"), "HBO");
}

#[test]
fn populated_curation_orders_via_rank() {
    // Build a small fixture with an explicit order; rank_of must map canonical
    // keys (post-alias) back to ordinals.
    let cfg = CurationConfig {
        order: vec!["RTP 1".into(), "BTV".into(), "SIC".into()],
        aliases: texts(&[("btv", "benfica")]),
        display_overrides: texts(&[]),
        logo_overrides: texts(&[]),
        provider_boosts: Vec::new(),
    };
    let c = Curation::from_config(&cfg).unwrap();
    assert_eq!(c.rank_of("rtp1"), Some(0));
    assert_eq!(c.rank_of("benfica"), Some(1)); // BTV → benfica via alias
    assert_eq!(c.rank_of("sic"), Some(2));
    assert_eq!(c.rank_of("unknown"), None);
}

#[test]
fn patterns_that_are_none_are_refused() {
    let mut cfg = CurationConfig::default();
    cfg.provider_boosts.push(ProviderBoost { pattern: "(".to_string(), score: 1 });
    let e = Curation::from_config(&cfg).err().unwrap();
    assert_eq!(e.pattern, "(");
}

#[test]
fn keys_hold_small_letters_and_digits() {
    for name in ["\u{130}STANBUL \u{212A}anal 5", "RTP Not\u{ed}cias + HD", "\u{3a3}KAI 2"] {
        let key = canonical_key(name, &empty_curation());
        assert!(!key.is_empty());
        assert!(key.chars().all(|c| c.is_ascii_lowercase() || c.is_ascii_digit()), "{key}");
    }
}

#[test]
fn aliases_are_looked_up_once() {
    let aliases = texts(&[("btv", "benfica"), ("benfica", "slb")]);
    assert_eq!(canonical_key_with_aliases("BTV", &aliases), "benfica");
    assert_eq!(canonical_key_with_aliases("Benfica", &aliases), "slb");
    assert_eq!(canonical_key_with_aliases("SIC", &aliases), "sic");
}

#[test]
fn sources_with_one_score_stay_in_order() {
    let streams = vec![ls("RTP 1", 1), ls("RTP 1 HD", 2), ls("RTP 1", 3), ls("RTP 1 HD", 4), ls("RTP 1 SD", 5)];
    let channels = build_canonical(&streams, &empty_curation());
    let ids: Vec<u64> = channels[0].sources.iter().map(|s| s.stream_id).collect();
    assert_eq!(ids, vec![2, 4, 1, 3, 5]);
}

#[test]
fn blank_direct_sources_are_none() {
    let mut blank = ls("RTP 1", 1);
    blank.direct_source = Some(" \t".to_string());
    let mut direct = ls("RTP 1", 2);
    direct.direct_source = Some("http://r/x".to_string());
    let channels = build_canonical(&[blank, direct], &empty_curation());
    assert!(channels[0].sources[0].direct_source.is_none());
    assert_eq!(channels[0].sources[1].direct_source.as_deref(), Some("http://r/x"));
}
