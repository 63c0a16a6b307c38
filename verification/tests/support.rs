use terragen::ByteStr;
use terragen::llm::LLMMode;
use terragen::menu::MainMenuAction;
use terragen::menu::NewGameMenuAction;
use terragen::menu::SettingsMenuAction;

#[test]
fn bytestr_round_trips_ascii() {
    let b = ByteStr::from_string("abc");
    assert_eq!(b.bytes, vec![97u8, 98, 99]);
    assert_eq!(b.as_string(), "abc");
}

#[test]
fn bytestr_decodes_empty_input_to_empty_string() {
    let b = ByteStr { bytes: Vec::new() };
    assert_eq!(b.as_string(), "");
}

#[test]
fn as_bytestrs_converts_each_string() {
    let strings = vec![String::from("alpha"), String::from("beta")];
    let bs = terragen::as_bytestrs(&strings);
    assert_eq!(bs.len(), 2);
    assert_eq!(bs[0].bytes, b"alpha".to_vec());
    assert_eq!(bs[1].bytes, b"beta".to_vec());
}

#[test]
fn invert_borrowed_groups_keys_by_value() {
    let pairs = vec![(1u64, 10u64), (2, 20), (3, 10)];
    let inv = terragen::invert_borrowed(&pairs);
    assert_eq!(inv.len(), 2);
    assert_eq!(inv[0], (10, vec![1, 3]));
    assert_eq!(inv[1], (20, vec![2]));
}

#[test]
fn invert_borrowed_of_empty_is_empty() {
    let pairs: Vec<(u64, u64)> = Vec::new();
    let inv = terragen::invert_borrowed(&pairs);
    assert!(inv.is_empty());
}

#[test]
fn llm_mode_labels_and_menu_round_trip() {
    assert_eq!(LLMMode::Off.label(), "none");
    assert_eq!(LLMMode::Cpu.label(), "cpu");
    assert_eq!(LLMMode::Cuda.label(), "cuda");
    for m in [LLMMode::Off, LLMMode::Cpu, LLMMode::Cuda] {
        assert_eq!(LLMMode::from_menu(m.to_menu()), m);
    }
}

#[test]
fn menu_actions_compare_by_variant() {
    assert_eq!(MainMenuAction::NewGame, MainMenuAction::NewGame);
    assert_ne!(MainMenuAction::Idle, MainMenuAction::Exit);
    assert_eq!(SettingsMenuAction::Save, SettingsMenuAction::Save);
    assert_ne!(NewGameMenuAction::Start, NewGameMenuAction::Return);
}

#[test]
fn status_codes_are_distinct() {
    assert_ne!(terragen::StatusCode::OK, terragen::StatusCode::Error);
}

#[test]
fn settlement_contexts_hold_their_fields() {
    let ctx = terragen::SettlementNameCtx {
        civilisation_name: String::from("TestCiv"),
        description: String::from("Test description"),
        seed_names: vec![String::from("Alpha"), String::from("Beta")],
    };
    assert_eq!(ctx.seed_names.len(), 2);
    let ex = terragen::ExternSettlementNameCtx {
        civilisation_name: ByteStr::from_string(&ctx.civilisation_name),
        description: ByteStr::from_string(&ctx.description),
        seed_names: terragen::as_bytestrs(&ctx.seed_names),
    };
    assert_eq!(ex.civilisation_name.as_string(), "TestCiv");
    assert_eq!(ex.seed_names[1].as_string(), "Beta");
}

#[test]
fn unit_bark_context_holds_its_fields() {
    let ctx = terragen::UnitSpawnBarkCtx {
        civilisation_name: String::from("TestCiv"),
        civ_description: String::from("desc"),
        unit_type: String::from("scout"),
        seed_barks: vec![String::from("hi")],
        description: String::from("d"),
    };
    let ex = terragen::ExternUnitSpawnBarkCtx {
        civilisation_name: ByteStr::from_string(&ctx.civilisation_name),
        civ_description: ByteStr::from_string(&ctx.civ_description),
        unit_type: ByteStr::from_string(&ctx.unit_type),
        seed_barks: terragen::as_bytestrs(&ctx.seed_barks),
        description: ByteStr::from_string(&ctx.description),
    };
    assert_eq!(ex.unit_type.as_string(), "scout");
}

#[test]
fn smoothstep_hits_exact_midpoint() {
    assert_eq!(terragen::smoothstep_fp(0, 0, 1000), 0);
    assert_eq!(terragen::smoothstep_fp(1000, 0, 1000), 1000);
    assert_eq!(terragen::smoothstep_fp(500, 0, 1000), 500);
    assert_eq!(terragen::smoothstep_fp(2000, 0, 1000), 1000);
}

#[test]
fn bump_shapes_peak_at_their_feature() {
    assert_eq!(terragen::hyper_bump(0, 400_000, 3_000_000), 400_000);
    assert_eq!(terragen::hyper_bump(3_000_000, 400_000, 3_000_000), 200_000);
    assert_eq!(terragen::bell_bump(2_000_000, 2_000_000, 150_000, 900_000), 150_000);
    assert!(terragen::bell_bump(0, 2_000_000, 150_000, 900_000) < 150_000);
}

#[test]
fn noise_samples_stay_in_amplitude_and_repeat() {
    let a = terragen::value_noise(42, 123_456, -654_321, 400_000);
    let b = terragen::value_noise(42, 123_456, -654_321, 400_000);
    assert_eq!(a, b);
    assert!(a <= terragen::NOISE_AMP);
    let folded = terragen::ridged(a);
    assert!(folded <= terragen::NOISE_AMP);
}

#[test]
fn seed_picks_are_distinct_and_in_range() {
    let mut rng = terragen::rng_from_seed(1234);
    let picks = terragen::pick_seeds(&mut rng, 10, 10);
    let mut seen = vec![false; 10];
    for p in &picks {
        assert!(*p < 10);
        assert!(!seen[*p]);
        seen[*p] = true;
    }
    assert!(seen.iter().all(|s| *s));
}

#[test]
fn componentwise_extremes_cover_all_points() {
    let points = vec![(3i64, -2i64), (-5, 7), (0, 0)];
    let ((min_x, min_z), (max_x, max_z)) =
        terragen::min_max_componentwise(&points).expect("nonempty");
    assert_eq!((min_x, min_z), (-5, -2));
    assert_eq!((max_x, max_z), (3, 7));
    assert!(terragen::min_max_componentwise(&Vec::new()).is_none());
}
