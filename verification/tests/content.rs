use std::collections::HashSet;

use hut_content_schema::collect::{is_content_toml, MANIFEST_FILE_NAME};
use hut_content_schema::content_gzip::{gzip, ungzip, PrepareToEncrypt};
use hut_content_schema::crypto::{decrypt, derive_key, derive_url};
use hut_content_schema::json::{json_to_bytes, sort_entries, write_json, JsonValue};
use hut_content_schema::resource::{
    BuildError, BuiltArtifact, ContentResource, DerivedKey, EncryptContext, Grant, Hint, HintResource, JsonResource,
    Resource, ResourceEncrypt,
};
use hut_content_schema::resource_id::ResourceId;
use hut_content_schema::scope::config::{
    content_kind_of, resolve_content, resolve_json, to_resource_id, toml_value_to_json, ContentKind, GrantConfig,
    LoadedFile, TomlValue,
};
use hut_content_schema::scope::puzzle_scope::{
    BaseManifestConfig, ConfigError, ContentEntryConfig, HintEntryConfig, JsonEntryConfig, PuzzleScope,
    PuzzleScopeConfig,
};
use hut_content_schema::version_registry::{
    MockVersionRegistry, ResourceRegistration, VersionRegistry, VersionRegistryError,
};

const TEST_BASE_KEY: [u8; 32] = *b"content_parser test fixture key!";

fn id(v: i32) -> ResourceId {
    ResourceId::new(v).unwrap()
}

fn rederive_key(base: [u8; 32], path: &[(&'static str, i32)]) -> [u8; 32] {
    path.iter().fold(base, |key, (tag, id)| derive_key(&key, tag, *id))
}

fn literal(grant: GrantConfig, text: &str) -> ContentEntryConfig {
    ContentEntryConfig { grant, content: Some(text.to_string()), content_file: None }
}

fn file(grant: GrantConfig, extension: &str, text: &str) -> ContentEntryConfig {
    ContentEntryConfig {
        grant,
        content: None,
        content_file: Some(LoadedFile { extension: Some(extension.to_string()), text: text.to_string() }),
    }
}

fn inline_json(grant: GrantConfig, value: TomlValue) -> JsonEntryConfig {
    JsonEntryConfig { grant, json: Some(value), json_file: None }
}

fn object(entries: Vec<(&str, JsonValue)>) -> JsonValue {
    JsonValue::Object(entries.into_iter().map(|(k, v)| (k.to_string(), v)).collect())
}

/// The synthetic test puzzle: two contents, three data entries and two hints
/// under every kind of grant.
fn fixture_config() -> PuzzleScopeConfig {
    PuzzleScopeConfig {
        id: 9,
        base_resource: 900,
        title: "Test Puzzle".to_string(),
        contents: vec![
            literal(GrantConfig::Inherit(901), "Inline opening text."),
            file(GrantConfig::Independent(902), "md", "# Extra\n\nMore *content*."),
        ],
        data: vec![
            inline_json(GrantConfig::Inherit(903), TomlValue::Table(vec![("hint_count".to_string(), TomlValue::Integer(2))])),
            inline_json(GrantConfig::Independent(904), TomlValue::Array(vec![TomlValue::Integer(1), TomlValue::Boolean(true)])),
            JsonEntryConfig {
                grant: GrantConfig::Independent(905),
                json: None,
                json_file: Some("{ \"from\" : \"file\" }\n".to_string()),
            },
        ],
        hints: vec![
            HintEntryConfig {
                grant: GrantConfig::Inherit(906),
                title: "First hint".to_string(),
                answer: literal(GrantConfig::Purchase(907), "Look under the rug."),
            },
            HintEntryConfig {
                grant: GrantConfig::Independent(908),
                title: "Second hint".to_string(),
                answer: literal(GrantConfig::Purchase(909), "It was the butler."),
            },
        ],
        base_manifest: BaseManifestConfig {
            content: vec![("content-a".to_string(), 901)],
            data: vec![("data-hint".to_string(), 903)],
            hint: vec![("hint-a".to_string(), 906)],
        },
    }
}

#[test]
fn builds_and_round_trips_synthetic_manifest() {
    let config = fixture_config();
    assert!(config.check().is_ok());
    let puzzle_scope = config.into_scope().expect("the fixture config is valid");

    assert_eq!(puzzle_scope.contents.len(), 2);
    assert_eq!(puzzle_scope.data.len(), 3);
    assert_eq!(puzzle_scope.hints.len(), 2);
    assert_eq!(puzzle_scope.base_manifest.content, vec![("content-a".to_string(), id(901))]);
    assert_eq!(puzzle_scope.base_manifest.data, vec![("data-hint".to_string(), id(903))]);
    assert_eq!(puzzle_scope.base_manifest.hint, vec![("hint-a".to_string(), id(906))]);

    let base_resource = puzzle_scope.base_resource;
    let mut registry = MockVersionRegistry::new();
    let mut seen = HashSet::new();
    assert_eq!(puzzle_scope.first_duplicate_id(&seen), None);
    let built = puzzle_scope
        .build(TEST_BASE_KEY, &mut registry, &mut seen)
        .expect("synthetic fixture manifest should build against a mock registry");

    assert_eq!(built.len(), 7);
    let ids: Vec<i32> = built.iter().map(|(reg, _)| reg.resource_id().get()).collect();
    assert_eq!(ids, vec![902, 904, 905, 907, 908, 909, 900]);
    let expected_seen: HashSet<i32> = (901..=909).chain([900]).collect();
    assert_eq!(seen, expected_seen);

    let mut base_resource_json = None;
    for (registration, encrypted) in built {
        let key = rederive_key(TEST_BASE_KEY, &encrypted.derive_path);
        let gz = decrypt(&key, &encrypted.encrypted).expect("decrypt with re-derived key");
        let raw = ungzip(&gz).expect("gunzip decrypted content");

        assert_eq!(blake3::hash(&raw).as_bytes(), registration.digest(), "round-tripped content should match its recorded hash");
        assert_eq!(derive_url(&key, registration.resource_id().get()), encrypted.url_prefix);
        assert_eq!(registration.scope_id().get(), 9);
        assert!(!*registration.confirmed());

        if *registration.resource_id() == base_resource {
            base_resource_json = Some(
                serde_json::from_slice::<serde_json::Value>(&raw).expect("scope base resource content should be valid JSON"),
            );
        }
    }

    let base_resource_json = base_resource_json.expect("scope base resource should have built");
    let expected_manifest: serde_json::Value = serde_json::from_str(
        r#"{"content":[["content-a",901]],"data":[["data-hint",903]],"hint":[["hint-a",906]]}"#,
    )
    .unwrap();
    assert_eq!(base_resource_json["base_manifest"], expected_manifest);
    assert_eq!(base_resource_json["title"], serde_json::Value::String("Test Puzzle".to_string()));
    let inherit = &base_resource_json["inherit"];
    assert_eq!(inherit["contents"]["901"], serde_json::Value::String("Inline opening text.".to_string()));
    assert_eq!(inherit["data"]["903"]["hint_count"], serde_json::Value::from(2));
    assert_eq!(inherit["hints"]["906"]["title"], serde_json::Value::String("First hint".to_string()));
    assert_eq!(inherit["hints"]["906"]["answer"]["resource_id"], serde_json::Value::from(907));
    assert_eq!(inherit["hints"]["906"]["answer"]["version"], serde_json::Value::from(4));
}

#[test]
fn sealed_resources_decrypt_to_their_content() {
    let scope = fixture_config().resolve();
    let mut registry = MockVersionRegistry::new();
    let mut seen = HashSet::new();
    let built = scope.build(TEST_BASE_KEY, &mut registry, &mut seen).expect("builds");
    let mut plain = Vec::new();
    for (reg, enc) in &built {
        let key = rederive_key(TEST_BASE_KEY, &enc.derive_path);
        let raw = ungzip(&decrypt(&key, &enc.encrypted).unwrap()).unwrap();
        plain.push((reg.resource_id().get(), *reg.version(), String::from_utf8(raw).unwrap()));
    }
    assert_eq!(plain[0], (902, 1, comrak::markdown_to_html("# Extra\n\nMore *content*.", &comrak::Options::default())));
    assert_eq!(plain[1], (904, 2, "[1,true]".to_string()));
    assert_eq!(plain[2], (905, 3, "{\"from\":\"file\"}".to_string()));
    assert_eq!(plain[3], (907, 4, "Look under the rug.".to_string()));
    assert_eq!(plain[4], (908, 6, "{\"answer\":{\"resource_id\":909,\"version\":5},\"title\":\"Second hint\"}".to_string()));
    assert_eq!(plain[5], (909, 5, "It was the butler.".to_string()));
    assert_eq!(plain[6].0, 900);
    assert_eq!(plain[6].1, 7);
    // Each sealed resource sits below the scope's derive key (or its inherit key).
    assert_eq!(built[0].1.derive_path, vec![("Scope", 9), ("ScopeDerive", 9), ("Indep", 902)]);
    assert_eq!(built[3].1.derive_path, vec![("Scope", 9), ("ScopeDerive", 9), ("Purchase", 907)]);
    assert_eq!(built[6].1.derive_path, vec![("Scope", 9), ("ScopeInherit", 9), ("Indep", 900)]);
}

#[test]
fn duplicate_ids_are_found_before_building() {
    let mut config = fixture_config();
    config.hints[1].answer.grant = GrantConfig::Purchase(902);
    let scope = config.resolve();
    let seen = HashSet::new();
    assert_eq!(scope.first_duplicate_id(&seen), Some(id(902)));

    let mut config = fixture_config();
    config.hints[0].answer.grant = GrantConfig::Inherit(903);
    let scope = config.resolve();
    assert_eq!(scope.first_duplicate_id(&HashSet::new()), Some(id(903)));

    let mut config = fixture_config();
    config.hints[0].answer.grant = GrantConfig::Inherit(920);
    let scope = config.resolve();
    let mut seen = HashSet::new();
    scope.build(TEST_BASE_KEY, &mut MockVersionRegistry::new(), &mut seen).expect("builds");
    assert!(seen.contains(&920));

    let scope = fixture_config().resolve();
    let seen: HashSet<i32> = [905].into_iter().collect();
    assert_eq!(scope.first_duplicate_id(&seen), Some(id(905)));
    let ids: Vec<i32> = scope.claimed_ids().iter().map(|r| r.get()).collect();
    assert_eq!(ids, vec![901, 902, 903, 904, 905, 906, 907, 908, 909, 900]);
}

struct FailingRegistry;

impl VersionRegistry for FailingRegistry {
    fn version_for(
        &mut self,
        _resource_id: ResourceId,
        _scope_id: ResourceId,
        _digest: [u8; 32],
    ) -> Result<ResourceRegistration, VersionRegistryError> {
        Err(VersionRegistryError("backend unavailable".to_string()))
    }
}

#[test]
fn registry_errors_stop_the_build() {
    let scope = fixture_config().resolve();
    let mut seen = HashSet::new();
    match scope.build(TEST_BASE_KEY, &mut FailingRegistry, &mut seen) {
        Err(BuildError::Registry(e)) => assert_eq!(e.to_message(), "version registry error: backend unavailable"),
        _ => panic!("expected a registry error"),
    }
}

#[test]
fn config_check_reports_the_first_problem() {
    assert!(matches!(PuzzleScopeConfig { id: 0, ..fixture_config() }.check(), Err(ConfigError::NonPositiveId(0))));
    assert!(matches!(
        PuzzleScopeConfig { base_resource: -4, ..fixture_config() }.check(),
        Err(ConfigError::NonPositiveId(-4))
    ));

    let mut c = fixture_config();
    c.contents[0].content = None;
    assert!(matches!(c.check(), Err(ConfigError::ContentMissing)));

    let mut c = fixture_config();
    c.contents[0].content_file = Some(LoadedFile { extension: Some("html".into()), text: "<p>x</p>".into() });
    assert!(matches!(c.check(), Err(ConfigError::ContentConflict)));

    let mut c = fixture_config();
    c.contents[1].content_file = Some(LoadedFile { extension: Some("txt".into()), text: "x".into() });
    match c.check() {
        Err(ConfigError::UnsupportedExtension(Some(e))) => assert_eq!(e, "txt"),
        other => panic!("unexpected {:?}", other),
    }

    let mut c = fixture_config();
    c.data[0].json = None;
    assert!(matches!(c.check(), Err(ConfigError::JsonMissing)));

    let mut c = fixture_config();
    c.data[2].json = Some(TomlValue::Boolean(false));
    assert!(matches!(c.check(), Err(ConfigError::JsonConflict)));

    let mut c = fixture_config();
    c.data[2].json_file = Some("{\"unterminated\": ".to_string());
    assert!(matches!(c.check(), Err(ConfigError::InvalidJson)));

    let mut c = fixture_config();
    c.contents[1].content_file = Some(LoadedFile { extension: Some("htm".into()), text: "x".into() });
    assert!(matches!(c.check(), Err(ConfigError::UnsupportedExtension(_))));

    let mut c = fixture_config();
    c.hints[0].answer.grant = GrantConfig::Purchase(-1);
    assert!(matches!(c.check(), Err(ConfigError::NonPositiveId(-1))));

    let mut c = fixture_config();
    c.base_manifest.hint.push(("bad".to_string(), 0));
    assert!(matches!(c.check(), Err(ConfigError::NonPositiveId(0))));
}

#[test]
fn content_entries_resolve_by_source_kind() {
    assert_eq!(content_kind_of(&Some("md".into())), Some(ContentKind::Markdown));
    assert_eq!(content_kind_of(&Some("markdown".into())), Some(ContentKind::Markdown));
    assert_eq!(content_kind_of(&Some("html".into())), Some(ContentKind::Html));
    assert_eq!(content_kind_of(&Some("htm".into())), None);
    assert_eq!(content_kind_of(&Some("txt".into())), None);
    assert_eq!(content_kind_of(&None), None);

    assert_eq!(resolve_content(&Some("raw *text*".into()), &None), "raw *text*");
    let md = Some(LoadedFile { extension: Some("md".into()), text: "*hi*".into() });
    assert_eq!(resolve_content(&None, &md), "<p><em>hi</em></p>\n");
    let html = Some(LoadedFile { extension: Some("html".into()), text: "*hi*".into() });
    assert_eq!(resolve_content(&None, &html), "*hi*");

    let v = resolve_json(&None, &Some(" [1.5, {\"b\": 1, \"a\": null}] ".into()));
    assert_eq!(json_to_bytes(&v), b"[1.5,{\"a\":null,\"b\":1}]".to_vec());
    let v = resolve_json(&Some(TomlValue::Boolean(false)), &None);
    assert_eq!(json_to_bytes(&v), b"false".to_vec());
}

#[test]
fn grant_configs_resolve_to_grants_of_the_same_kind() {
    assert_eq!(GrantConfig::Inherit(3).resolve(), Grant::Inherit(id(3)));
    assert_eq!(GrantConfig::Independent(4).resolve(), Grant::Independent(id(4)));
    assert_eq!(GrantConfig::Purchase(5).resolve(), Grant::Purchase(id(5)));
    assert_eq!(Grant::Purchase(id(5)).get_resource_id(), id(5));
    assert_eq!(Grant::Inherit(id(6)).get_resource_id(), id(6));
    assert_eq!(to_resource_id(12).get(), 12);
}

#[test]
fn resource_ids_are_positive() {
    assert_eq!(ResourceId::new(1).map(|r| r.get()), Some(1));
    assert_eq!(ResourceId::new(i32::MAX).map(|r| r.get()), Some(i32::MAX));
    assert_eq!(ResourceId::new(0), None);
    assert_eq!(ResourceId::new(-7), None);
}

#[test]
fn gzip_round_trips_and_rejects_garbage() {
    let data = b"the same text the same text the same text".to_vec();
    let gz = gzip(&data);
    assert_eq!(&gz[..2], &[0x1f, 0x8b]);
    assert_eq!(gz, gzip(&data));
    assert_eq!(ungzip(&gz).unwrap(), data);
    assert_eq!(ungzip(&gzip(b"")).unwrap(), Vec::<u8>::new());
    assert!(ungzip(b"definitely not gzip").is_err());
}

#[test]
fn prepared_content_is_compressed_and_digested() {
    let p = PrepareToEncrypt::new(id(11), b"payload");
    assert_eq!(p.digest, *blake3::hash(b"payload").as_bytes());
    assert_eq!(ungzip(&p.gz).unwrap(), b"payload".to_vec());
    let key = DerivedKey::as_base([2u8; 32]).derive("Indep", 11);
    let enc = p.encrypt(&key);
    assert_eq!(enc.derive_path, vec![("Indep", 11)]);
    let k = derive_key(&[2u8; 32], "Indep", 11);
    assert_eq!(ungzip(&decrypt(&k, &enc.encrypted).unwrap()).unwrap(), b"payload".to_vec());
    assert_eq!(enc.url_prefix, derive_url(&k, 11));
}

#[test]
fn derived_keys_follow_their_path() {
    let root = DerivedKey::as_base([8u8; 32]);
    let child = root.derive("Scope", 3).derive("Indep", 40);
    let (blob, path) = child.encrypt(b"abc");
    assert_eq!(path, vec![("Scope", 3), ("Indep", 40)]);
    let k = rederive_key([8u8; 32], &path);
    assert_eq!(decrypt(&k, &blob), Ok(b"abc".to_vec()));
    assert_eq!(child.url_prefix(40), derive_url(&k, 40));
    assert_ne!(root.url_prefix(40), child.url_prefix(40));

    let ctx = EncryptContext::base([8u8; 32], id(3)).derive_ctx("Scope", 3);
    let (_, path) = ctx.derive("Indep", 40).encrypt(b"");
    assert_eq!(path, vec![("Scope", 3), ("Indep", 40)]);
    assert_eq!(ctx.scope_id, id(3));
}

#[test]
fn inherited_resources_stay_plain_and_sealed_ones_register() {
    let ctx = EncryptContext::base(TEST_BASE_KEY, id(1));
    let mut registry = MockVersionRegistry::new();
    let inherited: ContentResource = Resource { grant: Grant::Inherit(id(5)), inner: "hello".to_string() };
    let b = inherited.build(&ctx, &mut registry).unwrap();
    assert!(b.children.is_empty());
    match b.artifact {
        BuiltArtifact::PlainText { resource_id, scope_id, content } => {
            assert_eq!((resource_id, scope_id), (id(5), id(1)));
            assert_eq!(json_to_bytes(&content), b"\"hello\"".to_vec());
        }
        _ => panic!("inherit should stay plain"),
    }

    let sealed: JsonResource = Resource { grant: Grant::Purchase(id(6)), inner: JsonValue::Int(-3) };
    let b = sealed.build(&ctx, &mut registry).unwrap();
    assert_eq!(b.resource_id(), id(6));
    assert_eq!(b.scope_id(), id(1));
    match b.artifact {
        BuiltArtifact::Encrypted { reg, enc } => {
            assert_eq!(*reg.version(), 1);
            assert_eq!(reg.digest(), blake3::hash(b"-3").as_bytes());
            assert_eq!(enc.derive_path, vec![("Purchase", 6)]);
        }
        _ => panic!("purchase should be sealed"),
    }

    let hint: HintResource = Resource {
        grant: Grant::Inherit(id(7)),
        inner: Hint { title: "t".to_string(), answer: Resource { grant: Grant::Inherit(id(8)), inner: "a".to_string() } },
    };
    let ids: Vec<i32> = hint.claimed_ids().iter().map(|r| r.get()).collect();
    assert_eq!(ids, vec![7, 8]);
    let b = hint.build(&ctx, &mut registry).unwrap();
    match b.artifact {
        BuiltArtifact::PlainText { content, .. } => {
            assert_eq!(json_to_bytes(&content), b"{\"answer\":\"a\",\"title\":\"t\"}".to_vec())
        }
        _ => panic!("inherited hint should stay plain"),
    }
}

#[test]
fn mock_registry_is_idempotent_and_counts_up() {
    let mut r = MockVersionRegistry::new();
    let a = r.version_for(id(1), id(9), [1u8; 32]).unwrap();
    let b = r.version_for(id(2), id(9), [1u8; 32]).unwrap();
    let a2 = r.version_for(id(1), id(9), [1u8; 32]).unwrap();
    let c = r.version_for(id(1), id(9), [2u8; 32]).unwrap();
    assert_eq!((*a.version(), *b.version(), *a2.version(), *c.version()), (1, 2, 1, 3));
    assert_eq!(*a.resource_id(), id(1));
    assert_eq!(*a.scope_id(), id(9));
    assert_eq!(*a.digest(), [1u8; 32]);
    assert!(!*a.confirmed());

    let mut d = MockVersionRegistry::default();
    assert_eq!(*d.version_for(id(1), id(1), [0u8; 32]).unwrap().version(), 0);
}

#[test]
fn registration_display_pads_ids_and_shows_digest_prefix() {
    let mut digest = [0u8; 32];
    digest[0] = 0xab;
    digest[7] = 0x01;
    let reg = ResourceRegistration::new(id(902), id(1), digest, 3, false);
    assert_eq!(reg.to_display_string(), "001/00902_00003 ab00000000000001 confirmed=[false]");
    let reg = ResourceRegistration::new(id(123456), id(1234), [0xff; 32], -2, true);
    assert_eq!(reg.to_display_string(), "1234/123456_-0002 ffffffffffffffff confirmed=[true]");
}

#[test]
fn json_text_matches_serde_json() {
    let v = object(vec![
        ("a", JsonValue::Array(vec![JsonValue::Null, JsonValue::Bool(true), JsonValue::String("x\"y\n\u{1}é".into())])),
        ("b", JsonValue::Int(i64::MIN)),
        ("c", object(vec![])),
        ("d", JsonValue::Raw("1.25".into())),
    ]);
    let mut expected_obj = serde_json::Map::new();
    expected_obj.insert(
        "a".to_string(),
        serde_json::Value::Array(vec![
            serde_json::Value::Null,
            serde_json::Value::Bool(true),
            serde_json::Value::String("x\"y\n\u{1}é".to_string()),
        ]),
    );
    expected_obj.insert("b".to_string(), serde_json::Value::from(i64::MIN));
    expected_obj.insert("c".to_string(), serde_json::Value::Object(serde_json::Map::new()));
    expected_obj.insert("d".to_string(), serde_json::Value::from(1.25f64));
    let expected = serde_json::to_string(&serde_json::Value::Object(expected_obj)).unwrap();
    let mut out = String::from(">");
    write_json(&mut out, &v);
    assert_eq!(out, format!(">{}", expected));
    assert_eq!(json_to_bytes(&v), expected.into_bytes());
}

#[test]
fn sort_entries_orders_keys_bytewise_and_stably() {
    let entries = vec![
        ("b".to_string(), JsonValue::Int(1)),
        ("a".to_string(), JsonValue::Int(2)),
        ("B".to_string(), JsonValue::Int(3)),
        ("a".to_string(), JsonValue::Int(4)),
        ("é".to_string(), JsonValue::Int(5)),
        ("aa".to_string(), JsonValue::Int(6)),
    ];
    let sorted = sort_entries(entries);
    let text = json_to_bytes(&JsonValue::Object(sorted));
    assert_eq!(String::from_utf8(text).unwrap(), "{\"B\":3,\"a\":2,\"a\":4,\"aa\":6,\"b\":1,\"é\":5}");
}

#[test]
fn deep_clone_copies_the_whole_value() {
    let v = object(vec![("k", JsonValue::Array(vec![JsonValue::String("s".into()), JsonValue::Raw("2.5".into())]))]);
    let c = v.deep_clone();
    assert_eq!(json_to_bytes(&c), json_to_bytes(&v));
}

#[test]
fn only_content_toml_is_a_manifest() {
    assert_eq!(MANIFEST_FILE_NAME, "content.toml");
    assert!(is_content_toml("content.toml"));
    assert!(!is_content_toml("content.toml.bak"));
    assert!(!is_content_toml("Content.toml"));
    assert!(!is_content_toml(""));
}

/// The library's form of a parsed TOML value.
fn from_toml(v: &toml::Value) -> TomlValue {
    match v {
        toml::Value::String(s) => TomlValue::String(s.clone()),
        toml::Value::Integer(i) => TomlValue::Integer(*i),
        toml::Value::Float(f) => TomlValue::Float(serde_json::Value::from(*f).to_string()),
        toml::Value::Boolean(b) => TomlValue::Boolean(*b),
        toml::Value::Datetime(d) => TomlValue::Datetime(d.to_string()),
        toml::Value::Array(a) => TomlValue::Array(a.iter().map(from_toml).collect()),
        toml::Value::Table(t) => TomlValue::Table(t.iter().map(|(k, v)| (k.clone(), from_toml(v))).collect()),
    }
}

#[test]
fn inline_toml_converts_like_serde_json_values() {
    let doc: toml::Table = toml::from_str(
        "zeta = 1\nalpha = \"s\"\nmid = [1.5, true, 1979-05-27T07:32:00Z]\n[nested]\nb = -2\na = { x = 0.1 }\n",
    )
    .unwrap();
    let value = toml::Value::Table(doc);
    let json = toml_value_to_json(&from_toml(&value));
    let text = String::from_utf8(json_to_bytes(&json)).unwrap();
    assert_eq!(
        text,
        "{\"alpha\":\"s\",\"mid\":[1.5,true,\"1979-05-27T07:32:00Z\"],\"nested\":{\"a\":{\"x\":0.1},\"b\":-2},\"zeta\":1}"
    );
    let unsorted = TomlValue::Table(vec![
        ("b".to_string(), TomlValue::Integer(1)),
        ("a".to_string(), TomlValue::Float("2.5".to_string())),
    ]);
    assert_eq!(json_to_bytes(&toml_value_to_json(&unsorted)), b"{\"a\":2.5,\"b\":1}".to_vec());
}

#[test]
fn inherited_resources_build_without_asking_the_registry() {
    let ctx = EncryptContext::base(TEST_BASE_KEY, id(1));
    let contents: Vec<ContentResource> = vec![
        Resource { grant: Grant::Inherit(id(5)), inner: "a".to_string() },
        Resource { grant: Grant::Inherit(id(6)), inner: "b".to_string() },
    ];
    let mut inherit = Vec::new();
    let mut built = Vec::new();
    let mut seen = HashSet::new();
    let res = hut_content_schema::scope::puzzle_scope::build(
        "contents", contents, &ctx, &mut FailingRegistry, &mut inherit, &mut built, &mut seen,
    );
    assert!(res.is_ok());
    assert!(built.is_empty());
    assert_eq!(inherit.len(), 2);
    assert_eq!(seen, [5, 6].into_iter().collect::<HashSet<i32>>());

    let hint: HintResource = Resource {
        grant: Grant::Inherit(id(7)),
        inner: Hint { title: "t".to_string(), answer: Resource { grant: Grant::Inherit(id(8)), inner: "x".to_string() } },
    };
    assert!(hint.build(&ctx, &mut FailingRegistry).is_ok());
    let sealed: ContentResource = Resource { grant: Grant::Independent(id(9)), inner: "y".to_string() };
    assert!(matches!(sealed.build(&ctx, &mut FailingRegistry), Err(BuildError::Registry(_))));
}

#[test]
fn into_scope_reports_what_check_reports() {
    let mut c = fixture_config();
    c.data[0].json = None;
    assert!(matches!(c.into_scope(), Err(ConfigError::JsonMissing)));
    let scope = fixture_config().into_scope().unwrap();
    assert_eq!(scope.title, "Test Puzzle");
}

#[test]
fn small_scope_builds_with_fresh_mock_versions() {
    let scope = PuzzleScope {
        id: id(1),
        base_resource: id(10),
        title: "T".to_string(),
        contents: vec![Resource { grant: Grant::Inherit(id(11)), inner: "a".to_string() }],
        data: vec![],
        hints: vec![Resource {
            grant: Grant::Inherit(id(12)),
            inner: Hint { title: "h".to_string(), answer: Resource { grant: Grant::Purchase(id(13)), inner: "s".to_string() } },
        }],
        base_manifest: Default::default(),
    };
    let mut registry = MockVersionRegistry::new();
    let mut seen = HashSet::new();
    let built = scope.build([0u8; 32], &mut registry, &mut seen).expect("builds");
    assert_eq!(built.len(), 2);
    assert_eq!((built[0].0.resource_id().get(), *built[0].0.version()), (13, 1));
    assert_eq!(built[0].1.derive_path, vec![("Scope", 1), ("ScopeDerive", 1), ("Purchase", 13)]);
    assert_eq!((built[1].0.resource_id().get(), *built[1].0.version()), (10, 2));
    assert_eq!(built[1].1.derive_path, vec![("Scope", 1), ("ScopeInherit", 1), ("Indep", 10)]);
    assert_eq!(seen, [10, 11, 12, 13].into_iter().collect::<HashSet<i32>>());
}

#[test]
fn a_sealed_hint_answer_is_the_only_child() {
    let ctx = EncryptContext::base(TEST_BASE_KEY, id(1));
    let mut registry = MockVersionRegistry::new();
    let hint: HintResource = Resource {
        grant: Grant::Inherit(id(7)),
        inner: Hint { title: "t".to_string(), answer: Resource { grant: Grant::Purchase(id(8)), inner: "a".to_string() } },
    };
    let b = hint.build(&ctx, &mut registry).unwrap();
    assert_eq!(b.resource_id(), id(7));
    assert_eq!(b.children.len(), 1);
    assert_eq!(b.children[0].resource_id(), id(8));
    match b.artifact {
        BuiltArtifact::PlainText { content, .. } => assert_eq!(
            json_to_bytes(&content),
            b"{\"answer\":{\"resource_id\":8,\"version\":1},\"title\":\"t\"}".to_vec()
        ),
        _ => panic!("inherited hint should stay plain"),
    }
}
