use std::hash::{Hash, Hasher};
use agent_eyes::config::{Config, ServerConfig, SpineConfig, VlmConfig, DEFAULT_VLM_TEMPERATURE_BITS};
use agent_eyes::dom_diff_coalesce::{CoalesceCache, COALESCE_WINDOW_NS, RETAIN_NS};
use agent_eyes::verify::baseline_for_target;
use agent_eyes::vlm::{default_prompt, describe_image, vlm_status, VlmError};

const MS: u64 = 1_000_000;

fn key_for(url: &str) -> u64 {
    let mut h = std::collections::hash_map::DefaultHasher::new();
    url.hash(&mut h);
    h.finish()
}

fn coalesce(
    cache: &mut CoalesceCache<serde_json::Value>,
    now: u64,
    url: &str,
    fresh: impl FnOnce() -> serde_json::Value,
) -> serde_json::Value {
    let key = key_for(url);
    cache.expire(now);
    if let Some(v) = cache.get(now, key) {
        return v.clone();
    }
    let v = fresh();
    cache.insert(key, now, v.clone());
    v
}

fn n(value: i64) -> serde_json::Value {
    let mut m = serde_json::Map::new();
    m.insert("n".to_string(), serde_json::Value::from(value));
    serde_json::Value::Object(m)
}

#[test]
fn coalesces_within_window() {
    let mut cache = CoalesceCache::new();
    let t0 = 1_000 * MS;
    let v1 = coalesce(&mut cache, t0, "http://localhost/a", || n(1));
    let v2 = coalesce(&mut cache, t0 + 5 * MS, "http://localhost/a", || n(2));
    assert_eq!(v1, v2);
    let v3 = coalesce(&mut cache, t0 + 40 * MS, "http://localhost/a", || n(3));
    assert_eq!(v3, n(3));
}

#[test]
fn a_stored_answer_is_read_back() {
    let mut cache: CoalesceCache<&str> = CoalesceCache::new();
    let t0 = 1_000 * MS;
    cache.expire(t0);
    assert_eq!(cache.get(t0, 7), None);
    cache.insert(7, t0, "first");
    let t1 = t0 + 5 * MS;
    cache.expire(t1);
    assert_eq!(cache.get(t1, 7), Some(&"first"));
}

#[test]
fn answers_outside_the_window_are_not_reused() {
    let mut cache: CoalesceCache<u32> = CoalesceCache::new();
    cache.insert(1, 0, 10);
    assert_eq!(cache.get(COALESCE_WINDOW_NS, 1), Some(&10));
    assert_eq!(cache.get(COALESCE_WINDOW_NS + 1, 1), None);
    assert_eq!(cache.get(5, 2), None);
    cache.expire(RETAIN_NS);
    assert_eq!(cache.get(0, 1), Some(&10));
    cache.expire(RETAIN_NS + 1);
    assert_eq!(cache.get(0, 1), None);
}

#[test]
fn a_new_answer_replaces_the_old_one() {
    let mut cache: CoalesceCache<u32> = CoalesceCache::new();
    cache.insert(3, 0, 1);
    cache.insert(4, 0, 2);
    cache.insert(3, 10 * MS, 5);
    assert_eq!(cache.get(20 * MS, 3), Some(&5));
    assert_eq!(cache.get(20 * MS, 4), None);
    // a clock reading earlier than the answer counts as no time elapsed
    assert_eq!(cache.get(0, 3), Some(&5));
}

#[test]
fn config_defaults() {
    let c = Config::default();
    assert_eq!(c.capture.user_agent, "agent-eyes/0.2.0");
    assert_eq!(c.logging.level, "info");
    assert_eq!(c.server.port, 3105);
    assert_eq!(c.spine.url, "http://localhost:3100");
    assert!(!c.vlm.enabled);
    assert_eq!(c.vlm.model_id, "llava-hf/llava-1.5-7b-hf");
    assert_eq!(c.vlm.model_dir, None);
    assert_eq!(c.vlm.max_new_tokens, 256);
    assert!(!c.vlm.cpu);
    assert_eq!(f32::from_bits(c.vlm.temperature_bits), 0.2f32);
    assert_eq!(f32::from_bits(DEFAULT_VLM_TEMPERATURE_BITS), 0.2f32);
    assert_eq!(ServerConfig::default().port, 3105);
    assert_eq!(SpineConfig::default().url, "http://localhost:3100");
    assert_eq!(agent_eyes::config::default_vlm_model(), "llava-hf/llava-1.5-7b-hf");
    assert_eq!(agent_eyes::config::default_vlm_max_tokens(), 256);
}

#[test]
fn baseline_paths_use_a_slug() {
    assert_eq!(
        baseline_for_target("/home/a/baselines", "http://localhost:3000/x?y=1"),
        "/home/a/baselines/http___localhost_3000_x_y_1.png"
    );
    assert_eq!(baseline_for_target("/tmp/", "a.b"), "/tmp/a_b.png");
    assert_eq!(baseline_for_target("", "Zz9"), "Zz9.png");
    assert_eq!(baseline_for_target("d", "é"), "d/_.png");
}

#[test]
fn status_reports_feature_flag() {
    let status = vlm_status(&VlmConfig::default());
    assert_eq!(status.feature_compiled, false);
    assert!(status.model_id.contains("llava"));
    assert_eq!(status.default_prompt, "Describe this image in detail.");
    assert_eq!(default_prompt(), "Describe this image in detail.");
}

#[test]
fn describe_image_explains_refusals() {
    let cfg = VlmConfig::default();
    match describe_image("shot.png", None, &cfg) {
        Err(e @ VlmError::Disabled) => assert_eq!(
            e.message(),
            "vlm.enabled is false in config (~/.autonomic/config.toml)"
        ),
        _ => panic!("expected the disabled error"),
    }
    let mut enabled = VlmConfig::default();
    enabled.enabled = true;
    enabled.model_dir = Some("/models/llava".to_string());
    let status = vlm_status(&enabled);
    assert!(status.enabled);
    assert_eq!(status.model_dir, Some("/models/llava".to_string()));
    match describe_image("shot.png", Some("what?"), &enabled) {
        Err(e @ VlmError::NotCompiled { .. }) => assert_eq!(
            e.message(),
            "native VLM not compiled; rebuild with `cargo build --features vlm` and download weights for `llava-hf/llava-1.5-7b-hf`"
        ),
        _ => panic!("expected the not-compiled error"),
    }
}
