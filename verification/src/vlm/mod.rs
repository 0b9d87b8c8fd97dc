//! Captioning screenshots with a local vision model. This build carries no
//! local inference engine, so a caption request is answered with the reason
//! it cannot be served; the status report says so.

pub mod llava;

use vstd::prelude::*;
use crate::config::VlmConfig;
use crate::text;

verus! {

/// A caption of an image.
pub struct VlmDescribeResult {
    pub caption: String,
    pub model: String,
    pub prompt: String,
    pub image: String,
    pub device: String,
}

/// What the vision model is set up to do.
pub struct VlmStatus {
    pub enabled: bool,
    pub feature_compiled: bool,
    pub model_id: String,
    pub model_dir: Option<String>,
    pub default_prompt: String,
}

/// Whether this build carries local inference.
pub const LOCAL_INFERENCE_COMPILED: bool = false;

/// The prompt used when none is given.
pub fn default_prompt() -> (r: &'static str)
    ensures
        r@ == "Describe this image in detail."@,
{
    "Describe this image in detail."
}

/// The status of the vision model under `config`.
pub fn vlm_status(config: &VlmConfig) -> (r: VlmStatus)
    ensures
        r.enabled == config.enabled,
        r.feature_compiled == LOCAL_INFERENCE_COMPILED,
        r.model_id@ == config.model_id@,
        r.model_dir is Some <==> config.model_dir is Some,
        r.model_dir matches Some(d) ==> d@ == config.model_dir->0@,
        r.default_prompt@ == "Describe this image in detail."@,
{
    VlmStatus {
        enabled: config.enabled,
        feature_compiled: LOCAL_INFERENCE_COMPILED,
        model_id: config.model_id.clone(),
        model_dir: match &config.model_dir {
            Some(d) => Some(d.clone()),
            None => None,
        },
        default_prompt: default_prompt().to_owned(),
    }
}

/// Why a caption was not produced.
pub enum VlmError {
    /// `vlm.enabled` is false.
    Disabled,
    /// This build has no local inference; the model that was asked for.
    NotCompiled { model_id: String },
}

impl VlmError {
    /// The message shown for the error.
    pub fn message(&self) -> (r: String)
        ensures
            r@ == match self {
                VlmError::Disabled => "vlm.enabled is false in config (~/.autonomic/config.toml)"@,
                VlmError::NotCompiled { model_id } =>
                    "native VLM not compiled; rebuild with `cargo build --features vlm` and download weights for `"@
                    + model_id@ + "`"@,
            },
    {
        match self {
            VlmError::Disabled => "vlm.enabled is false in config (~/.autonomic/config.toml)".to_owned(),
            VlmError::NotCompiled { model_id } => {
                let head = text::chars_of(
                    "native VLM not compiled; rebuild with `cargo build --features vlm` and download weights for `",
                );
                let m = text::chars_of(model_id.as_str());
                let tail = text::chars_of("`");
                let first = text::concat(&head, &m);
                let all = text::concat(&first, &tail);
                text::string_of(&all)
            },
        }
    }
}

/// Captions the image at `image_path` with `prompt` (or the default one).
/// Refused when the model is disabled in `config`; otherwise refused because
/// this build has no local inference.
pub fn describe_image(image_path: &str, prompt: Option<&str>, config: &VlmConfig) -> (r: Result<
    VlmDescribeResult,
    VlmError,
>)
    ensures
        !config.enabled ==> r matches Err(VlmError::Disabled),
        config.enabled ==> (r matches Err(VlmError::NotCompiled { model_id }) && model_id@
            == config.model_id@),
{
    if !config.enabled {
        return Err(VlmError::Disabled);
    }
    Err(VlmError::NotCompiled { model_id: config.model_id.clone() })
}

} // verus!
