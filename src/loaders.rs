//! Loader configuration: which model to load and the settings that are fixed
//! for a pipeline once it is loaded.
use vstd::prelude::*;

verus! {

/// Architecture of a vision model.
#[derive(Debug, Clone, Copy, PartialEq, Eq, Structural)]
pub enum VisionLoaderType {
    Phi3V,
    Idefics2,
    LLaVANext,
    LLaVA,
}

/// Loader of a Phi 3 vision model.
pub struct Phi3VLoader;

/// Loader of an Idefics 2 model.
pub struct Idefics2Loader;

/// Loader of a LLaVA-NeXT model.
pub struct LLaVANextLoader;

/// Loader of a LLaVA model.
pub struct LLaVALoader;

/// Whether a model takes text only or images too.
#[derive(Debug, Clone, Copy, PartialEq, Eq, Structural)]
pub enum ModelCategory {
    Text,
    Vision { has_conv2d: bool },
}

/// Text model architectures offered to the bindings.
#[derive(Debug, Clone, Copy, PartialEq, Eq, Structural)]
pub enum Architecture {
    Mistral,
    Gemma,
    Mixtral,
    Llama,
    Phi2,
    Phi3,
    Qwen2,
    Gemma2,
    Starcoder2,
    Phi3_5MoE,
}

/// Architecture to load a text model as.
#[derive(Debug, Clone, Copy, PartialEq, Eq, Structural)]
pub enum NormalLoaderType {
    Mistral,
    Gemma,
    Mixtral,
    Llama,
    Phi2,
    Phi3,
    Qwen2,
    Gemma2,
    Starcoder2,
    Phi3_5MoE,
}

impl Architecture {
    /// The loader type of this architecture.
    pub fn loader_type(self) -> (r: NormalLoaderType)
        ensures
            r == match self {
                Architecture::Mistral => NormalLoaderType::Mistral,
                Architecture::Gemma => NormalLoaderType::Gemma,
                Architecture::Mixtral => NormalLoaderType::Mixtral,
                Architecture::Llama => NormalLoaderType::Llama,
                Architecture::Phi2 => NormalLoaderType::Phi2,
                Architecture::Phi3 => NormalLoaderType::Phi3,
                Architecture::Qwen2 => NormalLoaderType::Qwen2,
                Architecture::Gemma2 => NormalLoaderType::Gemma2,
                Architecture::Starcoder2 => NormalLoaderType::Starcoder2,
                Architecture::Phi3_5MoE => NormalLoaderType::Phi3_5MoE,
            },
    {
        match self {
            Architecture::Mistral => NormalLoaderType::Mistral,
            Architecture::Gemma => NormalLoaderType::Gemma,
            Architecture::Mixtral => NormalLoaderType::Mixtral,
            Architecture::Llama => NormalLoaderType::Llama,
            Architecture::Phi2 => NormalLoaderType::Phi2,
            Architecture::Phi3 => NormalLoaderType::Phi3,
            Architecture::Qwen2 => NormalLoaderType::Qwen2,
            Architecture::Gemma2 => NormalLoaderType::Gemma2,
            Architecture::Starcoder2 => NormalLoaderType::Starcoder2,
            Architecture::Phi3_5MoE => NormalLoaderType::Phi3_5MoE,
        }
    }
}

/// Vision model architectures offered to the bindings.
#[derive(Debug, Clone, Copy, PartialEq, Eq, Structural)]
pub enum VisionArchitecture {
    Phi3V,
    Idefics2,
    LLaVANext,
    LLaVA,
}

impl VisionArchitecture {
    /// The loader type of this architecture.
    pub fn loader_type(self) -> (r: VisionLoaderType)
        ensures
            r == match self {
                VisionArchitecture::Phi3V => VisionLoaderType::Phi3V,
                VisionArchitecture::Idefics2 => VisionLoaderType::Idefics2,
                VisionArchitecture::LLaVANext => VisionLoaderType::LLaVANext,
                VisionArchitecture::LLaVA => VisionLoaderType::LLaVA,
            },
    {
        match self {
            VisionArchitecture::Phi3V => VisionLoaderType::Phi3V,
            VisionArchitecture::Idefics2 => VisionLoaderType::Idefics2,
            VisionArchitecture::LLaVANext => VisionLoaderType::LLaVANext,
            VisionArchitecture::LLaVA => VisionLoaderType::LLaVA,
        }
    }
}

/// Kind of adapter applied to a base model.
#[derive(Debug, Clone, Copy, PartialEq, Eq, Structural)]
pub enum AdapterKind {
    Lora,
    XLora,
}

/// Format of quantized weights.
#[derive(Debug, Clone, Copy, PartialEq, Eq, Structural)]
pub enum QuantizationKind {
    Ggml,
    Gguf,
}

/// How a model's weights are organised.
#[derive(Debug, Clone, Copy, PartialEq, Eq, Structural)]
pub enum ModelKind {
    Normal,
    Adapter { adapter: AdapterKind },
    Quantized { quant: QuantizationKind },
    AdapterQuantized { adapter: AdapterKind, quant: QuantizationKind },
}

/// Order and base model of a set of adapters.
pub struct Ordering {
    pub base_model_id: String,
    pub adapters: Option<Vec<String>>,
}

/// The model to load, as selected on the command line.
#[allow(inconsistent_fields)]
pub enum ModelSelected {
    Plain { model_id: String },
    Lora { model_id: Option<String>, adapters_model_id: String },
    XLora { model_id: Option<String>, xlora_model_id: String, tgt_non_granular_index: Option<usize> },
    GGUF { quantized_model_id: String, quantized_filename: String },
    LoraGGUF { quantized_model_id: String, quantized_filename: String, adapters_model_id: String },
    XLoraGGUF {
        quantized_model_id: String,
        quantized_filename: String,
        xlora_model_id: String,
        tgt_non_granular_index: Option<usize>,
    },
    GGML { quantized_model_id: String, quantized_filename: String },
    LoraGGML { quantized_model_id: String, quantized_filename: String, adapters_model_id: String },
    XLoraGGML {
        quantized_model_id: String,
        quantized_filename: String,
        xlora_model_id: String,
        tgt_non_granular_index: Option<usize>,
    },
    Toml { file: String },
    VisionPlain { model_id: String, arch: VisionLoaderType },
}

/// The step index at which X-LoRA scalings stop being recomputed: set only
/// for the X-LoRA selections.
pub open spec fn tgt_index_of(model: &ModelSelected) -> Option<usize> {
    match model {
        ModelSelected::XLora { tgt_non_granular_index, .. } => *tgt_non_granular_index,
        ModelSelected::XLoraGGUF { tgt_non_granular_index, .. } => *tgt_non_granular_index,
        ModelSelected::XLoraGGML { tgt_non_granular_index, .. } => *tgt_non_granular_index,
        _ => None,
    }
}

pub fn get_tgt_non_granular_index(model: &ModelSelected) -> (r: Option<usize>)
    ensures
        r == tgt_index_of(model),
{
    match model {
        ModelSelected::XLora { tgt_non_granular_index, .. } => *tgt_non_granular_index,
        ModelSelected::XLoraGGUF { tgt_non_granular_index, .. } => *tgt_non_granular_index,
        ModelSelected::XLoraGGML { tgt_non_granular_index, .. } => *tgt_non_granular_index,
        _ => None,
    }
}

/// The settings a loader is built with.
pub struct LoaderSettings {
    pub model: ModelSelected,
    pub no_kv_cache: bool,
    pub chat_template: Option<String>,
    pub use_flash_attn: bool,
    pub prompt_batchsize: Option<usize>,
    pub tgt_non_granular_index: Option<usize>,
}

/// A builder for a loader of the selected model.
pub struct LoaderBuilder {
    pub model: ModelSelected,
    pub no_kv_cache: bool,
    pub chat_template: Option<String>,
    pub use_flash_attn: bool,
    pub prompt_batchsize: Option<usize>,
}

impl LoaderBuilder {
    pub fn new(model: ModelSelected) -> (r: Self)
        ensures
            r.model == model,
            !r.no_kv_cache,
            r.chat_template is None,
            !r.use_flash_attn,
            r.prompt_batchsize is None,
    {
        LoaderBuilder { model, no_kv_cache: false, chat_template: None, use_flash_attn: false, prompt_batchsize: None }
    }

    pub fn with_no_kv_cache(self, no_kv_cache: bool) -> (r: Self)
        ensures
            r == (LoaderBuilder { no_kv_cache, ..self }),
    {
        LoaderBuilder { no_kv_cache, ..self }
    }

    pub fn with_chat_template(self, chat_template: Option<String>) -> (r: Self)
        ensures
            r == (LoaderBuilder { chat_template, ..self }),
    {
        LoaderBuilder { chat_template, ..self }
    }

    pub fn with_use_flash_attn(self, use_flash_attn: bool) -> (r: Self)
        ensures
            r == (LoaderBuilder { use_flash_attn, ..self }),
    {
        LoaderBuilder { use_flash_attn, ..self }
    }

    /// Sets the size of prompt chunks; a size must be positive.
    pub fn with_prompt_batchsize(self, prompt_batchsize: Option<usize>) -> (r: Self)
        requires
            prompt_batchsize matches Some(b) ==> b > 0,
        ensures
            r == (LoaderBuilder { prompt_batchsize, ..self }),
    {
        LoaderBuilder { prompt_batchsize, ..self }
    }

    /// The loader settings, with the X-LoRA target index of the selection.
    pub fn build(self) -> (r: LoaderSettings)
        ensures
            r.model == self.model,
            r.no_kv_cache == self.no_kv_cache,
            r.chat_template == self.chat_template,
            r.use_flash_attn == self.use_flash_attn,
            r.prompt_batchsize == self.prompt_batchsize,
            r.tgt_non_granular_index == tgt_index_of(&self.model),
    {
        let tgt = get_tgt_non_granular_index(&self.model);
        LoaderSettings {
            model: self.model,
            no_kv_cache: self.no_kv_cache,
            chat_template: self.chat_template,
            use_flash_attn: self.use_flash_attn,
            prompt_batchsize: self.prompt_batchsize,
            tgt_non_granular_index: tgt,
        }
    }
}

/// Loader for a GGUF model.
pub struct GGUFLoader {
    pub model_id: Option<String>,
    pub quantized_model_id: String,
    pub quantized_filenames: Vec<String>,
    pub xlora_model_id: Option<String>,
    pub xlora_order: Option<Ordering>,
    pub no_kv_cache: bool,
    pub chat_template: Option<String>,
    pub kind: ModelKind,
    pub tgt_non_granular_index: Option<usize>,
    pub prompt_batchsize: Option<usize>,
}

/// A builder for a GGUF loader.
pub struct GGUFLoaderBuilder {
    pub model_id: Option<String>,
    pub quantized_model_id: String,
    pub quantized_filenames: Vec<String>,
    pub xlora_model_id: Option<String>,
    pub kind: ModelKind,
    pub xlora_order: Option<Ordering>,
    pub no_kv_cache: bool,
    pub chat_template: Option<String>,
    pub tgt_non_granular_index: Option<usize>,
    pub prompt_batchsize: Option<usize>,
}

/// The tokenizer model id that an adapter falls back to: the given one, else
/// the adapters' base model.
pub open spec fn model_id_or_base(model_id: Option<String>, order: Option<Ordering>) -> Option<String> {
    match model_id {
        Some(id) => Some(id),
        None => match order {
            Some(o) => Some(o.base_model_id),
            None => None,
        },
    }
}

impl GGUFLoaderBuilder {
    /// A builder for a GGUF model. `tok_model_id` names where the tokenizer
    /// configuration is found.
    pub fn new(
        chat_template: Option<String>,
        tok_model_id: Option<String>,
        quantized_model_id: String,
        quantized_filenames: Vec<String>,
        prompt_batchsize: Option<usize>,
    ) -> (r: Self)
        ensures
            r.chat_template == chat_template,
            r.model_id == tok_model_id,
            r.kind == (ModelKind::Quantized { quant: QuantizationKind::Gguf }),
            r.quantized_model_id == quantized_model_id,
            r.quantized_filenames == quantized_filenames,
            r.prompt_batchsize == prompt_batchsize,
            r.xlora_model_id is None,
            r.xlora_order is None,
            !r.no_kv_cache,
            r.tgt_non_granular_index is None,
    {
        GGUFLoaderBuilder {
            model_id: tok_model_id,
            quantized_model_id,
            quantized_filenames,
            xlora_model_id: None,
            kind: ModelKind::Quantized { quant: QuantizationKind::Gguf },
            xlora_order: None,
            no_kv_cache: false,
            chat_template,
            tgt_non_granular_index: None,
            prompt_batchsize,
        }
    }

    fn with_adapter(
        self,
        xlora_model_id: String,
        xlora_order: Ordering,
        no_kv_cache: bool,
        tgt_non_granular_index: Option<usize>,
    ) -> (r: Self)
        ensures
            r.xlora_model_id == Some(xlora_model_id),
            r.model_id == model_id_or_base(self.model_id, Some(xlora_order)),
            r.xlora_order == Some(xlora_order),
            r.no_kv_cache == no_kv_cache,
            r.tgt_non_granular_index == tgt_non_granular_index,
            r.kind == self.kind,
            r.quantized_model_id == self.quantized_model_id,
            r.quantized_filenames == self.quantized_filenames,
            r.chat_template == self.chat_template,
            r.prompt_batchsize == self.prompt_batchsize,
    {
        let model_id = match self.model_id {
            Some(id) => Some(id),
            None => Some(xlora_order.base_model_id.clone()),
        };
        GGUFLoaderBuilder {
            model_id,
            xlora_model_id: Some(xlora_model_id),
            xlora_order: Some(xlora_order),
            no_kv_cache,
            tgt_non_granular_index,
            ..self
        }
    }

    pub fn with_xlora(
        self,
        xlora_model_id: String,
        xlora_order: Ordering,
        no_kv_cache: bool,
        tgt_non_granular_index: Option<usize>,
    ) -> (r: Self)
        ensures
            r.kind == (ModelKind::AdapterQuantized { adapter: AdapterKind::XLora, quant: QuantizationKind::Gguf }),
            r.xlora_model_id == Some(xlora_model_id),
            r.model_id == model_id_or_base(self.model_id, Some(xlora_order)),
            r.xlora_order == Some(xlora_order),
            r.no_kv_cache == no_kv_cache,
            r.tgt_non_granular_index == tgt_non_granular_index,
            r.quantized_model_id == self.quantized_model_id,
            r.quantized_filenames == self.quantized_filenames,
            r.chat_template == self.chat_template,
            r.prompt_batchsize == self.prompt_batchsize,
    {
        let b = GGUFLoaderBuilder {
            kind: ModelKind::AdapterQuantized { adapter: AdapterKind::XLora, quant: QuantizationKind::Gguf },
            ..self
        };
        b.with_adapter(xlora_model_id, xlora_order, no_kv_cache, tgt_non_granular_index)
    }

    pub fn with_lora(self, lora_model_id: String, lora_order: Ordering) -> (r: Self)
        ensures
            r.kind == (ModelKind::AdapterQuantized { adapter: AdapterKind::Lora, quant: QuantizationKind::Gguf }),
            r.xlora_model_id == Some(lora_model_id),
            r.model_id == model_id_or_base(self.model_id, Some(lora_order)),
            r.xlora_order == Some(lora_order),
            !r.no_kv_cache,
            r.tgt_non_granular_index is None,
            r.quantized_model_id == self.quantized_model_id,
            r.quantized_filenames == self.quantized_filenames,
            r.chat_template == self.chat_template,
            r.prompt_batchsize == self.prompt_batchsize,
    {
        let b = GGUFLoaderBuilder {
            kind: ModelKind::AdapterQuantized { adapter: AdapterKind::Lora, quant: QuantizationKind::Gguf },
            ..self
        };
        b.with_adapter(lora_model_id, lora_order, false, None)
    }

    pub fn build(self) -> (r: GGUFLoader)
        ensures
            r.model_id == self.model_id,
            r.quantized_model_id == self.quantized_model_id,
            r.quantized_filenames == self.quantized_filenames,
            r.xlora_model_id == self.xlora_model_id,
            r.xlora_order == self.xlora_order,
            r.no_kv_cache == self.no_kv_cache,
            r.chat_template == self.chat_template,
            r.kind == self.kind,
            r.tgt_non_granular_index == self.tgt_non_granular_index,
            r.prompt_batchsize == self.prompt_batchsize,
    {
        GGUFLoader {
            model_id: self.model_id,
            quantized_model_id: self.quantized_model_id,
            quantized_filenames: self.quantized_filenames,
            xlora_model_id: self.xlora_model_id,
            xlora_order: self.xlora_order,
            no_kv_cache: self.no_kv_cache,
            chat_template: self.chat_template,
            kind: self.kind,
            tgt_non_granular_index: self.tgt_non_granular_index,
            prompt_batchsize: self.prompt_batchsize,
        }
    }
}

impl GGUFLoader {
    /// A GGUF loader; without a tokenizer model id the adapters' base model
    /// is used.
    pub fn new(
        model_id: Option<String>,
        quantized_model_id: String,
        quantized_filenames: Vec<String>,
        xlora_model_id: Option<String>,
        kind: ModelKind,
        xlora_order: Option<Ordering>,
        no_kv_cache: bool,
        chat_template: Option<String>,
        tgt_non_granular_index: Option<usize>,
        prompt_batchsize: Option<usize>,
    ) -> (r: Self)
        ensures
            r.model_id == model_id_or_base(model_id, xlora_order),
            r.quantized_model_id == quantized_model_id,
            r.quantized_filenames == quantized_filenames,
            r.xlora_model_id == xlora_model_id,
            r.xlora_order == xlora_order,
            r.no_kv_cache == no_kv_cache,
            r.chat_template == chat_template,
            r.kind == kind,
            r.tgt_non_granular_index == tgt_non_granular_index,
            r.prompt_batchsize == prompt_batchsize,
    {
        let model_id = match model_id {
            Some(id) => Some(id),
            None => match &xlora_order {
                Some(o) => Some(o.base_model_id.clone()),
                None => None,
            },
        };
        GGUFLoader {
            model_id,
            quantized_model_id,
            quantized_filenames,
            xlora_model_id,
            xlora_order,
            no_kv_cache,
            chat_template,
            kind,
            tgt_non_granular_index,
            prompt_batchsize,
        }
    }
}

} // verus!
