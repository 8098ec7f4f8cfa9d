use mistralrs_core::layers::{
    get_use_matmul_via_f16, set_use_matmul_via_f16, AttentionKernel, Llama3RopeType, MatMul,
    ScaledDotProductAttention,
};
use mistralrs_core::loaders::{
    get_tgt_non_granular_index, AdapterKind, Architecture, NormalLoaderType, GGUFLoader, GGUFLoaderBuilder, LoaderBuilder, ModelKind,
    ModelSelected, Ordering, QuantizationKind, VisionArchitecture, VisionLoaderType,
};

fn order(base: &str) -> Ordering {
    Ordering { base_model_id: base.to_string(), adapters: None }
}

#[test]
fn target_index_only_for_xlora() {
    let x = ModelSelected::XLora { model_id: None, xlora_model_id: "x".to_string(), tgt_non_granular_index: Some(3) };
    assert_eq!(get_tgt_non_granular_index(&x), Some(3));
    let p = ModelSelected::Plain { model_id: "m".to_string() };
    assert_eq!(get_tgt_non_granular_index(&p), None);
}

#[test]
fn loader_builder_settings() {
    let b = LoaderBuilder::new(ModelSelected::XLoraGGUF {
        quantized_model_id: "q".to_string(),
        quantized_filename: "f".to_string(),
        xlora_model_id: "x".to_string(),
        tgt_non_granular_index: Some(1),
    })
    .with_no_kv_cache(true)
    .with_chat_template(Some("t".to_string()))
    .with_use_flash_attn(true)
    .with_prompt_batchsize(Some(64));
    let s = b.build();
    assert!(s.no_kv_cache);
    assert!(s.use_flash_attn);
    assert_eq!(s.chat_template, Some("t".to_string()));
    assert_eq!(s.prompt_batchsize, Some(64));
    assert_eq!(s.tgt_non_granular_index, Some(1));
}

#[test]
fn gguf_builder_falls_back_to_the_adapter_base_model() {
    let b = GGUFLoaderBuilder::new(None, None, "q".to_string(), vec!["a.gguf".to_string()], None);
    assert_eq!(b.kind, ModelKind::Quantized { quant: QuantizationKind::Gguf });
    let l = b.with_xlora("x".to_string(), order("base"), true, Some(2)).build();
    assert_eq!(l.model_id, Some("base".to_string()));
    assert_eq!(l.kind, ModelKind::AdapterQuantized { adapter: AdapterKind::XLora, quant: QuantizationKind::Gguf });
    assert!(l.no_kv_cache);
    assert_eq!(l.tgt_non_granular_index, Some(2));
    let b = GGUFLoaderBuilder::new(None, Some("tok".to_string()), "q".to_string(), vec![], None);
    let l = b.with_lora("l".to_string(), order("base")).build();
    assert_eq!(l.model_id, Some("tok".to_string()));
    assert_eq!(l.kind, ModelKind::AdapterQuantized { adapter: AdapterKind::Lora, quant: QuantizationKind::Gguf });
    assert!(!l.no_kv_cache);
}

#[test]
fn gguf_loader_new_uses_base_model_id() {
    let l = GGUFLoader::new(None, "q".to_string(), vec![], None, ModelKind::Normal, Some(order("b")), false, None, None, None);
    assert_eq!(l.model_id, Some("b".to_string()));
    let l = GGUFLoader::new(None, "q".to_string(), vec![], None, ModelKind::Normal, None, false, None, None, None);
    assert_eq!(l.model_id, None);
}

#[test]
fn matmul_switch_respects_inhibition() {
    let mut m = MatMul::new(false);
    set_use_matmul_via_f16(&mut m, true);
    assert!(get_use_matmul_via_f16(&m));
    let mut m = MatMul::new(true);
    set_use_matmul_via_f16(&mut m, true);
    assert!(!get_use_matmul_via_f16(&m));
}

#[test]
fn attention_kernel_choice() {
    let sdpa = ScaledDotProductAttention;
    let mut m = MatMul::new(false);
    assert_eq!(sdpa.kernel_for(true, true, &m), AttentionKernel::Flash);
    assert_eq!(sdpa.kernel_for(false, true, &m), AttentionKernel::CublasLt);
    set_use_matmul_via_f16(&mut m, true);
    assert_eq!(sdpa.kernel_for(false, true, &m), AttentionKernel::Naive);
    assert_eq!(sdpa.kernel_for(false, false, &m), AttentionKernel::Naive);
    assert_eq!(Llama3RopeType::default(), Llama3RopeType::Default);
}

#[test]
fn vision_architecture_maps_to_loader_type() {
    assert_eq!(VisionArchitecture::LLaVANext.loader_type(), VisionLoaderType::LLaVANext);
    assert_eq!(VisionArchitecture::Phi3V.loader_type(), VisionLoaderType::Phi3V);
}

#[test]
fn text_architecture_maps_to_loader_type() {
    assert_eq!(Architecture::Phi3_5MoE.loader_type(), NormalLoaderType::Phi3_5MoE);
    assert_eq!(Architecture::Gemma2.loader_type(), NormalLoaderType::Gemma2);
}
