use prefix_cache::config::LayerPlacement::{Host, Main, Ordinal};
use prefix_cache::config::{DeviceMapError,
    AnyMoeTrainingInputRow, AnyMoeTrainingInputs, DeviceLayerMapMetadata, DeviceMapMetadata, DiffusionLoaderBuilder,
    DiffusionSpecificConfig, IsqOrganization, IsqType, ModelDType, ModelKind, NormalLoaderType, TextModelBuilder, TokenSource,
};

#[test]
fn text_model_builder_defaults() {
    let b = TextModelBuilder::new("m".to_string());
    assert_eq!(b.model_id, "m");
    assert_eq!(b.max_num_seqs, 32);
    assert_eq!(b.prefix_cache_n, Some(16));
    assert_eq!(b.dtype, ModelDType::Auto);
    assert_eq!(b.token_source, TokenSource::CacheToken);
    assert_eq!(b.organization, IsqOrganization::Default);
    assert!(!b.force_cpu && !b.no_kv_cache && !b.with_logging);
    assert!(b.isq.is_none() && b.loader_type.is_none());
}

#[test]
fn text_model_builder_options() {
    let b = TextModelBuilder::new("m".to_string())
        .with_prompt_batchsize(8)
        .with_mixture_qexperts_isq()
        .with_chat_template("t".to_string())
        .with_tokenizer_json("j".to_string())
        .with_dtype(ModelDType::BF16)
        .with_force_cpu()
        .with_token_source(TokenSource::EnvVar("TOKEN".to_string()))
        .with_hf_revision("main".to_string())
        .with_max_num_seqs(4)
        .with_no_kv_cache()
        .with_prefix_cache_n(None)
        .with_logging()
        .with_isq(IsqType::Q4K)
        .with_loader_type(NormalLoaderType::Llama);
    assert_eq!(b.isq, Some(IsqType::Q4K));
    assert_eq!(b.loader_type, Some(NormalLoaderType::Llama));
    assert_eq!(b.prompt_batchsize, Some(8));
    assert_eq!(b.organization, IsqOrganization::MoeExpertsOnly);
    assert_eq!(b.chat_template.as_deref(), Some("t"));
    assert_eq!(b.tokenizer_json.as_deref(), Some("j"));
    assert_eq!(b.dtype, ModelDType::BF16);
    assert!(b.force_cpu && b.no_kv_cache && b.with_logging);
    assert_eq!(b.token_source, TokenSource::EnvVar("TOKEN".to_string()));
    assert_eq!(b.hf_revision.as_deref(), Some("main"));
    assert_eq!(b.max_num_seqs, 4);
    assert_eq!(b.prefix_cache_n, None);
}

#[test]
fn device_map_metadata() {
    let d = DeviceMapMetadata::from_num_device_layers(12);
    assert!(!d.is_dummy());
    assert_eq!(d.device_layers, Some(vec![DeviceLayerMapMetadata { ordinal: 0, layers: 12 }]));
    let multi = vec![DeviceLayerMapMetadata { ordinal: 0, layers: 3 }, DeviceLayerMapMetadata { ordinal: 1, layers: 5 }];
    let d = DeviceMapMetadata::from_num_device_layers_multi_gpu(multi.clone());
    assert_eq!(d.device_layers, Some(multi));
    assert!(d.host_layers.is_none());
    assert!(DeviceMapMetadata::dummy().is_dummy());
}

#[test]
fn training_inputs() {
    let rows = vec![
        AnyMoeTrainingInputRow { prompt: "a".to_string(), expert: 0, image_urls: None },
        AnyMoeTrainingInputRow { prompt: "b".to_string(), expert: 1, image_urls: Some(vec!["u".to_string()]) },
    ];
    let inputs = AnyMoeTrainingInputs::new(rows);
    assert_eq!(inputs.len(), 2);
    let rows = inputs.into_inner();
    assert_eq!(rows[1].prompt, "b");
    assert_eq!(rows[1].expert, 1);
}

#[test]
fn diffusion_loader_builder() {
    let b = DiffusionLoaderBuilder::new(
        DiffusionSpecificConfig { use_flash_attn: true },
        None,
        Some("tok".to_string()),
        Some("id".to_string()),
    );
    assert!(b.config.use_flash_attn);
    assert_eq!(b.kind, ModelKind::Normal);
    assert_eq!(b.model_id.as_deref(), Some("id"));
    assert_eq!(b.tokenizer_json.as_deref(), Some("tok"));
    assert!(b.chat_template.is_none());
}

#[test]
fn layer_placements_single_device() {
    let d = DeviceMapMetadata::from_num_device_layers(2);
    assert_eq!(d.layer_placements(4), Ok(Some(vec![Main, Main, Host, Host])));
    let d = DeviceMapMetadata::from_num_device_layers(9);
    assert_eq!(d.layer_placements(3), Ok(Some(vec![Main, Main, Main])));
    assert_eq!(DeviceMapMetadata::dummy().layer_placements(3), Ok(None));
}

#[test]
fn layer_placements_multi_device() {
    let d = DeviceMapMetadata::from_num_device_layers_multi_gpu(vec![
        DeviceLayerMapMetadata { ordinal: 0, layers: 1 },
        DeviceLayerMapMetadata { ordinal: 1, layers: 2 },
    ]);
    assert_eq!(d.layer_placements(4), Ok(Some(vec![Ordinal(0), Ordinal(1), Ordinal(1), Host])));
    assert_eq!(d.layer_placements(2), Err(DeviceMapError::MappingLengthMismatch));
}

#[test]
fn layer_placements_count_mismatch() {
    let d = DeviceMapMetadata { device_layers: Some(vec![DeviceLayerMapMetadata { ordinal: 0, layers: 2 }]), host_layers: Some(1) };
    assert_eq!(d.layer_placements(5), Err(DeviceMapError::LayerCountMismatch));
    assert_eq!(d.layer_placements(3), Ok(Some(vec![Main, Main, Host])));
}

#[test]
fn scale_permutations() {
    let (perm, single) = prefix_cache::gptq::get_scale_perms();
    assert_eq!(perm.len(), 64);
    assert_eq!(&perm[..10], &[0, 8, 16, 24, 32, 40, 48, 56, 1, 9]);
    assert_eq!(perm[63], 63);
    assert_eq!(single.len(), 32);
    assert_eq!(&single[..10], &[0, 1, 8, 9, 16, 17, 24, 25, 2, 3]);
    assert_eq!(single[31], 31);
}
