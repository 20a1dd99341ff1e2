//! Plain configuration values of the serving stack: how layers are mapped
//! to devices, training inputs for expert gating, and the builders that
//! collect model-loading options.
use vstd::prelude::*;

verus! {

/// How many layers go to the device with this ordinal.
#[derive(Clone, Copy, Debug, Default, PartialEq, Eq, Structural)]
pub struct DeviceLayerMapMetadata {
    pub ordinal: usize,
    pub layers: usize,
}

/// Where one repeating layer of the model runs.
#[derive(Clone, Copy, Debug, PartialEq, Eq, Structural)]
pub enum LayerPlacement {
    /// The device the model is loaded on.
    Main,
    /// The accelerator of the main device's kind with this ordinal.
    Ordinal(usize),
    /// Host memory.
    Host,
}

/// Why a device mapping cannot be made.
#[derive(Clone, Copy, Debug, PartialEq, Eq, Structural)]
pub enum DeviceMapError {
    /// The device and host layers do not add up to the model's layers.
    LayerCountMismatch,
    /// The per-device layer counts add up to more than the model's layers.
    MappingLengthMismatch,
}

/// The total number of layers over all devices.
pub open spec fn layers_sum(d: Seq<DeviceLayerMapMetadata>) -> nat
    decreases d.len(),
{
    if d.len() == 0 {
        0
    } else {
        layers_sum(d.drop_last()) + d.last().layers as nat
    }
}

/// Each device's layers in turn, on that device.
pub open spec fn expand(d: Seq<DeviceLayerMapMetadata>) -> Seq<LayerPlacement>
    decreases d.len(),
{
    if d.len() == 0 {
        seq![]
    } else {
        expand(d.drop_last()) + Seq::new(d.last().layers as nat, |_i: int| LayerPlacement::Ordinal(d.last().ordinal))
    }
}

proof fn lemma_expand_len(d: Seq<DeviceLayerMapMetadata>)
    ensures
        expand(d).len() == layers_sum(d),
    decreases d.len(),
{
    if d.len() > 0 {
        lemma_expand_len(d.drop_last());
    }
}

/// Metadata to initialize the device mapper.
pub struct DeviceMapMetadata {
    pub device_layers: Option<Vec<DeviceLayerMapMetadata>>,
    pub host_layers: Option<usize>,
}

impl DeviceMapMetadata {
    /// All `device_layers` on the device with ordinal 0.
    pub fn from_num_device_layers(device_layers: usize) -> (r: Self)
        ensures
            r.device_layers matches Some(v) && v@ == seq![DeviceLayerMapMetadata { ordinal: 0, layers: device_layers }],
            r.host_layers is None,
    {
        DeviceMapMetadata {
            device_layers: Some(vec![DeviceLayerMapMetadata { ordinal: 0, layers: device_layers }]),
            host_layers: None,
        }
    }

    /// Layers spread over several devices.
    pub fn from_num_device_layers_multi_gpu(device_layers: Vec<DeviceLayerMapMetadata>) -> (r: Self)
        ensures
            r.device_layers == Some(device_layers),
            r.host_layers is None,
    {
        DeviceMapMetadata { device_layers: Some(device_layers), host_layers: None }
    }

    /// A mapper that maps nothing.
    pub fn dummy() -> (r: Self)
        ensures
            r.device_layers is None,
            r.host_layers is None,
    {
        DeviceMapMetadata { device_layers: None, host_layers: None }
    }

    /// How many layers go to the devices: their sum, at most `model_layers`.
    pub open spec fn device_count(&self, model_layers: nat) -> nat {
        let s = layers_sum(self.device_layers->Some_0@);
        if s < model_layers { s } else { model_layers }
    }

    /// How many layers go to host memory: as configured, else the rest.
    pub open spec fn host_count(&self, model_layers: nat) -> nat {
        match self.host_layers {
            Some(h) => h as nat,
            None => (model_layers - self.device_count(model_layers)) as nat,
        }
    }

    /// The placement of each layer, host layers last.
    pub open spec fn mapping(&self, model_layers: nat) -> Seq<LayerPlacement> {
        let d = self.device_layers->Some_0@;
        let head = if d.len() == 1 {
            Seq::new(self.device_count(model_layers), |_i: int| LayerPlacement::Main)
        } else {
            expand(d)
        };
        head + Seq::new(self.host_count(model_layers), |_i: int| LayerPlacement::Host)
    }

    /// Where each of the `model_layers` repeating layers runs, or `None`
    /// when nothing is mapped.
    pub fn layer_placements(&self, model_layers: usize) -> (r: Result<Option<Vec<LayerPlacement>>, DeviceMapError>)
        ensures
            self.device_layers is None ==> r == Ok::<Option<Vec<LayerPlacement>>, DeviceMapError>(None),
            self.device_layers is Some ==> {
                let m = model_layers as nat;
                if self.device_count(m) + self.host_count(m) != m {
                    r == Err::<Option<Vec<LayerPlacement>>, DeviceMapError>(DeviceMapError::LayerCountMismatch)
                } else if self.mapping(m).len() != m {
                    r == Err::<Option<Vec<LayerPlacement>>, DeviceMapError>(DeviceMapError::MappingLengthMismatch)
                } else {
                    r matches Ok(Some(v)) && v@ == self.mapping(m)
                }
            },
    {
        let d = match &self.device_layers {
            Some(d) => d,
            None => return Ok(None),
        };
        let ghost m = model_layers as nat;
        let mut acc: usize = 0;
        let mut exceeded = false;
        let mut i: usize = 0;
        while i < d.len()
            invariant
                i <= d@.len(),
                m == model_layers as nat,
                exceeded == (layers_sum(d@.take(i as int)) > m),
                acc as nat == if exceeded { m } else { layers_sum(d@.take(i as int)) },
            decreases d@.len() - i,
        {
            assert(d@.take(i + 1).drop_last() =~= d@.take(i as int));
            assert(d@.take(i + 1).last() == d@[i as int]);
            let l = d[i].layers;
            assert(layers_sum(d@.take(i + 1)) == layers_sum(d@.take(i as int)) + l);
            if !exceeded {
                if l > model_layers - acc {
                    exceeded = true;
                    acc = model_layers;
                } else {
                    acc = acc + l;
                }
            }
            i += 1;
        }
        assert(d@.take(d@.len() as int) =~= d@);
        let n_host = match self.host_layers {
            Some(h) => h,
            None => model_layers - acc,
        };
        if n_host > model_layers - acc || acc + n_host != model_layers {
            return Err(DeviceMapError::LayerCountMismatch);
        }
        let mut out: Vec<LayerPlacement> = Vec::new();
        if d.len() == 1 {
            let mut k: usize = 0;
            while k < acc
                invariant
                    k <= acc,
                    out@ == Seq::new(k as nat, |_i: int| LayerPlacement::Main),
                decreases acc - k,
            {
                out.push(LayerPlacement::Main);
                k += 1;
                assert(out@ =~= Seq::new(k as nat, |_i: int| LayerPlacement::Main));
            }
        } else {
            if exceeded {
                proof {
                    lemma_expand_len(d@);
                }
                return Err(DeviceMapError::MappingLengthMismatch);
            }
            let mut e: usize = 0;
            while e < d.len()
                invariant
                    e <= d@.len(),
                    m == model_layers as nat,
                    !exceeded,
                    layers_sum(d@) <= m,
                    out@ == expand(d@.take(e as int)),
                decreases d@.len() - e,
            {
                let ghost before = out@;
                let entry = d[e];
                let mut k: usize = 0;
                while k < entry.layers
                    invariant
                        k <= entry.layers,
                        out@ == before + Seq::new(k as nat, |_i: int| LayerPlacement::Ordinal(entry.ordinal)),
                    decreases entry.layers - k,
                {
                    out.push(LayerPlacement::Ordinal(entry.ordinal));
                    k += 1;
                    assert(out@ =~= before + Seq::new(k as nat, |_i: int| LayerPlacement::Ordinal(entry.ordinal)));
                }
                assert(d@.take(e + 1).drop_last() =~= d@.take(e as int));
                e += 1;
            }
            proof {
                lemma_expand_len(d@);
            }
        }
        let ghost head = out@;
        let mut k: usize = 0;
        while k < n_host
            invariant
                k <= n_host,
                out@ == head + Seq::new(k as nat, |_i: int| LayerPlacement::Host),
            decreases n_host - k,
        {
            out.push(LayerPlacement::Host);
            k += 1;
            assert(out@ =~= head + Seq::new(k as nat, |_i: int| LayerPlacement::Host));
        }
        assert(out@ =~= self.mapping(m));
        Ok(Some(out))
    }

    pub fn is_dummy(&self) -> (r: bool)
        ensures
            r == self.device_layers is None,
    {
        self.device_layers.is_none()
    }
}

/// One training example: a prompt and the expert it belongs to.
pub struct AnyMoeTrainingInputRow {
    pub prompt: String,
    pub expert: usize,
    pub image_urls: Option<Vec<String>>,
}

/// The training examples for expert gating.
pub struct AnyMoeTrainingInputs {
    rows: Vec<AnyMoeTrainingInputRow>,
}

impl AnyMoeTrainingInputs {
    pub closed spec fn rows(&self) -> Seq<AnyMoeTrainingInputRow> {
        self.rows@
    }

    pub fn new(rows: Vec<AnyMoeTrainingInputRow>) -> (r: Self)
        ensures
            r.rows() == rows@,
    {
        AnyMoeTrainingInputs { rows }
    }

    pub fn len(&self) -> (r: usize)
        ensures
            r == self.rows().len(),
    {
        self.rows.len()
    }

    pub fn into_inner(self) -> (r: Vec<AnyMoeTrainingInputRow>)
        ensures
            r@ == self.rows(),
    {
        self.rows
    }
}

/// Options specific to loading a diffusion model.
#[derive(Clone, Copy, Debug, Default, PartialEq, Eq, Structural)]
pub struct DiffusionSpecificConfig {
    pub use_flash_attn: bool,
}

/// How a model's weights are packaged.
#[derive(Clone, Copy, Debug, PartialEq, Eq, Structural)]
pub enum ModelKind {
    /// Plain, unquantized weights without adapters.
    Normal,
}

/// Collects the options for loading a diffusion model.
pub struct DiffusionLoaderBuilder {
    pub model_id: Option<String>,
    pub kind: ModelKind,
    pub config: DiffusionSpecificConfig,
    pub chat_template: Option<String>,
    pub tokenizer_json: Option<String>,
}

impl DiffusionLoaderBuilder {
    pub fn new(
        config: DiffusionSpecificConfig,
        chat_template: Option<String>,
        tokenizer_json: Option<String>,
        model_id: Option<String>,
    ) -> (r: Self)
        ensures
            r.config == config,
            r.chat_template == chat_template,
            r.tokenizer_json == tokenizer_json,
            r.model_id == model_id,
            r.kind == ModelKind::Normal,
    {
        DiffusionLoaderBuilder { model_id, kind: ModelKind::Normal, config, chat_template, tokenizer_json }
    }
}

/// Where the access token for the model hub comes from.
#[derive(Clone, Debug, PartialEq, Eq)]
pub enum TokenSource {
    Literal(String),
    EnvVar(String),
    Path(String),
    CacheToken,
    NoToken,
}

/// The data type the weights are loaded in.
#[derive(Clone, Copy, Debug, PartialEq, Eq, Structural)]
pub enum ModelDType {
    Auto,
    BF16,
    F16,
    F32,
}

/// The quantization that in-situ quantization applies.
#[allow(non_camel_case_types)]
#[derive(Clone, Copy, Debug, PartialEq, Eq, Structural)]
pub enum IsqType {
    Q4_0,
    Q4_1,
    Q5_0,
    Q5_1,
    Q8_0,
    Q8_1,
    Q2K,
    Q3K,
    Q4K,
    Q5K,
    Q6K,
    Q8K,
    HQQ8,
    HQQ4,
    F8E4M3,
}

/// The architecture of a plain text model.
#[allow(non_camel_case_types)]
#[derive(Clone, Copy, Debug, PartialEq, Eq, Structural)]
pub enum NormalLoaderType {
    Mistral,
    Gemma,
    Mixtral,
    Llama,
    Phi2,
    Phi3,
    Qwen2,
    Gemma2,
    Starcoder2,
    Phi3_5MoE,
}

/// Which layers in-situ quantization applies to.
#[derive(Clone, Copy, Debug, PartialEq, Eq, Structural)]
pub enum IsqOrganization {
    Default,
    MoeExpertsOnly,
}

/// Collects the options for loading and running a text model.
pub struct TextModelBuilder {
    pub model_id: String,
    pub token_source: TokenSource,
    pub hf_revision: Option<String>,
    pub chat_template: Option<String>,
    pub tokenizer_json: Option<String>,
    pub use_flash_attn: bool,
    pub prompt_batchsize: Option<usize>,
    pub organization: IsqOrganization,
    pub loader_type: Option<NormalLoaderType>,
    pub dtype: ModelDType,
    pub force_cpu: bool,
    pub isq: Option<IsqType>,
    pub max_num_seqs: usize,
    pub no_kv_cache: bool,
    pub with_logging: bool,
    pub prefix_cache_n: Option<usize>,
}

impl TextModelBuilder {
    /// The defaults: default quantization organization, the token from the
    /// hub cache, at most 32 running sequences, 16 sequences held in the
    /// prefix cache.
    pub fn new(model_id: String) -> (r: Self)
        ensures
            r.model_id == model_id,
            r.token_source == TokenSource::CacheToken,
            r.hf_revision is None,
            r.chat_template is None,
            r.tokenizer_json is None,
            !r.use_flash_attn,
            r.prompt_batchsize is None,
            r.organization == IsqOrganization::Default,
            r.loader_type is None,
            r.dtype == ModelDType::Auto,
            !r.force_cpu,
            r.isq is None,
            r.max_num_seqs == 32,
            !r.no_kv_cache,
            !r.with_logging,
            r.prefix_cache_n == Some(16usize),
    {
        TextModelBuilder {
            model_id,
            token_source: TokenSource::CacheToken,
            hf_revision: None,
            chat_template: None,
            tokenizer_json: None,
            use_flash_attn: false,
            prompt_batchsize: None,
            organization: IsqOrganization::Default,
            loader_type: None,
            dtype: ModelDType::Auto,
            force_cpu: false,
            isq: None,
            max_num_seqs: 32,
            no_kv_cache: false,
            with_logging: false,
            prefix_cache_n: Some(16),
        }
    }

    pub fn with_prompt_batchsize(self, prompt_batchsize: usize) -> (r: Self)
        requires
            prompt_batchsize > 0,
        ensures
            r == (Self { prompt_batchsize: Some(prompt_batchsize), ..self }),
    {
        Self { prompt_batchsize: Some(prompt_batchsize), ..self }
    }

    pub fn with_mixture_qexperts_isq(self) -> (r: Self)
        ensures
            r == (Self { organization: IsqOrganization::MoeExpertsOnly, ..self }),
    {
        Self { organization: IsqOrganization::MoeExpertsOnly, ..self }
    }

    pub fn with_chat_template(self, chat_template: String) -> (r: Self)
        ensures
            r == (Self { chat_template: Some(chat_template), ..self }),
    {
        Self { chat_template: Some(chat_template), ..self }
    }

    pub fn with_tokenizer_json(self, tokenizer_json: String) -> (r: Self)
        ensures
            r == (Self { tokenizer_json: Some(tokenizer_json), ..self }),
    {
        Self { tokenizer_json: Some(tokenizer_json), ..self }
    }

    pub fn with_loader_type(self, loader_type: NormalLoaderType) -> (r: Self)
        ensures
            r == (Self { loader_type: Some(loader_type), ..self }),
    {
        Self { loader_type: Some(loader_type), ..self }
    }

    pub fn with_isq(self, isq: IsqType) -> (r: Self)
        ensures
            r == (Self { isq: Some(isq), ..self }),
    {
        Self { isq: Some(isq), ..self }
    }

    pub fn with_dtype(self, dtype: ModelDType) -> (r: Self)
        ensures
            r == (Self { dtype, ..self }),
    {
        Self { dtype: dtype, ..self }
    }

    pub fn with_force_cpu(self) -> (r: Self)
        ensures
            r == (Self { force_cpu: true, ..self }),
    {
        Self { force_cpu: true, ..self }
    }

    pub fn with_token_source(self, token_source: TokenSource) -> (r: Self)
        ensures
            r == (Self { token_source, ..self }),
    {
        Self { token_source: token_source, ..self }
    }

    pub fn with_hf_revision(self, revision: String) -> (r: Self)
        ensures
            r == (Self { hf_revision: Some(revision), ..self }),
    {
        Self { hf_revision: Some(revision), ..self }
    }

    pub fn with_max_num_seqs(self, max_num_seqs: usize) -> (r: Self)
        ensures
            r == (Self { max_num_seqs, ..self }),
    {
        Self { max_num_seqs: max_num_seqs, ..self }
    }

    pub fn with_no_kv_cache(self) -> (r: Self)
        ensures
            r == (Self { no_kv_cache: true, ..self }),
    {
        Self { no_kv_cache: true, ..self }
    }

    pub fn with_prefix_cache_n(self, n_seqs: Option<usize>) -> (r: Self)
        ensures
            r == (Self { prefix_cache_n: n_seqs, ..self }),
    {
        Self { prefix_cache_n: n_seqs, ..self }
    }

    pub fn with_logging(self) -> (r: Self)
        ensures
            r == (Self { with_logging: true, ..self }),
    {
        Self { with_logging: true, ..self }
    }
}

} // verus!
