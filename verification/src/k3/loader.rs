//! What an exported model holds: the manifest, the files and tensors of each layer, and
//! the shapes that follow from them.
use vstd::prelude::*;

use crate::k3::attn::{MlaDims, MlaKv};
use crate::k3::expert_fp4::{self, expert_bytes};
use crate::k3::model::{self, K3Dims, KdaDims, KdaState, LayerState};
use crate::k3::moe::{MmapExperts, MoeDims, SizeMismatch};
use crate::text::{self, numbered_name, same_text};

verus! {

/// Why a model was not loaded.
pub enum K3LoadError {
    /// A file could not be read.
    Io(String),
    /// The manifest is not one of this family.
    Manifest(String),
    /// A tensor is missing or has the wrong form: its name and the reason.
    Tensor(String, String),
}

/// The manifest of an export. Real numbers are single-precision bits.
pub struct K3Manifest {
    pub arch: String,
    pub hidden_size: usize,
    pub num_hidden_layers: usize,
    pub first_k_dense_replace: usize,
    pub attn_res_block_size: usize,
    /// The linear-attention layers, counted from zero.
    pub kda_layers: Vec<usize>,
    pub rms_norm_eps: u32,
    pub situ_beta: u32,
    pub situ_linear_beta: Option<u32>,
    pub num_heads: usize,
    pub head_dim: usize,
    pub conv_size: usize,
    pub gate_lower_bound: Option<u32>,
    pub num_attention_heads: Option<usize>,
    pub q_lora_rank: usize,
    pub kv_lora_rank: usize,
    pub qk_nope_head_dim: usize,
    pub qk_rope_head_dim: usize,
    pub v_head_dim: usize,
    pub num_experts: usize,
    pub top_k: usize,
    pub num_shared_experts: usize,
    pub routed_expert_hidden_size: usize,
    pub moe_intermediate_size: usize,
    pub latent_moe_use_norm: bool,
    pub routed_scaling_factor: u32,
    pub moe_renormalize: bool,
    pub intermediate_size: usize,
    pub vocab_size: usize,
    pub eos_token_ids: Vec<u32>,
}

/// The width that an override leaves: at least one expert, at most the configured ones.
pub open spec fn width_under(config: usize, asked: Option<u32>) -> usize {
    match asked {
        None => config,
        Some(k) => if k >= config {
            config
        } else if k == 0 {
            1
        } else {
            k as usize
        },
    }
}

/// What a layer's state holds before the first token: zeros for a linear-attention layer,
/// nothing for another.
pub open spec fn fresh_view(m: K3Manifest, layer: usize) -> (
    bool,
    nat,
    Seq<u32>,
    Seq<u32>,
    Seq<u32>,
    Seq<u32>,
) {
    if m.kda_layers@.contains(layer) {
        let w = model::zeroed(model::window_len(m.kda_shape()) as nat);
        (true, 0, model::zeroed(model::recurrent_len(m.kda_shape()) as nat), w, w, w)
    } else {
        (false, 0, Seq::empty(), Seq::empty(), Seq::empty(), Seq::empty())
    }
}

impl K3Manifest {
    /// Accepts the manifest of this family alone.
    pub fn check(&self) -> (r: Result<(), K3LoadError>)
        ensures
            r is Ok <==> self.arch@ == "kimi_k3"@,
            r is Err ==> r->Err_0 is Manifest && r->Err_0->Manifest_0@ == self.arch@,
    {
        if same_text(self.arch.as_str(), "kimi_k3") {
            Ok(())
        } else {
            let name: Vec<char> = text::chars_of(self.arch.as_str());
            Err(K3LoadError::Manifest(text::text_of(name.as_slice())))
        }
    }

    /// The layer is a linear-attention layer.
    pub fn is_kda(&self, layer: usize) -> (b: bool)
        ensures
            b == self.kda_layers@.contains(layer),
    {
        let mut i: usize = 0;
        while i < self.kda_layers.len()
            invariant
                i <= self.kda_layers.len(),
                forall|j: int| 0 <= j < i ==> self.kda_layers[j] != layer,
            decreases self.kda_layers.len() - i,
        {
            if self.kda_layers[i] == layer {
                assert(self.kda_layers@[i as int] == layer);
                return true;
            }
            i += 1;
        }
        false
    }

    /// The layer has routed experts.
    pub fn is_moe(&self, layer: usize) -> (b: bool)
        ensures
            b == (layer >= self.first_k_dense_replace),
    {
        layer >= self.first_k_dense_replace
    }

    /// Heads of the full-attention layers.
    pub fn attn_heads(&self) -> (n: usize)
        ensures
            n == match self.num_attention_heads {
                Some(h) => h,
                None => self.num_heads,
            },
    {
        match self.num_attention_heads {
            Some(h) => h,
            None => self.num_heads,
        }
    }

    /// Routed experts per token under an override: a lower one is taken, but never
    /// nothing, and never more than the model was made for.
    pub fn effective_top_k(config: usize, asked: Option<u32>) -> (k: usize)
        ensures
            k == width_under(config, asked),
            k <= config || config == 0,
            config > 0 ==> k > 0,
    {
        match asked {
            None => config,
            Some(k) => {
                if k as u64 >= config as u64 {
                    config
                } else if k == 0 {
                    1
                } else {
                    k as usize
                }
            },
        }
    }

    /// The shape of the layer loop.
    pub fn dims(&self) -> (d: K3Dims)
        ensures
            d == (K3Dims {
                hidden: self.hidden_size,
                num_layers: self.num_hidden_layers,
                block_size: self.attn_res_block_size,
                eps: self.rms_norm_eps,
                situ_beta: self.situ_beta,
                situ_linear_beta: self.situ_linear_beta,
            }),
    {
        K3Dims {
            hidden: self.hidden_size,
            num_layers: self.num_hidden_layers,
            block_size: self.attn_res_block_size,
            eps: self.rms_norm_eps,
            situ_beta: self.situ_beta,
            situ_linear_beta: self.situ_linear_beta,
        }
    }

    /// The shape of the linear-attention layers.
    pub open spec fn kda_shape(&self) -> KdaDims {
        KdaDims {
            hidden: self.hidden_size,
            heads: self.num_heads,
            head_dim: self.head_dim,
            conv_size: self.conv_size,
            gate_lower_bound: self.gate_lower_bound,
            eps: self.rms_norm_eps,
        }
    }

    /// The shape of the linear-attention layers.
    pub fn kda_dims(&self) -> (d: KdaDims)
        ensures
            d == self.kda_shape(),
    {
        KdaDims {
            hidden: self.hidden_size,
            heads: self.num_heads,
            head_dim: self.head_dim,
            conv_size: self.conv_size,
            gate_lower_bound: self.gate_lower_bound,
            eps: self.rms_norm_eps,
        }
    }

    /// The shape of the full-attention layers.
    pub fn mla_dims(&self) -> (d: MlaDims)
        ensures
            d == (MlaDims {
                hidden: self.hidden_size,
                heads: match self.num_attention_heads {
                    Some(h) => h,
                    None => self.num_heads,
                },
                q_lora_rank: self.q_lora_rank,
                kv_lora_rank: self.kv_lora_rank,
                qk_nope: self.qk_nope_head_dim,
                qk_rope: self.qk_rope_head_dim,
                v_head: self.v_head_dim,
                eps: self.rms_norm_eps,
            }),
    {
        MlaDims {
            hidden: self.hidden_size,
            heads: self.attn_heads(),
            q_lora_rank: self.q_lora_rank,
            kv_lora_rank: self.kv_lora_rank,
            qk_nope: self.qk_nope_head_dim,
            qk_rope: self.qk_rope_head_dim,
            v_head: self.v_head_dim,
            eps: self.rms_norm_eps,
        }
    }

    /// The shape of a layer with routed experts.
    pub fn moe_dims(&self, layer: u32) -> (d: MoeDims)
        ensures
            d == (MoeDims {
                layer,
                hidden: self.hidden_size,
                latent: self.routed_expert_hidden_size,
                inter: self.moe_intermediate_size,
                n_experts: self.num_experts,
                top_k: self.top_k,
                n_shared: self.num_shared_experts,
                scale: self.routed_scaling_factor,
                renormalize: self.moe_renormalize,
                situ_beta: self.situ_beta,
                situ_linear_beta: self.situ_linear_beta,
                eps: self.rms_norm_eps,
                use_norm: self.latent_moe_use_norm,
            }),
    {
        MoeDims {
            layer,
            hidden: self.hidden_size,
            latent: self.routed_expert_hidden_size,
            inter: self.moe_intermediate_size,
            n_experts: self.num_experts,
            top_k: self.top_k,
            n_shared: self.num_shared_experts,
            scale: self.routed_scaling_factor,
            renormalize: self.moe_renormalize,
            situ_beta: self.situ_beta,
            situ_linear_beta: self.situ_linear_beta,
            eps: self.rms_norm_eps,
            use_norm: self.latent_moe_use_norm,
        }
    }

    /// The stop tokens, token zero where the manifest names none.
    pub fn stop_tokens(&self) -> (r: Vec<u32>)
        ensures
            r@ == if self.eos_token_ids@.len() == 0 {
                seq![0u32]
            } else {
                self.eos_token_ids@
            },
    {
        if self.eos_token_ids.len() == 0 {
            let mut r: Vec<u32> = Vec::new();
            r.push(0);
            assert(r@ =~= seq![0u32]);
            r
        } else {
            self.eos_token_ids.clone()
        }
    }

    /// The state of a layer before the first token.
    pub fn fresh_state(&self, layer: usize) -> (s: LayerState)
        requires
            self.conv_size > 0,
            self.num_heads * self.head_dim <= usize::MAX,
            model::window_len(self.kda_shape()) <= usize::MAX,
            model::recurrent_len(self.kda_shape()) <= usize::MAX,
        ensures
            model::state_view(s) == fresh_view(*self, layer),
    {
        if self.is_kda(layer) {
            LayerState::Kda(KdaState::new(self.kda_dims()))
        } else {
            LayerState::Mla(MlaKv::new())
        }
    }

    /// Checks the size of a layer's expert file.
    pub fn expert_file(&self, len: usize) -> (r: Result<MmapExperts, SizeMismatch>)
        requires
            self.routed_expert_hidden_size * self.moe_intermediate_size <= usize::MAX,
            expert_fp4::expert_size(
                self.routed_expert_hidden_size as int,
                self.moe_intermediate_size as int,
            ) <= usize::MAX,
            self.num_experts * expert_fp4::expert_size(
                self.routed_expert_hidden_size as int,
                self.moe_intermediate_size as int,
            ) <= usize::MAX,
        ensures
            ({
                let stride = expert_fp4::expert_size(
                    self.routed_expert_hidden_size as int,
                    self.moe_intermediate_size as int,
                );
                &&& r is Ok <==> len == self.num_experts * stride
                &&& r is Ok ==> r->Ok_0.stride == stride && r->Ok_0.n == self.num_experts
                    && r->Ok_0.wf()
                &&& r is Err ==> r->Err_0.expected == self.num_experts * stride && r->Err_0.got
                    == len
            }),
    {
        let stride: usize = expert_bytes(
            self.routed_expert_hidden_size,
            self.moe_intermediate_size,
        );
        MmapExperts::open(len, stride, self.num_experts)
    }
}

// ------------------------------------------------------------------------ files

/// The file of a layer's weights, below the export directory.
pub fn shell_path(layer: usize) -> (s: String)
    ensures
        s@ == text::numbered_text("shells/layer_"@, layer as nat, 2, ".safetensors"@),
{
    numbered_name("shells/layer_", layer as u64, 2, ".safetensors")
}

/// The file of a layer's experts, below the export directory.
pub fn experts_path(layer: usize) -> (s: String)
    ensures
        s@ == text::numbered_text("experts/layer_"@, layer as nat, 2, ".bin"@),
{
    numbered_name("experts/layer_", layer as u64, 2, ".bin")
}

/// A tensor of a layer's file.
pub struct Tensor {
    pub name: &'static str,
    /// Kept at half width.
    pub narrow: bool,
}

/// Name and width.
pub open spec fn tensor_of(t: Tensor) -> (Seq<char>, bool) {
    (t.name@, t.narrow)
}

/// The tensors of a linear-attention layer.
pub open spec fn kda_tensors() -> Seq<(Seq<char>, bool)> {
    seq![
        ("attn.q_proj"@, true),
        ("attn.k_proj"@, true),
        ("attn.v_proj"@, true),
        ("attn.q_conv1d"@, false),
        ("attn.k_conv1d"@, false),
        ("attn.v_conv1d"@, false),
        ("attn.f_a_proj"@, true),
        ("attn.f_b_proj"@, true),
        ("attn.A_log"@, false),
        ("attn.dt_bias"@, false),
        ("attn.b_proj"@, true),
        ("attn.g_proj"@, true),
        ("attn.o_norm"@, false),
        ("attn.o_proj"@, true),
    ]
}

/// The tensors of a full-attention layer.
pub open spec fn mla_tensors() -> Seq<(Seq<char>, bool)> {
    seq![
        ("attn.q_a_proj"@, true),
        ("attn.q_a_layernorm"@, false),
        ("attn.q_b_proj"@, true),
        ("attn.kv_a_proj_with_mqa"@, true),
        ("attn.kv_a_layernorm"@, false),
        ("attn.kv_b_proj"@, true),
        ("attn.g_proj"@, true),
        ("attn.o_proj"@, true),
    ]
}

/// The tensors around the routed experts.
pub open spec fn moe_tensors() -> Seq<(Seq<char>, bool)> {
    seq![
        ("moe.gate_weight"@, false),
        ("moe.e_score_correction_bias"@, false),
        ("moe.routed_expert_down_proj"@, true),
        ("moe.routed_expert_up_proj"@, true),
        ("moe.routed_expert_norm"@, false),
        ("moe.shared_w1"@, true),
        ("moe.shared_w3"@, true),
        ("moe.shared_w2"@, true),
    ]
}

/// The tensors of a dense feed-forward layer.
pub open spec fn dense_tensors() -> Seq<(Seq<char>, bool)> {
    seq![("w1"@, true), ("w3"@, true), ("w2"@, true)]
}

/// The norms and the residual mixtures of every layer.
pub open spec fn frame_tensors() -> Seq<(Seq<char>, bool)> {
    seq![
        ("input_layernorm"@, false),
        ("post_attention_layernorm"@, false),
        ("attn_res_proj"@, false),
        ("attn_res_norm"@, false),
        ("mlp_res_proj"@, false),
        ("mlp_res_norm"@, false),
    ]
}

/// All tensors of a layer's file, in the order in which they are read.
pub open spec fn tensors_of(kda: bool, moe: bool) -> Seq<(Seq<char>, bool)> {
    (if kda {
        kda_tensors()
    } else {
        mla_tensors()
    }) + (if moe {
        moe_tensors()
    } else {
        dense_tensors()
    }) + frame_tensors()
}

/// Adds a tensor to a list.
fn list(v: &mut Vec<Tensor>, name: &'static str, narrow: bool)
    ensures
        names_of(final(v)@) == names_of(old(v)@).push((name@, narrow)),
{
    let t: Tensor = Tensor { name, narrow };
    v.push(t);
    proof {
        assert(names_of(v@) =~= names_of(old(v)@).push((name@, narrow)));
    }
}

/// Names and widths.
pub open spec fn names_of(s: Seq<Tensor>) -> Seq<(Seq<char>, bool)> {
    s.map_values(|t: Tensor| tensor_of(t))
}

fn list_attention(v: &mut Vec<Tensor>, kda: bool)
    requires
        old(v)@.len() == 0,
    ensures
        names_of(final(v)@) == if kda {
            kda_tensors()
        } else {
            mla_tensors()
        },
{
    proof {
        assert(names_of(v@) =~= Seq::<(Seq<char>, bool)>::empty());
    }
    if kda {
        list(v, "attn.q_proj", true);
        list(v, "attn.k_proj", true);
        list(v, "attn.v_proj", true);
        list(v, "attn.q_conv1d", false);
        list(v, "attn.k_conv1d", false);
        list(v, "attn.v_conv1d", false);
        list(v, "attn.f_a_proj", true);
        list(v, "attn.f_b_proj", true);
        list(v, "attn.A_log", false);
        list(v, "attn.dt_bias", false);
        list(v, "attn.b_proj", true);
        list(v, "attn.g_proj", true);
        list(v, "attn.o_norm", false);
        list(v, "attn.o_proj", true);
        proof {
            assert(names_of(v@) =~= kda_tensors());
        }
    } else {
        list(v, "attn.q_a_proj", true);
        list(v, "attn.q_a_layernorm", false);
        list(v, "attn.q_b_proj", true);
        list(v, "attn.kv_a_proj_with_mqa", true);
        list(v, "attn.kv_a_layernorm", false);
        list(v, "attn.kv_b_proj", true);
        list(v, "attn.g_proj", true);
        list(v, "attn.o_proj", true);
        proof {
            assert(names_of(v@) =~= mla_tensors());
        }
    }
}

fn list_ffn(v: &mut Vec<Tensor>, moe: bool)
    ensures
        names_of(final(v)@) == names_of(old(v)@) + if moe {
            moe_tensors()
        } else {
            dense_tensors()
        },
{
    let ghost before = names_of(v@);
    if moe {
        list(v, "moe.gate_weight", false);
        list(v, "moe.e_score_correction_bias", false);
        list(v, "moe.routed_expert_down_proj", true);
        list(v, "moe.routed_expert_up_proj", true);
        list(v, "moe.routed_expert_norm", false);
        list(v, "moe.shared_w1", true);
        list(v, "moe.shared_w3", true);
        list(v, "moe.shared_w2", true);
        proof {
            assert(names_of(v@) =~= before + moe_tensors());
        }
    } else {
        list(v, "w1", true);
        list(v, "w3", true);
        list(v, "w2", true);
        proof {
            assert(names_of(v@) =~= before + dense_tensors());
        }
    }
}

/// The tensors to read from a layer's file, in order.
pub fn layer_tensors(m: &K3Manifest, layer: usize) -> (r: Vec<Tensor>)
    ensures
        names_of(r@) == tensors_of(
            m.kda_layers@.contains(layer),
            layer >= m.first_k_dense_replace,
        ),
{
    let kda: bool = m.is_kda(layer);
    let moe: bool = m.is_moe(layer);
    let mut v: Vec<Tensor> = Vec::new();
    list_attention(&mut v, kda);
    list_ffn(&mut v, moe);
    let ghost before = names_of(v@);
    list(&mut v, "input_layernorm", false);
    list(&mut v, "post_attention_layernorm", false);
    list(&mut v, "attn_res_proj", false);
    list(&mut v, "attn_res_norm", false);
    list(&mut v, "mlp_res_proj", false);
    list(&mut v, "mlp_res_norm", false);
    proof {
        assert(names_of(v@) =~= before + frame_tensors());
    }
    v
}

/// A layer's tensors are read in turn; the first that is missing ends the load and is
/// named, whatever follows it.
pub fn first_missing(r: &Vec<Tensor>, found: &[bool], reason: String) -> (e: Result<(), K3LoadError>)
    requires
        found.len() == r.len(),
    ensures
        e is Ok <==> forall|i: int| 0 <= i < found.len() ==> found[i],
        e is Err ==> {
            &&& e->Err_0 is Tensor
            &&& e->Err_0->Tensor_1 == reason
            &&& exists|i: int|
                #![trigger found[i]]
                0 <= i < found.len() && !found[i] && e->Err_0->Tensor_0@ == r[i].name@ && (forall|
                    j: int,
                |
                    0 <= j < i ==> found[j])
        },
{
    let mut i: usize = 0;
    while i < r.len()
        invariant
            i <= r.len(),
            found.len() == r.len(),
            forall|j: int| 0 <= j < i ==> found[j],
        decreases r.len() - i,
    {
        if !found[i] {
            let name: Vec<char> = text::chars_of(r[i].name);
            assert(!found[i as int]);
            return Err(K3LoadError::Tensor(text::text_of(name.as_slice()), reason));
        }
        i += 1;
    }
    Ok(())
}

/// Routing gets no wider than the model's own width and no narrower than one expert;
/// within these bounds it is as wide as asked for.
pub proof fn law_asked_width_is_bounded(config: usize, asked: Option<u32>)
    requires
        config > 0,
    ensures
        1 <= width_under(config, asked) <= config,
        asked is None ==> width_under(config, asked) == config,
        asked matches Some(k) && 1 <= k <= config ==> width_under(config, asked) == asked->0,
        asked matches Some(k) && k > config ==> width_under(config, asked) == config,
        asked == Some(0u32) ==> width_under(config, asked) == 1,
{
}

/// A recurrent layer starts with zeros, any other without a position.
pub proof fn law_fresh_states(m: K3Manifest, layer: usize, i: int)
    requires
        0 <= i,
    ensures
        ({
            let (kda, len, recurrent, q, k, v) = fresh_view(m, layer);
            &&& kda <==> m.kda_layers@.contains(layer)
            &&& len == 0
            &&& i < recurrent.len() ==> recurrent[i] == 0
            &&& i < q.len() ==> q[i] == 0
            &&& k == q && v == q
            &&& !kda ==> recurrent.len() == 0 && q.len() == 0
        }),
{
}

/// Every layer has one list of attention tensors, one of its feed-forward part and the
/// six that frame them: 14 of a recurrent or 8 of a full attention, and 8 that route or 3
/// of a dense part.
pub proof fn law_tensors_of_a_layer(kda: bool, moe: bool)
    ensures
        tensors_of(kda, moe).len() == (if kda {
            14int
        } else {
            8int
        }) + (if moe {
            8int
        } else {
            3int
        }) + 6,
        frame_tensors().is_suffix_of(tensors_of(kda, moe)),
        kda ==> kda_tensors().is_prefix_of(tensors_of(kda, moe)),
        !kda ==> mla_tensors().is_prefix_of(tensors_of(kda, moe)),
        // Projections of an attention are stored narrow, its norms, kernels and biases wide.
        kda_tensors().map_values(|t: (Seq<char>, bool)| t.1) =~= seq![
            true, true, true, false, false, false, true, true, false, false, true, true, false, true,
        ],
        mla_tensors().map_values(|t: (Seq<char>, bool)| t.1) =~= seq![
            true, false, true, true, false, true, true, true,
        ],
        moe_tensors().map_values(|t: (Seq<char>, bool)| t.1) =~= seq![
            false, false, true, true, false, true, true, true,
        ],
        dense_tensors().map_values(|t: (Seq<char>, bool)| t.1) =~= seq![true, true, true],
        frame_tensors().map_values(|t: (Seq<char>, bool)| t.1) =~= seq![
            false, false, false, false, false, false,
        ],
{
    let all = tensors_of(kda, moe);
    let n = all.len() as int;
    assert(all.subrange(n - 6, n) =~= frame_tensors());
    if kda {
        assert(all.subrange(0, 14) =~= kda_tensors());
    } else {
        assert(all.subrange(0, 8) =~= mla_tensors());
    }
}

/// The shape of a recurrent layer is read off the manifest.
pub proof fn law_shape_of_a_recurrent_layer(m: K3Manifest)
    ensures
        m.kda_shape().hidden == m.hidden_size && m.kda_shape().heads == m.num_heads
            && m.kda_shape().head_dim == m.head_dim && m.kda_shape().conv_size == m.conv_size,
        m.kda_shape().gate_lower_bound == m.gate_lower_bound && m.kda_shape().eps == m.rms_norm_eps,
{
}

} // verus!
