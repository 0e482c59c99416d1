//! What a model export must look like: the manifest, the shapes of a layer's
//! tensors, and which expert files a load opens.
use vstd::prelude::*;

use crate::inkling::attn::AttnDims;
use crate::inkling::ep::expert_home;
use crate::text::{self, numbered_name, same_text};

verus! {

/// Which of a layer's experts a load opens. Ids run over the routed experts and
/// then the shared ones.
#[derive(Debug, Clone, Copy, PartialEq, Eq, Structural)]
pub enum ExpertSet {
    /// Every routed and shared expert.
    All,
    /// No expert: the layer holds its router only.
    Empty,
    /// The ids homed on worker `index` of `count`.
    Shard { index: u32, count: u32 },
}

impl ExpertSet {
    /// Whether expert `id` is in the set.
    pub open spec fn contains(self, id: int) -> bool {
        match self {
            ExpertSet::All => true,
            ExpertSet::Empty => false,
            ExpertSet::Shard { index, count } => id % (count as int) == index,
        }
    }

    pub fn owns(&self, id: usize) -> (b: bool)
        requires
            self matches ExpertSet::Shard { index, count } ==> count > 0,
        ensures
            b == self.contains(id as int),
    {
        match *self {
            ExpertSet::All => true,
            ExpertSet::Empty => false,
            ExpertSet::Shard { index, count } => expert_home(id, count as usize) == index as usize,
        }
    }
}

/// The shards of `count` workers partition the ids: every id is in exactly one.
pub proof fn law_shards_partition_the_ids(id: int, count: u32)
    requires
        0 <= id,
        count > 0,
    ensures
        exists|index: u32|
            index < count && #[trigger] (ExpertSet::Shard { index, count }).contains(id),
        forall|i: u32, j: u32|
            (#[trigger] (ExpertSet::Shard { index: i, count }).contains(id)) && (
            #[trigger] (ExpertSet::Shard { index: j, count }).contains(id)) ==> i == j,
{
    let index = (id % (count as int)) as u32;
    assert((ExpertSet::Shard { index, count }).contains(id));
}

/// The manifest of an export. Floating point entries are the bits of their
/// numbers.
pub struct InklingManifest {
    pub arch: String,
    pub num_layers: usize,
    pub hidden_size: usize,
    pub vocab_size: usize,
    /// Logits are cut to this many entries; the whole vocabulary where absent.
    pub unpadded_vocab_size: Option<usize>,
    pub num_attention_heads: usize,
    pub num_kv_heads: usize,
    pub head_dim: usize,
    pub swa_num_attention_heads: Option<usize>,
    pub swa_num_kv_heads: Option<usize>,
    pub swa_head_dim: Option<usize>,
    pub d_rel: usize,
    pub rel_extent: usize,
    pub sliding_window: usize,
    pub layer_types: Vec<String>,
    pub dense_layers: Vec<usize>,
    pub dense_intermediate: usize,
    pub moe_intermediate: usize,
    pub num_experts: usize,
    pub top_k: usize,
    pub n_shared_experts: usize,
    pub route_scale: u32,
    pub rms_norm_eps: u32,
    pub log_scaling_n_floor: Option<u32>,
    pub log_scaling_alpha: u32,
    pub logits_mup_width_multiplier: u32,
    pub conv_kernel_size: usize,
    pub eos_token_ids: Vec<u32>,
    pub has_mtp: bool,
}

/// The shared experts of a manifest that does not count them.
pub fn two() -> (n: usize)
    ensures
        n == 2,
{
    2
}

/// The convolution width of a manifest that does not give it.
pub fn four() -> (n: usize)
    ensures
        n == 4,
{
    4
}

/// Bits of a number greater than zero, infinity included, NaN excluded.
pub open spec fn positive_bits(bits: u32) -> bool {
    0 < bits <= 0x7f80_0000
}

pub open spec fn or_default(v: Option<usize>, d: usize) -> usize {
    match v {
        Some(n) => n,
        None => d,
    }
}

/// Whether `v` is one of the entries.
pub open spec fn listed(list: Seq<usize>, v: usize) -> bool {
    exists|i: int| 0 <= i < list.len() && list[i] == v
}

/// Whether `v` is one of the entries.
pub fn is_listed(list: &Vec<usize>, v: usize) -> (b: bool)
    ensures
        b == listed(list@, v),
{
    let mut i: usize = 0;
    while i < list.len()
        invariant
            i <= list.len(),
            forall|j: int| 0 <= j < i ==> list[j] != v,
        decreases list.len() - i,
    {
        if list[i] == v {
            return true;
        }
        i += 1;
    }
    false
}

impl InklingManifest {
    /// Layer `li` is a sliding layer.
    pub open spec fn sliding(self, li: int) -> bool {
        0 <= li < self.layer_types.len() && self.layer_types[li]@ == "sliding"@
    }

    pub open spec fn dense(self, li: usize) -> bool {
        listed(self.dense_layers@, li)
    }

    /// Query heads, key-value heads and head size of layer `li`.
    pub open spec fn shape_of(self, li: int) -> (usize, usize, usize) {
        if self.sliding(li) {
            (
                or_default(self.swa_num_attention_heads, self.num_attention_heads),
                or_default(self.swa_num_kv_heads, self.num_kv_heads),
                or_default(self.swa_head_dim, self.head_dim),
            )
        } else {
            (self.num_attention_heads, self.num_kv_heads, self.head_dim)
        }
    }

    /// Entries that the logits are cut to.
    pub fn unpadded_vocab(&self) -> (n: usize)
        ensures
            n == or_default(self.unpadded_vocab_size, self.vocab_size),
    {
        match self.unpadded_vocab_size {
            Some(n) => n,
            None => self.vocab_size,
        }
    }

    pub fn is_sliding(&self, li: usize) -> (b: bool)
        ensures
            b == self.sliding(li as int),
    {
        li < self.layer_types.len() && same_text(self.layer_types[li].as_str(), "sliding")
    }

    pub fn is_dense(&self, li: usize) -> (b: bool)
        ensures
            b == self.dense(li),
    {
        is_listed(&self.dense_layers, li)
    }

    pub fn attn_shape(&self, li: usize) -> (s: (usize, usize, usize))
        ensures
            s == self.shape_of(li as int),
    {
        if self.is_sliding(li) {
            (
                self.swa_num_attention_heads.unwrap_or(self.num_attention_heads),
                self.swa_num_kv_heads.unwrap_or(self.num_kv_heads),
                self.swa_head_dim.unwrap_or(self.head_dim),
            )
        } else {
            (self.num_attention_heads, self.num_kv_heads, self.head_dim)
        }
    }

    /// The attention dimensions of layer `li` for a context of `max_seq`.
    pub open spec fn dims_of(self, li: int, max_seq: usize) -> AttnDims {
        let s = self.shape_of(li);
        let plain = AttnDims {
            hidden: self.hidden_size,
            n_heads: s.0,
            n_kv_heads: s.1,
            head_dim: s.2,
            d_rel: self.d_rel,
            window: if self.sliding(li) {
                Some(self.sliding_window)
            } else {
                None
            },
            max_seq: if self.sliding(li) {
                0
            } else {
                max_seq
            },
            eps: self.rms_norm_eps,
            n_floor: None,
            alpha: 0,
            rewind: crate::inkling::ring::DEFAULT_REWIND,
        };
        match self.log_scaling_n_floor {
            Some(n_floor) => AttnDims {
                n_floor: Some(n_floor),
                alpha: self.log_scaling_alpha,
                ..plain
            },
            None => plain,
        }
    }

    pub fn attn_dims(&self, li: usize, max_seq: usize) -> (d: AttnDims)
        ensures
            d == self.dims_of(li as int, max_seq),
    {
        let (hq, hkv, d): (usize, usize, usize) = self.attn_shape(li);
        let dims: AttnDims = if self.is_sliding(li) {
            AttnDims::sliding(
                self.hidden_size,
                hq,
                hkv,
                d,
                self.d_rel,
                self.sliding_window,
                self.rms_norm_eps,
            )
        } else {
            AttnDims::global(self.hidden_size, hq, hkv, d, self.d_rel, max_seq, self.rms_norm_eps)
        };
        match self.log_scaling_n_floor {
            Some(n_floor) => dims.with_log_scaling(n_floor, self.log_scaling_alpha),
            None => dims,
        }
    }
}

// -------------------------------------------------------------------- manifest

/// Why a manifest is rejected.
#[derive(Clone, Copy, PartialEq, Eq, Structural, Debug)]
pub enum ManifestError {
    Arch,
    LayerTypesLength { entries: usize, layers: usize },
    UnknownLayerType { layer: usize },
    MoeIntermediateZero,
    DenseIntermediateZero,
    MupMultiplier { bits: u32 },
    GroupSize,
    DenseGroupSize,
    TopK { top_k: usize, num_experts: usize },
}

pub open spec fn known_layer_type(t: Seq<char>) -> bool {
    t == "sliding"@ || t == "global"@
}

/// The first layer whose type is neither sliding nor global, or the length.
pub open spec fn first_unknown_type(types: Seq<String>) -> int
    decreases types.len(),
{
    if types.len() == 0 {
        0
    } else {
        let before = first_unknown_type(types.drop_last());
        if before < types.len() - 1 || !known_layer_type(types.last()@) {
            before
        } else {
            types.len() as int
        }
    }
}

/// The first fault of a manifest.
pub open spec fn manifest_fault(m: InklingManifest) -> Option<ManifestError> {
    if m.arch@ != "inkling"@ {
        Some(ManifestError::Arch)
    } else if m.layer_types.len() != m.num_layers {
        Some(
            ManifestError::LayerTypesLength {
                entries: m.layer_types.len(),
                layers: m.num_layers,
            },
        )
    } else if first_unknown_type(m.layer_types@) < m.layer_types.len() {
        Some(
            ManifestError::UnknownLayerType {
                layer: first_unknown_type(m.layer_types@) as usize,
            },
        )
    } else if m.moe_intermediate == 0 {
        Some(ManifestError::MoeIntermediateZero)
    } else if m.dense_layers.len() > 0 && m.dense_intermediate == 0 {
        Some(ManifestError::DenseIntermediateZero)
    } else if !positive_bits(m.logits_mup_width_multiplier) {
        Some(ManifestError::MupMultiplier { bits: m.logits_mup_width_multiplier })
    } else if m.hidden_size % 32 != 0 || m.moe_intermediate % 32 != 0 {
        Some(ManifestError::GroupSize)
    } else if m.dense_layers.len() > 0 && m.dense_intermediate % 32 != 0 {
        Some(ManifestError::DenseGroupSize)
    } else if m.top_k == 0 || m.top_k > m.num_experts {
        Some(ManifestError::TopK { top_k: m.top_k, num_experts: m.num_experts })
    } else {
        None
    }
}

fn find_unknown_type(types: &Vec<String>) -> (at: usize)
    ensures
        at == first_unknown_type(types@),
        at <= types.len(),
{
    let mut i: usize = 0;
    while i < types.len()
        invariant
            i <= types.len(),
            first_unknown_type(types@.take(i as int)) == i,
        decreases types.len() - i,
    {
        proof {
            assert(types@.take(i + 1).drop_last() =~= types@.take(i as int));
            assert(types@.take(i + 1).last() == types[i as int]);
        }
        let t: &str = types[i].as_str();
        if !same_text(t, "sliding") && !same_text(t, "global") {
            proof {
                lemma_first_unknown_stays(types@, i + 1);
            }
            return i;
        }
        i += 1;
    }
    proof {
        assert(types@.take(types.len() as int) =~= types@);
    }
    i
}

proof fn lemma_first_unknown_stays(types: Seq<String>, n: int)
    requires
        0 <= n <= types.len(),
        first_unknown_type(types.take(n)) < n,
    ensures
        first_unknown_type(types) == first_unknown_type(types.take(n)),
    decreases types.len() - n,
{
    if n == types.len() {
        assert(types.take(n) =~= types);
    } else {
        assert(types.take(n + 1).drop_last() =~= types.take(n));
        lemma_first_unknown_stays(types, n + 1);
    }
}

/// Checks a manifest as it was read.
pub fn check_manifest(m: &InklingManifest) -> (r: Result<(), ManifestError>)
    ensures
        r == match manifest_fault(*m) {
            Some(e) => Err::<(), ManifestError>(e),
            None => Ok(()),
        },
{
    if !same_text(m.arch.as_str(), "inkling") {
        return Err(ManifestError::Arch);
    }
    if m.layer_types.len() != m.num_layers {
        return Err(
            ManifestError::LayerTypesLength {
                entries: m.layer_types.len(),
                layers: m.num_layers,
            },
        );
    }
    let unknown: usize = find_unknown_type(&m.layer_types);
    if unknown < m.layer_types.len() {
        return Err(ManifestError::UnknownLayerType { layer: unknown });
    }
    if m.moe_intermediate == 0 {
        return Err(ManifestError::MoeIntermediateZero);
    }
    if m.dense_layers.len() > 0 && m.dense_intermediate == 0 {
        return Err(ManifestError::DenseIntermediateZero);
    }
    let mup: u32 = m.logits_mup_width_multiplier;
    if mup == 0 || mup > 0x7f80_0000 {
        return Err(ManifestError::MupMultiplier { bits: mup });
    }
    if m.hidden_size % 32 != 0 || m.moe_intermediate % 32 != 0 {
        return Err(ManifestError::GroupSize);
    }
    if m.dense_layers.len() > 0 && m.dense_intermediate % 32 != 0 {
        return Err(ManifestError::DenseGroupSize);
    }
    if m.top_k == 0 || m.top_k > m.num_experts {
        return Err(ManifestError::TopK { top_k: m.top_k, num_experts: m.num_experts });
    }
    Ok(())
}

// ---------------------------------------------------------------- expert files

/// Why a layer's experts cannot be opened.
#[derive(Clone, Copy, PartialEq, Eq, Structural, Debug)]
pub enum ExpertsError {
    DenseLayer { layer: usize },
    ShardOutOfRange { index: u32, count: u32 },
}

/// The file of expert `id` in a model of `n_routed` routed experts.
pub open spec fn expert_file(id: nat, n_routed: nat) -> Seq<char> {
    if id < n_routed {
        text::numbered_text("expert_"@, id, 3, ".bin"@)
    } else {
        text::numbered_text("expert_shared"@, (id - n_routed) as nat, 1, ".bin"@)
    }
}

/// The ids below `n` that a set contains, ascending.
pub open spec fn owned_below(set: ExpertSet, n: int) -> Seq<int>
    decreases n,
{
    if n <= 0 {
        Seq::empty()
    } else if set.contains(n - 1) {
        owned_below(set, n - 1).push(n - 1)
    } else {
        owned_below(set, n - 1)
    }
}

pub proof fn lemma_owned_below(set: ExpertSet, n: int)
    ensures
        forall|id: int|
            #[trigger] owned_below(set, n).contains(id) <==> 0 <= id < n && set.contains(id),
        forall|i: int, j: int|
            0 <= i < j < owned_below(set, n).len() ==> owned_below(set, n)[i] < owned_below(
                set,
                n,
            )[j],
    decreases n,
{
    if n > 0 {
        lemma_owned_below(set, n - 1);
        let before = owned_below(set, n - 1);
        let ids = owned_below(set, n);
        assert forall|i: int| 0 <= i < before.len() implies #[trigger] before[i] < n - 1 by {
            assert(before.contains(before[i]));
        }
        assert forall|id: int|
            #[trigger] ids.contains(id) <==> 0 <= id < n && set.contains(id) by {
            if before.contains(id) {
                let i = choose|i: int| 0 <= i < before.len() && before[i] == id;
                assert(ids[i] == id);
            }
            if ids.contains(id) {
                let i = choose|i: int| 0 <= i < ids.len() && ids[i] == id;
                if i < before.len() {
                    assert(before[i] == id);
                    assert(before.contains(id));
                }
            }
            if id == n - 1 && set.contains(id) {
                assert(ids[before.len() as int] == id);
            }
        }
    }
}

pub open spec fn experts_fault(m: InklingManifest, li: usize, set: ExpertSet) -> Option<
    ExpertsError,
> {
    if m.dense(li) {
        Some(ExpertsError::DenseLayer { layer: li })
    } else {
        match set {
            ExpertSet::Shard { index, count } if count == 0 || index >= count => Some(
                ExpertsError::ShardOutOfRange { index, count },
            ),
            _ => None,
        }
    }
}

/// The expert ids of layer `li` that a load opens, ascending, each with the name
/// of its file.
pub fn moe_expert_files(m: &InklingManifest, li: usize, set: ExpertSet) -> (r: Result<
    Vec<(usize, String)>,
    ExpertsError,
>)
    requires
        m.num_experts + m.n_shared_experts <= usize::MAX,
    ensures
        match r {
            Err(e) => experts_fault(*m, li, set) == Some(e),
            Ok(files) => {
                let ids = owned_below(set, m.num_experts + m.n_shared_experts);
                &&& experts_fault(*m, li, set) is None
                &&& files.len() == ids.len()
                &&& forall|i: int| #![trigger files[i]]
                    0 <= i < files.len() ==> files[i].0 == ids[i] && files[i].1@ == expert_file(
                        ids[i] as nat,
                        m.num_experts as nat,
                    )
            },
        },
{
    if m.is_dense(li) {
        return Err(ExpertsError::DenseLayer { layer: li });
    }
    if let ExpertSet::Shard { index, count } = set {
        if count == 0 || index >= count {
            return Err(ExpertsError::ShardOutOfRange { index, count });
        }
    }
    let n_ids: usize = m.num_experts + m.n_shared_experts;
    let mut files: Vec<(usize, String)> = Vec::new();
    let mut id: usize = 0;
    while id < n_ids
        invariant
            id <= n_ids,
            n_ids == m.num_experts + m.n_shared_experts,
            set matches ExpertSet::Shard { index, count } ==> count > 0,
            files.len() == owned_below(set, id as int).len(),
            forall|i: int| #![trigger files[i]]
                0 <= i < files.len() ==> files[i].0 == owned_below(set, id as int)[i]
                    && files[i].1@ == expert_file(
                    owned_below(set, id as int)[i] as nat,
                    m.num_experts as nat,
                ),
        decreases n_ids - id,
    {
        if set.owns(id) {
            let name: String = expert_file_name(id, m.num_experts);
            files.push((id, name));
        }
        id += 1;
    }
    Ok(files)
}

/// The file of expert `id`.
pub fn expert_file_name(id: usize, n_routed: usize) -> (s: String)
    ensures
        s@ == expert_file(id as nat, n_routed as nat),
{
    if id < n_routed {
        numbered_name("expert_", id as u64, 3, ".bin")
    } else {
        numbered_name("expert_shared", (id - n_routed) as u64, 1, ".bin")
    }
}

/// The directory of layer `li`'s experts.
pub fn layer_dir_name(li: usize) -> (s: String)
    ensures
        s@ == text::numbered_text("layer_"@, li as nat, 2, ""@),
{
    numbered_name("layer_", li as u64, 2, "")
}

/// The shell file of layer `li`.
pub fn shell_file_name(li: usize) -> (s: String)
    ensures
        s@ == text::numbered_text("shells/layer_"@, li as nat, 2, ".safetensors"@),
{
    numbered_name("shells/layer_", li as u64, 2, ".safetensors")
}

// -------------------------------------------------------------- pinned experts

/// Whether opened experts are still being locked into memory. The first refusal
/// ends it.
pub struct PinState {
    pub enabled: bool,
    pub failed: bool,
}

impl PinState {
    /// Whether to lock an expert that was just opened.
    pub fn pin_experts(&self, mapped: bool) -> (b: bool)
        ensures
            b == (self.enabled && !self.failed && mapped),
    {
        self.enabled && !self.failed && mapped
    }

    /// Takes the outcome of locking `len` bytes: the bytes now locked, and
    /// whether this is the refusal to report.
    pub fn maybe_pin(&mut self, locked: bool, len: usize) -> (r: (usize, bool))
        ensures
            final(self).enabled == old(self).enabled,
            final(self).failed == (old(self).failed || !locked),
            r.0 == if locked {
                len
            } else {
                0
            },
            r.1 == (!locked && !old(self).failed),
    {
        if locked {
            (len, false)
        } else {
            let first: bool = !self.failed;
            self.failed = true;
            (0, first)
        }
    }
}

// ---------------------------------------------------------------- layer shells

/// A tensor's shape and the number of its values.
pub struct TensorShape {
    pub dims: Vec<usize>,
    pub values: usize,
}

/// Why a layer's tensors do not fit the manifest.
#[derive(Clone, Copy, PartialEq, Eq, Structural, Debug)]
pub enum LayerError {
    RelProjShape,
    RelExtent { extent: usize, want: usize },
    KeyConv,
    ValueConv,
    Shard { index: u32, count: u32 },
    Router { bias: usize, weight: usize },
    AttnConv,
    MlpConv,
}

/// The channels of a convolution kernel of width `k`, or nothing where the
/// tensor is not one.
pub open spec fn conv_channels(t: TensorShape, k: usize) -> Option<usize> {
    if t.dims.len() == 0 || t.dims[0] == 0 || t.values != t.dims[0] * k {
        None
    } else {
        Some(t.dims[0])
    }
}

/// Reads a convolution kernel's channels off its shape.
pub fn conv_from(t: &TensorShape, k: usize) -> (c: Option<usize>)
    ensures
        c == conv_channels(*t, k),
{
    if t.dims.len() == 0 {
        return None;
    }
    let c: usize = t.dims[0];
    proof {
        assert(0 <= c * k <= u64::MAX * u64::MAX) by (nonlinear_arith)
            requires
                0 <= c <= u64::MAX,
                0 <= k <= u64::MAX,
        ;
    }
    if c == 0 || t.values as u128 != c as u128 * k as u128 {
        return None;
    }
    Some(c)
}

/// What a layer's feed-forward part is made of.
#[derive(Clone, Copy, PartialEq, Eq, Structural, Debug)]
pub enum MlpPlan {
    /// One dense block.
    Dense,
    /// Every expert of the layer.
    Experts,
    /// The router alone; the experts are elsewhere.
    RouterOnly,
}

/// The tensors of one layer as they were read. Router lengths are ignored on a
/// dense layer.
pub struct LayerTensors {
    pub rel_proj: TensorShape,
    pub k_sconv: TensorShape,
    pub v_sconv: TensorShape,
    pub router_bias: usize,
    pub router_weight: usize,
    pub attn_sconv: TensorShape,
    pub mlp_sconv: TensorShape,
}

/// A layer that was found sound.
#[derive(Clone, Copy)]
pub struct LayerShape {
    pub dims: AttnDims,
    pub extent: usize,
    pub mlp: MlpPlan,
    pub k_channels: usize,
    pub v_channels: usize,
    pub attn_channels: usize,
    pub mlp_channels: usize,
}

/// The range of positions that layer `li`'s bias covers.
pub open spec fn extent_of(m: InklingManifest, li: int) -> usize {
    if m.sliding(li) {
        m.sliding_window
    } else {
        m.rel_extent
    }
}

pub open spec fn mlp_plan(m: InklingManifest, li: usize, set: ExpertSet) -> MlpPlan {
    if m.dense(li) {
        MlpPlan::Dense
    } else if set is All {
        MlpPlan::Experts
    } else {
        MlpPlan::RouterOnly
    }
}

/// The first fault of a layer's tensors, in the order in which they are used.
pub open spec fn layer_fault(
    m: InklingManifest,
    li: usize,
    set: ExpertSet,
    t: LayerTensors,
) -> Option<LayerError> {
    let k = m.conv_kernel_size;
    if t.rel_proj.dims.len() != 2 || t.rel_proj.dims[0] != m.d_rel {
        Some(LayerError::RelProjShape)
    } else if t.rel_proj.dims[1] != extent_of(m, li as int) {
        Some(
            LayerError::RelExtent { extent: t.rel_proj.dims[1], want: extent_of(m, li as int) },
        )
    } else if conv_channels(t.k_sconv, k) is None {
        Some(LayerError::KeyConv)
    } else if conv_channels(t.v_sconv, k) is None {
        Some(LayerError::ValueConv)
    } else if set is Shard {
        Some(LayerError::Shard { index: set->index, count: set->count })
    } else if !m.dense(li) && (t.router_bias != m.num_experts || t.router_weight != (m.num_experts
        + m.n_shared_experts) * m.hidden_size) {
        Some(LayerError::Router { bias: t.router_bias, weight: t.router_weight })
    } else if conv_channels(t.attn_sconv, k) is None {
        Some(LayerError::AttnConv)
    } else if conv_channels(t.mlp_sconv, k) is None {
        Some(LayerError::MlpConv)
    } else {
        None
    }
}

/// Checks the tensors of layer `li` and plans its parts. A shell never holds a
/// shard of the experts, whether or not the layer routes.
pub fn load_layer(
    m: &InklingManifest,
    li: usize,
    max_seq: usize,
    set: ExpertSet,
    t: &LayerTensors,
) -> (r: Result<LayerShape, LayerError>)
    requires
        m.num_experts + m.n_shared_experts <= usize::MAX,
    ensures
        set is Shard ==> r is Err,
        match r {
            Err(e) => layer_fault(*m, li, set, *t) == Some(e),
            Ok(s) => {
                &&& layer_fault(*m, li, set, *t) is None
                &&& s.dims == m.dims_of(li as int, max_seq)
                &&& s.extent == extent_of(*m, li as int)
                &&& s.mlp == mlp_plan(*m, li, set)
                &&& Some(s.k_channels) == conv_channels(t.k_sconv, m.conv_kernel_size)
                &&& Some(s.v_channels) == conv_channels(t.v_sconv, m.conv_kernel_size)
                &&& Some(s.attn_channels) == conv_channels(t.attn_sconv, m.conv_kernel_size)
                &&& Some(s.mlp_channels) == conv_channels(t.mlp_sconv, m.conv_kernel_size)
            },
        },
{
    let k: usize = m.conv_kernel_size;
    let dims: AttnDims = m.attn_dims(li, max_seq);
    if t.rel_proj.dims.len() != 2 || t.rel_proj.dims[0] != m.d_rel {
        return Err(LayerError::RelProjShape);
    }
    let extent: usize = t.rel_proj.dims[1];
    let want: usize = if m.is_sliding(li) {
        m.sliding_window
    } else {
        m.rel_extent
    };
    if extent != want {
        return Err(LayerError::RelExtent { extent, want });
    }
    let k_channels: usize = match conv_from(&t.k_sconv, k) {
        Some(c) => c,
        None => return Err(LayerError::KeyConv),
    };
    let v_channels: usize = match conv_from(&t.v_sconv, k) {
        Some(c) => c,
        None => return Err(LayerError::ValueConv),
    };
    let plan: MlpPlan = match set {
        ExpertSet::All => MlpPlan::Experts,
        ExpertSet::Empty => MlpPlan::RouterOnly,
        ExpertSet::Shard { index, count } => return Err(LayerError::Shard { index, count }),
    };
    let mlp: MlpPlan = if m.is_dense(li) {
        MlpPlan::Dense
    } else {
        let n_ids: usize = m.num_experts + m.n_shared_experts;
        proof {
            assert(0 <= n_ids * m.hidden_size <= u64::MAX * u64::MAX) by (nonlinear_arith)
                requires
                    0 <= n_ids <= u64::MAX,
                    0 <= m.hidden_size <= u64::MAX,
            ;
        }
        if t.router_bias != m.num_experts || t.router_weight as u128 != n_ids as u128
            * m.hidden_size as u128 {
            return Err(LayerError::Router { bias: t.router_bias, weight: t.router_weight });
        }
        plan
    };
    let attn_channels: usize = match conv_from(&t.attn_sconv, k) {
        Some(c) => c,
        None => return Err(LayerError::AttnConv),
    };
    let mlp_channels: usize = match conv_from(&t.mlp_sconv, k) {
        Some(c) => c,
        None => return Err(LayerError::MlpConv),
    };
    Ok(
        LayerShape {
            dims,
            extent,
            mlp,
            k_channels,
            v_channels,
            attn_channels,
            mlp_channels,
        },
    )
}

// ---------------------------------------------------------------------- stages

/// Why the edge tables of a stage do not fit the manifest.
#[derive(Clone, Copy, PartialEq, Eq, Structural, Debug)]
pub enum StageError {
    Embed,
    Norm { entries: usize },
    Unembed,
}

/// Edge tables of a stage: present on the first and on the last rank.
#[derive(Clone, Copy)]
pub struct EdgeTables {
    pub embed: Option<usize>,
    pub norm_and_unembed: Option<(usize, usize)>,
}

fn is_table(values: usize, vocab: usize, hidden: usize) -> (b: bool)
    ensures
        b == (values == vocab * hidden),
{
    proof {
        assert(0 <= vocab * hidden <= u64::MAX * u64::MAX) by (nonlinear_arith)
            requires
                0 <= vocab <= u64::MAX,
                0 <= hidden <= u64::MAX,
        ;
    }
    values as u128 == vocab as u128 * hidden as u128
}

/// Checks the sizes of a stage's edge tables.
pub fn check_stage(m: &InklingManifest, edges: EdgeTables) -> (r: Result<(), StageError>)
    ensures
        r == (match edges.embed {
            Some(n) if n != m.vocab_size * m.hidden_size => Err::<(), StageError>(
                StageError::Embed,
            ),
            _ => match edges.norm_and_unembed {
                Some((norm, _)) if norm != m.hidden_size => Err(
                    StageError::Norm { entries: norm },
                ),
                Some((_, n)) if n != m.vocab_size * m.hidden_size => Err(StageError::Unembed),
                _ => Ok(()),
            },
        }),
{
    if let Some(n) = edges.embed {
        if !is_table(n, m.vocab_size, m.hidden_size) {
            return Err(StageError::Embed);
        }
    }
    if let Some((norm, n)) = edges.norm_and_unembed {
        if norm != m.hidden_size {
            return Err(StageError::Norm { entries: norm });
        }
        if !is_table(n, m.vocab_size, m.hidden_size) {
            return Err(StageError::Unembed);
        }
    }
    Ok(())
}

/// A shard takes every `count`-th id, from its index on.
pub proof fn law_shard_takes_every_nth_id(index: u32, count: u32, q: int, r: int)
    requires
        index < count,
        0 <= q,
        0 <= r < count,
    ensures
        (ExpertSet::Shard { index, count }).contains(q * count + r) <==> r == index,
        ExpertSet::All.contains(q),
        !ExpertSet::Empty.contains(q),
{
    vstd::arithmetic::div_mod::lemma_fundamental_div_mod_converse(
        q * count + r,
        count as int,
        q,
        r,
    );
}

/// The ids of a set below `n`: all of them, once each, ascending.
pub proof fn law_owned_ids_ascend(set: ExpertSet, n: int)
    ensures
        forall|id: int|
            #[trigger] owned_below(set, n).contains(id) <==> 0 <= id < n && set.contains(id),
        forall|i: int, j: int|
            0 <= i < j < owned_below(set, n).len() ==> (#[trigger] owned_below(set, n)[i]) < (
            #[trigger] owned_below(set, n)[j]),
        forall|i: int|
            0 <= i < owned_below(set, n).len() ==> 0 <= (#[trigger] owned_below(set, n)[i]) < n,
    decreases n,
{
    if n > 0 {
        let rest = owned_below(set, n - 1);
        let all = owned_below(set, n);
        law_owned_ids_ascend(set, n - 1);
        assert forall|id: int| #[trigger] all.contains(id) <==> 0 <= id < n && set.contains(id) by {
            if all.contains(id) {
                let i = choose|i: int| 0 <= i < all.len() && all[i] == id;
                if i < rest.len() {
                    assert(rest[i] == id);
                    assert(rest.contains(id));
                }
            }
            if 0 <= id < n - 1 && set.contains(id) {
                assert(rest.contains(id));
                let i = choose|i: int| 0 <= i < rest.len() && rest[i] == id;
                assert(all[i] == id);
            }
            if id == n - 1 && set.contains(id) {
                assert(all[rest.len() as int] == id);
            }
        }
    }
}

/// A manifest is taken exactly where it describes this architecture, names a known type
/// for every layer, gives every width that is used in whole groups of 32, a positive
/// multiplier of the logits, and selects at least one expert of those there are.
pub proof fn law_sound_manifests(m: InklingManifest)
    ensures
        manifest_fault(m) is None <==> {
            &&& m.arch@ == "inkling"@
            &&& m.layer_types.len() == m.num_layers
            &&& forall|i: int|
                0 <= i < m.layer_types.len() ==> (#[trigger] m.layer_types[i])@ == "sliding"@
                    || m.layer_types[i]@ == "global"@
            &&& m.moe_intermediate > 0
            &&& m.dense_layers.len() > 0 ==> m.dense_intermediate > 0 && m.dense_intermediate % 32
                == 0
            &&& 0 < m.logits_mup_width_multiplier <= 0x7f80_0000
            &&& m.hidden_size % 32 == 0
            &&& m.moe_intermediate % 32 == 0
            &&& 1 <= m.top_k <= m.num_experts
        },
{
    lemma_first_unknown(m.layer_types@);
    let at = first_unknown_type(m.layer_types@);
    if at < m.layer_types.len() {
        assert(m.layer_types[at]@ != "sliding"@ && m.layer_types[at]@ != "global"@);
    }
}

proof fn lemma_first_unknown(types: Seq<String>)
    ensures
        0 <= first_unknown_type(types) <= types.len(),
        first_unknown_type(types) < types.len() ==> !known_layer_type(
            types[first_unknown_type(types)]@,
        ),
        forall|i: int|
            0 <= i < first_unknown_type(types) ==> known_layer_type((#[trigger] types[i])@),
    decreases types.len(),
{
    if types.len() > 0 {
        let d = types.drop_last();
        lemma_first_unknown(d);
        assert forall|i: int| 0 <= i < first_unknown_type(types) implies known_layer_type(
            (#[trigger] types[i])@,
        ) by {
            if i < d.len() {
                assert(d[i] == types[i]);
            }
        }
        if first_unknown_type(types) < d.len() {
            assert(d[first_unknown_type(types)] == types[first_unknown_type(types)]);
        }
    }
}

/// A sliding layer attends within the window, with its own head counts where they are
/// given; any other layer attends to the whole context with the common ones. Both can
/// be rolled back by 32 positions.
pub proof fn law_dimensions_of_a_layer(m: InklingManifest, li: int, max_seq: usize)
    ensures
        ({
            let d = m.dims_of(li, max_seq);
            &&& m.sliding(li) ==> d.window == Some(m.sliding_window) && d.max_seq == 0
            &&& !m.sliding(li) ==> d.window is None && d.max_seq == max_seq && d.n_heads
                == m.num_attention_heads && d.n_kv_heads == m.num_kv_heads && d.head_dim
                == m.head_dim
            &&& m.sliding(li) && m.swa_num_attention_heads is None ==> d.n_heads
                == m.num_attention_heads
            &&& m.sliding(li) && m.swa_num_kv_heads is None ==> d.n_kv_heads == m.num_kv_heads
            &&& m.sliding(li) && m.swa_head_dim is None ==> d.head_dim == m.head_dim
            &&& m.sliding(li) ==> (m.swa_num_attention_heads matches Some(n) ==> d.n_heads == n) && (
            m.swa_num_kv_heads matches Some(n) ==> d.n_kv_heads == n) && (
            m.swa_head_dim matches Some(n) ==> d.head_dim == n)
            &&& d.hidden == m.hidden_size && d.d_rel == m.d_rel && d.eps == m.rms_norm_eps
            &&& d.n_floor == m.log_scaling_n_floor
            &&& m.log_scaling_n_floor is Some ==> d.alpha == m.log_scaling_alpha
            &&& m.log_scaling_n_floor is None ==> d.alpha == 0
            &&& d.rewind == 32
        }),
        m.sliding(li) <==> 0 <= li < m.layer_types.len() && m.layer_types[li]@ == "sliding"@,
        extent_of(m, li) == if m.sliding(li) {
            m.sliding_window
        } else {
            m.rel_extent
        },
{
}

/// Files are named by the number of their expert: routed ones with three digits at
/// least, shared ones counted from zero.
pub proof fn law_expert_files(id: nat, n_routed: nat)
    ensures
        id < n_routed ==> expert_file(id, n_routed) =~= "expert_"@ + text::padded_text(id, 3)
            + ".bin"@,
        id >= n_routed ==> expert_file(id, n_routed) =~= "expert_shared"@ + text::decimal_text(
            (id - n_routed) as nat,
        ) + ".bin"@,
{
    if id >= n_routed {
        text::lemma_decimal_text((id - n_routed) as nat);
    }
}

/// A convolution kernel has one row for each channel and `k` taps in each.
pub proof fn law_channels_of_a_kernel(t: TensorShape, k: usize, c: usize)
    ensures
        conv_channels(t, k) == Some(c) <==> t.dims.len() > 0 && t.dims[0] == c && c > 0 && t.values
            == c * k,
{
}

/// A layer's tensors are taken only where their shapes are those of the manifest.
pub proof fn law_sound_layer_tensors(
    m: InklingManifest,
    li: usize,
    set: ExpertSet,
    t: LayerTensors,
)
    ensures
        layer_fault(m, li, set, t) is None ==> {
            &&& t.rel_proj.dims.len() == 2
            &&& t.rel_proj.dims[0] == m.d_rel
            &&& t.rel_proj.dims[1] == if m.sliding(li as int) {
                m.sliding_window
            } else {
                m.rel_extent
            }
            &&& t.k_sconv.values == t.k_sconv.dims[0] * m.conv_kernel_size
            &&& t.v_sconv.values == t.v_sconv.dims[0] * m.conv_kernel_size
            &&& t.attn_sconv.values == t.attn_sconv.dims[0] * m.conv_kernel_size
            &&& t.mlp_sconv.values == t.mlp_sconv.dims[0] * m.conv_kernel_size
            &&& set !is Shard
            &&& !m.dense(li) ==> t.router_bias == m.num_experts && t.router_weight == (
            m.num_experts + m.n_shared_experts) * m.hidden_size
        },
{
}

/// Experts are listed only for a layer that routes, and for a shard only one that there
/// is.
pub proof fn law_experts_of_a_routed_layer(m: InklingManifest, li: usize, set: ExpertSet)
    ensures
        experts_fault(m, li, set) is None <==> !m.dense_layers@.contains(li) && (
        set matches ExpertSet::Shard { index, count } ==> index < count),
        m.dense_layers@.contains(li) ==> mlp_plan(m, li, set) is Dense,
        !m.dense_layers@.contains(li) && set is All ==> mlp_plan(m, li, set) is Experts,
        !m.dense_layers@.contains(li) && set !is All ==> mlp_plan(m, li, set) is RouterOnly,
{
    assert(m.dense(li) <==> m.dense_layers@.contains(li));
}

} // verus!
