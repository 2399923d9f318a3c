//! The weights of the inference swarm.

use safetensors::SafeTensors;
use vstd::prelude::*;
use vstd::string::*;
use crate::archive::{
    all_loaded, contents, first_failure, in_bounds, lemma_first_failure_in_two, load_all, loaded,
    parse_archive, tensors_of, Failure, LoadError, RawTensor, TensorSpec,
};
use crate::bytes::words_of;
use crate::config::{D_MODEL, FFN_DIM, INPUT_DIM, NUM_BRAINS, NUM_CLASSES, NUM_LAYERS};
use crate::text::{decimal, decimal_text};

verus! {

/// Width of the joint projection to queries, keys and values.
pub const QKV_DIM: usize = 768;

/// The name of a layer's tensor: what it is, a dot, the layer's number.
pub open spec fn layer_key(kind: Seq<char>, layer: nat) -> Seq<char> {
    kind + "."@ + decimal(layer)
}

/// The tensors of a layer, in the order in which they are loaded.
pub open spec fn layer_specs(layer: nat) -> Seq<(Seq<char>, Seq<usize>)> {
    seq![
        (layer_key("attn_in_proj_w"@, layer), seq![NUM_BRAINS, QKV_DIM, D_MODEL]),
        (layer_key("attn_in_proj_b"@, layer), seq![NUM_BRAINS, QKV_DIM]),
        (layer_key("attn_out_proj_w"@, layer), seq![NUM_BRAINS, D_MODEL, D_MODEL]),
        (layer_key("attn_out_proj_b"@, layer), seq![NUM_BRAINS, D_MODEL]),
        (layer_key("ln1_w"@, layer), seq![NUM_BRAINS, D_MODEL]),
        (layer_key("ln1_b"@, layer), seq![NUM_BRAINS, D_MODEL]),
        (layer_key("ffn_w1"@, layer), seq![NUM_BRAINS, FFN_DIM, D_MODEL]),
        (layer_key("ffn_b1"@, layer), seq![NUM_BRAINS, FFN_DIM]),
        (layer_key("ffn_w2"@, layer), seq![NUM_BRAINS, D_MODEL, FFN_DIM]),
        (layer_key("ffn_b2"@, layer), seq![NUM_BRAINS, D_MODEL]),
        (layer_key("ln2_w"@, layer), seq![NUM_BRAINS, D_MODEL]),
        (layer_key("ln2_b"@, layer), seq![NUM_BRAINS, D_MODEL]),
    ]
}

/// The tensors of the layers below a number, in the order in which they are
/// loaded.
pub open spec fn layers_specs(count: nat) -> Seq<(Seq<char>, Seq<usize>)>
    decreases count,
{
    if count == 0 {
        seq![]
    } else {
        layers_specs((count - 1) as nat) + layer_specs((count - 1) as nat)
    }
}

/// The tensors outside the layers, in the order in which they are loaded.
pub open spec fn head_specs() -> Seq<(Seq<char>, Seq<usize>)> {
    seq![
        ("input_proj_w"@, seq![NUM_BRAINS, D_MODEL, INPUT_DIM]),
        ("input_proj_b"@, seq![NUM_BRAINS, D_MODEL]),
        ("final_ln_w"@, seq![NUM_BRAINS, D_MODEL]),
        ("final_ln_b"@, seq![NUM_BRAINS, D_MODEL]),
        ("gate.0.weight"@, seq![D_MODEL, INPUT_DIM]),
        ("gate.0.bias"@, seq![D_MODEL]),
        ("gate.2.weight"@, seq![NUM_BRAINS, D_MODEL]),
        ("gate.2.bias"@, seq![NUM_BRAINS]),
        ("action_head.weight"@, seq![NUM_CLASSES, D_MODEL]),
        ("action_head.bias"@, seq![NUM_CLASSES]),
        ("confidence_head.weight"@, seq![1usize, D_MODEL]),
        ("confidence_head.bias"@, seq![1usize]),
    ]
}

/// All tensors of the swarm, in the order in which they are loaded.
pub open spec fn swarm_specs() -> Seq<(Seq<char>, Seq<usize>)> {
    layers_specs(NUM_LAYERS as nat) + head_specs()
}

/// The weights of one transformer layer of every brain.
#[derive(Debug)]
pub struct BatchedLayer {
    pub attn_in_w: RawTensor,
    pub attn_in_b: RawTensor,
    pub attn_out_w: RawTensor,
    pub attn_out_b: RawTensor,
    pub norm1_w: RawTensor,
    pub norm1_b: RawTensor,
    pub ffn_w1: RawTensor,
    pub ffn_b1: RawTensor,
    pub ffn_w2: RawTensor,
    pub ffn_b2: RawTensor,
    pub norm2_w: RawTensor,
    pub norm2_b: RawTensor,
}

impl BatchedLayer {
    /// The tensors of the layer, in the order in which they are loaded.
    pub open spec fn tensors(&self) -> Seq<RawTensor> {
        seq![
            self.attn_in_w,
            self.attn_in_b,
            self.attn_out_w,
            self.attn_out_b,
            self.norm1_w,
            self.norm1_b,
            self.ffn_w1,
            self.ffn_b1,
            self.ffn_w2,
            self.ffn_b2,
            self.norm2_w,
            self.norm2_b,
        ]
    }

    /// Whether the layer is what an archive holds for it.
    pub open spec fn is_loaded(&self, tensors: Map<Seq<char>, Seq<u8>>, layer: nat) -> bool {
        all_loaded(tensors, layer_specs(layer), self.tensors())
    }

    /// Takes the layer apart into its tensors, in the order in which they are
    /// loaded, behind others.
    fn append_to(self, all: &mut Vec<RawTensor>)
        ensures
            final(all)@ == old(all)@ + self.tensors(),
    {
        let ghost before = all@;
        all.push(self.attn_in_w);
        all.push(self.attn_in_b);
        all.push(self.attn_out_w);
        all.push(self.attn_out_b);
        all.push(self.norm1_w);
        all.push(self.norm1_b);
        all.push(self.ffn_w1);
        all.push(self.ffn_b1);
        all.push(self.ffn_w2);
        all.push(self.ffn_b2);
        all.push(self.norm2_w);
        all.push(self.norm2_b);
        assert(all@ =~= before + self.tensors());
    }

    /// Loads the weights of a layer.
    pub fn load(archive: &SafeTensors<'_>, layer: usize) -> (result: Result<Self, LoadError>)
        requires
            in_bounds(*archive),
        ensures
            ({
                let failure = first_failure(tensors_of(*archive), layer_specs(layer as nat));
                match result {
                    Ok(loaded) => failure is None && loaded.is_loaded(
                        tensors_of(*archive),
                        layer as nat,
                    ),
                    Err(error) => failure == Some(error@),
                }
            }),
    {
        let wanted: Vec<TensorSpec> = wanted_of_layer(layer);
        let mut got: Vec<RawTensor> = match load_all(archive, &wanted) {
            Ok(got) => got,
            Err(error) => {
                return Err(error);
            },
        };
        let ghost all = got@;
        assert(all.len() == 12);
        let norm2_b: RawTensor = got.pop().unwrap();
        let norm2_w: RawTensor = got.pop().unwrap();
        let ffn_b2: RawTensor = got.pop().unwrap();
        let ffn_w2: RawTensor = got.pop().unwrap();
        let ffn_b1: RawTensor = got.pop().unwrap();
        let ffn_w1: RawTensor = got.pop().unwrap();
        let norm1_b: RawTensor = got.pop().unwrap();
        let norm1_w: RawTensor = got.pop().unwrap();
        let attn_out_b: RawTensor = got.pop().unwrap();
        let attn_out_w: RawTensor = got.pop().unwrap();
        let attn_in_b: RawTensor = got.pop().unwrap();
        let attn_in_w: RawTensor = got.pop().unwrap();
        let loaded: BatchedLayer = BatchedLayer {
            attn_in_w,
            attn_in_b,
            attn_out_w,
            attn_out_b,
            norm1_w,
            norm1_b,
            ffn_w1,
            ffn_b1,
            ffn_w2,
            ffn_b2,
            norm2_w,
            norm2_b,
        };
        assert(loaded.tensors() =~= all);
        Ok(loaded)
    }
}

/// The weights of the swarm.
#[derive(Debug)]
pub struct BatchedSwarm {
    pub layers: Vec<BatchedLayer>,
    pub input_proj_w: RawTensor,
    pub input_proj_b: RawTensor,
    pub final_ln_w: RawTensor,
    pub final_ln_b: RawTensor,
    pub gate_w1: RawTensor,
    pub gate_b1: RawTensor,
    pub gate_w2: RawTensor,
    pub gate_b2: RawTensor,
    pub action_w: RawTensor,
    pub action_b: RawTensor,
    pub conf_w: RawTensor,
    pub conf_b: RawTensor,
}

impl BatchedSwarm {
    /// The tensors outside the layers, in the order in which they are loaded.
    pub open spec fn head(&self) -> Seq<RawTensor> {
        seq![
            self.input_proj_w,
            self.input_proj_b,
            self.final_ln_w,
            self.final_ln_b,
            self.gate_w1,
            self.gate_b1,
            self.gate_w2,
            self.gate_b2,
            self.action_w,
            self.action_b,
            self.conf_w,
            self.conf_b,
        ]
    }

    /// Whether the swarm is what an archive holds.
    pub open spec fn is_loaded(&self, tensors: Map<Seq<char>, Seq<u8>>) -> bool {
        &&& self.layers@.len() == NUM_LAYERS
        &&& forall|l: int|
            0 <= l < NUM_LAYERS ==> (#[trigger] self.layers@[l]).is_loaded(tensors, l as nat)
        &&& all_loaded(tensors, head_specs(), self.head())
    }

    /// All tensors of the swarm, in the order in which they are loaded.
    pub open spec fn tensors(&self) -> Seq<RawTensor> {
        tensors_of_layers(self.layers@) + self.head()
    }

    /// Takes the swarm apart into its tensors, in the order in which they are
    /// loaded.
    pub fn into_tensors(self) -> (all: Vec<RawTensor>)
        ensures
            all@ == self.tensors(),
    {
        let ghost layers = self.layers@;
        let mut all: Vec<RawTensor> = Vec::new();
        let mut rest: Vec<BatchedLayer> = self.layers;
        assert(layers.take(0) =~= seq![]);
        assert(layers.skip(0) =~= layers);
        while rest.len() > 0
            invariant
                rest@.len() <= layers.len(),
                rest@ == layers.skip(layers.len() - rest@.len()),
                all@ == tensors_of_layers(layers.take(layers.len() - rest@.len())),
            decreases rest@.len(),
        {
            let ghost done = layers.len() - rest@.len();
            let layer: BatchedLayer = rest.remove(0);
            layer.append_to(&mut all);
            proof {
                assert(layers.take(done + 1).drop_last() =~= layers.take(done));
                assert(layers.take(done + 1).last() == layer);
                assert(rest@ =~= layers.skip(done + 1));
            }
        }
        assert(layers.take(layers.len() as int) =~= layers);
        let ghost before = all@;
        all.push(self.input_proj_w);
        all.push(self.input_proj_b);
        all.push(self.final_ln_w);
        all.push(self.final_ln_b);
        all.push(self.gate_w1);
        all.push(self.gate_b1);
        all.push(self.gate_w2);
        all.push(self.gate_b2);
        all.push(self.action_w);
        all.push(self.action_b);
        all.push(self.conf_w);
        all.push(self.conf_b);
        assert(all@ =~= before + self.head());
        all
    }

    /// Loads the weights of the swarm, up to the first tensor that fails.
    pub fn load(archive: &SafeTensors<'_>) -> (result: Result<Self, LoadError>)
        requires
            in_bounds(*archive),
        ensures
            ({
                let failure = first_failure(tensors_of(*archive), swarm_specs());
                match result {
                    Ok(loaded) => failure is None && loaded.is_loaded(tensors_of(*archive)),
                    Err(error) => failure == Some(error@),
                }
            }),
    {
        let ghost tensors = tensors_of(*archive);
        let mut layers: Vec<BatchedLayer> = Vec::new();
        let mut l: usize = 0;
        while l < NUM_LAYERS
            invariant
                l <= NUM_LAYERS,
                in_bounds(*archive),
                tensors == tensors_of(*archive),
                layers@.len() == l,
                first_failure(tensors, layers_specs(l as nat)) is None,
                forall|j: int|
                    0 <= j < l ==> (#[trigger] layers@[j]).is_loaded(tensors, j as nat),
            decreases NUM_LAYERS - l,
        {
            proof {
                lemma_first_failure_in_two(
                    tensors,
                    layers_specs(l as nat),
                    layer_specs(l as nat),
                );
            }
            match BatchedLayer::load(archive, l) {
                Ok(layer) => {
                    layers.push(layer);
                },
                Err(error) => {
                    proof {
                        lemma_later_layers_keep_failure(tensors, (l + 1) as nat, NUM_LAYERS as nat);
                        lemma_first_failure_in_two(
                            tensors,
                            layers_specs(NUM_LAYERS as nat),
                            head_specs(),
                        );
                    }
                    return Err(error);
                },
            }
            l = l + 1;
        }
        proof {
            lemma_first_failure_in_two(tensors, layers_specs(NUM_LAYERS as nat), head_specs());
        }
        let wanted: Vec<TensorSpec> = wanted_outside_layers();
        let mut got: Vec<RawTensor> = match load_all(archive, &wanted) {
            Ok(got) => got,
            Err(error) => {
                return Err(error);
            },
        };
        let ghost all = got@;
        assert(all.len() == 12);
        let conf_b: RawTensor = got.pop().unwrap();
        let conf_w: RawTensor = got.pop().unwrap();
        let action_b: RawTensor = got.pop().unwrap();
        let action_w: RawTensor = got.pop().unwrap();
        let gate_b2: RawTensor = got.pop().unwrap();
        let gate_w2: RawTensor = got.pop().unwrap();
        let gate_b1: RawTensor = got.pop().unwrap();
        let gate_w1: RawTensor = got.pop().unwrap();
        let final_ln_b: RawTensor = got.pop().unwrap();
        let final_ln_w: RawTensor = got.pop().unwrap();
        let input_proj_b: RawTensor = got.pop().unwrap();
        let input_proj_w: RawTensor = got.pop().unwrap();
        let swarm: BatchedSwarm = BatchedSwarm {
            layers,
            input_proj_w,
            input_proj_b,
            final_ln_w,
            final_ln_b,
            gate_w1,
            gate_b1,
            gate_w2,
            gate_b2,
            action_w,
            action_b,
            conf_w,
            conf_b,
        };
        assert(swarm.head() =~= all);
        Ok(swarm)
    }
}

/// The tensors of layers, one layer after the other.
pub open spec fn tensors_of_layers(layers: Seq<BatchedLayer>) -> Seq<RawTensor>
    decreases layers.len(),
{
    if layers.len() == 0 {
        seq![]
    } else {
        tensors_of_layers(layers.drop_last()) + layers.last().tensors()
    }
}

proof fn lemma_two_lists_loaded(
    archive: Map<Seq<char>, Seq<u8>>,
    first: Seq<(Seq<char>, Seq<usize>)>,
    second: Seq<(Seq<char>, Seq<usize>)>,
    got_first: Seq<RawTensor>,
    got_second: Seq<RawTensor>,
)
    requires
        all_loaded(archive, first, got_first),
        all_loaded(archive, second, got_second),
    ensures
        all_loaded(archive, first + second, got_first + got_second),
{
    let specs = first + second;
    let got = got_first + got_second;
    assert forall|i: int| 0 <= i < got.len() implies (#[trigger] got[i]).dims@ == specs[i].1
        && loaded(archive, specs[i]) == Ok::<Seq<u32>, Failure>(got[i].data@) by {
        if i < first.len() {
            assert(got[i] == got_first[i]);
        } else {
            assert(got[i] == got_second[i - first.len()]);
        }
    }
}

proof fn lemma_layers_loaded(
    archive: Map<Seq<char>, Seq<u8>>,
    layers: Seq<BatchedLayer>,
)
    requires
        forall|l: int|
            0 <= l < layers.len() ==> (#[trigger] layers[l]).is_loaded(archive, l as nat),
    ensures
        all_loaded(archive, layers_specs(layers.len()), tensors_of_layers(layers)),
    decreases layers.len(),
{
    if layers.len() > 0 {
        let fewer = layers.drop_last();
        assert forall|l: int| 0 <= l < fewer.len() implies (#[trigger] fewer[l]).is_loaded(
            archive,
            l as nat,
        ) by {
            assert(fewer[l] == layers[l]);
        }
        lemma_layers_loaded(archive, fewer);
        assert(layers[layers.len() - 1].is_loaded(archive, (layers.len() - 1) as nat));
        lemma_two_lists_loaded(
            archive,
            layers_specs(fewer.len()),
            layer_specs(fewer.len()),
            tensors_of_layers(fewer),
            layers.last().tensors(),
        );
    }
}

/// A loaded swarm, taken apart, has each tensor at the place of its name: the
/// tensor that an operation asks for by number is the one that was loaded under
/// that number's name, in that number's shape.
pub proof fn law_tensors_keep_their_places(
    swarm: BatchedSwarm,
    archive: Map<Seq<char>, Seq<u8>>,
)
    requires
        swarm.is_loaded(archive),
    ensures
        all_loaded(archive, swarm_specs(), swarm.tensors()),
{
    lemma_layers_loaded(archive, swarm.layers@);
    lemma_two_lists_loaded(
        archive,
        layers_specs(NUM_LAYERS as nat),
        head_specs(),
        tensors_of_layers(swarm.layers@),
        swarm.head(),
    );
}

fn key_of_layer(kind: &str, layer: usize) -> (key: String)
    ensures
        key@ == layer_key(kind@, layer as nat),
{
    let number: String = decimal_text(layer);
    let mut key: String = kind.to_owned();
    key.append(".");
    key.append(number.as_str());
    key
}

fn wanted_of_layer(layer: usize) -> (wanted: Vec<TensorSpec>)
    ensures
        wanted@.map_values(|w: TensorSpec| w@) == layer_specs(layer as nat),
{
    let mut wanted: Vec<TensorSpec> = Vec::new();
    wanted.push(TensorSpec { key: key_of_layer("attn_in_proj_w", layer), dims: vec![NUM_BRAINS, QKV_DIM, D_MODEL] });
    wanted.push(TensorSpec { key: key_of_layer("attn_in_proj_b", layer), dims: vec![NUM_BRAINS, QKV_DIM] });
    wanted.push(TensorSpec { key: key_of_layer("attn_out_proj_w", layer), dims: vec![NUM_BRAINS, D_MODEL, D_MODEL] });
    wanted.push(TensorSpec { key: key_of_layer("attn_out_proj_b", layer), dims: vec![NUM_BRAINS, D_MODEL] });
    wanted.push(TensorSpec { key: key_of_layer("ln1_w", layer), dims: vec![NUM_BRAINS, D_MODEL] });
    wanted.push(TensorSpec { key: key_of_layer("ln1_b", layer), dims: vec![NUM_BRAINS, D_MODEL] });
    wanted.push(TensorSpec { key: key_of_layer("ffn_w1", layer), dims: vec![NUM_BRAINS, FFN_DIM, D_MODEL] });
    wanted.push(TensorSpec { key: key_of_layer("ffn_b1", layer), dims: vec![NUM_BRAINS, FFN_DIM] });
    wanted.push(TensorSpec { key: key_of_layer("ffn_w2", layer), dims: vec![NUM_BRAINS, D_MODEL, FFN_DIM] });
    wanted.push(TensorSpec { key: key_of_layer("ffn_b2", layer), dims: vec![NUM_BRAINS, D_MODEL] });
    wanted.push(TensorSpec { key: key_of_layer("ln2_w", layer), dims: vec![NUM_BRAINS, D_MODEL] });
    wanted.push(TensorSpec { key: key_of_layer("ln2_b", layer), dims: vec![NUM_BRAINS, D_MODEL] });
    assert(wanted@.map_values(|w: TensorSpec| w@) =~~= layer_specs(layer as nat));
    wanted
}

fn wanted_outside_layers() -> (wanted: Vec<TensorSpec>)
    ensures
        wanted@.map_values(|w: TensorSpec| w@) == head_specs(),
{
    let mut wanted: Vec<TensorSpec> = Vec::new();
    wanted.push(TensorSpec { key: "input_proj_w".to_owned(), dims: vec![NUM_BRAINS, D_MODEL, INPUT_DIM] });
    wanted.push(TensorSpec { key: "input_proj_b".to_owned(), dims: vec![NUM_BRAINS, D_MODEL] });
    wanted.push(TensorSpec { key: "final_ln_w".to_owned(), dims: vec![NUM_BRAINS, D_MODEL] });
    wanted.push(TensorSpec { key: "final_ln_b".to_owned(), dims: vec![NUM_BRAINS, D_MODEL] });
    wanted.push(TensorSpec { key: "gate.0.weight".to_owned(), dims: vec![D_MODEL, INPUT_DIM] });
    wanted.push(TensorSpec { key: "gate.0.bias".to_owned(), dims: vec![D_MODEL] });
    wanted.push(TensorSpec { key: "gate.2.weight".to_owned(), dims: vec![NUM_BRAINS, D_MODEL] });
    wanted.push(TensorSpec { key: "gate.2.bias".to_owned(), dims: vec![NUM_BRAINS] });
    wanted.push(TensorSpec { key: "action_head.weight".to_owned(), dims: vec![NUM_CLASSES, D_MODEL] });
    wanted.push(TensorSpec { key: "action_head.bias".to_owned(), dims: vec![NUM_CLASSES] });
    wanted.push(TensorSpec { key: "confidence_head.weight".to_owned(), dims: vec![1, D_MODEL] });
    wanted.push(TensorSpec { key: "confidence_head.bias".to_owned(), dims: vec![1] });
    assert(wanted@.map_values(|w: TensorSpec| w@) =~~= head_specs());
    wanted
}

proof fn lemma_later_layers_keep_failure(
    tensors: Map<Seq<char>, Seq<u8>>,
    fewer: nat,
    more: nat,
)
    requires
        fewer <= more,
        first_failure(tensors, layers_specs(fewer)) is Some,
    ensures
        first_failure(tensors, layers_specs(more)) == first_failure(tensors, layers_specs(fewer)),
    decreases more,
{
    if fewer < more {
        lemma_later_layers_keep_failure(tensors, fewer, (more - 1) as nat);
        lemma_first_failure_in_two(
            tensors,
            layers_specs((more - 1) as nat),
            layer_specs((more - 1) as nat),
        );
    }
}

/// Loads the weights of the swarm from an archive file.
pub fn load_model(file: &[u8]) -> (result: Result<BatchedSwarm, LoadError>)
    ensures
        match contents(file@) {
            None => result matches Err(error) && error@ == Failure::Malformed,
            Some(tensors) => match result {
                Ok(swarm) => first_failure(tensors, swarm_specs()) is None && swarm.is_loaded(
                    tensors,
                ),
                Err(error) => first_failure(tensors, swarm_specs()) == Some(error@),
            },
        },
{
    match parse_archive(file) {
        Ok(archive) => BatchedSwarm::load(&archive),
        Err(error) => Err(error),
    }
}

/// Every field of a loaded layer holds what the archive has under that field's
/// own name and the layer's number, in the field's own shape.
pub proof fn law_layers_are_loaded_by_name(
    weights: BatchedLayer,
    archive: Map<Seq<char>, Seq<u8>>,
    layer: nat,
)
    requires
        weights.is_loaded(archive, layer),
    ensures
        archive.dom().contains("attn_in_proj_w"@ + "."@ + decimal(layer)),
        weights.attn_in_w.data@ == words_of(archive["attn_in_proj_w"@ + "."@ + decimal(layer)]),
        weights.attn_in_w.dims@ == seq![300usize, 768, 256],
        archive.dom().contains("attn_in_proj_b"@ + "."@ + decimal(layer)),
        weights.attn_in_b.data@ == words_of(archive["attn_in_proj_b"@ + "."@ + decimal(layer)]),
        weights.attn_in_b.dims@ == seq![300usize, 768],
        archive.dom().contains("attn_out_proj_w"@ + "."@ + decimal(layer)),
        weights.attn_out_w.data@ == words_of(archive["attn_out_proj_w"@ + "."@ + decimal(layer)]),
        weights.attn_out_w.dims@ == seq![300usize, 256, 256],
        archive.dom().contains("attn_out_proj_b"@ + "."@ + decimal(layer)),
        weights.attn_out_b.data@ == words_of(archive["attn_out_proj_b"@ + "."@ + decimal(layer)]),
        weights.attn_out_b.dims@ == seq![300usize, 256],
        archive.dom().contains("ln1_w"@ + "."@ + decimal(layer)),
        weights.norm1_w.data@ == words_of(archive["ln1_w"@ + "."@ + decimal(layer)]),
        weights.norm1_w.dims@ == seq![300usize, 256],
        archive.dom().contains("ln1_b"@ + "."@ + decimal(layer)),
        weights.norm1_b.data@ == words_of(archive["ln1_b"@ + "."@ + decimal(layer)]),
        weights.norm1_b.dims@ == seq![300usize, 256],
        archive.dom().contains("ffn_w1"@ + "."@ + decimal(layer)),
        weights.ffn_w1.data@ == words_of(archive["ffn_w1"@ + "."@ + decimal(layer)]),
        weights.ffn_w1.dims@ == seq![300usize, 1024, 256],
        archive.dom().contains("ffn_b1"@ + "."@ + decimal(layer)),
        weights.ffn_b1.data@ == words_of(archive["ffn_b1"@ + "."@ + decimal(layer)]),
        weights.ffn_b1.dims@ == seq![300usize, 1024],
        archive.dom().contains("ffn_w2"@ + "."@ + decimal(layer)),
        weights.ffn_w2.data@ == words_of(archive["ffn_w2"@ + "."@ + decimal(layer)]),
        weights.ffn_w2.dims@ == seq![300usize, 256, 1024],
        archive.dom().contains("ffn_b2"@ + "."@ + decimal(layer)),
        weights.ffn_b2.data@ == words_of(archive["ffn_b2"@ + "."@ + decimal(layer)]),
        weights.ffn_b2.dims@ == seq![300usize, 256],
        archive.dom().contains("ln2_w"@ + "."@ + decimal(layer)),
        weights.norm2_w.data@ == words_of(archive["ln2_w"@ + "."@ + decimal(layer)]),
        weights.norm2_w.dims@ == seq![300usize, 256],
        archive.dom().contains("ln2_b"@ + "."@ + decimal(layer)),
        weights.norm2_b.data@ == words_of(archive["ln2_b"@ + "."@ + decimal(layer)]),
        weights.norm2_b.dims@ == seq![300usize, 256],
{
    let specs = layer_specs(layer);
    let got = weights.tensors();
    assert(got[0] == weights.attn_in_w && specs[0].0 == "attn_in_proj_w"@ + "."@ + decimal(layer));
    assert(got[1] == weights.attn_in_b && specs[1].0 == "attn_in_proj_b"@ + "."@ + decimal(layer));
    assert(got[2] == weights.attn_out_w && specs[2].0 == "attn_out_proj_w"@ + "."@ + decimal(layer));
    assert(got[3] == weights.attn_out_b && specs[3].0 == "attn_out_proj_b"@ + "."@ + decimal(layer));
    assert(got[4] == weights.norm1_w && specs[4].0 == "ln1_w"@ + "."@ + decimal(layer));
    assert(got[5] == weights.norm1_b && specs[5].0 == "ln1_b"@ + "."@ + decimal(layer));
    assert(got[6] == weights.ffn_w1 && specs[6].0 == "ffn_w1"@ + "."@ + decimal(layer));
    assert(got[7] == weights.ffn_b1 && specs[7].0 == "ffn_b1"@ + "."@ + decimal(layer));
    assert(got[8] == weights.ffn_w2 && specs[8].0 == "ffn_w2"@ + "."@ + decimal(layer));
    assert(got[9] == weights.ffn_b2 && specs[9].0 == "ffn_b2"@ + "."@ + decimal(layer));
    assert(got[10] == weights.norm2_w && specs[10].0 == "ln2_w"@ + "."@ + decimal(layer));
    assert(got[11] == weights.norm2_b && specs[11].0 == "ln2_b"@ + "."@ + decimal(layer));
    assert(weights.attn_in_w.dims@ =~= seq![300usize, 768, 256]);
    assert(weights.attn_in_b.dims@ =~= seq![300usize, 768]);
    assert(weights.attn_out_w.dims@ =~= seq![300usize, 256, 256]);
    assert(weights.attn_out_b.dims@ =~= seq![300usize, 256]);
    assert(weights.norm1_w.dims@ =~= seq![300usize, 256]);
    assert(weights.norm1_b.dims@ =~= seq![300usize, 256]);
    assert(weights.ffn_w1.dims@ =~= seq![300usize, 1024, 256]);
    assert(weights.ffn_b1.dims@ =~= seq![300usize, 1024]);
    assert(weights.ffn_w2.dims@ =~= seq![300usize, 256, 1024]);
    assert(weights.ffn_b2.dims@ =~= seq![300usize, 256]);
    assert(weights.norm2_w.dims@ =~= seq![300usize, 256]);
    assert(weights.norm2_b.dims@ =~= seq![300usize, 256]);
}

/// Every field of a loaded swarm outside its layers holds what the archive has
/// under that field's own name, in the field's own shape, and its layers are
/// those that the archive has under their numbers.
pub proof fn law_swarms_are_loaded_by_name(swarm: BatchedSwarm, archive: Map<Seq<char>, Seq<u8>>)
    requires
        swarm.is_loaded(archive),
    ensures
        swarm.layers@.len() == 4,
        forall|l: int|
            0 <= l < 4 ==> (#[trigger] swarm.layers@[l]).is_loaded(archive, l as nat),
        archive.dom().contains("input_proj_w"@),
        swarm.input_proj_w.data@ == words_of(archive["input_proj_w"@]),
        swarm.input_proj_w.dims@ == seq![300usize, 256, 54],
        archive.dom().contains("input_proj_b"@),
        swarm.input_proj_b.data@ == words_of(archive["input_proj_b"@]),
        swarm.input_proj_b.dims@ == seq![300usize, 256],
        archive.dom().contains("final_ln_w"@),
        swarm.final_ln_w.data@ == words_of(archive["final_ln_w"@]),
        swarm.final_ln_w.dims@ == seq![300usize, 256],
        archive.dom().contains("final_ln_b"@),
        swarm.final_ln_b.data@ == words_of(archive["final_ln_b"@]),
        swarm.final_ln_b.dims@ == seq![300usize, 256],
        archive.dom().contains("gate.0.weight"@),
        swarm.gate_w1.data@ == words_of(archive["gate.0.weight"@]),
        swarm.gate_w1.dims@ == seq![256usize, 54],
        archive.dom().contains("gate.0.bias"@),
        swarm.gate_b1.data@ == words_of(archive["gate.0.bias"@]),
        swarm.gate_b1.dims@ == seq![256usize],
        archive.dom().contains("gate.2.weight"@),
        swarm.gate_w2.data@ == words_of(archive["gate.2.weight"@]),
        swarm.gate_w2.dims@ == seq![300usize, 256],
        archive.dom().contains("gate.2.bias"@),
        swarm.gate_b2.data@ == words_of(archive["gate.2.bias"@]),
        swarm.gate_b2.dims@ == seq![300usize],
        archive.dom().contains("action_head.weight"@),
        swarm.action_w.data@ == words_of(archive["action_head.weight"@]),
        swarm.action_w.dims@ == seq![4usize, 256],
        archive.dom().contains("action_head.bias"@),
        swarm.action_b.data@ == words_of(archive["action_head.bias"@]),
        swarm.action_b.dims@ == seq![4usize],
        archive.dom().contains("confidence_head.weight"@),
        swarm.conf_w.data@ == words_of(archive["confidence_head.weight"@]),
        swarm.conf_w.dims@ == seq![1usize, 256],
        archive.dom().contains("confidence_head.bias"@),
        swarm.conf_b.data@ == words_of(archive["confidence_head.bias"@]),
        swarm.conf_b.dims@ == seq![1usize],
{
    let specs = head_specs();
    let got = swarm.head();
    assert(got[0] == swarm.input_proj_w && specs[0].0 == "input_proj_w"@);
    assert(got[1] == swarm.input_proj_b && specs[1].0 == "input_proj_b"@);
    assert(got[2] == swarm.final_ln_w && specs[2].0 == "final_ln_w"@);
    assert(got[3] == swarm.final_ln_b && specs[3].0 == "final_ln_b"@);
    assert(got[4] == swarm.gate_w1 && specs[4].0 == "gate.0.weight"@);
    assert(got[5] == swarm.gate_b1 && specs[5].0 == "gate.0.bias"@);
    assert(got[6] == swarm.gate_w2 && specs[6].0 == "gate.2.weight"@);
    assert(got[7] == swarm.gate_b2 && specs[7].0 == "gate.2.bias"@);
    assert(got[8] == swarm.action_w && specs[8].0 == "action_head.weight"@);
    assert(got[9] == swarm.action_b && specs[9].0 == "action_head.bias"@);
    assert(got[10] == swarm.conf_w && specs[10].0 == "confidence_head.weight"@);
    assert(got[11] == swarm.conf_b && specs[11].0 == "confidence_head.bias"@);
    assert(swarm.input_proj_w.dims@ =~= seq![300usize, 256, 54]);
    assert(swarm.input_proj_b.dims@ =~= seq![300usize, 256]);
    assert(swarm.final_ln_w.dims@ =~= seq![300usize, 256]);
    assert(swarm.final_ln_b.dims@ =~= seq![300usize, 256]);
    assert(swarm.gate_w1.dims@ =~= seq![256usize, 54]);
    assert(swarm.gate_b1.dims@ =~= seq![256usize]);
    assert(swarm.gate_w2.dims@ =~= seq![300usize, 256]);
    assert(swarm.gate_b2.dims@ =~= seq![300usize]);
    assert(swarm.action_w.dims@ =~= seq![4usize, 256]);
    assert(swarm.action_b.dims@ =~= seq![4usize]);
    assert(swarm.conf_w.dims@ =~= seq![1usize, 256]);
    assert(swarm.conf_b.dims@ =~= seq![1usize]);
}

/// A swarm that is taken apart has the tensors of a layer in twelve places, layer
/// after layer, and the others in the twelve after them, each in its own place.
pub proof fn law_tensors_stand_by_field(swarm: BatchedSwarm, layer: int)
    requires
        swarm.layers@.len() == 4,
        0 <= layer < 4,
    ensures
        swarm.tensors().len() == 60,
        swarm.tensors()[12 * layer + 0] == swarm.layers@[layer].attn_in_w,
        swarm.tensors()[12 * layer + 1] == swarm.layers@[layer].attn_in_b,
        swarm.tensors()[12 * layer + 2] == swarm.layers@[layer].attn_out_w,
        swarm.tensors()[12 * layer + 3] == swarm.layers@[layer].attn_out_b,
        swarm.tensors()[12 * layer + 4] == swarm.layers@[layer].norm1_w,
        swarm.tensors()[12 * layer + 5] == swarm.layers@[layer].norm1_b,
        swarm.tensors()[12 * layer + 6] == swarm.layers@[layer].ffn_w1,
        swarm.tensors()[12 * layer + 7] == swarm.layers@[layer].ffn_b1,
        swarm.tensors()[12 * layer + 8] == swarm.layers@[layer].ffn_w2,
        swarm.tensors()[12 * layer + 9] == swarm.layers@[layer].ffn_b2,
        swarm.tensors()[12 * layer + 10] == swarm.layers@[layer].norm2_w,
        swarm.tensors()[12 * layer + 11] == swarm.layers@[layer].norm2_b,
        swarm.tensors()[48] == swarm.input_proj_w,
        swarm.tensors()[49] == swarm.input_proj_b,
        swarm.tensors()[50] == swarm.final_ln_w,
        swarm.tensors()[51] == swarm.final_ln_b,
        swarm.tensors()[52] == swarm.gate_w1,
        swarm.tensors()[53] == swarm.gate_b1,
        swarm.tensors()[54] == swarm.gate_w2,
        swarm.tensors()[55] == swarm.gate_b2,
        swarm.tensors()[56] == swarm.action_w,
        swarm.tensors()[57] == swarm.action_b,
        swarm.tensors()[58] == swarm.conf_w,
        swarm.tensors()[59] == swarm.conf_b,
{
    let layers = swarm.layers@;
    lemma_tensors_of_layers(layers, layer);
    let own = layers[layer].tensors();
    let all = tensors_of_layers(layers);
    assert forall|k: int| 0 <= k < 12 implies #[trigger] swarm.tensors()[12 * layer + k]
        == own[k] by {
        assert(all[12 * layer + k] == own[k]);
    }
    assert(swarm.tensors()[12 * layer + 0] == own[0]);
    assert forall|k: int| 0 <= k < 12 implies #[trigger] swarm.tensors()[48 + k]
        == swarm.head()[k] by {}
}

proof fn lemma_tensors_of_layers(layers: Seq<BatchedLayer>, layer: int)
    requires
        0 <= layer < layers.len(),
    ensures
        tensors_of_layers(layers).len() == 12 * layers.len(),
        forall|k: int|
            0 <= k < 12 ==> #[trigger] tensors_of_layers(layers)[12 * layer + k]
                == layers[layer].tensors()[k],
    decreases layers.len(),
{
    let fewer = layers.drop_last();
    if layer < fewer.len() {
        lemma_tensors_of_layers(fewer, layer);
        assert forall|k: int| 0 <= k < 12 implies #[trigger] tensors_of_layers(layers)[12 * layer
            + k] == layers[layer].tensors()[k] by {
            assert(tensors_of_layers(fewer)[12 * layer + k] == fewer[layer].tensors()[k]);
        }
    } else if fewer.len() > 0 {
        lemma_tensors_of_layers(fewer, 0);
    }
}

} // verus!
