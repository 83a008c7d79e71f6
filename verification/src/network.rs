use vstd::prelude::*;
use crate::activation::Activation;
use crate::error::CosyneError;
use crate::layer::{all_drawn, copy_range, gene_count_of, lemma_layer_genes_round_trip, Layer};
use crate::numerics::Numerics;
use crate::scalar::Real;

verus! {

/// The genes of a sequence of layers: each layer's genes, in layer order.
pub open spec fn genes_of(layers: Seq<Layer>) -> Seq<Real>
    decreases layers.len(),
{
    if layers.len() == 0 {
        Seq::empty()
    } else {
        genes_of(layers.drop_last()) + layers.last().genes_view()
    }
}

/// The number of genes of a sequence of layers: the sum, over the layers, of
/// one gene for each weight and one for each bias.
pub open spec fn count_of(layers: Seq<Layer>) -> nat
    decreases layers.len(),
{
    if layers.len() == 0 {
        0
    } else {
        count_of(layers.drop_last()) + layers.last().gene_count()
    }
}

/// Every layer is well-formed.
pub open spec fn all_wf(layers: Seq<Layer>) -> bool {
    forall|k: int| 0 <= k < layers.len() ==> (#[trigger] layers[k]).wf()
}

/// Each layer's output is as wide as the next layer's input.
pub open spec fn chained(layers: Seq<Layer>) -> bool {
    forall|k: int| 0 <= k < layers.len() - 1 ==> (#[trigger] layers[k]).outputs() == layers[k
        + 1].inputs()
}

/// Two sequences of layers that agree in length and, layer by layer, in shape.
pub open spec fn same_shapes(a: Seq<Layer>, b: Seq<Layer>) -> bool {
    &&& a.len() == b.len()
    &&& forall|k: int| 0 <= k < a.len() ==> (#[trigger] a[k]).same_shape(b[k])
}

/// The genes of well-formed layers are as many as their count.
pub proof fn lemma_genes_len(layers: Seq<Layer>)
    requires
        all_wf(layers),
    ensures
        genes_of(layers).len() == count_of(layers),
    decreases layers.len(),
{
    if layers.len() > 0 {
        lemma_genes_len(layers.drop_last());
        layers.last().lemma_lengths();
    }
}

/// The first layers have no more genes than all of them.
pub proof fn lemma_count_prefix(layers: Seq<Layer>, i: int)
    requires
        0 <= i <= layers.len(),
    ensures
        count_of(layers.subrange(0, i)) <= count_of(layers),
        i < layers.len() ==> count_of(layers.subrange(0, i)) + layers[i].gene_count() <= count_of(
            layers,
        ),
    decreases layers.len(),
{
    if i == layers.len() {
        assert(layers.subrange(0, i) =~= layers);
    } else {
        assert(layers.drop_last().subrange(0, i) =~= layers.subrange(0, i));
        lemma_count_prefix(layers.drop_last(), i);
        if i == layers.len() - 1 {
            assert(layers.drop_last().subrange(0, i) =~= layers.drop_last());
        }
    }
}

/// One layer more: how genes and count grow.
pub proof fn lemma_step(layers: Seq<Layer>, i: int)
    requires
        0 <= i < layers.len(),
    ensures
        genes_of(layers.subrange(0, i + 1)) == genes_of(layers.subrange(0, i))
            + layers[i].genes_view(),
        count_of(layers.subrange(0, i + 1)) == count_of(layers.subrange(0, i))
            + layers[i].gene_count(),
{
    assert(layers.subrange(0, i + 1).drop_last() =~= layers.subrange(0, i));
}

/// Layers that agree in shape have the same number of genes.
pub proof fn lemma_count_by_shape(a: Seq<Layer>, b: Seq<Layer>)
    requires
        same_shapes(a, b),
    ensures
        count_of(a) == count_of(b),
    decreases a.len(),
{
    if a.len() > 0 {
        assert(a.last().same_shape(b.last()));
        lemma_count_by_shape(a.drop_last(), b.drop_last());
    }
}

/// Well-formed layers that agree in shape and have the same genes agree
/// layer by layer.
pub proof fn lemma_layers_by_genes(a: Seq<Layer>, b: Seq<Layer>)
    requires
        all_wf(a),
        all_wf(b),
        same_shapes(a, b),
        genes_of(a) == genes_of(b),
    ensures
        forall|k: int| 0 <= k < a.len() ==> (#[trigger] a[k]).same_as(b[k]),
    decreases a.len(),
{
    if a.len() > 0 {
        let a0 = a.drop_last();
        let b0 = b.drop_last();
        assert(a.last().same_shape(b.last()));
        lemma_count_by_shape(a0, b0);
        lemma_genes_len(a0);
        lemma_genes_len(b0);
        a.last().lemma_lengths();
        b.last().lemma_lengths();
        let split = genes_of(a0).len() as int;
        let total = genes_of(a).len() as int;
        assert(genes_of(a0) =~= genes_of(a).subrange(0, split));
        assert(genes_of(b0) =~= genes_of(b).subrange(0, split));
        assert(a.last().genes_view() =~= genes_of(a).subrange(split, total));
        assert(b.last().genes_view() =~= genes_of(b).subrange(split, total));
        lemma_layer_genes_round_trip(b.last(), a.last());
        lemma_layers_by_genes(a0, b0);
        assert forall|k: int| 0 <= k < a.len() implies (#[trigger] a[k]).same_as(b[k]) by {
            if k < a.len() - 1 {
                assert(a0[k].same_as(b0[k]));
            }
        }
    }
}

/// Every gene of every layer is the spread of a draw from the unit interval.
pub open spec fn layers_drawn<N: Numerics>(layers: Seq<Layer>) -> bool {
    forall|k: int| 0 <= k < layers.len() ==> all_drawn::<N>((#[trigger] layers[k]).genes_view())
}

/// Where the genes of every layer are drawn, the genes of all are.
pub proof fn lemma_genes_drawn<N: Numerics>(layers: Seq<Layer>)
    requires
        layers_drawn::<N>(layers),
    ensures
        all_drawn::<N>(genes_of(layers)),
    decreases layers.len(),
{
    if layers.len() > 0 {
        let front = layers.drop_last();
        assert forall|k: int| 0 <= k < front.len() implies all_drawn::<N>(
            (#[trigger] front[k]).genes_view(),
        ) by {
            assert(front[k] == layers[k]);
        }
        lemma_genes_drawn::<N>(front);
        let genes = genes_of(layers);
        let split = genes_of(front).len();
        assert(all_drawn::<N>(layers.last().genes_view()));
        assert forall|k: int| 0 <= k < genes.len() implies crate::layer::is_drawn::<N>(
            #[trigger] genes[k],
        ) by {
            if k < split {
                assert(genes[k] == genes_of(front)[k]);
            } else {
                assert(genes[k] == layers.last().genes_view()[k - split]);
            }
        }
    }
}

/// `out` is what the layers, one after the other, make of `input`.
pub open spec fn is_threaded<N: Numerics>(
    numerics: &N,
    layers: Seq<Layer>,
    input: Seq<Real>,
    out: Seq<Real>,
) -> bool
    decreases layers.len(),
{
    if layers.len() == 0 {
        out == input
    } else {
        exists|mid: Seq<Real>|
            is_threaded(numerics, layers.drop_last(), input, mid) && #[trigger] layers.last().forwards(
                numerics,
                mid,
                out,
            )
    }
}

/// The number of genes of well-formed layers, where it fits the machine.
pub fn count_genes(layers: &Vec<Layer>) -> (n: usize)
    requires
        all_wf(layers@),
        count_of(layers@) <= usize::MAX,
    ensures
        n == count_of(layers@),
{
    let mut n: usize = 0;
    let mut i: usize = 0;
    while i < layers.len()
        invariant
            i <= layers@.len(),
            all_wf(layers@),
            count_of(layers@) <= usize::MAX,
            n == count_of(layers@.subrange(0, i as int)),
        decreases layers@.len() - i,
    {
        proof {
            lemma_count_prefix(layers@, i as int);
            lemma_step(layers@, i as int);
        }
        n = n + layers[i].num_genes();
        i += 1;
    }
    assert(layers@.subrange(0, i as int) =~= layers@);
    n
}

/// A feed-forward network of fixed topology: layers in order, each as wide
/// at its output as the next at its input.
#[derive(Debug, Clone)]
pub struct ANN {
    num_inputs: usize,
    num_outputs: usize,
    layers: Vec<Layer>,
    num_genes: usize,
}

impl ANN {
    /// The width of the input.
    pub closed spec fn inputs(self) -> nat {
        self.num_inputs as nat
    }

    /// The width of the output.
    pub closed spec fn outputs(self) -> nat {
        self.num_outputs as nat
    }

    /// The layers, in order.
    pub closed spec fn layers_view(self) -> Seq<Layer> {
        self.layers@
    }

    /// The genes: each layer's genes, in layer order.
    pub open spec fn genes_view(self) -> Seq<Real> {
        genes_of(self.layers_view())
    }

    /// The number of genes: the sum of the layers' counts.
    pub open spec fn gene_count(self) -> nat {
        count_of(self.layers_view())
    }

    /// There is a layer, the layers are well-formed and chained, the first
    /// takes the network's input and the last gives its output, and the
    /// number of genes is kept and fits the machine.
    pub closed spec fn wf(self) -> bool {
        &&& self.layers@.len() > 0
        &&& all_wf(self.layers@)
        &&& chained(self.layers@)
        &&& self.layers@[0].inputs() == self.num_inputs
        &&& self.layers@.last().outputs() == self.num_outputs
        &&& self.num_genes == count_of(self.layers@)
    }

    /// Two networks of the same widths whose layers agree in shape.
    pub open spec fn same_topology(self, other: ANN) -> bool {
        &&& self.inputs() == other.inputs()
        &&& self.outputs() == other.outputs()
        &&& same_shapes(self.layers_view(), other.layers_view())
    }

    /// Two networks that agree in topology and in every weight and bias.
    pub open spec fn same_as(self, other: ANN) -> bool {
        &&& self.same_topology(other)
        &&& forall|k: int|
            0 <= k < self.layers_view().len() ==> (#[trigger] self.layers_view()[k]).same_as(
                other.layers_view()[k],
            )
    }

    /// The number of genes once a hidden layer of `neuron_count` units stands
    /// before the output: the last layer then gives `neuron_count` outputs,
    /// and a new last layer takes them.
    pub open spec fn grown_count(self, neuron_count: nat) -> nat {
        count_of(self.layers_view().drop_last()) + gene_count_of(
            self.layers_view().last().inputs(),
            neuron_count,
        ) + gene_count_of(neuron_count, self.outputs())
    }

    /// What well-formedness says to those who see the network from outside.
    pub proof fn lemma_wf(self)
        requires
            self.wf(),
        ensures
            self.layers_view().len() > 0,
            all_wf(self.layers_view()),
            chained(self.layers_view()),
            self.layers_view()[0].inputs() == self.inputs(),
            self.layers_view().last().outputs() == self.outputs(),
            self.genes_view().len() == self.gene_count(),
            self.gene_count() <= usize::MAX,
    {
        lemma_genes_len(self.layers@);
    }

    /// A network of one layer, from the inputs to the outputs, with random
    /// weights and biases.
    pub fn new<N: Numerics>(
        num_inputs: usize,
        num_outputs: usize,
        act_func: Activation,
        numerics: &mut N,
    ) -> (nn: ANN)
        requires
            gene_count_of(num_inputs as nat, num_outputs as nat) <= usize::MAX,
        ensures
            nn.wf(),
            nn.inputs() == num_inputs,
            nn.outputs() == num_outputs,
            nn.layers_view().len() == 1,
            nn.layers_view()[0].inputs() == num_inputs,
            nn.layers_view()[0].outputs() == num_outputs,
            nn.layers_view()[0].transfer() == act_func,
            nn.gene_count() == gene_count_of(num_inputs as nat, num_outputs as nat),
            all_drawn::<N>(nn.genes_view()),
    {
        let layer: Layer = Layer::new(num_inputs, num_outputs, act_func, numerics);
        let mut layers: Vec<Layer> = Vec::new();
        layers.push(layer);
        proof {
            assert(layers@.drop_last() =~= Seq::<Layer>::empty());
            assert(count_of(Seq::<Layer>::empty()) == 0);
            lemma_genes_drawn::<N>(layers@);
        }
        let num_genes: usize = count_genes(&layers);
        ANN { num_inputs, num_outputs, layers, num_genes }
    }

    /// Puts a hidden layer of `neuron_count` units before the output.
    ///
    /// The layer that was last keeps its input width and activation and now
    /// gives `neuron_count` outputs; a new last layer with the activation
    /// `act` takes them to the network's outputs. Both get random weights
    /// and biases; the layers before them stay as they are.
    pub fn add_layer<N: Numerics>(&mut self, neuron_count: usize, act: Activation, numerics: &mut N)
        requires
            old(self).wf(),
            old(self).grown_count(neuron_count as nat) <= usize::MAX,
        ensures
            final(self).wf(),
            final(self).inputs() == old(self).inputs(),
            final(self).outputs() == old(self).outputs(),
            final(self).layers_view().len() == old(self).layers_view().len() + 1,
            final(self).gene_count() == old(self).grown_count(neuron_count as nat),
            forall|k: int|
                0 <= k < old(self).layers_view().len() - 1 ==> (#[trigger] final(self).layers_view()[k]).same_as(
                    old(self).layers_view()[k],
                ),
            ({
                let before = old(self).layers_view().last();
                let hidden = final(self).layers_view()[old(self).layers_view().len() - 1];
                let last = final(self).layers_view().last();
                &&& hidden.inputs() == before.inputs()
                &&& hidden.outputs() == neuron_count
                &&& hidden.transfer() == before.transfer()
                &&& last.inputs() == neuron_count
                &&& last.outputs() == old(self).outputs()
                &&& last.transfer() == act
                &&& all_drawn::<N>(hidden.genes_view())
                &&& all_drawn::<N>(last.genes_view())
            }),
    {
        let ghost before = self.layers@;
        let last_layer_idx: usize = self.layers.len() - 1;
        let old_input_len: usize = self.layers[last_layer_idx].input_len();
        let old_activation: Activation = self.layers[last_layer_idx].activation();
        let hidden: Layer = Layer::new(old_input_len, neuron_count, old_activation, numerics);
        let last: Layer = Layer::new(neuron_count, self.num_outputs, act, numerics);
        self.layers.pop();
        self.layers.push(hidden);
        self.layers.push(last);
        proof {
            let after = self.layers@;
            assert(after.drop_last().drop_last() =~= before.drop_last());
            assert(count_of(after.drop_last()) == count_of(before.drop_last())
                + after.drop_last().last().gene_count());
        }
        self.num_genes = count_genes(&self.layers);
    }

    /// Threads the input through the layers, in order.
    ///
    /// Refused with `ShapeMismatch` exactly where the input does not have the
    /// network's input width; otherwise the result has its output width.
    pub fn forward<N: Numerics>(&self, inputs: Vec<Real>, numerics: &N) -> (r: Result<
        Vec<Real>,
        CosyneError,
    >)
        requires
            self.wf(),
        ensures
            r is Ok <==> inputs@.len() == self.inputs(),
            r matches Ok(out) ==> out@.len() == self.outputs() && is_threaded(
                numerics,
                self.layers_view(),
                inputs@,
                out@,
            ),
            r matches Err(e) ==> e == CosyneError::ShapeMismatch,
    {
        if inputs.len() != self.num_inputs {
            return Err(CosyneError::ShapeMismatch);
        }
        let ghost given = inputs@;
        let mut prev_output: Vec<Real> = inputs;
        let mut l: usize = 0;
        assert(self.layers@.subrange(0, 0).len() == 0);
        while l < self.layers.len()
            invariant
                self.wf(),
                l <= self.layers@.len(),
                l < self.layers@.len() ==> prev_output@.len() == self.layers@[l as int].inputs(),
                l == self.layers@.len() ==> prev_output@.len() == self.num_outputs,
                is_threaded(numerics, self.layers@.subrange(0, l as int), given, prev_output@),
            decreases self.layers@.len() - l,
        {
            let ghost mid = prev_output@;
            match self.layers[l].forward(&prev_output, numerics) {
                Ok(next) => {
                    prev_output = next;
                },
                Err(e) => {
                    return Err(e);
                },
            }
            proof {
                let upto = self.layers@.subrange(0, l + 1);
                assert(upto.drop_last() =~= self.layers@.subrange(0, l as int));
                assert(upto.last() == self.layers@[l as int]);
                assert(is_threaded(numerics, upto.drop_last(), given, mid) && upto.last().forwards(
                    numerics,
                    mid,
                    prev_output@,
                ));
                assert(is_threaded(numerics, upto, given, prev_output@));
            }
            l += 1;
        }
        assert(self.layers@.subrange(0, l as int) =~= self.layers@);
        Ok(prev_output)
    }

    /// The width of the input.
    pub fn num_inputs(&self) -> (n: usize)
        ensures
            n == self.inputs(),
    {
        self.num_inputs
    }

    /// The width of the output.
    pub fn num_outputs(&self) -> (n: usize)
        ensures
            n == self.outputs(),
    {
        self.num_outputs
    }

    /// The number of layers.
    pub fn num_layers(&self) -> (n: usize)
        ensures
            n == self.layers_view().len(),
    {
        self.layers.len()
    }

    /// The number of genes of the network.
    pub fn num_genes(&self) -> (n: usize)
        requires
            self.wf(),
        ensures
            n == self.gene_count(),
    {
        self.num_genes
    }

    /// The genes of the network: each layer's weights and biases, in layer
    /// order. They are as many as `num_genes` says.
    pub fn genes(&self) -> (out: Vec<Real>)
        requires
            self.wf(),
        ensures
            out@ == self.genes_view(),
            out@.len() == self.gene_count(),
    {
        let mut out: Vec<Real> = Vec::new();
        let mut l: usize = 0;
        while l < self.layers.len()
            invariant
                self.wf(),
                l <= self.layers@.len(),
                out@ == genes_of(self.layers@.subrange(0, l as int)),
            decreases self.layers@.len() - l,
        {
            let mut part: Vec<Real> = self.layers[l].genes();
            proof {
                lemma_step(self.layers@, l as int);
            }
            out.append(&mut part);
            l += 1;
        }
        proof {
            assert(self.layers@.subrange(0, l as int) =~= self.layers@);
            lemma_genes_len(self.layers@);
        }
        out
    }

    /// Gives each layer its genes from `genes`, in layer order.
    /// Refused with `ShapeMismatch`, and nothing changed, exactly where
    /// `genes` does not have the network's number of genes.
    pub fn set_genes(&mut self, genes: &Vec<Real>) -> (r: Result<(), CosyneError>)
        requires
            old(self).wf(),
        ensures
            final(self).wf(),
            final(self).same_topology(*old(self)),
            r is Ok <==> genes@.len() == old(self).gene_count(),
            r is Ok ==> final(self).genes_view() == genes@,
            r matches Err(e) ==> e == CosyneError::ShapeMismatch && final(self).same_as(
                *old(self),
            ),
    {
        if genes.len() != self.num_genes {
            return Err(CosyneError::ShapeMismatch);
        }
        let ghost before = self.layers@;
        let mut fresh: Vec<Layer> = Vec::new();
        let mut start: usize = 0;
        let mut l: usize = 0;
        while l < self.layers.len()
            invariant
                self.wf(),
                self.layers@ == before,
                genes@.len() == count_of(before),
                l <= before.len(),
                fresh@.len() == l,
                all_wf(fresh@),
                same_shapes(fresh@, before.subrange(0, l as int)),
                start == count_of(before.subrange(0, l as int)),
                start == count_of(fresh@),
                genes_of(fresh@) == genes@.subrange(0, start as int),
            decreases before.len() - l,
        {
            proof {
                lemma_count_prefix(before, l as int);
                lemma_step(before, l as int);
            }
            let shape: &Layer = &self.layers[l];
            let layer: Layer = Layer::with_genes(
                shape.input_len(),
                shape.output_len(),
                shape.activation(),
                genes,
                start,
            );
            let ghost earlier = fresh@;
            let len: usize = shape.gene_len();
            fresh.push(layer);
            proof {
                assert(fresh@.drop_last() =~= earlier);
                assert forall|k: int| 0 <= k < fresh@.len() implies (#[trigger] fresh@[k]).same_shape(
                    before.subrange(0, l + 1)[k],
                ) by {
                }
            }
            start = start + len;
            l += 1;
        }
        proof {
            assert(before.subrange(0, l as int) =~= before);
            assert forall|k: int| 0 <= k < fresh@.len() - 1 implies (#[trigger] fresh@[k]).outputs()
                == fresh@[k + 1].inputs() by {
            }
        }
        self.layers = fresh;
        Ok(())
    }

    /// A network of the same topology with freshly drawn weights and biases.
    pub fn randomize<N: Numerics>(&self, numerics: &mut N) -> (nn: ANN)
        requires
            self.wf(),
        ensures
            nn.wf(),
            nn.same_topology(*self),
            nn.gene_count() == self.gene_count(),
            all_drawn::<N>(nn.genes_view()),
    {
        let mut layers: Vec<Layer> = Vec::new();
        let mut l: usize = 0;
        while l < self.layers.len()
            invariant
                self.wf(),
                l <= self.layers@.len(),
                layers@.len() == l,
                all_wf(layers@),
                same_shapes(layers@, self.layers@.subrange(0, l as int)),
                layers_drawn::<N>(layers@),
            decreases self.layers@.len() - l,
        {
            let shape: &Layer = &self.layers[l];
            proof {
                shape.lemma_lengths();
            }
            let layer: Layer = Layer::new(
                shape.input_len(),
                shape.output_len(),
                shape.activation(),
                numerics,
            );
            layers.push(layer);
            proof {
                assert forall|k: int| 0 <= k < layers@.len() implies (#[trigger] layers@[k]).same_shape(
                    self.layers@.subrange(0, l + 1)[k],
                ) by {
                }
            }
            l += 1;
        }
        proof {
            let before = self.layers@;
            lemma_count_by_shape(layers@, before);
            lemma_genes_drawn::<N>(layers@);
            assert forall|k: int| 0 <= k < layers@.len() - 1 implies (#[trigger] layers@[k]).outputs()
                == layers@[k + 1].inputs() by {
            }
        }
        let num_genes: usize = count_genes(&layers);
        ANN { num_inputs: self.num_inputs, num_outputs: self.num_outputs, layers, num_genes }
    }

    pub fn snapshot(&self) -> (nn: ANN)
        requires
            self.wf(),
        ensures
            nn.wf(),
            nn.same_as(*self),
            nn.genes_view() == self.genes_view(),
    {
        let mut layers: Vec<Layer> = Vec::new();
        let mut l: usize = 0;
        while l < self.layers.len()
            invariant
                self.wf(),
                l <= self.layers@.len(),
                layers@.len() == l,
                all_wf(layers@),
                forall|k: int| 0 <= k < l ==> (#[trigger] layers@[k]).same_as(self.layers@[k]),
            decreases self.layers@.len() - l,
        {
            let layer: Layer = self.layers[l].snapshot();
            layers.push(layer);
            l += 1;
        }
        proof {
            let before = self.layers@;
            lemma_count_by_shape(layers@, before);
            lemma_genes_by_layers(layers@, before);
            assert forall|k: int| 0 <= k < layers@.len() - 1 implies (#[trigger] layers@[k]).outputs()
                == layers@[k + 1].inputs() by {
            }
        }
        ANN {
            num_inputs: self.num_inputs,
            num_outputs: self.num_outputs,
            layers,
            num_genes: self.num_genes,
        }
    }
}

/// Layers that agree in weights and biases have the same genes.
pub proof fn lemma_genes_by_layers(a: Seq<Layer>, b: Seq<Layer>)
    requires
        a.len() == b.len(),
        forall|k: int| 0 <= k < a.len() ==> (#[trigger] a[k]).same_as(b[k]),
    ensures
        genes_of(a) == genes_of(b),
    decreases a.len(),
{
    if a.len() > 0 {
        assert(a.last().same_as(b.last()));
        lemma_genes_by_layers(a.drop_last(), b.drop_last());
    }
}

/// Setting a network's genes to the genes it has changes nothing: two
/// well-formed networks of one topology with the same genes agree in every
/// weight and bias.
pub proof fn lemma_network_genes_round_trip(before: ANN, after: ANN)
    requires
        before.wf(),
        after.wf(),
        after.same_topology(before),
        after.genes_view() == before.genes_view(),
    ensures
        after.same_as(before),
{
    before.lemma_wf();
    after.lemma_wf();
    lemma_layers_by_genes(after.layers_view(), before.layers_view());
}

/// The genes of a network are as many as the sum, over its layers, of the
/// weights and biases that the layer's widths ask for.
pub proof fn lemma_gene_length(nn: ANN)
    requires
        nn.wf(),
    ensures
        nn.genes_view().len() == nn.gene_count(),
        nn.gene_count() == count_of(nn.layers_view()),
{
    nn.lemma_wf();
}

} // verus!
