use vstd::prelude::*;
use crate::activation::Activation;
use crate::error::CosyneError;
use crate::numerics::{is_difference, is_product, is_sum, is_unit_draw, Numerics};
use crate::scalar::Real;

verus! {

/// One affine transform with its activation.
///
/// The weights are held row by row, one row for each output, and the genes
/// of a layer are its weights followed by its biases.
#[derive(Debug, Clone)]
pub struct Layer {
    input_len: usize,
    output_len: usize,
    gene_len: usize,
    activation: Activation,
    weights: Vec<Real>,
    biases: Vec<Real>,
}

/// The number of genes of a layer with the given widths.
pub open spec fn gene_count_of(input_len: nat, output_len: nat) -> nat {
    output_len * input_len + output_len
}

/// An index into the weights, from a row and a column.
pub proof fn lemma_weight_index(row: int, column: int, rows: int, columns: int)
    requires
        0 <= row < rows,
        0 <= column < columns,
    ensures
        0 <= row * columns + column < rows * columns,
        rows * columns >= columns,
{
    assert(row * columns + column < rows * columns) by (nonlinear_arith)
        requires
            0 <= row < rows,
            0 <= column < columns,
    ;
    assert(0 <= row * columns) by (nonlinear_arith)
        requires
            0 <= row,
            0 < columns,
    ;
    assert(rows * columns >= columns) by (nonlinear_arith)
        requires
            1 <= rows,
            0 < columns,
    ;
}

/// `acc` is the sum of the first `upto` products of a weight and its input,
/// taken in order from zero.
pub open spec fn is_weighted_sum<N: Numerics>(
    numerics: &N,
    weights: Seq<Real>,
    input: Seq<Real>,
    upto: int,
    acc: Real,
) -> bool
    decreases upto,
{
    if upto <= 0 {
        acc == Real::zero()
    } else {
        exists|before: Real, term: Real| #![trigger is_sum(numerics, before, term, acc)]
            is_weighted_sum(numerics, weights, input, upto - 1, before) && is_product(
                numerics,
                weights[upto - 1],
                input[upto - 1],
                term,
            ) && is_sum(numerics, before, term, acc)
    }
}

/// One product more: how the weighted sum goes on.
pub proof fn lemma_weighted_step<N: Numerics>(
    numerics: &N,
    weights: Seq<Real>,
    input: Seq<Real>,
    upto: int,
    before: Real,
    term: Real,
    acc: Real,
)
    requires
        0 <= upto < weights.len(),
        upto < input.len(),
        is_weighted_sum(numerics, weights, input, upto, before),
        is_product(numerics, weights[upto], input[upto], term),
        is_sum(numerics, before, term, acc),
    ensures
        is_weighted_sum(numerics, weights, input, upto + 1, acc),
{
}

/// `y` is the activation of the weighted sum of the input and the bias.
pub open spec fn is_neuron<N: Numerics>(
    numerics: &N,
    weights: Seq<Real>,
    input: Seq<Real>,
    bias: Real,
    activation: Activation,
    y: Real,
) -> bool {
    exists|net: Real, total: Real|
        #![trigger is_weighted_sum(numerics, weights, input, input.len() as int, net), is_sum(numerics, net, bias, total)]
        is_weighted_sum(numerics, weights, input, input.len() as int, net) && is_sum(
            numerics,
            net,
            bias,
            total,
        ) && activation.applied(numerics, total, y)
}

/// Where a row of the weights lies among them.
pub proof fn lemma_row_index(row: int, column: int, rows: int, columns: int)
    requires
        0 <= row < rows,
        0 <= column < columns,
    ensures
        0 <= row * columns <= row * columns + column < (row + 1) * columns <= rows * columns,
{
    assert(0 <= row * columns) by (nonlinear_arith)
        requires
            0 <= row,
            0 < columns,
    ;
    assert((row + 1) * columns == row * columns + columns) by (nonlinear_arith);
    assert((row + 1) * columns <= rows * columns) by (nonlinear_arith)
        requires
            row + 1 <= rows,
            0 < columns,
    ;
}

impl Layer {
    /// The width of the input.
    pub closed spec fn inputs(self) -> nat {
        self.input_len as nat
    }

    /// The width of the output.
    pub closed spec fn outputs(self) -> nat {
        self.output_len as nat
    }

    /// The transfer function.
    pub closed spec fn transfer(self) -> Activation {
        self.activation
    }

    /// The weights, row by row.
    pub closed spec fn weights_view(self) -> Seq<Real> {
        self.weights@
    }

    /// The biases, one for each output.
    pub closed spec fn biases_view(self) -> Seq<Real> {
        self.biases@
    }

    /// The genes: the weights, then the biases.
    pub open spec fn genes_view(self) -> Seq<Real> {
        self.weights_view() + self.biases_view()
    }

    /// The weights of one output: one row of the weights.
    pub open spec fn row_weights(self, row: int) -> Seq<Real> {
        self.weights_view().subrange(row * self.inputs(), (row + 1) * self.inputs())
    }

    /// `out` is what the layer makes of `input`: for each output the
    /// activation of its weighted sum of the input and its bias.
    pub open spec fn forwards<N: Numerics>(self, numerics: &N, input: Seq<Real>, out: Seq<Real>) -> bool {
        &&& input.len() == self.inputs()
        &&& out.len() == self.outputs()
        &&& forall|row: int|
            0 <= row < self.outputs() ==> is_neuron(
                numerics,
                self.row_weights(row),
                input,
                self.biases_view()[row],
                self.transfer(),
                #[trigger] out[row],
            )
    }

    /// The number of weights: one for each output and input.
    pub open spec fn weight_count(self) -> nat {
        self.outputs() * self.inputs()
    }

    /// The number of genes.
    pub open spec fn gene_count(self) -> nat {
        gene_count_of(self.inputs(), self.outputs())
    }

    /// The layer holds as many weights and biases as its widths ask for, and
    /// their number fits the machine.
    pub closed spec fn wf(self) -> bool {
        &&& self.weights@.len() == self.output_len * self.input_len
        &&& self.biases@.len() == self.output_len
        &&& self.gene_len == self.output_len * self.input_len + self.output_len
    }

    /// Two layers of the same widths and activation.
    pub open spec fn same_shape(self, other: Layer) -> bool {
        &&& self.inputs() == other.inputs()
        &&& self.outputs() == other.outputs()
        &&& self.transfer() == other.transfer()
    }

    /// Two layers that agree in shape, weights and biases.
    pub open spec fn same_as(self, other: Layer) -> bool {
        &&& self.same_shape(other)
        &&& self.weights_view() == other.weights_view()
        &&& self.biases_view() == other.biases_view()
    }

    /// What well-formedness says of the lengths.
    pub proof fn lemma_lengths(self)
        requires
            self.wf(),
        ensures
            self.weights_view().len() == self.weight_count(),
            self.biases_view().len() == self.outputs(),
            self.genes_view().len() == self.gene_count(),
            self.gene_count() <= usize::MAX,
    {
    }

    /// A layer of the given widths whose weights and biases are drawn
    /// independently, each uniform between minus one and one.
    pub fn new<N: Numerics>(
        input_len: usize,
        output_len: usize,
        activation: Activation,
        numerics: &mut N,
    ) -> (layer: Layer)
        requires
            gene_count_of(input_len as nat, output_len as nat) <= usize::MAX,
        ensures
            layer.wf(),
            layer.inputs() == input_len,
            layer.outputs() == output_len,
            layer.transfer() == activation,
            all_drawn::<N>(layer.genes_view()),
    {
        let weight_len: usize = output_len * input_len;
        let weights: Vec<Real> = rand_vec_uniform(weight_len, numerics);
        let biases: Vec<Real> = rand_vec_uniform(output_len, numerics);
        Layer {
            input_len,
            output_len,
            gene_len: weight_len + output_len,
            activation,
            weights,
            biases,
        }
    }

    /// A layer of the given widths that takes its genes from `genes`, from
    /// the index `start` on.
    pub fn with_genes(
        input_len: usize,
        output_len: usize,
        activation: Activation,
        genes: &Vec<Real>,
        start: usize,
    ) -> (layer: Layer)
        requires
            start + gene_count_of(input_len as nat, output_len as nat) <= genes@.len(),
        ensures
            layer.wf(),
            layer.inputs() == input_len,
            layer.outputs() == output_len,
            layer.transfer() == activation,
            layer.genes_view() == genes@.subrange(
                start as int,
                start + gene_count_of(input_len as nat, output_len as nat),
            ),
            layer.weights_view() == genes@.subrange(
                start as int,
                start + output_len * input_len,
            ),
            layer.biases_view() == genes@.subrange(
                start + output_len * input_len,
                start + gene_count_of(input_len as nat, output_len as nat),
            ),
    {
        let available: usize = genes.len();
        assert(start + output_len * input_len + output_len <= available);
        let weight_len: usize = output_len * input_len;
        let weights: Vec<Real> = copy_range(genes, start, start + weight_len);
        let biases: Vec<Real> = copy_range(genes, start + weight_len, start + weight_len + output_len);
        let layer = Layer {
            input_len,
            output_len,
            gene_len: weight_len + output_len,
            activation,
            weights,
            biases,
        };
        layer
    }

    /// A layer that agrees with this one in everything.
    pub fn snapshot(&self) -> (layer: Layer)
        requires
            self.wf(),
        ensures
            layer.wf(),
            layer.same_as(*self),
    {
        let weights: Vec<Real> = copy_range(&self.weights, 0, self.weights.len());
        let biases: Vec<Real> = copy_range(&self.biases, 0, self.biases.len());
        assert(weights@ =~= self.weights@);
        assert(biases@ =~= self.biases@);
        Layer {
            input_len: self.input_len,
            output_len: self.output_len,
            gene_len: self.gene_len,
            activation: self.activation,
            weights,
            biases,
        }
    }

    /// The width of the input.
    pub fn input_len(&self) -> (n: usize)
        ensures
            n == self.inputs(),
    {
        self.input_len
    }

    /// The width of the output.
    pub fn output_len(&self) -> (n: usize)
        ensures
            n == self.outputs(),
    {
        self.output_len
    }

    /// The transfer function.
    pub fn activation(&self) -> (a: Activation)
        ensures
            a == self.transfer(),
    {
        self.activation
    }

    /// The number of genes: one for each weight and one for each bias.
    pub fn gene_len(&self) -> (n: usize)
        requires
            self.wf(),
        ensures
            n == self.gene_count(),
    {
        self.gene_len
    }

    /// The number of genes, counted from what the layer holds.
    pub fn num_genes(&self) -> (n: usize)
        requires
            self.wf(),
        ensures
            n == self.gene_count(),
    {
        self.weights.len() + self.biases.len()
    }

    /// The genes: the weights row by row, then the biases.
    pub fn genes(&self) -> (out: Vec<Real>)
        requires
            self.wf(),
        ensures
            out@ == self.genes_view(),
            out@.len() == self.gene_count(),
    {
        let mut out: Vec<Real> = copy_range(&self.weights, 0, self.weights.len());
        let mut i: usize = 0;
        while i < self.biases.len()
            invariant
                i <= self.biases@.len(),
                out@ == self.weights@.subrange(0, self.weights@.len() as int)
                    + self.biases@.subrange(0, i as int),
            decreases self.biases@.len() - i,
        {
            out.push(self.biases[i]);
            assert(self.biases@.subrange(0, i as int).push(self.biases@[i as int])
                =~= self.biases@.subrange(0, i + 1));
            assert(out@ =~= self.weights@.subrange(0, self.weights@.len() as int)
                + self.biases@.subrange(0, i + 1));
            i += 1;
        }
        out
    }

    /// The activation of each output's weighted sum of the input and bias.
    ///
    /// Refused with `ShapeMismatch` exactly where the input does not have the
    /// layer's input width.
    pub fn forward<N: Numerics>(&self, input: &Vec<Real>, numerics: &N) -> (r: Result<
        Vec<Real>,
        CosyneError,
    >)
        requires
            self.wf(),
        ensures
            r is Ok <==> input@.len() == self.inputs(),
            r matches Ok(out) ==> out@.len() == self.outputs() && self.forwards(
                numerics,
                input@,
                out@,
            ),
            r matches Err(e) ==> e == CosyneError::ShapeMismatch,
    {
        if input.len() != self.input_len {
            return Err(CosyneError::ShapeMismatch);
        }
        let mut out: Vec<Real> = Vec::new();
        let mut row: usize = 0;
        while row < self.output_len
            invariant
                self.wf(),
                input@.len() == self.input_len,
                row <= self.output_len,
                out@.len() == row,
                forall|k: int|
                    0 <= k < row ==> is_neuron(
                        numerics,
                        self.row_weights(k),
                        input@,
                        self.biases@[k],
                        self.activation,
                        #[trigger] out@[k],
                    ),
            decreases self.output_len - row,
        {
            let ghost weights = self.row_weights(row as int);
            let mut net: Real = Real::zero();
            let mut column: usize = 0;
            while column < self.input_len
                invariant
                    self.wf(),
                    input@.len() == self.input_len,
                    row < self.output_len,
                    column <= self.input_len,
                    weights == self.row_weights(row as int),
                    is_weighted_sum(numerics, weights, input@, column as int, net),
                decreases self.input_len - column,
            {
                proof {
                    lemma_weight_index(
                        row as int,
                        column as int,
                        self.output_len as int,
                        self.input_len as int,
                    );
                    lemma_row_index(
                        row as int,
                        column as int,
                        self.output_len as int,
                        self.input_len as int,
                    );
                }
                let weight: Real = self.weights[row * self.input_len + column];
                let term: Real = numerics.product(weight, input[column]);
                let ghost before = net;
                net = numerics.sum(net, term);
                proof {
                    assert(weights[column as int] == weight);
                    lemma_weighted_step(numerics, weights, input@, column as int, before, term, net);
                }
                column += 1;
            }
            let total: Real = numerics.sum(net, self.biases[row]);
            let y: Real = self.activation.apply(total, numerics);
            proof {
                assert(is_weighted_sum(numerics, weights, input@, input@.len() as int, net) && is_sum(
                    numerics,
                    net,
                    self.biases@[row as int],
                    total,
                ));
            }
            out.push(y);
            row += 1;
        }
        Ok(out)
    }

    /// Replaces the weights, row by row.
    ///
    /// Refused with `ShapeMismatch`, and nothing changed, exactly where `w`
    /// does not hold one weight for each output and input.
    pub fn set_weights(&mut self, w: &Vec<Real>) -> (r: Result<(), CosyneError>)
        requires
            old(self).wf(),
        ensures
            final(self).wf(),
            final(self).same_shape(*old(self)),
            final(self).biases_view() == old(self).biases_view(),
            r is Ok <==> w@.len() == old(self).weight_count(),
            r is Ok ==> final(self).weights_view() == w@,
            r matches Err(e) ==> e == CosyneError::ShapeMismatch && final(self).weights_view()
                == old(self).weights_view(),
    {
        if w.len() != self.weights.len() {
            return Err(CosyneError::ShapeMismatch);
        }
        let fresh: Vec<Real> = copy_range(w, 0, w.len());
        self.weights = fresh;
        Ok(())
    }

    /// Replaces the biases.
    ///
    /// Refused with `ShapeMismatch`, and nothing changed, exactly where `b`
    /// does not hold one bias for each output.
    pub fn set_biases(&mut self, b: &Vec<Real>) -> (r: Result<(), CosyneError>)
        requires
            old(self).wf(),
        ensures
            final(self).wf(),
            final(self).same_shape(*old(self)),
            final(self).weights_view() == old(self).weights_view(),
            r is Ok <==> b@.len() == old(self).outputs(),
            r is Ok ==> final(self).biases_view() == b@,
            r matches Err(e) ==> e == CosyneError::ShapeMismatch && final(self).biases_view()
                == old(self).biases_view(),
    {
        if b.len() != self.biases.len() {
            return Err(CosyneError::ShapeMismatch);
        }
        let fresh: Vec<Real> = copy_range(b, 0, b.len());
        self.biases = fresh;
        Ok(())
    }

    /// Takes weights and biases from `genes`: the weights from the first
    /// genes, one for each output and input, the biases from the rest.
    ///
    /// Refused with `ShapeMismatch`, and nothing changed, exactly where
    /// `genes` does not have the layer's number of genes.
    pub fn set_genes(&mut self, genes: &Vec<Real>) -> (r: Result<(), CosyneError>)
        requires
            old(self).wf(),
        ensures
            final(self).wf(),
            final(self).same_shape(*old(self)),
            r is Ok <==> genes@.len() == old(self).gene_count(),
            r is Ok ==> {
                &&& final(self).genes_view() == genes@
                &&& final(self).weights_view() == genes@.subrange(
                    0,
                    old(self).weight_count() as int,
                )
                &&& final(self).biases_view() == genes@.subrange(
                    old(self).weight_count() as int,
                    genes@.len() as int,
                )
            },
            r matches Err(e) ==> e == CosyneError::ShapeMismatch && final(self).same_as(
                *old(self),
            ),
    {
        if genes.len() != self.gene_len {
            return Err(CosyneError::ShapeMismatch);
        }
        let weight_end: usize = self.weights.len();
        self.weights = copy_range(genes, 0, weight_end);
        self.biases = copy_range(genes, weight_end, genes.len());
        Ok(())
    }
}

/// Setting a layer's genes to the genes it has changes nothing: two
/// well-formed layers of one shape with the same genes have the same weights
/// and the same biases.
pub proof fn lemma_layer_genes_round_trip(before: Layer, after: Layer)
    requires
        before.wf(),
        after.wf(),
        after.same_shape(before),
        after.genes_view() == before.genes_view(),
    ensures
        after.same_as(before),
{
    before.lemma_lengths();
    after.lemma_lengths();
    let split = before.weights_view().len() as int;
    let total = before.genes_view().len() as int;
    assert(before.weights_view() =~= before.genes_view().subrange(0, split));
    assert(after.weights_view() =~= after.genes_view().subrange(0, split));
    assert(before.biases_view() =~= before.genes_view().subrange(split, total));
    assert(after.biases_view() =~= after.genes_view().subrange(split, total));
}

/// The reals of `source` from `from` up to `to`, `to` excluded.
pub fn copy_range(source: &Vec<Real>, from: usize, to: usize) -> (out: Vec<Real>)
    requires
        from <= to <= source@.len(),
    ensures
        out@ == source@.subrange(from as int, to as int),
{
    let mut out: Vec<Real> = Vec::new();
    let mut i: usize = from;
    while i < to
        invariant
            from <= i <= to <= source@.len(),
            out@ == source@.subrange(from as int, i as int),
        decreases to - i,
    {
        out.push(source[i]);
        assert(source@.subrange(from as int, i as int).push(source@[i as int])
            =~= source@.subrange(from as int, i + 1));
        i += 1;
    }
    out
}

/// `y` is twice `drawn`, less one.
pub open spec fn is_spread<N: Numerics>(numerics: &N, drawn: Real, y: Real) -> bool {
    exists|doubled: Real| #[trigger]
        is_product(numerics, drawn, Real::two(), doubled) && is_difference(
            numerics,
            doubled,
            Real::one(),
            y,
        )
}

/// `y` is the spread of a draw from the unit interval that the supplier
/// gave, with the arithmetic of the supplier as it stood then.
pub open spec fn is_drawn<N: Numerics>(y: Real) -> bool {
    exists|supplier: N, drawn: Real|
        is_unit_draw::<N>(drawn) && #[trigger] is_spread(&supplier, drawn, y)
}

/// Each of the reals is the spread of a draw from the unit interval.
pub open spec fn all_drawn<N: Numerics>(reals: Seq<Real>) -> bool {
    forall|k: int| 0 <= k < reals.len() ==> is_drawn::<N>(#[trigger] reals[k])
}

/// Takes a draw from the unit interval to the interval from minus one to
/// one: twice the draw, less one.
pub fn spread<N: Numerics>(drawn: Real, numerics: &N) -> (y: Real)
    ensures
        is_spread(numerics, drawn, y),
{
    let doubled: Real = numerics.product(drawn, Real::two());
    let y: Real = numerics.difference(doubled, Real::one());
    assert(is_product(numerics, drawn, Real::two(), doubled));
    y
}

/// As many reals as asked for, each drawn uniformly between minus one and
/// one: the spread of a draw from the unit interval.
pub fn rand_vec_uniform<N: Numerics>(length: usize, numerics: &mut N) -> (out: Vec<Real>)
    ensures
        out@.len() == length,
        all_drawn::<N>(out@),
{
    let mut out: Vec<Real> = Vec::new();
    let mut i: usize = 0;
    while i < length
        invariant
            i <= length,
            out@.len() == i,
            all_drawn::<N>(out@),
        decreases length - i,
    {
        let drawn: Real = numerics.draw_unit();
        let y: Real = spread(drawn, &*numerics);
        assert(is_unit_draw::<N>(drawn) && is_spread(&*numerics, drawn, y));
        out.push(y);
        i += 1;
    }
    out
}

} // verus!
