//! Tensor computations as data: lists of operations, what they compute, and
//! the shapes that come out.

use vstd::prelude::*;

verus! {

/// One operation. Operands are earlier operations, by their place.
#[derive(Debug)]
pub enum Op {
    /// What the model is given.
    Input,
    /// A parameter, by its number.
    Weight { id: usize },
    /// The matrix product over the last two dimensions.
    MatMul { a: usize, b: usize },
    /// Sums, value by value. A dimension of one stands for any.
    Sum { a: usize, b: usize },
    /// Differences, value by value. A dimension of one stands for any.
    Difference { a: usize, b: usize },
    /// Products, value by value. A dimension of one stands for any.
    Product { a: usize, b: usize },
    /// Quotients, value by value. A dimension of one stands for any.
    Quotient { a: usize, b: usize },
    /// Two dimensions exchanged.
    Swap { a: usize, i: usize, j: usize },
    /// The same values, row-major, in another shape.
    Reshape { a: usize, dims: Vec<usize> },
    /// A range of one dimension, not empty, with all of those before it.
    Slice { a: usize, dim: usize, start: usize, end: usize },
    /// A dimension of one, repeated.
    Repeat { a: usize, dim: usize, times: usize },
    /// A new dimension of one.
    Unsqueeze { a: usize, dim: usize },
    /// A dimension of one taken away.
    Squeeze { a: usize, dim: usize },
    /// The mean over a dimension, which becomes one.
    Mean { a: usize, dim: usize },
    /// The softmax over a dimension.
    Softmax { a: usize, dim: usize },
    /// The Gaussian error linear unit.
    Gelu { a: usize },
    /// The rectified linear unit.
    Relu { a: usize },
    /// The logistic function.
    Sigmoid { a: usize },
    /// Squares.
    Square { a: usize },
    /// Square roots.
    Root { a: usize },
    /// A constant more, given by its double-precision bits.
    Plus { a: usize, constant: u64 },
    /// Divided by the square root of a number.
    Scale { a: usize, by: usize },
}

/// What an operation computes, down to the input and the parameters.
pub ghost enum Term {
    Input,
    Weight(nat),
    MatMul(Box<Term>, Box<Term>),
    Sum(Box<Term>, Box<Term>),
    Difference(Box<Term>, Box<Term>),
    Product(Box<Term>, Box<Term>),
    Quotient(Box<Term>, Box<Term>),
    Swap(Box<Term>, nat, nat),
    Reshape(Box<Term>, Seq<nat>),
    Slice(Box<Term>, nat, nat, nat),
    Repeat(Box<Term>, nat, nat),
    Unsqueeze(Box<Term>, nat),
    Squeeze(Box<Term>, nat),
    Mean(Box<Term>, nat),
    Softmax(Box<Term>, nat),
    Gelu(Box<Term>),
    Relu(Box<Term>),
    Sigmoid(Box<Term>),
    Square(Box<Term>),
    Root(Box<Term>),
    Plus(Box<Term>, u64),
    Scale(Box<Term>, nat),
}

/// Dimensions as mathematical numbers.
pub open spec fn naturals(dims: Seq<usize>) -> Seq<nat> {
    dims.map_values(|d: usize| d as nat)
}

/// The operands of an operation.
pub open spec fn operands(op: Op) -> Seq<usize> {
    match op {
        Op::Input => seq![],
        Op::Weight { id: _ } => seq![],
        Op::MatMul { a, b } => seq![a, b],
        Op::Sum { a, b } => seq![a, b],
        Op::Difference { a, b } => seq![a, b],
        Op::Product { a, b } => seq![a, b],
        Op::Quotient { a, b } => seq![a, b],
        Op::Swap { a, i: _, j: _ } => seq![a],
        Op::Reshape { a, dims: _ } => seq![a],
        Op::Slice { a, dim: _, start: _, end: _ } => seq![a],
        Op::Repeat { a, dim: _, times: _ } => seq![a],
        Op::Unsqueeze { a, dim: _ } => seq![a],
        Op::Squeeze { a, dim: _ } => seq![a],
        Op::Mean { a, dim: _ } => seq![a],
        Op::Softmax { a, dim: _ } => seq![a],
        Op::Gelu { a } => seq![a],
        Op::Relu { a } => seq![a],
        Op::Sigmoid { a } => seq![a],
        Op::Square { a } => seq![a],
        Op::Root { a } => seq![a],
        Op::Plus { a, constant: _ } => seq![a],
        Op::Scale { a, by: _ } => seq![a],
    }
}

/// What an operation computes, given what the earlier ones do.
pub open spec fn meaning(op: Op, t: Seq<Term>) -> Term {
    match op {
        Op::Input => Term::Input,
        Op::Weight { id } => Term::Weight(id as nat),
        Op::MatMul { a, b } => Term::MatMul(Box::new(t[a as int]), Box::new(t[b as int])),
        Op::Sum { a, b } => Term::Sum(Box::new(t[a as int]), Box::new(t[b as int])),
        Op::Difference { a, b } => Term::Difference(
            Box::new(t[a as int]),
            Box::new(t[b as int]),
        ),
        Op::Product { a, b } => Term::Product(Box::new(t[a as int]), Box::new(t[b as int])),
        Op::Quotient { a, b } => Term::Quotient(Box::new(t[a as int]), Box::new(t[b as int])),
        Op::Swap { a, i, j } => Term::Swap(Box::new(t[a as int]), i as nat, j as nat),
        Op::Reshape { a, dims } => Term::Reshape(Box::new(t[a as int]), naturals(dims@)),
        Op::Slice { a, dim, start, end } => Term::Slice(
            Box::new(t[a as int]),
            dim as nat,
            start as nat,
            end as nat,
        ),
        Op::Repeat { a, dim, times } => Term::Repeat(
            Box::new(t[a as int]),
            dim as nat,
            times as nat,
        ),
        Op::Unsqueeze { a, dim } => Term::Unsqueeze(Box::new(t[a as int]), dim as nat),
        Op::Squeeze { a, dim } => Term::Squeeze(Box::new(t[a as int]), dim as nat),
        Op::Mean { a, dim } => Term::Mean(Box::new(t[a as int]), dim as nat),
        Op::Softmax { a, dim } => Term::Softmax(Box::new(t[a as int]), dim as nat),
        Op::Gelu { a } => Term::Gelu(Box::new(t[a as int])),
        Op::Relu { a } => Term::Relu(Box::new(t[a as int])),
        Op::Sigmoid { a } => Term::Sigmoid(Box::new(t[a as int])),
        Op::Square { a } => Term::Square(Box::new(t[a as int])),
        Op::Root { a } => Term::Root(Box::new(t[a as int])),
        Op::Plus { a, constant } => Term::Plus(Box::new(t[a as int]), constant),
        Op::Scale { a, by } => Term::Scale(Box::new(t[a as int]), by as nat),
    }
}

/// What a list of operations computes.
pub open spec fn meanings(ops: Seq<Op>) -> Seq<Term>
    decreases ops.len(),
{
    if ops.len() == 0 {
        seq![]
    } else {
        let earlier = meanings(ops.drop_last());
        earlier.push(meaning(ops.last(), earlier))
    }
}

/// A list of operations.
#[derive(Debug)]
pub struct Program {
    pub ops: Vec<Op>,
}

/// Whether all operands of a list of operations come earlier in it.
pub open spec fn is_ordered(ops: Seq<Op>) -> bool {
    forall|i: int, k: int|
        0 <= i < ops.len() && 0 <= k < operands(ops[i]).len() ==> (#[trigger] operands(ops[i])[k])
            < i
}

/// Whether one list of terms begins with another.
pub open spec fn extends(longer: Seq<Term>, shorter: Seq<Term>) -> bool {
    &&& shorter.len() <= longer.len()
    &&& forall|i: int| 0 <= i < shorter.len() ==> #[trigger] longer[i] == shorter[i]
}

impl Program {
    /// What the operations compute, one by one.
    pub open spec fn terms(&self) -> Seq<Term> {
        meanings(self.ops@)
    }

    /// All operands come earlier.
    pub open spec fn wf(&self) -> bool {
        is_ordered(self.ops@)
    }

    /// A list without operations.
    pub fn new() -> (program: Self)
        ensures
            program.wf(),
            program.terms().len() == 0,
            program.ops@.len() == 0,
    {
        Program { ops: Vec::new() }
    }

    /// Adds an operation, and gives its place.
    pub fn emit(&mut self, op: Op) -> (place: usize)
        requires
            old(self).wf(),
            forall|k: int|
                0 <= k < operands(op).len() ==> (#[trigger] operands(op)[k])
                    < old(self).terms().len(),
        ensures
            final(self).wf(),
            place == old(self).terms().len(),
            final(self).terms() == old(self).terms().push(meaning(op, old(self).terms())),
            final(self).ops@ == old(self).ops@.push(op),
    {
        let place: usize = self.ops.len();
        let ghost before = self.ops@;
        proof {
            lemma_as_many_meanings(before);
        }
        self.ops.push(op);
        assert(self.ops@.drop_last() =~= before);
        place
    }

    /// For each operation the last that takes it as an operand, or itself
    /// where none does. After that it is no longer needed.
    pub fn last_uses(&self) -> (uses: Vec<usize>)
        requires
            self.wf(),
        ensures
            uses@.len() == self.ops@.len(),
            forall|i: int|
                0 <= i < uses@.len() ==> #[trigger] is_last_use(self.ops@, i, uses@[i] as int),
    {
        let mut uses: Vec<usize> = Vec::new();
        let mut j: usize = 0;
        while j < self.ops.len()
            invariant
                self.wf(),
                j <= self.ops.len(),
                uses@.len() == j,
                forall|i: int|
                    0 <= i < j ==> #[trigger] is_last_use(
                        self.ops@.take(j as int),
                        i,
                        uses@[i] as int,
                    ),
            decreases self.ops.len() - j,
        {
            let ghost before = uses@;
            uses.push(j);
            let (first, second): (Option<usize>, Option<usize>) = operands_of(&self.ops[j]);
            if let Some(a) = first {
                assert(operands(self.ops@[j as int])[0] == a);
                uses[a] = j;
            }
            if let Some(b) = second {
                assert(operands(self.ops@[j as int])[1] == b);
                uses[b] = j;
            }
            proof {
                let shorter = self.ops@.take(j as int);
                let longer = self.ops@.take(j + 1);
                assert forall|i: int| 0 <= i < j + 1 implies #[trigger] is_last_use(
                    longer,
                    i,
                    uses@[i] as int,
                ) by {
                    lemma_last_use_of_one_more(
                        shorter,
                        self.ops@[j as int],
                        i,
                        if i < j {
                            before[i] as int
                        } else {
                            i
                        },
                    );
                    assert(longer =~= shorter.push(self.ops@[j as int]));
                    if i < j {
                        assert(is_last_use(shorter, i, before[i] as int));
                    }
                    assert(operands(self.ops@[j as int]).contains(i as usize) <==> (first == Some(
                        i as usize,
                    ) || second == Some(i as usize))) by {
                        let list = operands(self.ops@[j as int]);
                        if list.contains(i as usize) {
                            let k = choose|k: int| 0 <= k < list.len() && list[k] == i as usize;
                            assert(k == 0 || k == 1);
                        }
                    }
                }
            }
            j = j + 1;
        }
        assert(self.ops@.take(self.ops@.len() as int) =~= self.ops@);
        uses
    }
}

/// Whether an operation is the last to take another as an operand. One that is
/// never taken counts as its own last use.
pub open spec fn is_last_use(ops: Seq<Op>, i: int, last: int) -> bool {
    &&& i <= last < ops.len()
    &&& last == i || operands(ops[last]).contains(i as usize)
    &&& forall|j: int|
        last < j < ops.len() ==> !(#[trigger] operands(ops[j])).contains(i as usize)
}

proof fn lemma_last_use_of_one_more(ops: Seq<Op>, op: Op, i: int, last: int)
    requires
        0 <= i <= ops.len() <= usize::MAX,
        i < ops.len() ==> is_last_use(ops, i, last),
        i == ops.len() ==> last == i,
    ensures
        is_last_use(
            ops.push(op),
            i,
            if operands(op).contains(i as usize) {
                ops.len() as int
            } else {
                last
            },
        ),
{
    let more = ops.push(op);
    assert(more[ops.len() as int] == op);
    assert forall|j: int| last < j < ops.len() implies !(#[trigger] operands(more[j])).contains(
        i as usize,
    ) by {
        assert(more[j] == ops[j]);
    }
    if i < ops.len() {
        assert(more[last] == ops[last]);
    }
}

proof fn lemma_as_many_meanings(ops: Seq<Op>)
    ensures
        meanings(ops).len() == ops.len(),
    decreases ops.len(),
{
    if ops.len() > 0 {
        lemma_as_many_meanings(ops.drop_last());
    }
}

fn operands_of(op: &Op) -> (list: (Option<usize>, Option<usize>))
    ensures
        match list {
            (None, None) => operands(*op) == Seq::<usize>::empty(),
            (Some(a), None) => operands(*op) == seq![a],
            (Some(a), Some(b)) => operands(*op) == seq![a, b],
            (None, Some(_)) => false,
        },
{
    match op {
        Op::Input => (None, None),
        Op::Weight { id: _ } => (None, None),
        Op::MatMul { a, b } => (Some(*a), Some(*b)),
        Op::Sum { a, b } => (Some(*a), Some(*b)),
        Op::Difference { a, b } => (Some(*a), Some(*b)),
        Op::Product { a, b } => (Some(*a), Some(*b)),
        Op::Quotient { a, b } => (Some(*a), Some(*b)),
        Op::Swap { a, i: _, j: _ } => (Some(*a), None),
        Op::Reshape { a, dims: _ } => (Some(*a), None),
        Op::Slice { a, dim: _, start: _, end: _ } => (Some(*a), None),
        Op::Repeat { a, dim: _, times: _ } => (Some(*a), None),
        Op::Unsqueeze { a, dim: _ } => (Some(*a), None),
        Op::Squeeze { a, dim: _ } => (Some(*a), None),
        Op::Mean { a, dim: _ } => (Some(*a), None),
        Op::Softmax { a, dim: _ } => (Some(*a), None),
        Op::Gelu { a } => (Some(*a), None),
        Op::Relu { a } => (Some(*a), None),
        Op::Sigmoid { a } => (Some(*a), None),
        Op::Square { a } => (Some(*a), None),
        Op::Root { a } => (Some(*a), None),
        Op::Plus { a, constant: _ } => (Some(*a), None),
        Op::Scale { a, by: _ } => (Some(*a), None),
    }
}

/// The shapes of the input and of the parameters.
pub ghost struct Shapes {
    pub input: Seq<nat>,
    pub weights: Seq<Seq<nat>>,
}

/// The number of values of a shape.
pub open spec fn size(dims: Seq<nat>) -> nat
    decreases dims.len(),
{
    if dims.len() == 0 {
        1
    } else {
        size(dims.drop_last()) * dims.last()
    }
}

/// Whether no dimension is zero.
pub open spec fn all_positive(dims: Seq<nat>) -> bool {
    forall|i: int| 0 <= i < dims.len() ==> #[trigger] dims[i] > 0
}

/// The shape of values combined one by one, where the shapes agree but for
/// dimensions of one.
pub open spec fn broadcast_shape(a: Seq<nat>, b: Seq<nat>) -> Option<Seq<nat>> {
    if a.len() == b.len() && forall|i: int|
        0 <= i < a.len() ==> #[trigger] a[i] == b[i] || a[i] == 1 || b[i] == 1 {
        Some(
            Seq::new(
                a.len(),
                |i: int|
                    if a[i] == 1 {
                        b[i]
                    } else {
                        a[i]
                    },
            ),
        )
    } else {
        None
    }
}

/// The shape of a matrix product.
pub open spec fn product_shape(a: Seq<nat>, b: Seq<nat>) -> Option<Seq<nat>> {
    let n = a.len() as int;
    if n == b.len() && n >= 2 && a[n - 1] == b[n - 2] && forall|i: int|
        0 <= i < n - 2 ==> #[trigger] a[i] == b[i] {
        Some(a.update(n - 1, b[n - 1]))
    } else {
        None
    }
}

/// The shape of what a term computes, or nothing where an operation in it
/// meets shapes that it cannot combine.
pub open spec fn shape(term: Term, given: Shapes) -> Option<Seq<nat>>
    decreases term,
{
    match term {
        Term::Input => Some(given.input),
        Term::Weight(id) => if id < given.weights.len() {
            Some(given.weights[id as int])
        } else {
            None
        },
        Term::MatMul(a, b) => match (shape(*a, given), shape(*b, given)) {
            (Some(x), Some(y)) => product_shape(x, y),
            _ => None,
        },
        Term::Sum(a, b) => match (shape(*a, given), shape(*b, given)) {
            (Some(x), Some(y)) => broadcast_shape(x, y),
            _ => None,
        },
        Term::Difference(a, b) => match (shape(*a, given), shape(*b, given)) {
            (Some(x), Some(y)) => broadcast_shape(x, y),
            _ => None,
        },
        Term::Product(a, b) => match (shape(*a, given), shape(*b, given)) {
            (Some(x), Some(y)) => broadcast_shape(x, y),
            _ => None,
        },
        Term::Quotient(a, b) => match (shape(*a, given), shape(*b, given)) {
            (Some(x), Some(y)) => broadcast_shape(x, y),
            _ => None,
        },
        Term::Swap(a, i, j) => match shape(*a, given) {
            Some(x) => if i < x.len() && j < x.len() {
                Some(x.update(i as int, x[j as int]).update(j as int, x[i as int]))
            } else {
                None
            },
            None => None,
        },
        Term::Reshape(a, dims) => match shape(*a, given) {
            Some(x) => if size(x) == size(dims) {
                Some(dims)
            } else {
                None
            },
            None => None,
        },
        Term::Slice(a, dim, start, end) => match shape(*a, given) {
            Some(x) => if dim < x.len() && start < end <= x[dim as int] && all_positive(
                x.take(dim as int),
            ) {
                Some(x.update(dim as int, (end - start) as nat))
            } else {
                None
            },
            None => None,
        },
        Term::Repeat(a, dim, times) => match shape(*a, given) {
            Some(x) => if dim < x.len() && x[dim as int] == 1 {
                Some(x.update(dim as int, times))
            } else {
                None
            },
            None => None,
        },
        Term::Unsqueeze(a, dim) => match shape(*a, given) {
            Some(x) => if dim <= x.len() {
                Some(x.insert(dim as int, 1))
            } else {
                None
            },
            None => None,
        },
        Term::Squeeze(a, dim) => match shape(*a, given) {
            Some(x) => if dim < x.len() && x[dim as int] == 1 {
                Some(x.remove(dim as int))
            } else {
                None
            },
            None => None,
        },
        Term::Mean(a, dim) => match shape(*a, given) {
            Some(x) => if dim < x.len() {
                Some(x.update(dim as int, 1))
            } else {
                None
            },
            None => None,
        },
        Term::Softmax(a, dim) => match shape(*a, given) {
            Some(x) => if dim < x.len() {
                Some(x)
            } else {
                None
            },
            None => None,
        },
        Term::Gelu(a) => shape(*a, given),
        Term::Relu(a) => shape(*a, given),
        Term::Sigmoid(a) => shape(*a, given),
        Term::Square(a) => shape(*a, given),
        Term::Root(a) => shape(*a, given),
        Term::Plus(a, _) => shape(*a, given),
        Term::Scale(a, _) => shape(*a, given),
    }
}

/// An operation computes from its operands and from nothing else: what it computes
/// of two lists of earlier operations is the same exactly where its operands are.
pub proof fn law_operations_take_their_operands(op: Op, t: Seq<Term>, u: Seq<Term>)
    ensures
        meaning(op, t) == meaning(op, u) <==> forall|k: int|
            0 <= k < operands(op).len() ==> t[#[trigger] operands(op)[k] as int]
                == u[operands(op)[k] as int],
{
    let list = operands(op);
    if forall|k: int|
        0 <= k < list.len() ==> t[#[trigger] list[k] as int] == u[list[k] as int] {
        if list.len() > 0 {
            assert(t[list[0] as int] == u[list[0] as int]);
        }
        if list.len() > 1 {
            assert(t[list[1] as int] == u[list[1] as int]);
        }
    }
    if meaning(op, t) == meaning(op, u) {
        assert forall|k: int| 0 <= k < list.len() implies t[#[trigger] list[k] as int]
            == u[list[k] as int] by {
            assert(k == 0 || k == 1);
        }
    }
}

/// After its last use an operation can be forgotten: no later one computes
/// anything else where something else stands in its place. At its last use it
/// cannot, unless none takes it.
pub proof fn law_operations_are_needed_until_their_last_use(
    ops: Seq<Op>,
    i: int,
    last: int,
    t: Seq<Term>,
    other: Term,
)
    requires
        0 <= i < ops.len() <= usize::MAX,
        t.len() == ops.len(),
        is_ordered(ops),
        is_last_use(ops, i, last),
        other != t[i],
    ensures
        i <= last < ops.len(),
        forall|j: int|
            last < j < ops.len() ==> meaning(#[trigger] ops[j], t.update(i, other)) == meaning(
                ops[j],
                t,
            ),
        last > i ==> meaning(ops[last], t.update(i, other)) != meaning(ops[last], t),
{
    let u = t.update(i, other);
    assert forall|j: int| last < j < ops.len() implies meaning(#[trigger] ops[j], u) == meaning(
        ops[j],
        t,
    ) by {
        let list = operands(ops[j]);
        assert(!list.contains(i as usize));
        assert forall|k: int| 0 <= k < list.len() implies u[#[trigger] list[k] as int]
            == t[list[k] as int] by {
            assert(list.contains(list[k]));
            assert(operands(ops[j])[k] < j);
        }
        law_operations_take_their_operands(ops[j], u, t);
    }
    if last > i {
        let list = operands(ops[last]);
        let k = choose|k: int| 0 <= k < list.len() && list[k] == i as usize;
        assert(u[list[k] as int] != t[list[k] as int]);
        law_operations_take_their_operands(ops[last], u, t);
    }
}

/// Operations of one or two operands compute what they are named for, of the first
/// and of the second.
pub proof fn law_operations_compute_by_name(
    t: Seq<Term>,
    a: usize,
    b: usize,
    x: Box<Term>,
    y: Box<Term>,
)
    requires
        *x == t[a as int],
        *y == t[b as int],
    ensures
        meaning((Op::MatMul { a, b }), t) == Term::MatMul(x, y),
        meaning((Op::Sum { a, b }), t) == Term::Sum(x, y),
        meaning((Op::Difference { a, b }), t) == Term::Difference(x, y),
        meaning((Op::Product { a, b }), t) == Term::Product(x, y),
        meaning((Op::Quotient { a, b }), t) == Term::Quotient(x, y),
        meaning((Op::Gelu { a }), t) == Term::Gelu(x),
        meaning((Op::Relu { a }), t) == Term::Relu(x),
        meaning((Op::Sigmoid { a }), t) == Term::Sigmoid(x),
        meaning((Op::Square { a }), t) == Term::Square(x),
        meaning((Op::Root { a }), t) == Term::Root(x),
{
}

/// Operations on dimensions compute what they are named for, along the dimensions
/// that they are given.
pub proof fn law_operations_keep_their_dimensions(
    t: Seq<Term>,
    a: usize,
    x: Box<Term>,
    dims: Vec<usize>,
    i: usize,
    j: usize,
    k: usize,
    constant: u64,
)
    requires
        *x == t[a as int],
    ensures
        meaning(Op::Input, t) == Term::Input,
        meaning((Op::Weight { id: i }), t) == Term::Weight(i as nat),
        meaning((Op::Swap { a, i, j }), t) == Term::Swap(x, i as nat, j as nat),
        meaning((Op::Reshape { a, dims }), t) == Term::Reshape(
            x,
            Seq::new(dims@.len(), |d: int| dims@[d] as nat),
        ),
        meaning((Op::Slice { a, dim: i, start: j, end: k }), t) == Term::Slice(
            x,
            i as nat,
            j as nat,
            k as nat,
        ),
        meaning((Op::Repeat { a, dim: i, times: j }), t) == Term::Repeat(x, i as nat, j as nat),
        meaning((Op::Unsqueeze { a, dim: i }), t) == Term::Unsqueeze(x, i as nat),
        meaning((Op::Squeeze { a, dim: i }), t) == Term::Squeeze(x, i as nat),
        meaning((Op::Mean { a, dim: i }), t) == Term::Mean(x, i as nat),
        meaning((Op::Softmax { a, dim: i }), t) == Term::Softmax(x, i as nat),
        meaning((Op::Plus { a, constant }), t) == Term::Plus(x, constant),
        meaning((Op::Scale { a, by: i }), t) == Term::Scale(x, i as nat),
{
    assert(naturals(dims@) =~= Seq::new(dims@.len(), |d: int| dims@[d] as nat));
}

} // verus!
