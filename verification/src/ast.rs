//! The runtime data model: tagged values, the operations a program is made
//! of, and their ghost-level mirrors used by the specifications.
use vstd::prelude::*;
use crate::rational::Rat;

verus! {

/// Fatal outcomes surfaced by `run_with_io`.
#[derive(Debug, Clone, Copy, PartialEq, Eq)]
pub enum BabbleError {
    /// A division with an exact zero divisor, in `DIV` or in the denominator
    /// run of a number literal.
    ArithmeticFailure,
    /// A register-select opcode whose selector maps outside the 26 registers.
    RegisterOutOfRange,
    /// The step budget of the engine was exhausted before the program ended.
    StepLimit,
}

/// Recoverable diagnostics, reported aside from the program's own output.
#[derive(Debug, Clone, Copy, PartialEq, Eq)]
pub enum Diag {
    /// `PUT` skipped an array element that is not a number.
    NonNumericElement,
    /// `PUT` was applied to a block, which emits nothing.
    BlockOutput,
}

/// A runtime value: an exact rational, an array of values, or a program block.
#[derive(Debug, PartialEq, Eq)]
pub enum Value {
    Num(Rat),
    Arr(Vec<Value>),
    Block(Vec<Op>),
}

/// One executable operation, fixed at parse time.
#[derive(Debug, PartialEq, Eq)]
pub enum Op {
    /// Set the primary cursor to the letter index of the selector character.
    SelPrimary(char),
    SelSecondary(char),
    SelResult(char),
    SwapPS,
    SwapPR,
    SwapSR,
    /// Store a literal value into the register the primary cursor selects.
    Lit(Value),
    Add,
    Sub,
    Mul,
    Div,
    Whl,
    Put,
    Nop,
}

/// Ghost mirror of `Value`: rationals as numerator/denominator pairs,
/// sequences in place of vectors.
pub enum SpecVal {
    Num(int, int),
    Arr(Seq<SpecVal>),
    Block(Seq<SpecOp>),
}

/// Ghost mirror of `Op`.
pub enum SpecOp {
    SelPrimary(char),
    SelSecondary(char),
    SelResult(char),
    SwapPS,
    SwapPR,
    SwapSR,
    Lit(SpecVal),
    Add,
    Sub,
    Mul,
    Div,
    Whl,
    Put,
    Nop,
}

pub open spec fn val_view(v: Value) -> SpecVal
    decreases v,
    via val_view_dec
{
    match v {
        Value::Num(r) => SpecVal::Num(r.num(), r.den()),
        Value::Arr(es) => SpecVal::Arr(vals_view(es@)),
        Value::Block(ops) => SpecVal::Block(ops_view(ops@)),
    }
}

pub open spec fn vals_view(s: Seq<Value>) -> Seq<SpecVal>
    decreases s,
    via vals_view_dec
{
    if s.len() == 0 {
        Seq::empty()
    } else {
        seq![val_view(s[0])] + vals_view(s.drop_first())
    }
}

pub open spec fn op_view(op: Op) -> SpecOp
    decreases op,
    via op_view_dec
{
    match op {
        Op::SelPrimary(c) => SpecOp::SelPrimary(c),
        Op::SelSecondary(c) => SpecOp::SelSecondary(c),
        Op::SelResult(c) => SpecOp::SelResult(c),
        Op::SwapPS => SpecOp::SwapPS,
        Op::SwapPR => SpecOp::SwapPR,
        Op::SwapSR => SpecOp::SwapSR,
        Op::Lit(v) => SpecOp::Lit(val_view(v)),
        Op::Add => SpecOp::Add,
        Op::Sub => SpecOp::Sub,
        Op::Mul => SpecOp::Mul,
        Op::Div => SpecOp::Div,
        Op::Whl => SpecOp::Whl,
        Op::Put => SpecOp::Put,
        Op::Nop => SpecOp::Nop,
    }
}

pub open spec fn ops_view(s: Seq<Op>) -> Seq<SpecOp>
    decreases s,
    via ops_view_dec
{
    if s.len() == 0 {
        Seq::empty()
    } else {
        seq![op_view(s[0])] + ops_view(s.drop_first())
    }
}

#[via_fn]
proof fn val_view_dec(v: Value) {
    broadcast use vstd::std_specs::vec::group_vec_axioms;

    match v {
        Value::Arr(es) => {
            assert(decreases_to!(v => es));
            assert(decreases_to!(es => es@));
        }
        Value::Block(ops) => {
            assert(decreases_to!(v => ops));
            assert(decreases_to!(ops => ops@));
        }
        _ => {}
    }
}

#[via_fn]
proof fn vals_view_dec(s: Seq<Value>) {
    broadcast use vstd::seq::group_seq_axioms;

    if s.len() > 0 {
        assert(decreases_to!(s => s[0]));
    }
}

#[via_fn]
proof fn op_view_dec(op: Op) {
    match op {
        Op::Lit(v) => {
            assert(decreases_to!(op => v));
        }
        _ => {}
    }
}

#[via_fn]
proof fn ops_view_dec(s: Seq<Op>) {
    broadcast use vstd::seq::group_seq_axioms;

    if s.len() > 0 {
        assert(decreases_to!(s => s[0]));
    }
}

/// Well-formedness of runtime values: every rational in canonical form.
pub open spec fn val_inv(v: Value) -> bool
    decreases v,
    via val_inv_dec
{
    match v {
        Value::Num(r) => r.inv(),
        Value::Arr(es) => vals_inv(es@),
        Value::Block(ops) => ops_inv(ops@),
    }
}

pub open spec fn vals_inv(s: Seq<Value>) -> bool
    decreases s,
    via vals_inv_dec
{
    if s.len() == 0 {
        true
    } else {
        val_inv(s[0]) && vals_inv(s.drop_first())
    }
}

pub open spec fn op_inv(op: Op) -> bool
    decreases op,
    via op_inv_dec
{
    match op {
        Op::Lit(v) => val_inv(v),
        _ => true,
    }
}

pub open spec fn ops_inv(s: Seq<Op>) -> bool
    decreases s,
    via ops_inv_dec
{
    if s.len() == 0 {
        true
    } else {
        op_inv(s[0]) && ops_inv(s.drop_first())
    }
}

#[via_fn]
proof fn val_inv_dec(v: Value) {
    broadcast use vstd::std_specs::vec::group_vec_axioms;

    match v {
        Value::Arr(es) => {
            assert(decreases_to!(v => es));
            assert(decreases_to!(es => es@));
        }
        Value::Block(ops) => {
            assert(decreases_to!(v => ops));
            assert(decreases_to!(ops => ops@));
        }
        _ => {}
    }
}

#[via_fn]
proof fn vals_inv_dec(s: Seq<Value>) {
    broadcast use vstd::seq::group_seq_axioms;

    if s.len() > 0 {
        assert(decreases_to!(s => s[0]));
    }
}

#[via_fn]
proof fn op_inv_dec(op: Op) {
    match op {
        Op::Lit(v) => {
            assert(decreases_to!(op => v));
        }
        _ => {}
    }
}

#[via_fn]
proof fn ops_inv_dec(s: Seq<Op>) {
    broadcast use vstd::seq::group_seq_axioms;

    if s.len() > 0 {
        assert(decreases_to!(s => s[0]));
    }
}

/// Pointwise reading of `vals_view`.
pub proof fn lemma_vals_view(s: Seq<Value>)
    ensures
        vals_view(s).len() == s.len(),
        forall|i: int| 0 <= i < s.len() ==> vals_view(s)[i] == val_view(s[i]),
    decreases s.len(),
{
    if s.len() > 0 {
        lemma_vals_view(s.drop_first());
    }
}

/// Pointwise reading of `ops_view`.
pub proof fn lemma_ops_view(s: Seq<Op>)
    ensures
        ops_view(s).len() == s.len(),
        forall|i: int| 0 <= i < s.len() ==> ops_view(s)[i] == op_view(s[i]),
    decreases s.len(),
{
    if s.len() > 0 {
        lemma_ops_view(s.drop_first());
    }
}

/// Pointwise reading of `vals_inv`.
pub proof fn lemma_vals_inv(s: Seq<Value>)
    ensures
        vals_inv(s) <==> (forall|i: int| 0 <= i < s.len() ==> val_inv(s[i])),
    decreases s.len(),
{
    if s.len() > 0 {
        lemma_vals_inv(s.drop_first());
        assert forall|i: int| 0 <= i < s.len() && vals_inv(s) implies val_inv(s[i]) by {
            if i > 0 {
                assert(s.drop_first()[i - 1] == s[i]);
            }
        }
    }
}

/// Pointwise reading of `ops_inv`.
pub proof fn lemma_ops_inv(s: Seq<Op>)
    ensures
        ops_inv(s) <==> (forall|i: int| 0 <= i < s.len() ==> op_inv(s[i])),
    decreases s.len(),
{
    if s.len() > 0 {
        lemma_ops_inv(s.drop_first());
        assert forall|i: int| 0 <= i < s.len() && ops_inv(s) implies op_inv(s[i]) by {
            if i > 0 {
                assert(s.drop_first()[i - 1] == s[i]);
            }
        }
    }
}

/// Truthiness: the rule that turns any value into a condition.
pub open spec fn truthy(sv: SpecVal) -> bool {
    match sv {
        SpecVal::Num(n, d) => n != 0,
        SpecVal::Arr(es) => es.len() > 0,
        SpecVal::Block(ops) => ops.len() > 0,
    }
}

/// The numeric reading of a value: its pair for numbers, zero otherwise.
pub open spec fn num_of(sv: SpecVal) -> (int, int) {
    match sv {
        SpecVal::Num(n, d) => (n, d),
        _ => (0, 1),
    }
}

/// The block reading of a value: its program for blocks, empty otherwise.
pub open spec fn block_of(sv: SpecVal) -> Seq<SpecOp> {
    match sv {
        SpecVal::Block(ops) => ops,
        _ => Seq::empty(),
    }
}

impl Value {
    /// Deep copy; blocks and arrays are duplicated element by element.
    pub fn duplicate(&self) -> (r: Value)
        requires
            val_inv(*self),
        ensures
            val_view(r) == val_view(*self),
            val_inv(r),
        decreases *self,
    {
        match self {
            Value::Num(rat) => Value::Num(rat.copy()),
            Value::Arr(es) => {
                proof {
                    assert(decreases_to!(*self => *es));
                }
                let out = dup_vals(es);
                Value::Arr(out)
            }
            Value::Block(ops) => {
                proof {
                    assert(decreases_to!(*self => *ops));
                }
                let out = dup_ops(ops);
                Value::Block(out)
            }
        }
    }
}

/// Deep copy of a value vector.
pub fn dup_vals(es: &Vec<Value>) -> (r: Vec<Value>)
    requires
        vals_inv(es@),
    ensures
        vals_view(r@) == vals_view(es@),
        vals_inv(r@),
        r@.len() == es@.len(),
    decreases *es,
{
    proof {
        broadcast use vstd::std_specs::vec::group_vec_axioms;
        broadcast use vstd::seq::group_seq_axioms;

        lemma_vals_inv(es@);
        lemma_vals_view(es@);
    }
    let mut out: Vec<Value> = Vec::new();
    let mut j: usize = 0;
    while j < es.len()
        invariant
            j <= es.len(),
            vals_inv(es@),
            out@.len() == j,
            vals_inv(out@),
            vals_view(out@) == vals_view(es@).take(j as int),
            forall|i: int| 0 <= i < es@.len() ==> val_inv(es@[i]),
            forall|i: int| 0 <= i < es@.len() ==> vals_view(es@)[i] == val_view(es@[i]),
            vals_view(es@).len() == es@.len(),
        decreases es.len() - j,
    {
        proof {
            broadcast use vstd::std_specs::vec::group_vec_axioms;
            broadcast use vstd::seq::group_seq_axioms;

            assert(decreases_to!(*es => es@));
            assert(decreases_to!(es@ => es@[j as int]));
        }
        let e = es[j].duplicate();
        proof {
            lemma_vals_snoc(out@, e);
            assert(vals_view(es@).take(j as int).push(val_view(e)) =~= vals_view(es@).take(
                j as int + 1,
            ));
        }
        out.push(e);
        j += 1;
    }
    proof {
        assert(vals_view(es@).take(es@.len() as int) =~= vals_view(es@));
    }
    out
}

/// Updating one element updates the view pointwise and keeps `vals_inv`.
pub proof fn lemma_vals_update(s: Seq<Value>, i: int, v: Value)
    requires
        0 <= i < s.len(),
    ensures
        vals_view(s.update(i, v)) == vals_view(s).update(i, val_view(v)),
        vals_inv(s) && val_inv(v) ==> vals_inv(s.update(i, v)),
    decreases s.len(),
{
    let su = s.update(i, v);
    lemma_vals_view(s);
    lemma_vals_view(su);
    lemma_vals_inv(s);
    lemma_vals_inv(su);
    assert(vals_view(su) =~= vals_view(s).update(i, val_view(v)));
}

/// Appending one element to a value sequence extends its view and keeps `vals_inv`.
pub proof fn lemma_vals_snoc(s: Seq<Value>, v: Value)
    ensures
        vals_view(s.push(v)) == vals_view(s).push(val_view(v)),
        vals_inv(s.push(v)) == (vals_inv(s) && val_inv(v)),
    decreases s.len(),
{
    let sp = s.push(v);
    assert(vals_view(Seq::<Value>::empty()) =~= Seq::<SpecVal>::empty());
    assert(vals_inv(Seq::<Value>::empty()));
    if s.len() == 0 {
        assert(sp[0] == v);
        assert(sp.drop_first() =~= Seq::<Value>::empty());
        assert(vals_view(sp) =~= vals_view(s).push(val_view(v)));
        assert(vals_inv(sp) == (vals_inv(s) && val_inv(v)));
    } else {
        lemma_vals_snoc(s.drop_first(), v);
        assert(sp[0] == s[0]);
        assert(sp.drop_first() =~= s.drop_first().push(v));
        assert(vals_view(sp) =~= vals_view(s).push(val_view(v)));
        assert(vals_inv(sp) == (vals_inv(s) && val_inv(v)));
    }
}

/// Appending one operation extends `ops_view` and keeps `ops_inv`.
pub proof fn lemma_ops_snoc(s: Seq<Op>, op: Op)
    ensures
        ops_view(s.push(op)) == ops_view(s).push(op_view(op)),
        ops_inv(s.push(op)) == (ops_inv(s) && op_inv(op)),
    decreases s.len(),
{
    let sp = s.push(op);
    assert(ops_view(Seq::<Op>::empty()) =~= Seq::<SpecOp>::empty());
    assert(ops_inv(Seq::<Op>::empty()));
    if s.len() == 0 {
        assert(sp[0] == op);
        assert(sp.drop_first() =~= Seq::<Op>::empty());
        assert(ops_view(sp) =~= ops_view(s).push(op_view(op)));
        assert(ops_inv(sp) == (ops_inv(s) && op_inv(op)));
    } else {
        lemma_ops_snoc(s.drop_first(), op);
        assert(sp[0] == s[0]);
        assert(sp.drop_first() =~= s.drop_first().push(op));
        assert(ops_view(sp) =~= ops_view(s).push(op_view(op)));
        assert(ops_inv(sp) == (ops_inv(s) && op_inv(op)));
    }
}

impl Op {
    /// Deep copy of one operation.
    pub fn duplicate(&self) -> (r: Op)
        requires
            op_inv(*self),
        ensures
            op_view(r) == op_view(*self),
            op_inv(r),
        decreases *self,
    {
        match self {
            Op::SelPrimary(c) => Op::SelPrimary(*c),
            Op::SelSecondary(c) => Op::SelSecondary(*c),
            Op::SelResult(c) => Op::SelResult(*c),
            Op::SwapPS => Op::SwapPS,
            Op::SwapPR => Op::SwapPR,
            Op::SwapSR => Op::SwapSR,
            Op::Lit(v) => {
                proof {
                    assert(decreases_to!(*self => *v));
                }
                Op::Lit(v.duplicate())
            }
            Op::Add => Op::Add,
            Op::Sub => Op::Sub,
            Op::Mul => Op::Mul,
            Op::Div => Op::Div,
            Op::Whl => Op::Whl,
            Op::Put => Op::Put,
            Op::Nop => Op::Nop,
        }
    }
}

/// Deep copy of an operation sequence.
pub fn dup_ops(ops: &Vec<Op>) -> (r: Vec<Op>)
    requires
        ops_inv(ops@),
    ensures
        ops_view(r@) == ops_view(ops@),
        ops_inv(r@),
        r@.len() == ops@.len(),
    decreases *ops,
{
    proof {
        broadcast use vstd::std_specs::vec::group_vec_axioms;
        broadcast use vstd::seq::group_seq_axioms;

        lemma_ops_inv(ops@);
        lemma_ops_view(ops@);
    }
    let mut out: Vec<Op> = Vec::new();
    let mut j: usize = 0;
    while j < ops.len()
        invariant
            j <= ops.len(),
            ops_inv(ops@),
            out@.len() == j,
            ops_inv(out@),
            ops_view(out@) == ops_view(ops@).take(j as int),
            forall|i: int| 0 <= i < ops@.len() ==> op_inv(ops@[i]),
            forall|i: int| 0 <= i < ops@.len() ==> ops_view(ops@)[i] == op_view(ops@[i]),
            ops_view(ops@).len() == ops@.len(),
        decreases ops.len() - j,
    {
        proof {
            broadcast use vstd::std_specs::vec::group_vec_axioms;
            broadcast use vstd::seq::group_seq_axioms;

            assert(decreases_to!(*ops => ops@));
            assert(decreases_to!(ops@ => ops@[j as int]));
        }
        let e = ops[j].duplicate();
        proof {
            lemma_ops_snoc(out@, e);
            assert(ops_view(out@).push(op_view(e)) =~= ops_view(ops@).take(j as int + 1));
        }
        out.push(e);
        j += 1;
    }
    proof {
        assert(ops_view(ops@).take(ops@.len() as int) =~= ops_view(ops@));
    }
    out
}

} // verus!
