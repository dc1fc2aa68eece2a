//! The execution engine: the 26-register file, the three cursors, and the
//! machine that runs a parsed program. The semantics is a ghost step machine
//! over a stack of frames; the executable engine is proved to take exactly
//! one machine step per iteration.
use vstd::prelude::*;
use vstd::math::abs;
use crate::ast::{
    Value, Op, SpecVal, SpecOp, BabbleError, Diag, val_view, val_inv, op_view, op_inv, ops_view,
    ops_inv, vals_view, vals_inv, lemma_vals_view, lemma_vals_inv, lemma_vals_snoc,
    lemma_vals_update, lemma_ops_view, lemma_ops_inv, truthy, num_of, block_of, dup_ops,
};
use crate::rational::{Rat, add_val, sub_val, mul_val, div_val, rat_add, rat_sub, rat_mul, rat_div};
use crate::bignum::{Big, big_divmod};
use crate::parser::{sp_program, ProgStep};
use crate::stream::kept;

verus! {

/// The interpreter: 26 registers, each holding a value, and the three cursor
/// indices that select which registers operations read and write.
pub struct Babble {
    pub primary: usize,
    pub secondary: usize,
    pub result: usize,
    pub vars: Vec<Value>,
}

/// One pending piece of work: a program with its instruction cursor, or one
/// of a loop's two phase boundaries. The loop frames carry nothing: the
/// condition and body programs are read from the registers the cursors
/// select at the moment each phase starts.
pub enum Frame {
    Run(Seq<SpecOp>, nat),
    LoopCond,
    LoopTest,
}

/// A machine configuration: cursors, registers, output, diagnostics, the
/// failure flag and the frame stack.
#[verifier::ext_equal]
pub struct MState {
    pub p: int,
    pub s: int,
    pub r: int,
    pub regs: Seq<SpecVal>,
    pub out: Seq<u8>,
    pub diags: Seq<Diag>,
    pub failed: Option<BabbleError>,
    pub stack: Seq<Frame>,
}

/// A configuration that can step no further: failed, or nothing left to run.
pub open spec fn mdone(c: MState) -> bool {
    c.failed is Some || c.stack.len() == 0
}

/// Decimal digits of a natural number, most significant first, as bytes.
pub open spec fn dec_digits(n: nat) -> Seq<u8>
    decreases n,
{
    if n < 10 {
        seq![(48 + n) as u8]
    } else {
        dec_digits(n / 10).push((48 + n % 10) as u8)
    }
}

/// The canonical text of an exact rational: sign, numerator digits, and the
/// denominator after a slash when it is not one.
pub open spec fn render_rat(n: int, d: int) -> Seq<u8> {
    (if n < 0 {
        seq![45u8]
    } else {
        Seq::empty()
    }) + dec_digits(abs(n)) + (if d != 1 {
        seq![47u8] + dec_digits(d as nat)
    } else {
        Seq::empty()
    })
}

/// Little-endian base-256 expansion of a natural number; zero is empty.
pub open spec fn bytes_of(m: nat) -> Seq<u8>
    decreases m,
{
    if m == 0 {
        Seq::empty()
    } else {
        seq![(m % 256) as u8] + bytes_of(m / 256)
    }
}

/// The integer part of the magnitude of `n / d`.
pub open spec fn trunc_mag(n: int, d: int) -> nat {
    (abs(n) as int / d) as nat
}

/// Bytes one array element emits: the expansion of a number, nothing else.
pub open spec fn elem_out(sv: SpecVal) -> Seq<u8> {
    match sv {
        SpecVal::Num(n, d) => bytes_of(trunc_mag(n, d)),
        _ => Seq::empty(),
    }
}

/// Diagnostic one array element raises: a skip for anything not a number.
pub open spec fn elem_diags(sv: SpecVal) -> Seq<Diag> {
    match sv {
        SpecVal::Num(n, d) => Seq::empty(),
        _ => seq![Diag::NonNumericElement],
    }
}

pub open spec fn arr_out(es: Seq<SpecVal>) -> Seq<u8>
    decreases es.len(),
{
    if es.len() == 0 {
        Seq::empty()
    } else {
        elem_out(es[0]) + arr_out(es.drop_first())
    }
}

pub open spec fn arr_diags(es: Seq<SpecVal>) -> Seq<Diag>
    decreases es.len(),
{
    if es.len() == 0 {
        Seq::empty()
    } else {
        elem_diags(es[0]) + arr_diags(es.drop_first())
    }
}

/// What `PUT` writes to the output for one value.
pub open spec fn put_out(sv: SpecVal) -> Seq<u8> {
    match sv {
        SpecVal::Num(n, d) => render_rat(n, d),
        SpecVal::Arr(es) => arr_out(es),
        SpecVal::Block(_) => Seq::empty(),
    }
}

/// What `PUT` reports as diagnostics for one value.
pub open spec fn put_diags(sv: SpecVal) -> Seq<Diag> {
    match sv {
        SpecVal::Num(n, d) => Seq::empty(),
        SpecVal::Arr(es) => arr_diags(es),
        SpecVal::Block(_) => seq![Diag::BlockOutput],
    }
}

/// Effect of one operation on a configuration whose topmost frame has
/// already advanced past it.
pub open spec fn apply_op(c: MState, op: SpecOp) -> MState {
    match op {
        SpecOp::SelPrimary(ch) => {
            let ix = (ch as u32) as int - 65;
            if 0 <= ix < 26 {
                MState { p: ix, ..c }
            } else {
                MState { failed: Some(BabbleError::RegisterOutOfRange), ..c }
            }
        }
        SpecOp::SelSecondary(ch) => {
            let ix = (ch as u32) as int - 65;
            if 0 <= ix < 26 {
                MState { s: ix, ..c }
            } else {
                MState { failed: Some(BabbleError::RegisterOutOfRange), ..c }
            }
        }
        SpecOp::SelResult(ch) => {
            let ix = (ch as u32) as int - 65;
            if 0 <= ix < 26 {
                MState { r: ix, ..c }
            } else {
                MState { failed: Some(BabbleError::RegisterOutOfRange), ..c }
            }
        }
        SpecOp::SwapPS => MState {
            regs: c.regs.update(c.p, c.regs[c.s]).update(c.s, c.regs[c.p]),
            ..c
        },
        SpecOp::SwapPR => MState {
            regs: c.regs.update(c.p, c.regs[c.r]).update(c.r, c.regs[c.p]),
            ..c
        },
        SpecOp::SwapSR => MState {
            regs: c.regs.update(c.s, c.regs[c.r]).update(c.r, c.regs[c.s]),
            ..c
        },
        SpecOp::Lit(sv) => MState { regs: c.regs.update(c.p, sv), ..c },
        SpecOp::Add => {
            let a = num_of(c.regs[c.p]);
            let b = num_of(c.regs[c.s]);
            let v = add_val(a.0, a.1, b.0, b.1);
            MState { regs: c.regs.update(c.r, SpecVal::Num(v.0, v.1)), ..c }
        }
        SpecOp::Sub => {
            let a = num_of(c.regs[c.p]);
            let b = num_of(c.regs[c.s]);
            let v = sub_val(a.0, a.1, b.0, b.1);
            MState { regs: c.regs.update(c.r, SpecVal::Num(v.0, v.1)), ..c }
        }
        SpecOp::Mul => {
            let a = num_of(c.regs[c.p]);
            let b = num_of(c.regs[c.s]);
            let v = mul_val(a.0, a.1, b.0, b.1);
            MState { regs: c.regs.update(c.r, SpecVal::Num(v.0, v.1)), ..c }
        }
        SpecOp::Div => {
            let a = num_of(c.regs[c.p]);
            let b = num_of(c.regs[c.s]);
            if b.0 == 0 {
                MState { failed: Some(BabbleError::ArithmeticFailure), ..c }
            } else {
                let v = div_val(a.0, a.1, b.0, b.1);
                MState { regs: c.regs.update(c.r, SpecVal::Num(v.0, v.1)), ..c }
            }
        }
        SpecOp::Whl => MState { stack: c.stack.push(Frame::LoopCond), ..c },
        SpecOp::Put => MState {
            out: c.out + put_out(c.regs[c.p]),
            diags: c.diags + put_diags(c.regs[c.p]),
            ..c
        },
        SpecOp::Nop => c,
    }
}

/// One step of the machine.
pub open spec fn step(c: MState) -> MState {
    if mdone(c) {
        c
    } else {
        match c.stack.last() {
            Frame::LoopCond => {
                let cond = block_of(c.regs[c.p]);
                MState {
                    stack: c.stack.update(c.stack.len() - 1, Frame::LoopTest).push(
                        Frame::Run(cond, 0),
                    ),
                    ..c
                }
            }
            Frame::LoopTest => {
                if truthy(c.regs[c.r]) {
                    let body = block_of(c.regs[c.s]);
                    MState {
                        stack: c.stack.update(c.stack.len() - 1, Frame::LoopCond).push(
                            Frame::Run(body, 0),
                        ),
                        ..c
                    }
                } else {
                    MState { stack: c.stack.drop_last(), ..c }
                }
            }
            Frame::Run(ops, i) => {
                if i >= ops.len() {
                    MState { stack: c.stack.drop_last(), ..c }
                } else {
                    let c1 = MState {
                        stack: c.stack.update(c.stack.len() - 1, Frame::Run(ops, i + 1)),
                        ..c
                    };
                    apply_op(c1, ops[i as int])
                }
            }
        }
    }
}

/// The machine after `n` steps.
pub open spec fn run_steps(c: MState, n: nat) -> MState
    decreases n,
{
    if n == 0 {
        c
    } else {
        run_steps(step(c), (n - 1) as nat)
    }
}

/// A finished configuration never moves again.
pub proof fn lemma_run_steps_stuck(c: MState, n: nat)
    requires
        mdone(c),
    ensures
        run_steps(c, n) == c,
    decreases n,
{
    if n > 0 {
        lemma_run_steps_stuck(c, (n - 1) as nat);
    }
}

/// The starting configuration of one run.
pub open spec fn init_conf(b: Babble, prog: Seq<SpecOp>) -> MState {
    MState {
        p: b.primary as int,
        s: b.secondary as int,
        r: b.result as int,
        regs: vals_view(b.vars@),
        out: Seq::empty(),
        diags: Seq::empty(),
        failed: Option::None,
        stack: seq![Frame::Run(prog, 0)],
    }
}

/// An executable frame, mirroring `Frame`.
pub enum EFrame {
    Run(Vec<Op>, usize),
    LoopCond,
    LoopTest,
}

pub open spec fn eframe_view(f: EFrame) -> Frame {
    match f {
        EFrame::Run(ops, i) => Frame::Run(ops_view(ops@), i as nat),
        EFrame::LoopCond => Frame::LoopCond,
        EFrame::LoopTest => Frame::LoopTest,
    }
}

pub open spec fn eframe_inv(f: EFrame) -> bool {
    match f {
        EFrame::Run(ops, i) => ops_inv(ops@),
        _ => true,
    }
}

pub open spec fn frames_view(s: Seq<EFrame>) -> Seq<Frame> {
    Seq::new(s.len(), |i: int| eframe_view(s[i]))
}

pub open spec fn frames_inv(s: Seq<EFrame>) -> bool {
    forall|i: int| 0 <= i < s.len() ==> eframe_inv(#[trigger] s[i])
}

impl Babble {
    /// Cursors select one of the 26 registers, and every register holds a
    /// well-formed value.
    pub open spec fn inv(&self) -> bool {
        &&& self.vars@.len() == 26
        &&& self.primary < 26
        &&& self.secondary < 26
        &&& self.result < 26
        &&& vals_inv(self.vars@)
    }

    /// The ghost reading of the register file.
    pub open spec fn regs(&self) -> Seq<SpecVal> {
        vals_view(self.vars@)
    }

    /// The configuration an engine state and its surroundings denote.
    pub open spec fn conf(&self, out: Seq<u8>, diags: Seq<Diag>, stack: Seq<EFrame>) -> MState {
        MState {
            p: self.primary as int,
            s: self.secondary as int,
            r: self.result as int,
            regs: vals_view(self.vars@),
            out: out,
            diags: diags,
            failed: Option::None,
            stack: frames_view(stack),
        }
    }

    /// A fresh interpreter: every register holds the number zero, and the
    /// cursors select registers 0, 1 and 2.
    pub fn new() -> (b: Babble)
        ensures
            b.inv(),
            b.primary == 0,
            b.secondary == 1,
            b.result == 2,
            b.regs().len() == 26,
            forall|i: int| 0 <= i < 26 ==> b.regs()[i] == SpecVal::Num(0, 1),
    {
        let mut vars: Vec<Value> = Vec::new();
        let mut i: usize = 0;
        while i < 26
            invariant
                i <= 26,
                vars@.len() == i,
                vals_inv(vars@),
                vals_view(vars@).len() == i,
                forall|k: int| 0 <= k < i ==> vals_view(vars@)[k] == SpecVal::Num(0, 1),
            decreases 26 - i,
        {
            let v = Value::Num(Rat::from_u32(0));
            proof {
                lemma_vals_snoc(vars@, v);
            }
            vars.push(v);
            i += 1;
        }
        Babble { primary: 0, secondary: 1, result: 2, vars }
    }
}

/// The numeric reading of a register: a copy of its rational, or zero.
fn rat_coerce(v: &Value) -> (r: Rat)
    requires
        val_inv(*v),
    ensures
        r.inv(),
        (r.num(), r.den()) == num_of(val_view(*v)),
{
    match v {
        Value::Num(rat) => rat.copy(),
        _ => Rat::from_u32(0),
    }
}

/// The block reading of a register: a copy of its program, or nothing.
fn block_coerce(v: &Value) -> (r: Vec<Op>)
    requires
        val_inv(*v),
    ensures
        ops_inv(r@),
        ops_view(r@) == block_of(val_view(*v)),
{
    match v {
        Value::Block(ops) => dup_ops(ops),
        _ => Vec::new(),
    }
}

/// Truthiness of a register's value.
fn truthy_value(v: &Value) -> (r: bool)
    requires
        val_inv(*v),
    ensures
        r == truthy(val_view(*v)),
{
    match v {
        Value::Num(rat) => {
            let z = rat.n.is_zero();
            !z
        }
        Value::Arr(es) => {
            proof {
                lemma_vals_view(es@);
            }
            es.len() > 0
        }
        Value::Block(ops) => {
            proof {
                lemma_ops_view(ops@);
            }
            ops.len() > 0
        }
    }
}

/// Append the decimal digits of a non-negative big integer to the output.
fn push_decimal(m0: &Big, out: &mut Vec<u8>)
    requires
        m0.inv(),
        m0@ >= 0,
    ensures
        final(out)@ == old(out)@ + dec_digits(m0@ as nat),
{
    if m0.is_zero() {
        out.push(48);
        proof {
            assert(final(out)@ =~= old(out)@ + dec_digits(0));
        }
        return;
    }
    let ten = Big::from_u32(10);
    let mut cur = m0.copy();
    let mut tmp: Vec<u8> = Vec::new();
    proof {
        broadcast use vstd::arithmetic::div_mod::lemma_div_decreases;

    }
    while !cur.is_zero()
        invariant
            cur.inv(),
            cur@ >= 0,
            ten.inv(),
            ten@ == 10,
            dec_digits(m0@ as nat) == (if cur@ > 0 {
                dec_digits(cur@ as nat) + tmp@.reverse()
            } else {
                tmp@.reverse()
            }),
        decreases cur@,
    {
        let (q, rem) = big_divmod(&cur, &ten);
        let digit: u8 = 48 + rem.to_u32() as u8;
        proof {
            broadcast use vstd::arithmetic::div_mod::lemma_div_decreases;

            assert(rem@ == cur@ % 10);
            assert(q@ == cur@ / 10);
            assert(tmp@.push(digit).reverse() =~= seq![digit] + tmp@.reverse());
            if cur@ >= 10 {
                assert(dec_digits(cur@ as nat) == dec_digits((cur@ / 10) as nat).push(digit));
                assert(dec_digits((cur@ / 10) as nat).push(digit) + tmp@.reverse()
                    =~= dec_digits((cur@ / 10) as nat) + tmp@.push(digit).reverse());
            } else {
                assert(dec_digits(cur@ as nat) == seq![digit]);
                assert(seq![digit] + tmp@.reverse() =~= tmp@.push(digit).reverse());
            }
        }
        tmp.push(digit);
        cur = q;
    }
    proof {
        assert(dec_digits(m0@ as nat) == tmp@.reverse());
    }
    let mut j: usize = tmp.len();
    while j > 0
        invariant
            j <= tmp@.len(),
            out@ == old(out)@ + tmp@.reverse().take(tmp@.len() - j),
        decreases j,
    {
        j -= 1;
        let b = tmp[j];
        proof {
            assert(tmp@.reverse()[tmp@.len() - j - 1] == tmp@[j as int]);
            assert(tmp@.reverse().take(tmp@.len() - j) =~= tmp@.reverse().take(
                tmp@.len() - j - 1,
            ).push(tmp@[j as int]));
        }
        out.push(b);
    }
    proof {
        assert(tmp@.reverse().take(tmp@.len() as int) =~= tmp@.reverse());
    }
}

/// Append the canonical text of a rational to the output.
fn put_number(rat: &Rat, out: &mut Vec<u8>)
    requires
        rat.inv(),
    ensures
        final(out)@ == old(out)@ + render_rat(rat.num(), rat.den()),
{
    if rat.n.neg && !rat.n.is_zero() {
        out.push(45);
    }
    let mag = rat.n.magnitude();
    push_decimal(&mag, out);
    let d_is_one = rat.d.limbs.len() == 1 && rat.d.limbs[0] == 1;
    proof {
        if rat.d.limbs@.len() == 1 && rat.d.limbs@[0] == 1 {
            assert(crate::bignum::limbs_val(rat.d.limbs@.drop_first()) == 0);
            assert(rat.d@ == 1);
        }
        if rat.d@ == 1 {
            if rat.d.limbs@.len() == 0 {
                assert(rat.d@ == 0);
                assert(false);
            }
            if rat.d.limbs@.len() >= 2 {
                crate::bignum::lemma_limbs_val_wide(rat.d.limbs@);
                assert(false);
            }
            assert(rat.d.limbs@[0] as nat + 0x100000000 * crate::bignum::limbs_val(
                rat.d.limbs@.drop_first(),
            ) == 1);
        }
    }
    if !d_is_one {
        out.push(47);
        push_decimal(&rat.d, out);
    }
    proof {
        assert(final(out)@ =~= old(out)@ + render_rat(rat.num(), rat.den()));
    }
}

/// Append the base-256 expansion of one array element's integer magnitude.
fn put_element(rat: &Rat, out: &mut Vec<u8>)
    requires
        rat.inv(),
    ensures
        final(out)@ == old(out)@ + bytes_of(trunc_mag(rat.num(), rat.den())),
{
    let mag = rat.n.magnitude();
    let (m0, _) = big_divmod(&mag, &rat.d);
    let base = Big::from_u32(256);
    let mut cur = m0;
    proof {
        broadcast use vstd::arithmetic::div_mod::lemma_div_decreases;

        vstd::arithmetic::div_mod::lemma_div_pos_is_pos(mag@, rat.d@);
        assert(cur@ as nat == trunc_mag(rat.num(), rat.den()));
    }
    while !cur.is_zero()
        invariant
            cur.inv(),
            cur@ >= 0,
            base.inv(),
            base@ == 256,
            out@ + bytes_of(cur@ as nat) == old(out)@ + bytes_of(trunc_mag(
                rat.num(),
                rat.den(),
            )),
        decreases cur@,
    {
        let (q, rem) = big_divmod(&cur, &base);
        let byte: u8 = rem.to_u32() as u8;
        proof {
            assert(rem@ == cur@ % 256);
            assert(q@ == cur@ / 256);
            assert(bytes_of(cur@ as nat) == seq![byte] + bytes_of((cur@ / 256) as nat));
            assert((out@ + seq![byte]) + bytes_of((cur@ / 256) as nat) =~= out@ + bytes_of(
                cur@ as nat,
            ));
        }
        out.push(byte);
        cur = q;
    }
    proof {
        assert(bytes_of(0) =~= Seq::<u8>::empty());
        assert(final(out)@ =~= old(out)@ + bytes_of(trunc_mag(rat.num(), rat.den())));
    }
}

/// Run `PUT` on one value: write its bytes and report its diagnostics.
fn put_value(v: &Value, out: &mut Vec<u8>, diags: &mut Vec<Diag>)
    requires
        val_inv(*v),
    ensures
        final(out)@ == old(out)@ + put_out(val_view(*v)),
        final(diags)@ == old(diags)@ + put_diags(val_view(*v)),
{
    match v {
        Value::Num(rat) => {
            put_number(rat, out);
            proof {
                assert(final(diags)@ =~= old(diags)@ + put_diags(val_view(*v)));
            }
        }
        Value::Block(_) => {
            diags.push(Diag::BlockOutput);
            proof {
                assert(final(out)@ =~= old(out)@ + put_out(val_view(*v)));
                assert(final(diags)@ =~= old(diags)@ + put_diags(val_view(*v)));
            }
        }
        Value::Arr(es) => {
            proof {
                lemma_vals_view(es@);
                lemma_vals_inv(es@);
            }
            let ghost evs = vals_view(es@);
            let mut k: usize = 0;
            proof {
                assert(evs.skip(0) =~= evs);
                assert(out@ + arr_out(evs.skip(0)) == old(out)@ + arr_out(evs));
            }
            while k < es.len()
                invariant
                    val_inv(*v),
                    *v == Value::Arr(*es),
                    evs == vals_view(es@),
                    evs.len() == es@.len(),
                    forall|i: int| 0 <= i < es@.len() ==> val_inv(es@[i]),
                    forall|i: int| 0 <= i < es@.len() ==> evs[i] == val_view(es@[i]),
                    k <= es@.len(),
                    out@ + arr_out(evs.skip(k as int)) == old(out)@ + arr_out(evs),
                    diags@ + arr_diags(evs.skip(k as int)) == old(diags)@ + arr_diags(evs),
                decreases es@.len() - k,
            {
                let ghost pres = evs.skip(k as int);
                proof {
                    assert(pres[0] == evs[k as int]);
                    assert(pres.drop_first() =~= evs.skip(k as int + 1));
                }
                match &es[k] {
                    Value::Num(rat) => {
                        put_element(rat, out);
                        proof {
                            assert(arr_out(pres) == elem_out(evs[k as int]) + arr_out(
                                evs.skip(k as int + 1),
                            ));
                            assert(out@ + arr_out(evs.skip(k as int + 1)) =~= old(out)@
                                + arr_out(evs));
                            assert(arr_diags(pres) == arr_diags(evs.skip(k as int + 1)));
                        }
                    }
                    _ => {
                        diags.push(Diag::NonNumericElement);
                        proof {
                            assert(arr_diags(pres) == seq![Diag::NonNumericElement] + arr_diags(
                                evs.skip(k as int + 1),
                            ));
                            assert(diags@ + arr_diags(evs.skip(k as int + 1)) =~= old(diags)@
                                + arr_diags(evs));
                            assert(arr_out(pres) == arr_out(evs.skip(k as int + 1)));
                        }
                    }
                }
                k += 1;
            }
            proof {
                assert(evs.skip(es@.len() as int) =~= Seq::<SpecVal>::empty());
                assert(out@ + Seq::<u8>::empty() =~= out@);
                assert(diags@ + Seq::<Diag>::empty() =~= diags@);
            }
        }
    }
}

impl Babble {
    /// Run a parsed program for at most `fuel` machine steps. The result says
    /// whether the program finished, ran out of steps, or failed.
    #[verifier::loop_isolation(false)]
    #[verifier::rlimit(100)]
    pub fn exec_run(
        &mut self,
        prog: &Vec<Op>,
        out: &mut Vec<u8>,
        diags: &mut Vec<Diag>,
        fuel: u64,
    ) -> (r: Result<bool, BabbleError>)
        requires
            old(self).inv(),
            ops_inv(prog@),
        ensures
            ({
                let fin = run_steps(init_conf(*old(self), ops_view(prog@)), fuel as nat);
                &&& final(self).inv()
                &&& final(self).primary as int == fin.p
                &&& final(self).secondary as int == fin.s
                &&& final(self).result as int == fin.r
                &&& vals_view(final(self).vars@) == fin.regs
                &&& final(out)@ == old(out)@ + fin.out
                &&& final(diags)@ == old(diags)@ + fin.diags
                &&& (r matches Ok(b) ==> fin.failed is None && (b <==> fin.stack.len() == 0))
                &&& (r matches Err(e) ==> fin.failed == Some(e))
                &&& (fin.failed matches Some(e) ==> r == Err::<bool, BabbleError>(e))
            }),
    {
        let ghost init = init_conf(*self, ops_view(prog@));
        let mut stack: Vec<EFrame> = Vec::new();
        stack.push(EFrame::Run(dup_ops(prog), 0));
        let mut mout: Vec<u8> = Vec::new();
        let mut mdiags: Vec<Diag> = Vec::new();
        let mut left: u64 = fuel;
        proof {
            assert(frames_view(stack@) =~= seq![Frame::Run(ops_view(prog@), 0)]);
            assert(self.conf(mout@, mdiags@, stack@) =~= init);
        }
        loop
            invariant
                self.inv(),
                frames_inv(stack@),
                left <= fuel,
                out@ == old(out)@,
                diags@ == old(diags)@,
                run_steps(init, fuel as nat) == run_steps(
                    self.conf(mout@, mdiags@, stack@),
                    left as nat,
                ),
            decreases left,
        {
            let ghost cpre = self.conf(mout@, mdiags@, stack@);
            if stack.len() == 0 {
                proof {
                    lemma_run_steps_stuck(cpre, left as nat);
                }
                append_bytes(out, &mout);
                append_diags(diags, &mdiags);
                return Ok(true);
            }
            if left == 0 {
                append_bytes(out, &mout);
                append_diags(diags, &mdiags);
                return Ok(false);
            }
            left = left - 1;
            proof {
                assert(!mdone(cpre));
                assert(cpre.stack.len() == stack@.len());
                assert(cpre.stack.last() == eframe_view(stack@.last()));
            }
            let f = stack.pop().unwrap();
            match f {
                EFrame::LoopCond => {
                    proof {
                        lemma_vals_inv(self.vars@);
                        lemma_vals_view(self.vars@);
                    }
                    let cond = block_coerce(&self.vars[self.primary]);
                    stack.push(EFrame::LoopTest);
                    stack.push(EFrame::Run(cond, 0));
                    proof {
                        assert(frames_view(stack@) =~= cpre.stack.update(
                            cpre.stack.len() - 1,
                            Frame::LoopTest,
                        ).push(Frame::Run(block_of(cpre.regs[cpre.p]), 0)));
                        assert(self.conf(mout@, mdiags@, stack@) =~= step(cpre));
                    }
                }
                EFrame::LoopTest => {
                    proof {
                        lemma_vals_inv(self.vars@);
                        lemma_vals_view(self.vars@);
                    }
                    let t = truthy_value(&self.vars[self.result]);
                    if t {
                        let body = block_coerce(&self.vars[self.secondary]);
                        stack.push(EFrame::LoopCond);
                        stack.push(EFrame::Run(body, 0));
                        proof {
                            assert(frames_view(stack@) =~= cpre.stack.update(
                                cpre.stack.len() - 1,
                                Frame::LoopCond,
                            ).push(Frame::Run(block_of(cpre.regs[cpre.s]), 0)));
                            assert(self.conf(mout@, mdiags@, stack@) =~= step(cpre));
                        }
                    } else {
                        proof {
                            assert(frames_view(stack@) =~= cpre.stack.drop_last());
                            assert(self.conf(mout@, mdiags@, stack@) =~= step(cpre));
                        }
                    }
                }
                EFrame::Run(ops, i) => {
                    proof {
                        assert(eframe_inv(EFrame::Run(ops, i)));
                        lemma_ops_inv(ops@);
                        lemma_ops_view(ops@);
                        lemma_vals_inv(self.vars@);
                        lemma_vals_view(self.vars@);
                    }
                    if i >= ops.len() {
                        proof {
                            assert(frames_view(stack@) =~= cpre.stack.drop_last());
                            assert(self.conf(mout@, mdiags@, stack@) =~= step(cpre));
                        }
                    } else {
                        let op = ops[i].duplicate();
                        let ghost sop = op_view(ops@[i as int]);
                        stack.push(EFrame::Run(ops, i + 1));
                        let ghost c1 = MState {
                            stack: cpre.stack.update(
                                cpre.stack.len() - 1,
                                Frame::Run(ops_view(ops@), (i + 1) as nat),
                            ),
                            ..cpre
                        };
                        proof {
                            assert(frames_view(stack@) =~= c1.stack);
                            assert(self.conf(mout@, mdiags@, stack@) =~= c1);
                            assert(step(cpre) == apply_op(c1, sop));
                        }
                        match op {
                            Op::SelPrimary(ch) => {
                                let code = ch as u32;
                                if 65 <= code && code < 91 {
                                    self.primary = (code - 65) as usize;
                                    proof {
                                        assert(self.conf(mout@, mdiags@, stack@) =~= apply_op(
                                            c1,
                                            sop,
                                        ));
                                    }
                                } else {
                                    proof {
                                        let cerr = apply_op(c1, sop);
                                        lemma_run_steps_stuck(cerr, left as nat);
                                    }
                                    append_bytes(out, &mout);
                                    append_diags(diags, &mdiags);
                                    return Err(BabbleError::RegisterOutOfRange);
                                }
                            }
                            Op::SelSecondary(ch) => {
                                let code = ch as u32;
                                if 65 <= code && code < 91 {
                                    self.secondary = (code - 65) as usize;
                                    proof {
                                        assert(self.conf(mout@, mdiags@, stack@) =~= apply_op(
                                            c1,
                                            sop,
                                        ));
                                    }
                                } else {
                                    proof {
                                        let cerr = apply_op(c1, sop);
                                        lemma_run_steps_stuck(cerr, left as nat);
                                    }
                                    append_bytes(out, &mout);
                                    append_diags(diags, &mdiags);
                                    return Err(BabbleError::RegisterOutOfRange);
                                }
                            }
                            Op::SelResult(ch) => {
                                let code = ch as u32;
                                if 65 <= code && code < 91 {
                                    self.result = (code - 65) as usize;
                                    proof {
                                        assert(self.conf(mout@, mdiags@, stack@) =~= apply_op(
                                            c1,
                                            sop,
                                        ));
                                    }
                                } else {
                                    proof {
                                        let cerr = apply_op(c1, sop);
                                        lemma_run_steps_stuck(cerr, left as nat);
                                    }
                                    append_bytes(out, &mout);
                                    append_diags(diags, &mdiags);
                                    return Err(BabbleError::RegisterOutOfRange);
                                }
                            }
                            Op::SwapPS => {
                                let a = self.vars[self.primary].duplicate();
                                let b = self.vars[self.secondary].duplicate();
                                proof {
                                    lemma_vals_update(self.vars@, self.primary as int, b);
                                    lemma_vals_update(
                                        self.vars@.update(self.primary as int, b),
                                        self.secondary as int,
                                        a,
                                    );
                                }
                                self.vars.set(self.primary, b);
                                self.vars.set(self.secondary, a);
                                proof {
                                    assert(self.conf(mout@, mdiags@, stack@) =~= apply_op(
                                        c1,
                                        sop,
                                    ));
                                }
                            }
                            Op::SwapPR => {
                                let a = self.vars[self.primary].duplicate();
                                let b = self.vars[self.result].duplicate();
                                proof {
                                    lemma_vals_update(self.vars@, self.primary as int, b);
                                    lemma_vals_update(
                                        self.vars@.update(self.primary as int, b),
                                        self.result as int,
                                        a,
                                    );
                                }
                                self.vars.set(self.primary, b);
                                self.vars.set(self.result, a);
                                proof {
                                    assert(self.conf(mout@, mdiags@, stack@) =~= apply_op(
                                        c1,
                                        sop,
                                    ));
                                }
                            }
                            Op::SwapSR => {
                                let a = self.vars[self.secondary].duplicate();
                                let b = self.vars[self.result].duplicate();
                                proof {
                                    lemma_vals_update(self.vars@, self.secondary as int, b);
                                    lemma_vals_update(
                                        self.vars@.update(self.secondary as int, b),
                                        self.result as int,
                                        a,
                                    );
                                }
                                self.vars.set(self.secondary, b);
                                self.vars.set(self.result, a);
                                proof {
                                    assert(self.conf(mout@, mdiags@, stack@) =~= apply_op(
                                        c1,
                                        sop,
                                    ));
                                }
                            }
                            Op::Lit(v) => {
                                proof {
                                    lemma_vals_update(self.vars@, self.primary as int, v);
                                }
                                self.vars.set(self.primary, v);
                                proof {
                                    assert(self.conf(mout@, mdiags@, stack@) =~= apply_op(
                                        c1,
                                        sop,
                                    ));
                                }
                            }
                            Op::Add => {
                                let a = rat_coerce(&self.vars[self.primary]);
                                let b = rat_coerce(&self.vars[self.secondary]);
                                let v = rat_add(&a, &b);
                                proof {
                                    lemma_vals_update(
                                        self.vars@,
                                        self.result as int,
                                        Value::Num(v),
                                    );
                                }
                                self.vars.set(self.result, Value::Num(v));
                                proof {
                                    assert(self.conf(mout@, mdiags@, stack@) =~= apply_op(
                                        c1,
                                        sop,
                                    ));
                                }
                            }
                            Op::Sub => {
                                let a = rat_coerce(&self.vars[self.primary]);
                                let b = rat_coerce(&self.vars[self.secondary]);
                                let v = rat_sub(&a, &b);
                                proof {
                                    lemma_vals_update(
                                        self.vars@,
                                        self.result as int,
                                        Value::Num(v),
                                    );
                                }
                                self.vars.set(self.result, Value::Num(v));
                                proof {
                                    assert(self.conf(mout@, mdiags@, stack@) =~= apply_op(
                                        c1,
                                        sop,
                                    ));
                                }
                            }
                            Op::Mul => {
                                let a = rat_coerce(&self.vars[self.primary]);
                                let b = rat_coerce(&self.vars[self.secondary]);
                                let v = rat_mul(&a, &b);
                                proof {
                                    lemma_vals_update(
                                        self.vars@,
                                        self.result as int,
                                        Value::Num(v),
                                    );
                                }
                                self.vars.set(self.result, Value::Num(v));
                                proof {
                                    assert(self.conf(mout@, mdiags@, stack@) =~= apply_op(
                                        c1,
                                        sop,
                                    ));
                                }
                            }
                            Op::Div => {
                                let a = rat_coerce(&self.vars[self.primary]);
                                let b = rat_coerce(&self.vars[self.secondary]);
                                if b.n.is_zero() {
                                    proof {
                                        let cerr = apply_op(c1, sop);
                                        lemma_run_steps_stuck(cerr, left as nat);
                                    }
                                    append_bytes(out, &mout);
                                    append_diags(diags, &mdiags);
                                    return Err(BabbleError::ArithmeticFailure);
                                }
                                let v = rat_div(&a, &b);
                                proof {
                                    lemma_vals_update(
                                        self.vars@,
                                        self.result as int,
                                        Value::Num(v),
                                    );
                                }
                                self.vars.set(self.result, Value::Num(v));
                                proof {
                                    assert(self.conf(mout@, mdiags@, stack@) =~= apply_op(
                                        c1,
                                        sop,
                                    ));
                                }
                            }
                            Op::Whl => {
                                stack.push(EFrame::LoopCond);
                                proof {
                                    assert(frames_view(stack@) =~= c1.stack.push(
                                        Frame::LoopCond,
                                    ));
                                    assert(self.conf(mout@, mdiags@, stack@) =~= apply_op(
                                        c1,
                                        sop,
                                    ));
                                }
                            }
                            Op::Put => {
                                put_value(&self.vars[self.primary], &mut mout, &mut mdiags);
                                proof {
                                    assert(self.conf(mout@, mdiags@, stack@) =~= apply_op(
                                        c1,
                                        sop,
                                    ));
                                }
                            }
                            Op::Nop => {
                                proof {
                                    assert(self.conf(mout@, mdiags@, stack@) =~= apply_op(
                                        c1,
                                        sop,
                                    ));
                                }
                            }
                        }
                    }
                }
            }
            proof {
                assert(run_steps(init, fuel as nat) == run_steps(
                    self.conf(mout@, mdiags@, stack@),
                    left as nat,
                ));
            }
        }
    }
}

impl Babble {
    /// Tokenize, parse and execute one program: filtered symbols through the
    /// grammar, then the machine, with the output port and the unused input
    /// port as byte buffers. Diagnostics are returned on success; a fatal
    /// arithmetic failure or register index, a parse-time zero denominator,
    /// or an exhausted step budget comes back as an error. The budget is a
    /// machine limit of 2^64 - 1 steps, which no real program reaches: a
    /// program the language lets loop forever answers `StepLimit` only after
    /// that many steps.
    pub fn run_with_io(
        &mut self,
        code: String,
        output: &mut Vec<u8>,
        input: &mut Vec<u8>,
    ) -> (r: Result<Vec<Diag>, BabbleError>)
        requires
            old(self).inv(),
        ensures
            final(self).inv(),
            final(input)@ == old(input)@,
            (sp_program(kept(code@)) matches ProgStep::Fail(e) ==> r == Err::<
                Vec<Diag>,
                BabbleError,
            >(e) && *final(self) == *old(self) && final(output)@ == old(output)@),
            (sp_program(kept(code@)) matches ProgStep::Done(ops) ==> ({
                let fin = run_steps(init_conf(*old(self), ops), u64::MAX as nat);
                &&& final(self).primary as int == fin.p
                &&& final(self).secondary as int == fin.s
                &&& final(self).result as int == fin.r
                &&& vals_view(final(self).vars@) == fin.regs
                &&& final(output)@ == old(output)@ + fin.out
                &&& (fin.failed matches Some(e) ==> r == Err::<Vec<Diag>, BabbleError>(e))
                &&& (fin.failed is None && fin.stack.len() > 0 ==> r == Err::<
                    Vec<Diag>,
                    BabbleError,
                >(BabbleError::StepLimit))
                &&& (fin.failed is None && fin.stack.len() == 0 ==> (r matches Ok(ds) && ds@
                    == fin.diags))
            })),
    {
        match Babble::tokenize(code) {
            Err(e) => Err(e),
            Ok(prog) => {
                let mut diags: Vec<Diag> = Vec::new();
                match self.exec_run(&prog, output, &mut diags, u64::MAX) {
                    Ok(true) => Ok(diags),
                    Ok(false) => Err(BabbleError::StepLimit),
                    Err(e) => Err(e),
                }
            }
        }
    }
}

/// A division whose right operand reads as the number zero fails the machine
/// with an arithmetic failure, whatever else the configuration holds.
pub proof fn lemma_div_by_zero(c: MState, ops: Seq<SpecOp>, i: nat)
    requires
        !mdone(c),
        c.stack.last() == Frame::Run(ops, i),
        i < ops.len(),
        ops[i as int] == SpecOp::Div,
        num_of(c.regs[c.s]).0 == 0,
    ensures
        step(c).failed == Some(BabbleError::ArithmeticFailure),
{
}

/// An array element holding the number zero emits no bytes at all under
/// `PUT`, whatever its denominator.
pub proof fn lemma_put_zero_element(d: int)
    requires
        d != 0,
    ensures
        elem_out(SpecVal::Num(0, d)) == Seq::<u8>::empty(),
{
    assert(trunc_mag(0, d) == 0) by {
        assert(abs(0) == 0);
        vstd::arithmetic::div_mod::lemma_div_of0(d);
    }
}

/// Running `a + b` steps is running `a` steps, then `b` more.
pub proof fn lemma_run_steps_add(c: MState, a: nat, b: nat)
    ensures
        run_steps(c, a + b) == run_steps(run_steps(c, a), b),
    decreases a,
{
    if a > 0 {
        lemma_run_steps_add(step(c), (a - 1) as nat, b);
    }
}

/// One step only touches the top of the stack: frames below it ride along
/// unchanged, and everything else evolves as if they were not there.
pub proof fn lemma_step_lift(c: MState, base: Seq<Frame>)
    requires
        !mdone(c),
    ensures
        (step(MState { stack: base + c.stack, ..c }) == MState {
            stack: base + step(c).stack,
            ..step(c)
        }),
{
    let cb = MState { stack: base + c.stack, ..c };
    let s = c.stack;
    assert(cb.stack.len() == base.len() + s.len());
    assert(cb.stack.last() == s.last());
    match s.last() {
        Frame::LoopCond => {
            let cond = block_of(c.regs[c.p]);
            assert(cb.stack.update(cb.stack.len() - 1, Frame::LoopTest).push(Frame::Run(cond, 0))
                =~= base + s.update(s.len() - 1, Frame::LoopTest).push(Frame::Run(cond, 0)));
            assert(step(cb) =~= MState { stack: base + step(c).stack, ..step(c) });
        }
        Frame::LoopTest => {
            if truthy(c.regs[c.r]) {
                let body = block_of(c.regs[c.s]);
                assert(cb.stack.update(cb.stack.len() - 1, Frame::LoopCond).push(
                    Frame::Run(body, 0),
                ) =~= base + s.update(s.len() - 1, Frame::LoopCond).push(Frame::Run(body, 0)));
                assert(step(cb) =~= MState { stack: base + step(c).stack, ..step(c) });
            } else {
                assert(cb.stack.drop_last() =~= base + s.drop_last());
                assert(step(cb) =~= MState { stack: base + step(c).stack, ..step(c) });
            }
        }
        Frame::Run(ops, i) => {
            if i >= ops.len() {
                assert(cb.stack.drop_last() =~= base + s.drop_last());
                assert(step(cb) =~= MState { stack: base + step(c).stack, ..step(c) });
            } else {
                let fr = Frame::Run(ops, i + 1);
                assert(cb.stack.update(cb.stack.len() - 1, fr) =~= base + s.update(
                    s.len() - 1,
                    fr,
                ));
                let c1 = MState { stack: s.update(s.len() - 1, fr), ..c };
                let c1b = MState { stack: base + c1.stack, ..c };
                assert(step(cb) == apply_op(c1b, ops[i as int]));
                assert(step(c) == apply_op(c1, ops[i as int]));
                match ops[i as int] {
                    SpecOp::Whl => {
                        assert(c1b.stack.push(Frame::LoopCond) =~= base + c1.stack.push(
                            Frame::LoopCond,
                        ));
                        assert(step(cb) =~= MState { stack: base + step(c).stack, ..step(c) });
                    }
                    _ => {
                        assert(step(cb) =~= MState { stack: base + step(c).stack, ..step(c) });
                    }
                }
            }
        }
    }
}

/// Many steps lift the same way, as long as the inner run is not yet done.
pub proof fn lemma_run_lift(c: MState, base: Seq<Frame>, n: nat)
    requires
        forall|k: nat| k < n ==> !mdone(#[trigger] run_steps(c, k)),
    ensures
        (run_steps(MState { stack: base + c.stack, ..c }, n) == MState {
            stack: base + run_steps(c, n).stack,
            ..run_steps(c, n)
        }),
    decreases n,
{
    if n == 0 {
        assert(run_steps(c, 0) == c);
        assert(MState { stack: base + c.stack, ..c } =~= MState {
            stack: base + run_steps(c, n).stack,
            ..run_steps(c, n)
        });
    } else {
        assert(run_steps(c, 0) == c);
        assert(!mdone(c));
        lemma_step_lift(c, base);
        assert forall|k: nat| k < (n - 1) as nat implies !mdone(#[trigger] run_steps(
            step(c),
            k,
        )) by {
            assert(run_steps(c, k + 1) == run_steps(step(c), k)) by {
                lemma_run_steps_add(c, 1, k);
                assert(run_steps(step(c), 0) == step(c));
                assert(run_steps(c, 1) == step(c));
            }
        }
        lemma_run_lift(step(c), base, (n - 1) as nat);
    }
}

/// A loop whose condition program, run once from the current state, ends
/// with a falsy result register, terminates at once: one step enters the
/// loop, one reads the condition from the register the primary cursor then
/// selects, `n` steps run it, and one tests the result and pops the loop.
/// The body never starts.
pub proof fn lemma_whl_false_condition(c: MState, ops: Seq<SpecOp>, i: nat, n: nat)
    requires
        !mdone(c),
        c.stack.last() == Frame::Run(ops, i),
        i < ops.len(),
        ops[i as int] == SpecOp::Whl,
        ({
            let solo = MState { stack: seq![Frame::Run(block_of(c.regs[c.p]), 0)], ..c };
            &&& (forall|k: nat| k < n ==> !mdone(#[trigger] run_steps(solo, k)))
            &&& run_steps(solo, n).stack.len() == 0
            &&& run_steps(solo, n).failed is None
            &&& !truthy(run_steps(solo, n).regs[run_steps(solo, n).r])
        }),
    ensures
        ({
            let solo = MState { stack: seq![Frame::Run(block_of(c.regs[c.p]), 0)], ..c };
            let fin = run_steps(solo, n);
            run_steps(c, n + 3) == MState {
                stack: c.stack.update(c.stack.len() - 1, Frame::Run(ops, i + 1)),
                ..fin
            }
        }),
{
    let cond = block_of(c.regs[c.p]);
    let solo = MState { stack: seq![Frame::Run(cond, 0)], ..c };
    let fin = run_steps(solo, n);
    let base0 = c.stack.update(c.stack.len() - 1, Frame::Run(ops, i + 1));
    let base1 = base0.push(Frame::LoopTest);
    let c1 = MState { stack: base0, ..c };
    assert(step(c) == apply_op(c1, SpecOp::Whl));
    let ca = step(c);
    assert(ca.stack =~= base0.push(Frame::LoopCond));
    assert(ca.stack.last() == Frame::LoopCond);
    assert(!mdone(ca));
    assert(ca.stack.update(ca.stack.len() - 1, Frame::LoopTest) =~= base1);
    assert(step(ca).stack =~= base1 + solo.stack);
    assert(step(ca) =~= MState { stack: base1 + solo.stack, ..solo });
    lemma_run_lift(solo, base1, n);
    lemma_run_steps_add(c, 2, n);
    assert(run_steps(step(ca), 0) == step(ca));
    assert(run_steps(ca, 1) == step(ca));
    assert(run_steps(c, 2) == run_steps(ca, 1));
    assert(run_steps(c, 2 + n) == run_steps(step(ca), n)) by {
        lemma_run_steps_add(ca, 1, n);
        assert(run_steps(c, 2 + n) == run_steps(step(c), 1 + n));
        assert(run_steps(ca, 1 + n) == run_steps(run_steps(ca, 1), n));
    }
    let c2 = run_steps(c, 2 + n);
    assert(c2 == MState { stack: base1 + fin.stack, ..fin });
    assert(c2.stack =~= base1);
    assert(c2.stack.last() == Frame::LoopTest);
    assert(!mdone(c2));
    assert(!truthy(c2.regs[c2.r]));
    assert(step(c2).stack =~= base0);
    lemma_run_steps_add(c, 2 + n, 1);
    assert(run_steps(step(c2), 0) == step(c2));
    assert(run_steps(c2, 1) == step(c2));
    assert(run_steps(c, n + 3) == run_steps(c2, 1));
    assert(run_steps(c, n + 3) =~= MState { stack: base0, ..fin });
}

/// Append a copy of every byte to the output buffer.
fn append_bytes(out: &mut Vec<u8>, extra: &Vec<u8>)
    ensures
        final(out)@ == old(out)@ + extra@,
{
    let mut i: usize = 0;
    while i < extra.len()
        invariant
            i <= extra@.len(),
            out@ == old(out)@ + extra@.take(i as int),
        decreases extra@.len() - i,
    {
        proof {
            assert(extra@.take(i as int).push(extra@[i as int]) =~= extra@.take(i as int + 1));
        }
        out.push(extra[i]);
        i += 1;
    }
    proof {
        assert(extra@.take(extra@.len() as int) =~= extra@);
    }
}

/// Append a copy of every diagnostic to the diagnostics list.
fn append_diags(out: &mut Vec<Diag>, extra: &Vec<Diag>)
    ensures
        final(out)@ == old(out)@ + extra@,
{
    let mut i: usize = 0;
    while i < extra.len()
        invariant
            i <= extra@.len(),
            out@ == old(out)@ + extra@.take(i as int),
        decreases extra@.len() - i,
    {
        proof {
            assert(extra@.take(i as int).push(extra@[i as int]) =~= extra@.take(i as int + 1));
        }
        out.push(extra[i]);
        i += 1;
    }
    proof {
        assert(extra@.take(extra@.len() as int) =~= extra@);
    }
}

} // verus!
