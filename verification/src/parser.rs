//! The opcode parser: three-symbol commands, with recursive-descent
//! sub-parsers for the array, block and number literals. The grammar is
//! written once as ghost functions over the symbol sequence; the executable
//! parser is proved to follow them symbol by symbol.
use vstd::prelude::*;
use crate::ast::{
    Value, Op, SpecVal, SpecOp, BabbleError, val_view, val_inv, op_view, op_inv, ops_view,
    ops_inv, vals_view, vals_inv, lemma_vals_snoc, lemma_ops_snoc,
};
use crate::codec::{base25, from_letter_base};
use crate::rational::{Rat, norm, reduce};
use crate::bignum::Big;
use crate::stream::{BabbleCodeIterator, kept, peek_end};
use crate::engine::Babble;

verus! {

/// Outcome of parsing one command: an operation and the rest of the stream,
/// the end of the program, or a fatal parse-time failure.
pub enum ParseStep {
    Op(SpecOp, Seq<char>),
    End,
    Fail(BabbleError),
}

/// Outcome of the array sub-grammar: the elements and the rest of the stream,
/// or a silent abort of everything that remains.
pub enum ArrStep {
    Done(Seq<SpecVal>, Seq<char>),
    Abort,
}

/// Outcome of the number sub-grammar: the reduced value and the rest of the
/// stream, or a zero denominator.
pub enum NumStep {
    Done(int, int, Seq<char>),
    Fail,
}

/// Outcome of the block sub-grammar: the block's operations and the rest of
/// the stream after its `END`, or a propagated failure.
pub enum BlockStep {
    Done(Seq<SpecOp>, Seq<char>),
    Fail(BabbleError),
}

/// Outcome of parsing a whole program.
pub enum ProgStep {
    Done(Seq<SpecOp>),
    Fail(BabbleError),
}

/// The array literal grammar, element by element.
pub open spec fn sp_array(s: Seq<char>, acc: Seq<SpecVal>) -> ArrStep
    decreases s.len(),
{
    if s.len() == 0 {
        ArrStep::Abort
    } else if s[0] != 'Z' {
        sp_array(s.skip(1), acc.push(SpecVal::Num(s[0] as u32 as int, 1)))
    } else if s.len() < 2 {
        ArrStep::Abort
    } else if s[1] == 'E' {
        ArrStep::Done(acc, s.skip(2))
    } else if s[1] == 'L' {
        if s.len() < 3 {
            ArrStep::Abort
        } else {
            sp_array(s.skip(3), acc.push(SpecVal::Num(s[2] as u32 as int + 32, 1)))
        }
    } else if s[1] == 'T' {
        if s.len() < 4 {
            ArrStep::Abort
        } else {
            sp_array(s.skip(4), acc.push(SpecVal::Num(base25(seq![s[2], s[3]]), 1)))
        }
    } else if s[1] == 'Z' {
        sp_array(s.skip(2), acc.push(SpecVal::Num(90, 1)))
    } else {
        sp_array(s.skip(2), acc)
    }
}

/// Final value of a number literal: the collected sign, numerator digits and
/// denominator digits, reduced to lowest terms; a zero denominator fails.
pub open spec fn sp_num_value(zs: nat, d1: Option<Seq<char>>, d2: Option<Seq<char>>) -> Option<
    (int, int),
> {
    let mag = match d1 {
        Some(ds) => base25(ds),
        None => 0,
    };
    let numer = if zs % 2 == 0 {
        mag
    } else {
        -mag
    };
    let den = match d2 {
        Some(ds) => base25(ds),
        None => 1,
    };
    if den == 0 {
        Option::None
    } else {
        Some(norm(numer, den))
    }
}

pub open spec fn sp_num_finish(
    zs: nat,
    d1: Option<Seq<char>>,
    d2: Option<Seq<char>>,
    rem: Seq<char>,
) -> NumStep {
    match sp_num_value(zs, d1, d2) {
        Some(p) => NumStep::Done(p.0, p.1, rem),
        Option::None => NumStep::Fail,
    }
}

/// A parse outcome with a prefix of operations put in front of its program.
pub open spec fn block_prepend(pre: Seq<SpecOp>, b: BlockStep) -> BlockStep {
    match b {
        BlockStep::Done(ops, rem) => BlockStep::Done(pre + ops, rem),
        BlockStep::Fail(e) => BlockStep::Fail(e),
    }
}

/// A program outcome with a prefix of operations put in front of it.
pub open spec fn prog_prepend(pre: Seq<SpecOp>, p: ProgStep) -> ProgStep {
    match p {
        ProgStep::Done(ops) => ProgStep::Done(pre + ops),
        ProgStep::Fail(e) => ProgStep::Fail(e),
    }
}

/// The number literal grammar: leading `Z`s, a numerator run, and under a
/// doubled leading `Z` an optional denominator run.
pub open spec fn sp_num(s: Seq<char>, zs: nat, d1: Option<Seq<char>>, d2: Option<Seq<char>>) -> NumStep
    decreases s.len(),
{
    if s.len() == 0 {
        sp_num_finish(zs, d1, d2, s)
    } else if s[0] == 'Z' {
        if d1 is None {
            sp_num(s.skip(1), zs + 1, d1, d2)
        } else if zs >= 2 && d2 is None {
            sp_num(s.skip(1), zs, d1, Some(Seq::empty()))
        } else {
            sp_num_finish(zs, d1, d2, s.skip(1))
        }
    } else {
        match d2 {
            Some(ds) => sp_num(s.skip(1), zs, d1, Some(ds.push(s[0]))),
            None => match d1 {
                Some(ds) => sp_num(s.skip(1), zs, Some(ds.push(s[0])), None),
                None => sp_num(s.skip(1), zs, Some(seq![s[0]]), None),
            },
        }
    }
}

/// Whether the first three symbols spell the given command.
pub open spec fn cmd_is(s: Seq<char>, a: char, b: char, c: char) -> bool {
    s[0] == a && s[1] == b && s[2] == c
}

/// The command grammar: one three-symbol opcode, with its literal sub-grammars.
pub open spec fn sp_parse(s: Seq<char>) -> ParseStep
    decreases s.len(), 1int,
{
    if s.len() < 3 {
        ParseStep::End
    } else {
        let rest = s.skip(3);
        if s[0] == 'P' && s[1] == 'V' {
            ParseStep::Op(SpecOp::SelPrimary(s[2]), rest)
        } else if s[0] == 'S' && s[1] == 'V' {
            ParseStep::Op(SpecOp::SelSecondary(s[2]), rest)
        } else if s[0] == 'R' && s[1] == 'V' {
            ParseStep::Op(SpecOp::SelResult(s[2]), rest)
        } else if cmd_is(s, 'X', 'P', 'S') {
            ParseStep::Op(SpecOp::SwapPS, rest)
        } else if cmd_is(s, 'X', 'P', 'R') {
            ParseStep::Op(SpecOp::SwapPR, rest)
        } else if cmd_is(s, 'X', 'S', 'R') {
            ParseStep::Op(SpecOp::SwapSR, rest)
        } else if cmd_is(s, 'A', 'R', 'R') {
            match sp_array(rest, Seq::empty()) {
                ArrStep::Done(es, r2) => ParseStep::Op(SpecOp::Lit(SpecVal::Arr(es)), r2),
                ArrStep::Abort => ParseStep::End,
            }
        } else if cmd_is(s, 'B', 'L', 'K') {
            match sp_block_ops(rest) {
                BlockStep::Done(ops, r2) => ParseStep::Op(SpecOp::Lit(SpecVal::Block(ops)), r2),
                BlockStep::Fail(e) => ParseStep::Fail(e),
            }
        } else if cmd_is(s, 'N', 'U', 'M') {
            match sp_num(rest, 0, Option::None, Option::None) {
                NumStep::Done(n, d, r2) => ParseStep::Op(SpecOp::Lit(SpecVal::Num(n, d)), r2),
                NumStep::Fail => ParseStep::Fail(BabbleError::ArithmeticFailure),
            }
        } else if cmd_is(s, 'Z', 'R', 'O') {
            ParseStep::Op(SpecOp::Lit(SpecVal::Num(0, 1)), rest)
        } else if cmd_is(s, 'O', 'N', 'E') {
            ParseStep::Op(SpecOp::Lit(SpecVal::Num(1, 1)), rest)
        } else if cmd_is(s, 'T', 'W', 'O') {
            ParseStep::Op(SpecOp::Lit(SpecVal::Num(2, 1)), rest)
        } else if cmd_is(s, 'T', 'R', 'E') {
            ParseStep::Op(SpecOp::Lit(SpecVal::Num(3, 1)), rest)
        } else if cmd_is(s, 'F', 'O', 'R') {
            ParseStep::Op(SpecOp::Lit(SpecVal::Num(4, 1)), rest)
        } else if cmd_is(s, 'F', 'I', 'V') {
            ParseStep::Op(SpecOp::Lit(SpecVal::Num(5, 1)), rest)
        } else if cmd_is(s, 'S', 'I', 'X') {
            ParseStep::Op(SpecOp::Lit(SpecVal::Num(6, 1)), rest)
        } else if cmd_is(s, 'E', 'G', 'T') {
            ParseStep::Op(SpecOp::Lit(SpecVal::Num(8, 1)), rest)
        } else if cmd_is(s, 'N', 'I', 'N') {
            ParseStep::Op(SpecOp::Lit(SpecVal::Num(9, 1)), rest)
        } else if cmd_is(s, 'T', 'E', 'N') {
            ParseStep::Op(SpecOp::Lit(SpecVal::Num(10, 1)), rest)
        } else if cmd_is(s, 'A', 'D', 'D') {
            ParseStep::Op(SpecOp::Add, rest)
        } else if cmd_is(s, 'S', 'U', 'B') {
            ParseStep::Op(SpecOp::Sub, rest)
        } else if cmd_is(s, 'M', 'U', 'L') {
            ParseStep::Op(SpecOp::Mul, rest)
        } else if cmd_is(s, 'D', 'I', 'V') {
            ParseStep::Op(SpecOp::Div, rest)
        } else if cmd_is(s, 'W', 'H', 'L') {
            ParseStep::Op(SpecOp::Whl, rest)
        } else if cmd_is(s, 'P', 'U', 'T') {
            ParseStep::Op(SpecOp::Put, rest)
        } else {
            ParseStep::Op(SpecOp::Nop, rest)
        }
    }
}

/// The block literal grammar: commands until the `END` lookahead or the end
/// of the stream, then the `END` marker itself.
pub open spec fn sp_block_ops(s: Seq<char>) -> BlockStep
    decreases s.len(), 2int,
{
    if peek_end(s) {
        BlockStep::Done(Seq::empty(), s.skip(3))
    } else {
        match sp_parse(s) {
            ParseStep::End => BlockStep::Done(Seq::empty(), Seq::empty()),
            ParseStep::Fail(e) => BlockStep::Fail(e),
            ParseStep::Op(op, rem) => {
                if rem.len() < s.len() {
                    match sp_block_ops(rem) {
                        BlockStep::Done(ops, r2) => BlockStep::Done(seq![op] + ops, r2),
                        BlockStep::Fail(e) => BlockStep::Fail(e),
                    }
                } else {
                    BlockStep::Done(Seq::empty(), rem)
                }
            }
        }
    }
}

/// The program grammar: commands until the stream runs out.
pub open spec fn sp_program(s: Seq<char>) -> ProgStep
    decreases s.len(),
{
    match sp_parse(s) {
        ParseStep::End => ProgStep::Done(Seq::empty()),
        ParseStep::Fail(e) => ProgStep::Fail(e),
        ParseStep::Op(op, rem) => {
            if rem.len() < s.len() {
                match sp_program(rem) {
                    ProgStep::Done(ops) => ProgStep::Done(seq![op] + ops),
                    ProgStep::Fail(e) => ProgStep::Fail(e),
                }
            } else {
                ProgStep::Done(Seq::empty())
            }
        }
    }
}

/// How register-select operations read under `op_view`.
pub proof fn lemma_view_sel(c: char)
    ensures
        op_view(Op::SelPrimary(c)) == SpecOp::SelPrimary(c),
        op_view(Op::SelSecondary(c)) == SpecOp::SelSecondary(c),
        op_view(Op::SelResult(c)) == SpecOp::SelResult(c),
        op_inv(Op::SelPrimary(c)),
        op_inv(Op::SelSecondary(c)),
        op_inv(Op::SelResult(c)),
{
}

/// How the fixed operations read under `op_view`.
pub proof fn lemma_view_unit()
    ensures
        op_view(Op::SwapPS) == SpecOp::SwapPS,
        op_view(Op::SwapPR) == SpecOp::SwapPR,
        op_view(Op::SwapSR) == SpecOp::SwapSR,
        op_view(Op::Add) == SpecOp::Add,
        op_view(Op::Sub) == SpecOp::Sub,
        op_view(Op::Mul) == SpecOp::Mul,
        op_view(Op::Div) == SpecOp::Div,
        op_view(Op::Whl) == SpecOp::Whl,
        op_view(Op::Put) == SpecOp::Put,
        op_view(Op::Nop) == SpecOp::Nop,
        op_inv(Op::SwapPS) && op_inv(Op::SwapPR) && op_inv(Op::SwapSR),
        op_inv(Op::Add) && op_inv(Op::Sub) && op_inv(Op::Mul) && op_inv(Op::Div),
        op_inv(Op::Whl) && op_inv(Op::Put) && op_inv(Op::Nop),
{
}

/// How a stored number literal reads under `op_view`.
pub proof fn lemma_view_num(r: Rat)
    ensures
        op_view(Op::Lit(Value::Num(r))) == SpecOp::Lit(SpecVal::Num(r.num(), r.den())),
        op_inv(Op::Lit(Value::Num(r))) == r.inv(),
{
}

/// A block literal wraps exactly what its inner grammar yields: the same
/// `sp_block_ops` parses the inside at any nesting depth, and the block's
/// remaining input is whatever follows its own `END`.
pub proof fn lemma_block_literal(s: Seq<char>)
    requires
        s.len() >= 3,
        s[0] == 'B',
        s[1] == 'L',
        s[2] == 'K',
    ensures
        (sp_block_ops(s.skip(3)) matches BlockStep::Done(ops, rem) ==> sp_parse(s)
            == ParseStep::Op(SpecOp::Lit(SpecVal::Block(ops)), rem)),
        (sp_block_ops(s.skip(3)) matches BlockStep::Fail(e) ==> sp_parse(s) == ParseStep::Fail(
            e,
        )),
{
}

/// At the `END` lookahead a block closes at once, consuming exactly the
/// three marker symbols and nothing else.
pub proof fn lemma_block_end(s: Seq<char>)
    requires
        peek_end(s),
    ensures
        sp_block_ops(s) == BlockStep::Done(Seq::<SpecOp>::empty(), s.skip(3)),
{
}

/// Inside a block, one command parses exactly as `sp_parse` says at top
/// level, and prepends to the block's remaining operations.
pub proof fn lemma_block_step(s: Seq<char>)
    requires
        !peek_end(s),
    ensures
        (sp_parse(s) matches ParseStep::Op(op, rem) ==> rem.len() < s.len() ==> sp_block_ops(
            s,
        ) == block_prepend(seq![op], sp_block_ops(rem))),
{
    match sp_parse(s) {
        ParseStep::Op(op, rem) => {
            if rem.len() < s.len() {
                match sp_block_ops(rem) {
                    BlockStep::Done(ops, r2) => {
                        assert(sp_block_ops(s) == BlockStep::Done(seq![op] + ops, r2));
                    }
                    BlockStep::Fail(e) => {}
                }
            }
        }
        _ => {}
    }
}

/// The sign of a number literal follows the parity of its leading `Z` run:
/// an even count keeps the decoded magnitude, an odd count negates it.
pub proof fn lemma_num_sign(zs: nat, ds: Seq<char>)
    requires
        base25(ds) >= 0,
    ensures
        zs % 2 == 0 ==> sp_num_value(zs, Some(ds), Option::None) == Some(
            norm(base25(ds), 1),
        ),
        zs % 2 == 1 ==> sp_num_value(zs, Some(ds), Option::None) == Some(
            norm(-base25(ds), 1),
        ),
{
}

impl Babble {
    /// One fixed small-number literal operation.
    fn lit_num(k: u32) -> (r: Result<Option<Op>, BabbleError>)
        ensures
            r matches Ok(o) && o matches Some(op) && op_view(op) == SpecOp::Lit(SpecVal::Num(
                k as int,
                1,
            )) && op_inv(op),
    {
        let rat = Rat::from_u32(k);
        proof {
            lemma_view_num(rat);
        }
        Ok(Some(Op::Lit(Value::Num(rat))))
    }

    /// Parse one command from the stream: the executable counterpart of
    /// `sp_parse`.
    #[verifier::rlimit(100)]
    pub fn parse(code: &mut BabbleCodeIterator) -> (r: Result<Option<Op>, BabbleError>)
        requires
            old(code).inv(),
        ensures
            final(code).inv(),
            (sp_parse(old(code)@) matches ParseStep::Op(sop, rem) ==> r matches Ok(o)
                && o matches Some(op) && op_view(op) == sop && op_inv(op) && final(code)@ == rem
                && final(code)@.len() + 3 <= old(code)@.len()),
            (sp_parse(old(code)@) is End ==> r == Ok::<Option<Op>, BabbleError>(Option::None)
                && final(code)@.len() == 0),
            (sp_parse(old(code)@) matches ParseStep::Fail(e) ==> r == Err::<Option<Op>, BabbleError>(e)),
            final(code)@.len() <= old(code)@.len(),
        decreases old(code)@.len(), 1int,
    {
        let a = code.next();
        let b = code.next();
        let c = code.next();
        if a.is_none() || b.is_none() || c.is_none() {
            return Ok(Option::None);
        }
        let c0 = a.unwrap();
        let c1 = b.unwrap();
        let c2 = c.unwrap();
        proof {
            assert(old(code)@.len() >= 3);
            assert(code@ =~= old(code)@.skip(3));
            assert(c0 == old(code)@[0] && c1 == old(code)@[1] && c2 == old(code)@[2]);
            lemma_view_sel(c2);
            lemma_view_unit();
        }
        if c0 == 'P' && c1 == 'V' {
            return Ok(Some(Op::SelPrimary(c2)));
        } else if c0 == 'S' && c1 == 'V' {
            return Ok(Some(Op::SelSecondary(c2)));
        } else if c0 == 'R' && c1 == 'V' {
            return Ok(Some(Op::SelResult(c2)));
        } else if c0 == 'X' && c1 == 'P' && c2 == 'S' {
            return Ok(Some(Op::SwapPS));
        } else if c0 == 'X' && c1 == 'P' && c2 == 'R' {
            return Ok(Some(Op::SwapPR));
        } else if c0 == 'X' && c1 == 'S' && c2 == 'R' {
            return Ok(Some(Op::SwapSR));
        } else if c0 == 'A' && c1 == 'R' && c2 == 'R' {
            match Babble::parse_literal_array(code) {
                Some(op) => Ok(Some(op)),
                None => { return Ok(Option::None); }
            }
        } else if c0 == 'B' && c1 == 'L' && c2 == 'K' {
            return Babble::parse_literal_block(code);
        } else if c0 == 'N' && c1 == 'U' && c2 == 'M' {
            return Babble::parse_literal_num(code);
        } else if c0 == 'Z' && c1 == 'R' && c2 == 'O' {
            return Babble::lit_num(0);
        } else if c0 == 'O' && c1 == 'N' && c2 == 'E' {
            return Babble::lit_num(1);
        } else if c0 == 'T' && c1 == 'W' && c2 == 'O' {
            return Babble::lit_num(2);
        } else if c0 == 'T' && c1 == 'R' && c2 == 'E' {
            return Babble::lit_num(3);
        } else if c0 == 'F' && c1 == 'O' && c2 == 'R' {
            return Babble::lit_num(4);
        } else if c0 == 'F' && c1 == 'I' && c2 == 'V' {
            return Babble::lit_num(5);
        } else if c0 == 'S' && c1 == 'I' && c2 == 'X' {
            return Babble::lit_num(6);
        } else if c0 == 'E' && c1 == 'G' && c2 == 'T' {
            return Babble::lit_num(8);
        } else if c0 == 'N' && c1 == 'I' && c2 == 'N' {
            return Babble::lit_num(9);
        } else if c0 == 'T' && c1 == 'E' && c2 == 'N' {
            return Babble::lit_num(10);
        } else if c0 == 'A' && c1 == 'D' && c2 == 'D' {
            return Ok(Some(Op::Add));
        } else if c0 == 'S' && c1 == 'U' && c2 == 'B' {
            return Ok(Some(Op::Sub));
        } else if c0 == 'M' && c1 == 'U' && c2 == 'L' {
            return Ok(Some(Op::Mul));
        } else if c0 == 'D' && c1 == 'I' && c2 == 'V' {
            return Ok(Some(Op::Div));
        } else if c0 == 'W' && c1 == 'H' && c2 == 'L' {
            return Ok(Some(Op::Whl));
        } else if c0 == 'P' && c1 == 'U' && c2 == 'T' {
            return Ok(Some(Op::Put));
        } else {
            return Ok(Some(Op::Nop));
        }
    }

    /// Parse an array literal after its `ARR` keyword: the executable
    /// counterpart of `sp_array`.
    pub fn parse_literal_array(code: &mut BabbleCodeIterator) -> (r: Option<Op>)
        requires
            old(code).inv(),
        ensures
            final(code).inv(),
            (sp_array(old(code)@, Seq::empty()) matches ArrStep::Done(es, rem) ==> r matches Some(
                op,
            ) && op_view(op) == SpecOp::Lit(SpecVal::Arr(es)) && op_inv(op) && final(code)@ == rem),
            (sp_array(old(code)@, Seq::empty()) is Abort ==> r is None && final(code)@.len()
                == 0),
            final(code)@.len() <= old(code)@.len(),
        decreases old(code)@.len(), 0int,
    {
        let mut arr: Vec<Value> = Vec::new();
        loop
            invariant
                code.inv(),
                vals_inv(arr@),
                code@.len() <= old(code)@.len(),
                sp_array(old(code)@, Seq::empty()) == sp_array(code@, vals_view(arr@)),
            decreases code@.len(),
        {
            let ghost pre = code@;
            let ghost preacc = vals_view(arr@);
            let n1 = code.next();
            if n1.is_none() {
                return Option::None;
            }
            let ch = n1.unwrap();
            if ch != 'Z' {
                let v = Value::Num(Rat::from_u32(ch as u32));
                proof {
                    lemma_vals_snoc(arr@, v);
                }
                arr.push(v);
            } else {
                let n2 = code.next();
                if n2.is_none() {
                    return Option::None;
                }
                let e = n2.unwrap();
                if e == 'E' {
                    let out = Value::Arr(arr);
                    return Some(Op::Lit(out));
                } else if e == 'L' {
                    let n3 = code.next();
                    if n3.is_none() {
                        return Option::None;
                    }
                    let c3 = n3.unwrap();
                    proof {
                        vstd::utf8::char_is_scalar(c3);
                        assert(c3 as u32 <= 0x10ffff);
                    }
                    let v = Value::Num(Rat::from_u32(c3 as u32 + 32));
                    proof {
                        lemma_vals_snoc(arr@, v);
                        assert(pre.skip(2)[0] == pre[2]);
                        assert(pre.skip(2).drop_first() =~= pre.skip(3));
                    }
                    arr.push(v);
                } else if e == 'T' {
                    let n3 = code.next();
                    if n3.is_none() {
                        return Option::None;
                    }
                    let n4 = code.next();
                    if n4.is_none() {
                        return Option::None;
                    }
                    let c3 = n3.unwrap();
                    let c4 = n4.unwrap();
                    let mut ds: Vec<char> = Vec::new();
                    ds.push(c3);
                    ds.push(c4);
                    proof {
                        assert(ds@ =~= seq![pre[2], pre[3]]);
                        assert(pre.skip(2)[0] == pre[2]);
                        assert(pre.skip(2).drop_first() =~= pre.skip(3));
                        assert(pre.skip(3)[0] == pre[3]);
                        assert(pre.skip(3).drop_first() =~= pre.skip(4));
                        crate::codec::lemma_base25_nonneg(ds@);
                    }
                    let mag = from_letter_base(&ds);
                    let v = Value::Num(Rat { n: mag, d: Big::from_u32(1) });
                    proof {
                        lemma_vals_snoc(arr@, v);
                    }
                    arr.push(v);
                } else if e == 'Z' {
                    let v = Value::Num(Rat::from_u32(90));
                    proof {
                        lemma_vals_snoc(arr@, v);
                    }
                    arr.push(v);
                }
            }
            proof {
                assert(pre.drop_first() =~= pre.skip(1));
                if pre.len() >= 2 && pre[0] == 'Z' {
                    assert(pre.skip(1)[0] == pre[1]);
                    assert(pre.skip(1).drop_first() =~= pre.skip(2));
                }
            }
        }
    }

    /// Parse a block literal after its `BLK` keyword: the executable
    /// counterpart of `sp_block_ops`.
    #[verifier::loop_isolation(false)]
    pub fn parse_literal_block(code: &mut BabbleCodeIterator) -> (r: Result<Option<Op>, BabbleError>)
        requires
            old(code).inv(),
        ensures
            final(code).inv(),
            (sp_block_ops(old(code)@) matches BlockStep::Done(ops, rem) ==> r matches Ok(o)
                && o matches Some(op) && op_view(op) == SpecOp::Lit(SpecVal::Block(ops))
                && op_inv(op) && final(code)@ == rem),
            (sp_block_ops(old(code)@) matches BlockStep::Fail(e) ==> r == Err::<Option<Op>, BabbleError>(e)),
            final(code)@.len() <= old(code)@.len(),
        decreases old(code)@.len(), 2int,
    {
        let mut tokens: Vec<Op> = Vec::new();
        proof {
            assert(ops_view(tokens@) =~= Seq::<SpecOp>::empty());
            match sp_block_ops(code@) {
                BlockStep::Done(o, rm) => {
                    assert(Seq::<SpecOp>::empty() + o =~= o);
                }
                _ => {}
            }
        }
        loop
            invariant
                code.inv(),
                ops_inv(tokens@),
                code@.len() <= old(code)@.len(),
                sp_block_ops(old(code)@) == block_prepend(ops_view(tokens@), sp_block_ops(code@)),
            decreases code@.len(),
        {
            let ghost pre = code@;
            if code.is_ending() {
                let _ = code.next();
                let _ = code.next();
                let _ = code.next();
                proof {
                    assert(code@ =~= pre.skip(3));
                    assert(ops_view(tokens@) + Seq::<SpecOp>::empty() =~= ops_view(tokens@));
                }
                let out = Value::Block(tokens);
                return Ok(Some(Op::Lit(out)));
            }
            match Babble::parse(code) {
                Err(e) => {
                    return Err(e);
                }
                Ok(Option::None) => {
                    proof {
                        assert(code@ =~= Seq::<char>::empty());
                        assert(ops_view(tokens@) + Seq::<SpecOp>::empty() =~= ops_view(tokens@));
                    }
                    let out = Value::Block(tokens);
                    return Ok(Some(Op::Lit(out)));
                }
                Ok(Some(op)) => {
                    proof {
                        lemma_ops_snoc(tokens@, op);
                        match sp_block_ops(code@) {
                            BlockStep::Done(o2, r2) => {
                                assert((ops_view(tokens@).push(op_view(op))) + o2 =~= ops_view(
                                    tokens@,
                                ) + (seq![op_view(op)] + o2));
                            }
                            _ => {}
                        }
                    }
                    tokens.push(op);
                }
            }
        }
    }

    /// Parse a number literal after its `NUM` keyword: the executable
    /// counterpart of `sp_num`.
    #[verifier::loop_isolation(false)]
    pub fn parse_literal_num(code: &mut BabbleCodeIterator) -> (r: Result<Option<Op>, BabbleError>)
        requires
            old(code).inv(),
        ensures
            final(code).inv(),
            (sp_num(old(code)@, 0, Option::None, Option::None) matches NumStep::Done(n, d, rem)
                ==> r matches Ok(o) && o matches Some(op) && op_view(op) == SpecOp::Lit(
                SpecVal::Num(n, d),
            ) && op_inv(op) && final(code)@ == rem),
            (sp_num(old(code)@, 0, Option::None, Option::None) is Fail ==> r == Err::<
                Option<Op>,
                BabbleError,
            >(BabbleError::ArithmeticFailure)),
            final(code)@.len() <= old(code)@.len(),
        decreases old(code)@.len(), 0int,
    {
        let mut zs: usize = 0;
        let mut d1: Option<Vec<char>> = Option::None;
        let mut d2: Option<Vec<char>> = Option::None;
        let ghost s0 = code@;
        proof {
            assert(s0 == old(code)@);
        }
        loop
            invariant
                code.inv(),
                zs <= code.pos,
                code@.len() <= s0.len(),
                sp_num(s0, 0, Option::None, Option::None) == sp_num(
                    code@,
                    zs as nat,
                    match d1 {
                        Some(v) => Some(v@),
                        None => None,
                    },
                    match d2 {
                        Some(v) => Some(v@),
                        None => None,
                    },
                ),
                d1 matches Some(v) ==> forall|i: int|
                    0 <= i < v@.len() ==> #[trigger] (v@[i] as u32) >= 65,
                d2 matches Some(v) ==> forall|i: int|
                    0 <= i < v@.len() ==> #[trigger] (v@[i] as u32) >= 65,
            decreases code@.len(),
        {
            let ghost pre = code@;
            let ghost gd1 = match &d1 {
                Some(v) => Some(v@),
                None => None,
            };
            let ghost gd2 = match &d2 {
                Some(v) => Some(v@),
                None => None,
            };
            let nx = code.next();
            if nx.is_none() {
                proof {
                    assert(sp_num(s0, 0, Option::None, Option::None) == sp_num_finish(
                        zs as nat,
                        gd1,
                        gd2,
                        pre,
                    ));
                }
                return Babble::finish_num(zs, &d1, &d2);
            }
            let ch = nx.unwrap();
            proof {
                assert(pre.drop_first() =~= pre.skip(1));
            }
            if ch == 'Z' {
                if d1.is_none() {
                    zs += 1;
                } else if zs >= 2 && d2.is_none() {
                    let v: Vec<char> = Vec::new();
                    proof {
                        assert(v@ =~= Seq::<char>::empty());
                    }
                    d2 = Some(v);
                } else {
                    proof {
                        assert(code@ == pre.skip(1));
                        assert(sp_num(pre, zs as nat, gd1, gd2) == sp_num_finish(
                            zs as nat,
                            gd1,
                            gd2,
                            pre.skip(1),
                        ));
                        assert(sp_num(s0, 0, Option::None, Option::None) == sp_num_finish(
                            zs as nat,
                            gd1,
                            gd2,
                            code@,
                        ));
                    }
                    return Babble::finish_num(zs, &d1, &d2);
                }
            } else {
                match d2 {
                    Some(ref mut ds) => {
                        ds.push(ch);
                    }
                    Option::None => {
                        match d1 {
                            Some(ref mut ds) => {
                                ds.push(ch);
                            }
                            Option::None => {
                                let mut v: Vec<char> = Vec::new();
                                v.push(ch);
                                d1 = Some(v);
                                proof {
                                    assert(v@ =~= seq![pre[0]]);
                                }
                            }
                        }
                    }
                }
            }
        }
    }

    /// Assemble the value a finished number literal denotes.
    fn finish_num(zs: usize, d1: &Option<Vec<char>>, d2: &Option<Vec<char>>) -> (r: Result<
        Option<Op>,
        BabbleError,
    >)
        requires
            d1 matches Some(v) ==> forall|i: int|
                0 <= i < v@.len() ==> #[trigger] (v@[i] as u32) >= 65,
            d2 matches Some(v) ==> forall|i: int|
                0 <= i < v@.len() ==> #[trigger] (v@[i] as u32) >= 65,
        ensures
            (sp_num_value(
                zs as nat,
                match *d1 {
                    Some(v) => Some(v@),
                    None => None,
                },
                match *d2 {
                    Some(v) => Some(v@),
                    None => None,
                },
            ) matches Some(p) ==> r matches Ok(o) && o matches Some(op) && op_view(op)
                == SpecOp::Lit(SpecVal::Num(p.0, p.1)) && op_inv(op)),
            (sp_num_value(
                zs as nat,
                match *d1 {
                    Some(v) => Some(v@),
                    None => None,
                },
                match *d2 {
                    Some(v) => Some(v@),
                    None => None,
                },
            ) is None ==> r == Err::<Option<Op>, BabbleError>(BabbleError::ArithmeticFailure)),
    {
        let mag = match d1 {
            Some(ds) => from_letter_base(ds),
            Option::None => Big::from_u32(0),
        };
        let numer = if zs % 2 == 1 {
            mag.negated()
        } else {
            mag
        };
        let den = match d2 {
            Some(ds) => {
                proof {
                    crate::codec::lemma_base25_nonneg(ds@);
                }
                from_letter_base(ds)
            }
            Option::None => Big::from_u32(1),
        };
        if den.is_zero() {
            return Err(BabbleError::ArithmeticFailure);
        }
        let val = reduce(&numer, &den);
        Ok(Some(Op::Lit(Value::Num(val))))
    }

    /// Turn a source string into the operations it denotes: the executable
    /// counterpart of `sp_program` over the filtered symbol stream.
    #[verifier::loop_isolation(false)]
    pub fn tokenize(code: String) -> (r: Result<Vec<Op>, BabbleError>)
        ensures
            (sp_program(kept(code@)) matches ProgStep::Done(ops) ==> r matches Ok(v) && ops_view(
                v@,
            ) == ops && ops_inv(v@)),
            (sp_program(kept(code@)) matches ProgStep::Fail(e) ==> r == Err::<Vec<Op>, BabbleError>(e)),
    {
        let ghost src = kept(code@);
        let mut it = BabbleCodeIterator::new(code);
        proof {
            assert(it@ == src);
        }
        let mut tokens: Vec<Op> = Vec::new();
        proof {
            assert(ops_view(tokens@) =~= Seq::<SpecOp>::empty());
            match sp_program(it@) {
                ProgStep::Done(o) => {
                    assert(Seq::<SpecOp>::empty() + o =~= o);
                }
                _ => {}
            }
        }
        loop
            invariant
                it.inv(),
                ops_inv(tokens@),
                sp_program(src) == prog_prepend(ops_view(tokens@), sp_program(it@)),
            decreases it@.len(),
        {
            match Babble::parse(&mut it) {
                Err(e) => {
                    return Err(e);
                }
                Ok(Option::None) => {
                    proof {
                        assert(ops_view(tokens@) + Seq::<SpecOp>::empty() =~= ops_view(tokens@));
                    }
                    return Ok(tokens);
                }
                Ok(Some(op)) => {
                    proof {
                        lemma_ops_snoc(tokens@, op);
                        match sp_program(it@) {
                            ProgStep::Done(o2) => {
                                assert((ops_view(tokens@).push(op_view(op))) + o2 =~= ops_view(
                                    tokens@,
                                ) + (seq![op_view(op)] + o2));
                            }
                            _ => {}
                        }
                    }
                    tokens.push(op);
                }
            }
        }
    }
}



} // verus!
