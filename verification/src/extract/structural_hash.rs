//! Hashes of the structure of expressions.
use crate::ast_node::AstNode;
use crate::number::Number;
use crate::teachable::{
    CastOp, ShieldingBop, ShieldingConst, ShieldingOp, ShieldingTop, ShieldingUop, Teachable,
    VectorOp,
};
use bitvec::order::Lsb0;
use bitvec::vec::BitVec;
use std::hash::{DefaultHasher, Hasher};
use vstd::bytes::{
    spec_u32_to_le_bytes, spec_u64_to_le_bytes, u32_to_le_bytes, u64_to_le_bytes,
};
use vstd::prelude::*;
use vstd::std_specs::hash::DefaultHasherAdditionalSpecFns;
use vstd::utf8::encode_utf8;

verus! {

// ---------------------------------------------------------------------------
// Numbers of operations
// ---------------------------------------------------------------------------

/// The number of an operation of three operands.
pub open spec fn top_number(op: ShieldingTop) -> u64 {
    match op {
        ShieldingTop::Store => 0,
        ShieldingTop::Select => 1,
    }
}

fn number_of_top(op: &ShieldingTop) -> (r: u64)
    ensures
        r == top_number(*op),
{
    match op {
        ShieldingTop::Store => 0,
        ShieldingTop::Select => 1,
    }
}

/// The number of an operation of two operands.
pub open spec fn bop_number(op: ShieldingBop) -> u64 {
    match op {
        ShieldingBop::Add => 0,
        ShieldingBop::Sub => 1,
        ShieldingBop::Mul => 2,
        ShieldingBop::Div => 3,
        ShieldingBop::Mod => 4,
        ShieldingBop::Eq => 5,
        ShieldingBop::Ne => 6,
        ShieldingBop::LessThan => 7,
        ShieldingBop::GreaterThan => 8,
        ShieldingBop::LessEq => 9,
        ShieldingBop::GreaterEq => 10,
        ShieldingBop::Max => 11,
        ShieldingBop::Min => 12,
        ShieldingBop::Shl => 13,
        ShieldingBop::Shr => 14,
        ShieldingBop::And => 15,
        ShieldingBop::Or => 16,
        ShieldingBop::Xor => 17,
        ShieldingBop::Load => 18,
        ShieldingBop::StateMerge => 19,
    }
}

fn number_of_bop(op: &ShieldingBop) -> (r: u64)
    ensures
        r == bop_number(*op),
{
    match op {
        ShieldingBop::Add => 0,
        ShieldingBop::Sub => 1,
        ShieldingBop::Mul => 2,
        ShieldingBop::Div => 3,
        ShieldingBop::Mod => 4,
        ShieldingBop::Eq => 5,
        ShieldingBop::Ne => 6,
        ShieldingBop::LessThan => 7,
        ShieldingBop::GreaterThan => 8,
        ShieldingBop::LessEq => 9,
        ShieldingBop::GreaterEq => 10,
        ShieldingBop::Max => 11,
        ShieldingBop::Min => 12,
        ShieldingBop::Shl => 13,
        ShieldingBop::Shr => 14,
        ShieldingBop::And => 15,
        ShieldingBop::Or => 16,
        ShieldingBop::Xor => 17,
        ShieldingBop::Load => 18,
        ShieldingBop::StateMerge => 19,
    }
}

/// The number of a conversion.
pub open spec fn cast_number(op: CastOp) -> u64 {
    match op {
        CastOp::ZExt => 0,
        CastOp::SExt => 1,
        CastOp::Trunc => 2,
        CastOp::FPTrunc => 3,
        CastOp::FPExt => 4,
    }
}

fn number_of_cast(op: &CastOp) -> (r: u64)
    ensures
        r == cast_number(*op),
{
    match op {
        CastOp::ZExt => 0,
        CastOp::SExt => 1,
        CastOp::Trunc => 2,
        CastOp::FPTrunc => 3,
        CastOp::FPExt => 4,
    }
}

/// The number of an operation on vectors.
pub open spec fn vector_number(op: VectorOp) -> u64 {
    match op {
        VectorOp::Vec => 0,
        VectorOp::VecAdd => 1,
        VectorOp::VecCmp => 2,
        VectorOp::VecSub => 3,
        VectorOp::VecMul => 4,
        VectorOp::VecDiv => 5,
        VectorOp::VecMac => 6,
        VectorOp::VecNeg => 7,
        VectorOp::VecNot => 8,
        VectorOp::VecSext => 9,
        VectorOp::VecZext => 10,
        VectorOp::VecTrunc => 11,
        VectorOp::VecFPTrunc => 12,
        VectorOp::VecFPExt => 13,
        VectorOp::VecAbs => 14,
        VectorOp::VecRem => 15,
        VectorOp::VecAnd => 16,
        VectorOp::VecOr => 17,
        VectorOp::VecXor => 18,
        VectorOp::VecLoad => 19,
        VectorOp::VecStore => 20,
        VectorOp::VecShr => 21,
        VectorOp::VecShl => 22,
        VectorOp::Concat => 23,
        VectorOp::Gather => 24,
        VectorOp::Shuffle => 25,
    }
}

fn number_of_vector(op: &VectorOp) -> (r: u64)
    ensures
        r == vector_number(*op),
{
    match op {
        VectorOp::Vec => 0,
        VectorOp::VecAdd => 1,
        VectorOp::VecCmp => 2,
        VectorOp::VecSub => 3,
        VectorOp::VecMul => 4,
        VectorOp::VecDiv => 5,
        VectorOp::VecMac => 6,
        VectorOp::VecNeg => 7,
        VectorOp::VecNot => 8,
        VectorOp::VecSext => 9,
        VectorOp::VecZext => 10,
        VectorOp::VecTrunc => 11,
        VectorOp::VecFPTrunc => 12,
        VectorOp::VecFPExt => 13,
        VectorOp::VecAbs => 14,
        VectorOp::VecRem => 15,
        VectorOp::VecAnd => 16,
        VectorOp::VecOr => 17,
        VectorOp::VecXor => 18,
        VectorOp::VecLoad => 19,
        VectorOp::VecStore => 20,
        VectorOp::VecShr => 21,
        VectorOp::VecShl => 22,
        VectorOp::Concat => 23,
        VectorOp::Gather => 24,
        VectorOp::Shuffle => 25,
    }
}

// ---------------------------------------------------------------------------
// What is hashed
// ---------------------------------------------------------------------------

/// A number as it is hashed.
pub open spec fn word(x: u64) -> Seq<Seq<u8>> {
    seq![spec_u64_to_le_bytes(x)]
}

/// A number of half the size as it is hashed.
pub open spec fn half_word(x: u32) -> Seq<Seq<u8>> {
    seq![spec_u32_to_le_bytes(x)]
}

/// An operation of one operand as it is hashed.
pub open spec fn uop_bytes(op: ShieldingUop) -> Seq<Seq<u8>> {
    match op {
        ShieldingUop::Abs => word(0),
        ShieldingUop::Not => word(1),
        ShieldingUop::Neg => word(2),
        ShieldingUop::Cast(c) => word(3) + word(cast_number(c)),
    }
}

/// A width as it is hashed.
pub open spec fn width_bytes(w: Option<u32>) -> Seq<Seq<u8>> {
    match w {
        None => word(0),
        Some(w) => word(1) + half_word(w),
    }
}

/// The kind of a constant as it is hashed.
pub open spec fn const_bytes(c: ShieldingConst) -> Seq<Seq<u8>> {
    match c {
        ShieldingConst::Int(w) => word(0) + width_bytes(w),
        ShieldingConst::Float(w) => word(1) + width_bytes(w),
        ShieldingConst::VecInt(n, w) => word(2) + half_word(n) + half_word(w),
        ShieldingConst::VecFloat(n, w) => word(3) + half_word(n) + half_word(w),
    }
}

/// A text as it is hashed: its bytes, and a byte that stands in no text.
pub open spec fn text_bytes(s: Seq<char>) -> Seq<Seq<u8>> {
    seq![encode_utf8(s), seq![0xffu8]]
}

/// An operation as it is hashed: its number, and what it holds.
pub open spec fn op_bytes(op: ShieldingOp) -> Seq<Seq<u8>> {
    match op {
        ShieldingOp::List => word(0),
        ShieldingOp::Lambda => word(1),
        ShieldingOp::Apply => word(2),
        ShieldingOp::Var => word(3),
        ShieldingOp::Lib(id) => word(4) + word(id.0 as u64),
        ShieldingOp::LibVar(id) => word(5) + word(id.0 as u64),
        ShieldingOp::Const(c) => word(6) + const_bytes(c),
        ShieldingOp::Top(t) => word(7) + word(top_number(t)),
        ShieldingOp::Bop(b) => word(8) + word(bop_number(b)),
        ShieldingOp::Uop(u) => word(9) + uop_bytes(u),
        ShieldingOp::Get => word(10),
        ShieldingOp::Tuple => word(11),
        ShieldingOp::Switch => word(12),
        ShieldingOp::DoWhile => word(13),
        ShieldingOp::Arg => word(14),
        ShieldingOp::Function(s) => word(15) + text_bytes(s@),
        ShieldingOp::Dummy(s) => word(16) + text_bytes(s@),
        ShieldingOp::RulerVar => word(17),
        ShieldingOp::IOBarrier => word(18),
        ShieldingOp::ZExt => word(19),
        ShieldingOp::FPTrunc => word(20),
        ShieldingOp::FPExt => word(21),
        ShieldingOp::VectorOp(v) => word(22) + word(vector_number(v)),
        ShieldingOp::OpPack => word(23),
        ShieldingOp::OpSelect => word(24),
        ShieldingOp::OpMask => word(25),
    }
}

fn write_word(h: &mut DefaultHasher, x: u64)
    ensures
        final(h)@ == old(h)@ + word(x),
{
    h.write(u64_to_le_bytes(x).as_slice());
    assert(h@ =~= old(h)@ + word(x));
}

fn write_half_word(h: &mut DefaultHasher, x: u32)
    ensures
        final(h)@ == old(h)@ + half_word(x),
{
    h.write(u32_to_le_bytes(x).as_slice());
    assert(h@ =~= old(h)@ + half_word(x));
}

fn write_uop(h: &mut DefaultHasher, op: &ShieldingUop)
    ensures
        final(h)@ == old(h)@ + uop_bytes(*op),
{
    match op {
        ShieldingUop::Abs => {
            write_word(h, 0);
        },
        ShieldingUop::Not => {
            write_word(h, 1);
        },
        ShieldingUop::Neg => {
            write_word(h, 2);
        },
        ShieldingUop::Cast(c) => {
            write_word(h, 3);
            write_word(h, number_of_cast(c));
        },
    }
    assert(h@ =~= old(h)@ + uop_bytes(*op));
}

fn write_width(h: &mut DefaultHasher, width: &Option<u32>)
    ensures
        final(h)@ == old(h)@ + width_bytes(*width),
{
    match width {
        None => {
            write_word(h, 0);
        },
        Some(x) => {
            write_word(h, 1);
            write_half_word(h, *x);
        },
    }
    assert(h@ =~= old(h)@ + width_bytes(*width));
}

fn write_const(h: &mut DefaultHasher, c: &ShieldingConst)
    ensures
        final(h)@ == old(h)@ + const_bytes(*c),
{
    match c {
        ShieldingConst::Int(x) => {
            write_word(h, 0);
            write_width(h, x);
        },
        ShieldingConst::Float(x) => {
            write_word(h, 1);
            write_width(h, x);
        },
        ShieldingConst::VecInt(n, x) => {
            write_word(h, 2);
            write_half_word(h, *n);
            write_half_word(h, *x);
        },
        ShieldingConst::VecFloat(n, x) => {
            write_word(h, 3);
            write_half_word(h, *n);
            write_half_word(h, *x);
        },
    }
    assert(h@ =~= old(h)@ + const_bytes(*c));
}

fn write_text(h: &mut DefaultHasher, s: &String)
    ensures
        final(h)@ == old(h)@ + text_bytes(s@),
{
    h.write(s.as_str().as_bytes());
    let mut end: Vec<u8> = Vec::new();
    end.push(0xff);
    assert(end@ =~= seq![0xffu8]);
    h.write(end.as_slice());
    assert(h@ =~= old(h)@ + text_bytes(s@));
}

fn write_op(h: &mut DefaultHasher, op: &ShieldingOp)
    ensures
        final(h)@ == old(h)@ + op_bytes(*op),
{
    match op {
        ShieldingOp::List => {
            write_word(h, 0);
        },
        ShieldingOp::Lambda => {
            write_word(h, 1);
        },
        ShieldingOp::Apply => {
            write_word(h, 2);
        },
        ShieldingOp::Var => {
            write_word(h, 3);
        },
        ShieldingOp::Lib(id) => {
            write_word(h, 4);
            write_word(h, id.0 as u64);
        },
        ShieldingOp::LibVar(id) => {
            write_word(h, 5);
            write_word(h, id.0 as u64);
        },
        ShieldingOp::Const(c) => {
            write_word(h, 6);
            write_const(h, c);
        },
        ShieldingOp::Top(t) => {
            write_word(h, 7);
            write_word(h, number_of_top(t));
        },
        ShieldingOp::Bop(b) => {
            write_word(h, 8);
            write_word(h, number_of_bop(b));
        },
        ShieldingOp::Uop(u) => {
            write_word(h, 9);
            write_uop(h, u);
        },
        ShieldingOp::Get => {
            write_word(h, 10);
        },
        ShieldingOp::Tuple => {
            write_word(h, 11);
        },
        ShieldingOp::Switch => {
            write_word(h, 12);
        },
        ShieldingOp::DoWhile => {
            write_word(h, 13);
        },
        ShieldingOp::Arg => {
            write_word(h, 14);
        },
        ShieldingOp::Function(s) => {
            write_word(h, 15);
            write_text(h, s);
        },
        ShieldingOp::Dummy(s) => {
            write_word(h, 16);
            write_text(h, s);
        },
        ShieldingOp::RulerVar => {
            write_word(h, 17);
        },
        ShieldingOp::IOBarrier => {
            write_word(h, 18);
        },
        ShieldingOp::ZExt => {
            write_word(h, 19);
        },
        ShieldingOp::FPTrunc => {
            write_word(h, 20);
        },
        ShieldingOp::FPExt => {
            write_word(h, 21);
        },
        ShieldingOp::VectorOp(v) => {
            write_word(h, 22);
            write_word(h, number_of_vector(v));
        },
        ShieldingOp::OpPack => {
            write_word(h, 23);
        },
        ShieldingOp::OpSelect => {
            write_word(h, 24);
        },
        ShieldingOp::OpMask => {
            write_word(h, 25);
        },
    }
    assert(h@ =~= old(h)@ + op_bytes(*op));
}

// ---------------------------------------------------------------------------
// Hashing
// ---------------------------------------------------------------------------

/// Numbers as they are hashed.
pub open spec fn words(w: Seq<u64>) -> Seq<Seq<u8>> {
    Seq::new(w.len(), |i: int| spec_u64_to_le_bytes(w[i]))
}

/// The hash of an operation and of the hashes of its arguments.
pub open spec fn full_hash(op: ShieldingOp, child_hashes: Seq<u64>) -> u64 {
    DefaultHasher::spec_finish(op_bytes(op) + words(child_hashes))
}

/// The hash of a node, from those of its arguments. Operations count without
/// their particulars.
pub fn compute_full_hash<Op: Teachable<N>, N: Number>(
    enode: &AstNode<Op>,
    child_hashes: &Vec<u64>,
) -> (r: u64)
    ensures
        exists|op: ShieldingOp| #[trigger]
            call_ensures(Op::to_shielding_op, (&enode.operation,), op) && r == full_hash(
                op,
                child_hashes@,
            ),
{
    let op: ShieldingOp = enode.operation.to_shielding_op();
    let mut h: DefaultHasher = DefaultHasher::new();
    write_op(&mut h, &op);
    let n: usize = child_hashes.len();
    let ghost start = op_bytes(op);
    let ghost all = words(child_hashes@);
    assert(h@ =~= start + all.take(0));
    for i in 0..n
        invariant
            n == child_hashes@.len(),
            all == words(child_hashes@),
            h@ == start + all.take(i as int),
    {
        write_word(&mut h, child_hashes[i]);
        assert(h@ =~= start + all.take(i + 1));
    }
    assert(all.take(n as int) =~= all);
    assert(call_ensures(Op::to_shielding_op, (&enode.operation,), op));
    h.finish()
}

/// The level of a node: its hash, mapped to one of the levels.
pub fn compute_hash_level<Op: Teachable<N>, N: Number>(
    enode: &AstNode<Op>,
    child_hashes: &Vec<u64>,
) -> (r: usize)
    ensures
        r < LEVELS,
        exists|op: ShieldingOp| #[trigger]
            call_ensures(Op::to_shielding_op, (&enode.operation,), op) && r == full_hash(
                op,
                child_hashes@,
            ) % 64,
{
    (compute_full_hash(enode, child_hashes) % 64) as usize
}

// ---------------------------------------------------------------------------
// Levels
// ---------------------------------------------------------------------------

/// The number of levels.
pub const LEVELS: usize = 64;

/// One bit for each level, in a `BitVec` of `bitvec`.
#[verifier::external_body]
#[derive(Debug)]
pub struct LevelBits {
    bits: BitVec<u64, Lsb0>,
}

/// The bits.
pub uninterp spec fn bits_of(b: LevelBits) -> Seq<bool>;

impl LevelBits {
    /// `BitVec::repeat`: bits that are not set.
    #[verifier::external_body]
    fn zeros(n: usize) -> (r: Self)
        requires
            n <= 64,
        ensures
            bits_of(r) == Seq::new(n as nat, |i: int| false),
    {
        LevelBits { bits: BitVec::repeat(false, n) }
    }

    /// `Index` of `BitVec`: a bit.
    #[verifier::external_body]
    fn get(&self, i: usize) -> (r: bool)
        requires
            i < bits_of(*self).len(),
        ensures
            r == bits_of(*self)[i as int],
    {
        self.bits[i]
    }

    /// `BitSlice::set`: sets a bit and leaves the others.
    #[verifier::external_body]
    fn set(&mut self, i: usize, value: bool)
        requires
            i < bits_of(*old(self)).len(),
        ensures
            bits_of(*final(self)) == bits_of(*old(self)).update(i as int, value),
    {
        self.bits.set(i, value)
    }
}

/// How likely nodes of different classes are to meet at each level.
#[derive(Debug)]
pub struct LevelConflictState<N: Number> {
    states: Vec<N>,
    alpha: N,
}

/// A half.
pub open spec fn half<N: Number>() -> N {
    N::s_count(1).s_over(N::s_count(2))
}

/// A tenth.
pub open spec fn tenth<N: Number>() -> N {
    N::s_count(1).s_over(N::s_count(10))
}

/// The state of a level after a meeting, real or not: a tenth of the way from
/// where it was to a half or to zero.
pub open spec fn updated<N: Number>(state: N, is_real: bool) -> N {
    N::s_count(1).s_minus(tenth()).s_times(state).s_plus(
        tenth::<N>().s_times(
            N::s_count(
                if is_real {
                    1
                } else {
                    0
                },
            ),
        ).s_times(half()),
    )
}

impl<N: Number> View for LevelConflictState<N> {
    type V = Seq<N>;

    closed spec fn view(&self) -> Seq<N> {
        self.states@
    }
}

impl<N: Number> LevelConflictState<N> {
    /// Whether every level has a state, and the states move by a tenth.
    pub closed spec fn wf(&self) -> bool {
        self.states@.len() == LEVELS && self.alpha == tenth::<N>()
    }

    /// A half for every level.
    pub fn new() -> (r: Self)
        ensures
            r.wf(),
            r@ == Seq::new(LEVELS as nat, |i: int| half::<N>()),
    {
        let mut states: Vec<N> = Vec::new();
        for i in 0..LEVELS
            invariant
                states@.len() == i,
                forall|k: int| 0 <= k < i ==> states@[k] == half::<N>(),
        {
            states.push(N::count(1).over(N::count(2)));
        }
        let r = LevelConflictState { states, alpha: N::count(1).over(N::count(10)) };
        assert(r@ =~= Seq::new(LEVELS as nat, |i: int| half::<N>()));
        r
    }

    /// Notes a meeting at a level, real or not.
    pub fn update(&mut self, level: usize, is_real_conflict: bool)
        requires
            old(self).wf(),
            level < LEVELS,
        ensures
            final(self).wf(),
            final(self)@ == old(self)@.update(
                level as int,
                updated(old(self)@[level as int], is_real_conflict),
            ),
    {
        let state: N = self.states[level];
        let weight: N = N::count(
            if is_real_conflict {
                1
            } else {
                0
            },
        );
        let kept: N = N::count(1).minus(self.alpha).times(state);
        let gained: N = self.alpha.times(weight).times(N::count(1).over(N::count(2)));
        self.states.set(level, kept.plus(gained));
    }

    /// The state of a level.
    pub fn get(&self, level: usize) -> (r: N)
        requires
            self.wf(),
            level < LEVELS,
        ensures
            r == self@[level as int],
    {
        self.states[level]
    }
}

/// The hash of a class, and the levels of the expressions in it.
#[derive(Debug)]
pub struct StructuralHash<N: Number> {
    pub cls_hash: u64,
    pub subtree_levels: LevelBits,
    pub level_conflict: LevelConflictState<N>,
}

/// The number with its bits turned to the left.
pub open spec fn turned(x: u64, n: u64) -> u64 {
    if n == 0 {
        x
    } else {
        (x << n) | (x >> ((64 - n) as u64))
    }
}

fn turn(x: u64, n: u64) -> (r: u64)
    requires
        n < 64,
    ensures
        r == turned(x, n),
{
    if n == 0 {
        x
    } else {
        (x << n) | (x >> (64 - n))
    }
}

/// The hash of a class that unites two classes.
pub open spec fn hashes_merged(a: u64, b: u64) -> u64 {
    turned(
        DefaultHasher::spec_finish(words(seq![turned(a, a % 13), turned(b, b % 13)])),
        14,
    )
}

/// The state of a level after two classes meet there, where `a` and `b` tell
/// whether they have expressions at it.
pub open spec fn level_state<N: Number>(a: bool, b: bool, state: N) -> N {
    if a && b {
        updated(state, true)
    } else if a != b {
        updated(state, false)
    } else {
        state
    }
}

/// Whether the united class keeps a level: where both have it, or where one
/// has it and the draw is above the state of the level.
pub open spec fn level_kept<N: Number>(a: bool, b: bool, state: N, draw: N) -> bool {
    (a && b) || (a != b && level_state(a, b, state).s_below(draw))
}

/// Whether a level comes out of a merge: `before` are the bits of both
/// classes and the state, `after` the bit and the state.
pub open spec fn level_merged<N: Number>(before: (bool, bool, N), after: (bool, N), draw: N) -> bool {
    &&& after.0 == level_kept(before.0, before.1, before.2, draw)
    &&& after.1 == level_state(before.0, before.1, before.2)
}

impl<N: Number> StructuralHash<N> {
    /// Whether every level has a bit and a state.
    pub open spec fn wf(&self) -> bool {
        bits_of(self.subtree_levels).len() == LEVELS && self.level_conflict.wf()
    }

    /// Whether the class has an expression at a level.
    pub fn has_level(&self, level: usize) -> (r: bool)
        requires
            self.wf(),
            level < LEVELS,
        ensures
            r == bits_of(self.subtree_levels)[level as int],
    {
        self.subtree_levels.get(level)
    }

    /// Notes whether the class has an expression at a level.
    pub fn set_level(&mut self, level: usize, value: bool)
        requires
            old(self).wf(),
            level < LEVELS,
        ensures
            final(self).wf(),
            bits_of(final(self).subtree_levels) == bits_of(old(self).subtree_levels).update(
                level as int,
                value,
            ),
            final(self).cls_hash == old(self).cls_hash,
            final(self).level_conflict == old(self).level_conflict,
    {
        self.subtree_levels.set(level, value);
    }

    /// Merges the hash of another class into this one. Where only one of them
    /// has a level, `draw` decides whether it is kept.
    pub fn merge(&mut self, other: &Self, draw: N)
        requires
            old(self).wf(),
            other.wf(),
        ensures
            final(self).wf(),
            final(self).cls_hash == hashes_merged(old(self).cls_hash, other.cls_hash),
            forall|i: int|
                0 <= i < LEVELS ==> level_merged(
                    (
                        bits_of(old(self).subtree_levels)[i],
                        bits_of(other.subtree_levels)[i],
                        old(self).level_conflict@[i],
                    ),
                    (
                        #[trigger] bits_of(final(self).subtree_levels)[i],
                        final(self).level_conflict@[i],
                    ),
                    draw,
                ),
    {
        let ghost mine = bits_of(self.subtree_levels);
        let ghost theirs = bits_of(other.subtree_levels);
        let ghost states = self.level_conflict@;
        let mut h: DefaultHasher = DefaultHasher::new();
        write_word(&mut h, turn(self.cls_hash, self.cls_hash % 13));
        write_word(&mut h, turn(other.cls_hash, other.cls_hash % 13));
        assert(h@ =~= words(
            seq![
                turned(self.cls_hash, self.cls_hash % 13),
                turned(other.cls_hash, other.cls_hash % 13),
            ],
        ));
        let cls_hash: u64 = turn(h.finish(), 14);
        let mut levels: LevelBits = LevelBits::zeros(LEVELS);
        for i in 0..LEVELS
            invariant
                self.wf(),
                other.wf(),
                mine == bits_of(self.subtree_levels),
                theirs == bits_of(other.subtree_levels),
                mine.len() == theirs.len() == LEVELS,
                bits_of(levels).len() == LEVELS,
                self.level_conflict@.len() == LEVELS,
                states.len() == LEVELS,
                forall|k: int|
                    0 <= k < i ==> #[trigger] level_merged(
                        (mine[k], theirs[k], states[k]),
                        (bits_of(levels)[k], self.level_conflict@[k]),
                        draw,
                    ),
                forall|k: int| i <= k < LEVELS ==> !(#[trigger] bits_of(levels)[k]),
                forall|k: int| i <= k < LEVELS ==> (#[trigger] self.level_conflict@[k]) == states[k],
        {
            assert(!bits_of(levels)[i as int]);
            assert(self.level_conflict@[i as int] == states[i as int]);
            let ghost kept = bits_of(levels);
            let ghost held = self.level_conflict@;
            let a: bool = self.subtree_levels.get(i);
            let b: bool = other.subtree_levels.get(i);
            if a && b {
                self.level_conflict.update(i, true);
                levels.set(i, true);
            } else if a != b {
                self.level_conflict.update(i, false);
                if self.level_conflict.get(i).below(draw) {
                    levels.set(i, true);
                }
            }
            proof {
                let now = bits_of(levels);
                assert forall|k: int| 0 <= k < i + 1 implies #[trigger] level_merged(
                    (mine[k], theirs[k], states[k]),
                    (now[k], self.level_conflict@[k]),
                    draw,
                ) by {
                    if k < i {
                        assert(level_merged(
                            (mine[k], theirs[k], states[k]),
                            (kept[k], held[k]),
                            draw,
                        ));
                    }
                }
            }
        }
        let ghost bits = bits_of(levels);
        assert forall|k: int| 0 <= k < LEVELS implies level_merged(
            (mine[k], theirs[k], states[k]),
            (#[trigger] bits[k], self.level_conflict@[k]),
            draw,
        ) by {
            assert(level_merged(
                (mine[k], theirs[k], states[k]),
                (bits_of(levels)[k], self.level_conflict@[k]),
                draw,
            ));
        }
        self.cls_hash = cls_hash;
        self.subtree_levels = levels;
    }
}

impl<N: Number> Default for StructuralHash<N> {
    /// No hash, no levels, and a half for every level.
    fn default() -> (r: Self)
        ensures
            r.wf(),
            r.cls_hash == 0,
            forall|i: int| 0 <= i < LEVELS ==> !(#[trigger] bits_of(r.subtree_levels)[i]),
            r.level_conflict@ == Seq::new(LEVELS as nat, |i: int| half::<N>()),
    {
        StructuralHash {
            cls_hash: 0,
            subtree_levels: LevelBits::zeros(LEVELS),
            level_conflict: LevelConflictState::new(),
        }
    }
}

} // verus!
