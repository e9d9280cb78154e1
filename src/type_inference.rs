//! Return types of function calls, so that a planned expression asks of its
//! inputs exactly what the executing side implements.
use vstd::prelude::*;

verus! {

/// The kinds of function call that have a known signature.
#[derive(Clone, Copy, Debug, PartialEq, Eq, Hash, Structural)]
pub enum ExprType {
    Add,
    Subtract,
    Multiply,
    Divide,
    Modulus,
    Equal,
    NotEqual,
    LessThan,
    LessThanOrEqual,
    GreaterThan,
    GreaterThanOrEqual,
    And,
    Or,
    Not,
    IsTrue,
    IsNotTrue,
    IsFalse,
    IsNotFalse,
    IsNull,
    IsNotNull,
    StreamNullByRowCount,
}

/// Data types, without parameters such as length or precision.
#[derive(Clone, Copy, Debug, PartialEq, Eq, Hash, Structural)]
pub enum DataTypeKind {
    Int16,
    Int32,
    Int64,
    Float32,
    Float64,
    Boolean,
    Char,
    Varchar,
    Decimal,
    Time,
    Timestamp,
    Interval,
    Date,
    Timestampz,
}

/// The place of a type in promotion order: its place in the declaration.
/// Among numbers: Int16 < Int32 < Int64 < Float32 < Float64 < Decimal.
pub open spec fn type_rank(t: DataTypeKind) -> int {
    match t {
        DataTypeKind::Int16 => 0,
        DataTypeKind::Int32 => 1,
        DataTypeKind::Int64 => 2,
        DataTypeKind::Float32 => 3,
        DataTypeKind::Float64 => 4,
        DataTypeKind::Boolean => 5,
        DataTypeKind::Char => 6,
        DataTypeKind::Varchar => 7,
        DataTypeKind::Decimal => 8,
        DataTypeKind::Time => 9,
        DataTypeKind::Timestamp => 10,
        DataTypeKind::Interval => 11,
        DataTypeKind::Date => 12,
        DataTypeKind::Timestampz => 13,
    }
}

pub open spec fn is_num(t: DataTypeKind) -> bool {
    t is Int16 || t is Int32 || t is Int64 || t is Float32 || t is Float64 || t is Decimal
}

/// The higher of two types in promotion order.
pub open spec fn promoted(t1: DataTypeKind, t2: DataTypeKind) -> DataTypeKind {
    if type_rank(t2) > type_rank(t1) {
        t2
    } else {
        t1
    }
}

pub open spec fn is_arithmetic(f: ExprType) -> bool {
    f is Add || f is Subtract || f is Multiply || f is Divide || f is Modulus
}

pub open spec fn is_comparison(f: ExprType) -> bool {
    f is Equal || f is NotEqual || f is LessThan || f is LessThanOrEqual || f is GreaterThan
        || f is GreaterThanOrEqual
}

/// Logical connectives and truth tests: both take two booleans here.
pub open spec fn is_boolean_op(f: ExprType) -> bool {
    f is And || f is Or || f is Not || f is IsTrue || f is IsNotTrue || f is IsFalse || f is IsNotFalse
}

pub open spec fn is_null_check(f: ExprType) -> bool {
    f is IsNull || f is IsNotNull || f is StreamNullByRowCount
}

/// The return type of `f` on inputs of the given types, if there is one:
/// arithmetic on two numbers gives the higher promoted of the two;
/// comparisons of two numbers or two booleans, and boolean operators on two
/// booleans, give a boolean; a null check on any one type gives a boolean.
pub open spec fn derived_type(f: ExprType, inputs: Seq<DataTypeKind>) -> Option<DataTypeKind> {
    if inputs.len() == 2 && is_arithmetic(f) && is_num(inputs[0]) && is_num(inputs[1]) {
        Some(promoted(inputs[0], inputs[1]))
    } else if inputs.len() == 2 && is_comparison(f) && ((is_num(inputs[0]) && is_num(inputs[1])) || (
    inputs[0] == DataTypeKind::Boolean && inputs[1] == DataTypeKind::Boolean)) {
        Some(DataTypeKind::Boolean)
    } else if inputs.len() == 2 && is_boolean_op(f) && inputs[0] == DataTypeKind::Boolean && inputs[1]
        == DataTypeKind::Boolean {
        Some(DataTypeKind::Boolean)
    } else if inputs.len() == 1 && is_null_check(f) {
        Some(DataTypeKind::Boolean)
    } else {
        None
    }
}

/// A function and the types of its inputs.
#[derive(Clone, Debug, PartialEq, Eq, Hash)]
pub struct FuncSign {
    pub func: ExprType,
    pub inputs_type: Vec<DataTypeKind>,
}

impl FuncSign {
    pub fn new(func: ExprType, inputs_type: Vec<DataTypeKind>) -> (r: Self)
        ensures
            r.func == func,
            r.inputs_type@ == inputs_type@,
    {
        FuncSign { func, inputs_type }
    }

    pub fn new_no_input(func: ExprType) -> (r: Self)
        ensures
            r.func == func,
            r.inputs_type@ == Seq::<DataTypeKind>::empty(),
    {
        FuncSign { func, inputs_type: Vec::new() }
    }

    pub fn new_unary(func: ExprType, t1: DataTypeKind) -> (r: Self)
        ensures
            r.func == func,
            r.inputs_type@ == seq![t1],
    {
        FuncSign { func, inputs_type: vec![t1] }
    }

    pub fn new_binary(func: ExprType, t1: DataTypeKind, t2: DataTypeKind) -> (r: Self)
        ensures
            r.func == func,
            r.inputs_type@ == seq![t1, t2],
    {
        FuncSign { func, inputs_type: vec![t1, t2] }
    }

    pub fn new_ternary(func: ExprType, t1: DataTypeKind, t2: DataTypeKind, t3: DataTypeKind) -> (r: Self)
        ensures
            r.func == func,
            r.inputs_type@ == seq![t1, t2, t3],
    {
        FuncSign { func, inputs_type: vec![t1, t2, t3] }
    }
}

fn rank_of(t: DataTypeKind) -> (r: u8)
    ensures
        r == type_rank(t),
{
    match t {
        DataTypeKind::Int16 => 0,
        DataTypeKind::Int32 => 1,
        DataTypeKind::Int64 => 2,
        DataTypeKind::Float32 => 3,
        DataTypeKind::Float64 => 4,
        DataTypeKind::Boolean => 5,
        DataTypeKind::Char => 6,
        DataTypeKind::Varchar => 7,
        DataTypeKind::Decimal => 8,
        DataTypeKind::Time => 9,
        DataTypeKind::Timestamp => 10,
        DataTypeKind::Interval => 11,
        DataTypeKind::Date => 12,
        DataTypeKind::Timestampz => 13,
    }
}

fn is_num_type(t: DataTypeKind) -> (r: bool)
    ensures
        r == is_num(t),
{
    match t {
        DataTypeKind::Int16 | DataTypeKind::Int32 | DataTypeKind::Int64 | DataTypeKind::Float32
        | DataTypeKind::Float64 | DataTypeKind::Decimal => true,
        _ => false,
    }
}

/// The promoted type of two types: the later of the two in promotion order.
pub fn arithmetic_type_derive(t1: DataTypeKind, t2: DataTypeKind) -> (r: DataTypeKind)
    ensures
        r == promoted(t1, t2),
{
    if rank_of(t2) > rank_of(t1) {
        t2
    } else {
        t1
    }
}

/// The return type of a signature, if the function accepts those inputs.
pub fn infer_type_name(sign: &FuncSign) -> (r: Option<DataTypeKind>)
    ensures
        r == derived_type(sign.func, sign.inputs_type@),
{
    let f = sign.func;
    let inputs = &sign.inputs_type;
    let arith = match f {
        ExprType::Add | ExprType::Subtract | ExprType::Multiply | ExprType::Divide
        | ExprType::Modulus => true,
        _ => false,
    };
    let cmp = match f {
        ExprType::Equal | ExprType::NotEqual | ExprType::LessThan | ExprType::LessThanOrEqual
        | ExprType::GreaterThan | ExprType::GreaterThanOrEqual => true,
        _ => false,
    };
    let boolean_op = match f {
        ExprType::And | ExprType::Or | ExprType::Not | ExprType::IsTrue | ExprType::IsNotTrue
        | ExprType::IsFalse | ExprType::IsNotFalse => true,
        _ => false,
    };
    let null_check = match f {
        ExprType::IsNull | ExprType::IsNotNull | ExprType::StreamNullByRowCount => true,
        _ => false,
    };
    if inputs.len() == 2 {
        let a = inputs[0];
        let b = inputs[1];
        let nums = is_num_type(a) && is_num_type(b);
        let bools = a == DataTypeKind::Boolean && b == DataTypeKind::Boolean;
        if arith && nums {
            return Some(arithmetic_type_derive(a, b));
        }
        if cmp && (nums || bools) {
            return Some(DataTypeKind::Boolean);
        }
        if boolean_op && bools {
            return Some(DataTypeKind::Boolean);
        }
        None
    } else if inputs.len() == 1 && null_check {
        Some(DataTypeKind::Boolean)
    } else {
        None
    }
}

/// The return type of `func_type` on inputs of the given types, or `None`
/// where no implementation takes those inputs.
pub fn infer_type(func_type: ExprType, inputs_type: Vec<DataTypeKind>) -> (r: Option<DataTypeKind>)
    ensures
        r == derived_type(func_type, inputs_type@),
{
    infer_type_name(&FuncSign::new(func_type, inputs_type))
}

} // verus!
