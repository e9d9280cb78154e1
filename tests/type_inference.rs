use string_agg_state::type_inference::DataTypeKind::{
    Boolean, Date, Decimal, Float32, Float64, Int16, Int32, Int64, Timestampz, Varchar,
};
use string_agg_state::type_inference::{arithmetic_type_derive, infer_type, infer_type_name, DataTypeKind, ExprType, FuncSign};

fn test_simple_infer_type(func_type: ExprType, inputs_type: Vec<DataTypeKind>, expected_type_name: DataTypeKind) {
    let ret = infer_type(func_type, inputs_type).unwrap();
    assert_eq!(ret, expected_type_name);
}

fn test_infer_type_not_exist(func_type: ExprType, inputs_type: Vec<DataTypeKind>) {
    let ret = infer_type(func_type, inputs_type);
    assert_eq!(ret, None);
}

#[test]
fn test_arithmetics() {
    let atm_exprs = vec![
        ExprType::Add,
        ExprType::Subtract,
        ExprType::Multiply,
        ExprType::Divide,
        ExprType::Modulus,
    ];
    let num_promote_table = vec![
        (Int16, Int16, Int16),
        (Int16, Int32, Int32),
        (Int16, Int64, Int64),
        (Int16, Float32, Float32),
        (Int16, Float64, Float64),
        (Int16, Decimal, Decimal),
        (Int32, Int16, Int32),
        (Int32, Int32, Int32),
        (Int32, Int64, Int64),
        (Int32, Float32, Float32),
        (Int32, Float64, Float64),
        (Int32, Decimal, Decimal),
        (Int64, Int16, Int64),
        (Int64, Int32, Int64),
        (Int64, Int64, Int64),
        (Int64, Float32, Float32),
        (Int64, Float64, Float64),
        (Int64, Decimal, Decimal),
        (Float32, Int16, Float32),
        (Float32, Int32, Float32),
        (Float32, Int64, Float32),
        (Float32, Float32, Float32),
        (Float32, Float64, Float64),
        (Float32, Decimal, Decimal),
        (Float64, Int16, Float64),
        (Float64, Int32, Float64),
        (Float64, Int64, Float64),
        (Float64, Float32, Float64),
        (Float64, Float64, Float64),
        (Float64, Decimal, Decimal),
        (Decimal, Int16, Decimal),
        (Decimal, Int32, Decimal),
        (Decimal, Int64, Decimal),
        (Decimal, Float32, Decimal),
        (Decimal, Float64, Decimal),
        (Decimal, Decimal, Decimal),
    ];
    for expr in atm_exprs.iter() {
        for (t1, t2, tr) in num_promote_table.iter() {
            test_simple_infer_type(*expr, vec![*t1, *t2], *tr);
        }
    }
}

#[test]
fn test_bool_num_not_exist() {
    let exprs = vec![
        ExprType::Add,
        ExprType::Subtract,
        ExprType::Multiply,
        ExprType::Divide,
        ExprType::Modulus,
        ExprType::Equal,
        ExprType::NotEqual,
        ExprType::LessThan,
        ExprType::LessThanOrEqual,
        ExprType::GreaterThan,
        ExprType::GreaterThanOrEqual,
        ExprType::And,
        ExprType::Or,
        ExprType::Not,
    ];
    let num_types = vec![
        DataTypeKind::Int16,
        DataTypeKind::Int32,
        DataTypeKind::Int64,
        DataTypeKind::Float32,
        DataTypeKind::Float64,
        DataTypeKind::Decimal,
    ];
    for expr in exprs.iter() {
        for num_t in num_types.iter() {
            test_infer_type_not_exist(*expr, vec![*num_t, DataTypeKind::Boolean]);
        }
    }
}

#[test]
fn comparisons_and_checks_give_boolean() {
    test_simple_infer_type(ExprType::LessThan, vec![Int16, Decimal], Boolean);
    test_simple_infer_type(ExprType::Equal, vec![Boolean, Boolean], Boolean);
    test_simple_infer_type(ExprType::And, vec![Boolean, Boolean], Boolean);
    test_simple_infer_type(ExprType::IsTrue, vec![Boolean, Boolean], Boolean);
    test_simple_infer_type(ExprType::IsNull, vec![Varchar], Boolean);
    test_simple_infer_type(ExprType::StreamNullByRowCount, vec![Timestampz], Boolean);
    test_infer_type_not_exist(ExprType::IsNull, vec![Varchar, Varchar]);
    test_infer_type_not_exist(ExprType::Add, vec![Varchar, Varchar]);
    test_infer_type_not_exist(ExprType::Equal, vec![Date, Date]);
    test_infer_type_not_exist(ExprType::Add, vec![Int32]);
}

#[test]
fn signatures_built_by_arity() {
    assert_eq!(infer_type_name(&FuncSign::new_binary(ExprType::Add, Int32, Int64)), Some(Int64));
    assert_eq!(infer_type_name(&FuncSign::new_unary(ExprType::IsNotNull, Date)), Some(Boolean));
    assert_eq!(infer_type_name(&FuncSign::new_no_input(ExprType::Add)), None);
    assert_eq!(
        infer_type_name(&FuncSign::new_ternary(ExprType::Add, Int32, Int32, Int32)),
        None
    );
    assert_eq!(FuncSign::new(ExprType::Or, vec![Boolean]), FuncSign::new_unary(ExprType::Or, Boolean));
}

#[test]
fn promotion_of_any_two_types() {
    assert_eq!(arithmetic_type_derive(Boolean, Int64), Boolean);
    assert_eq!(arithmetic_type_derive(Varchar, Decimal), Decimal);
    assert_eq!(arithmetic_type_derive(Date, Date), Date);
    assert_eq!(arithmetic_type_derive(Float64, Decimal), Decimal);
}
