use lightingbi::clickhouse::transfer_to_sql;
use lightingbi::query_builder::{DataType, Dimension, Field, Measure, MeasureFn, Order, QueryBuilder};

#[test]
fn test_to_sql() {
    let f1 = Field::new(String::from("field1"), DataType::Text, String::from("单位"));
    let f2 = Field::new(String::from("field2"), DataType::Text, String::from("员工"));
    let f3 = Field::new(String::from("field3"), DataType::Date, String::from("时间"));
    let f4 = Field::new(
        String::from("field4"),
        DataType::Number,
        String::from("人数"),
    );
    let f5 = Field::new(
        String::from("field5"),
        DataType::Number,
        String::from("价格"),
    );
    let f6 = Field::new(
        String::from("field6"),
        DataType::Number,
        String::from("数量"),
    );

    let qb = QueryBuilder::new()
        .table(String::from("table1"))
        .row(&mut vec![Dimension::new_row(f1), Dimension::new_row(f3)])
        .col(&mut vec![Dimension::new_col(f2), Dimension::new_col(f4)])
        .meas(&mut vec![
            Measure::new(f5, MeasureFn::MAX),
            Measure::new(f6.clone(), MeasureFn::SUM),
        ])
        .order(&mut vec![Order::new(f6)]);

    let sql = transfer_to_sql(qb);
    assert_eq!(
        sql,
        "select field1,field3,field2,field4,max(field5) as field5,sum(field6) as field6 from table1  group by field1,field3,field2,field4"
    );
}

#[test]
fn sql_without_measures() {
    let qb = QueryBuilder::new()
        .table("t".to_string())
        .row(&mut vec![Dimension::new_row(Field::new("a".to_string(), DataType::Text, String::new()))]);
    assert_eq!(transfer_to_sql(qb), "select a, from t  group by a");
}

#[test]
fn sql_measure_words() {
    let m = |n: &str, f| Measure::new(Field::new(n.to_string(), DataType::Number, String::new()), f);
    let qb = QueryBuilder::new().table("t".to_string()).meas(&mut vec![
        m("p", MeasureFn::MIN),
        m("q", MeasureFn::AVG),
        m("r", MeasureFn::COUNT),
    ]);
    assert_eq!(
        transfer_to_sql(qb),
        "select ,min(p) as p,avg(q) as q,count(r) as r from t  group by "
    );
}
