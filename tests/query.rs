use lightingbi::dataset;
use lightingbi::dsl;
use lightingbi::engine_type::EngineType;
use lightingbi::entity::{to_snake_name, PageRequest};
use lightingbi::query_builder::{DataType, Dimension, Field, Measure, MeasureFn, Order, QueryBuilder};

#[test]
fn query_it_works() {
    let qb = dsl::QueryBuilder::new()
        .row(&mut vec![
            dsl::Dimension::new_row(String::from("row1"), dsl::DataType::Text),
            dsl::Dimension::new_row(String::from("row2"), dsl::DataType::Date),
        ])
        .col(&mut vec![
            dsl::Dimension::new_col(String::from("col1"), dsl::DataType::Text),
            dsl::Dimension::new_col(String::from("col2"), dsl::DataType::Date),
            dsl::Dimension::new_col(String::from("col3"), dsl::DataType::Number),
        ])
        .meas(&mut vec![
            dsl::Measure::new(String::from("val1"), dsl::DataType::Number),
            dsl::Measure::new(String::from("val2"), dsl::DataType::Number),
            dsl::Measure::new(String::from("val3"), dsl::DataType::Number),
        ]);

    println!("{:?}", qb);
}

#[test]
fn query_builder_it_works() {
    let f1 = Field::new(String::from("field1"), DataType::Text, String::from("单位"));
    let f2 = Field::new(String::from("field2"), DataType::Text, String::from("员工"));
    let f3 = Field::new(String::from("field3"), DataType::Date, String::from("时间"));
    let f4 = Field::new(
        String::from("field4"),
        DataType::Number,
        String::from("人数"),
    );
    let f5 = Field::new(
        String::from("field5"),
        DataType::Number,
        String::from("价格"),
    );
    let f6 = Field::new(
        String::from("field6"),
        DataType::Number,
        String::from("数量"),
    );

    let qb = QueryBuilder::new()
        .table(String::from("tb1"))
        .row(&mut vec![Dimension::new_row(f1), Dimension::new_row(f3)])
        .col(&mut vec![Dimension::new_col(f2), Dimension::new_col(f4)])
        .meas(&mut vec![
            Measure::new(f5, MeasureFn::SUM),
            Measure::new(f6.clone(), MeasureFn::MAX),
        ])
        .order(&mut vec![Order::new(f6)]);

    println!("{:?}", qb);
}

#[test]
fn builder_keeps_parts_in_order() {
    let mut rows = vec![
        Dimension::new_row(Field::new("r1".to_string(), DataType::Text, String::new())),
        Dimension::new_row(Field::new("r2".to_string(), DataType::Date, String::new())),
    ];
    let mut cols = vec![Dimension::new_col(Field::new("c1".to_string(), DataType::Number, "C".to_string()))];
    let mut qb = QueryBuilder::new().table("t".to_string()).row(&mut rows).col(&mut cols);
    assert!(rows.is_empty());
    assert!(cols.is_empty());
    assert_eq!(qb.get_table(), "t");
    assert_eq!(qb.get_rows().len(), 2);
    assert_eq!(qb.get_rows()[1].field.field_name, "r2");
    assert_eq!(qb.get_rows()[0].field.display_name, "r1");
    assert_eq!(qb.get_cols()[0].field.display_name, "C");
    let all = qb.get_rows_and_cols();
    let names: Vec<&str> = all.iter().map(|d| d.field.field_name.as_str()).collect();
    assert_eq!(names, vec!["r1", "r2", "c1"]);
    assert!(qb.get_rows().is_empty());
    assert!(qb.get_cols().is_empty());
    assert!(qb.get_meas().is_empty());
}

#[test]
fn type_names() {
    assert_eq!(dataset::DataType::Text.get_type_name(), "Test");
    assert_eq!(dataset::DataType::Number.get_type_name(), "Number");
    assert_eq!(dataset::DataType::Date.get_type_name(), "Date");
    assert_eq!(EngineType::ClickHouse.get_type(), "ClickHouse");
    assert_eq!(EngineType::ElasticSearch.get_type(), "ElasticSearch");
    let f = dataset::Field::default();
    assert_eq!(f.data_type, "Test");
    assert_eq!(f.name, "");
    let p = PageRequest::default();
    assert_eq!((p.size, p.num, p.sort.as_str()), (10, 0, ""));
    let u = lightingbi::user::User::new_all(7, Some("nauu".to_string()), Some(18));
    assert_eq!(u.id(), 7);
    assert_eq!(u.name().as_deref(), Some("nauu"));
    assert_eq!(lightingbi::user::User::new(None, Some(28)).id(), 0);
}

#[test]
fn snake_names() {
    assert_eq!(to_snake_name("UserName"), "user_name");
    assert_eq!(to_snake_name("DataSetField"), "data_set_field");
    assert_eq!(to_snake_name("user"), "user");
    assert_eq!(to_snake_name("GoodA"), "gooda");
    assert_eq!(to_snake_name(""), "");
}
