//! SQL text for a query on the analytical engine.
use vstd::prelude::*;
use crate::query_builder::{Dimension, Measure, MeasureFn, QueryBuilder};
use crate::text::chars_of;

verus! {

/// The items separated by commas.
pub open spec fn comma_join(items: Seq<Seq<char>>) -> Seq<char>
    decreases items.len(),
{
    if items.len() == 0 {
        Seq::empty()
    } else if items.len() == 1 {
        items[0]
    } else {
        comma_join(items.drop_last()) + seq![','] + items.last()
    }
}

pub open spec fn fn_word(f: MeasureFn) -> Seq<char> {
    match f {
        MeasureFn::SUM => "sum"@,
        MeasureFn::MAX => "max"@,
        MeasureFn::MIN => "min"@,
        MeasureFn::AVG => "avg"@,
        MeasureFn::COUNT => "count"@,
    }
}

/// `fn(field) as field`.
pub open spec fn measure_sql(m: Measure) -> Seq<char> {
    fn_word(m.measure_type) + "("@ + m.field.field_name@ + ") as "@ + m.field.field_name@
}

pub open spec fn dim_names(dims: Seq<Dimension>) -> Seq<Seq<char>> {
    dims.map_values(|d: Dimension| d.field.field_name@)
}

pub open spec fn measure_list(meas: Seq<Measure>) -> Seq<Seq<char>> {
    meas.map_values(|m: Measure| measure_sql(m))
}

/// The query: its dimensions selected and grouped by, then its measures.
pub open spec fn select_sql(dims: Seq<Dimension>, meas: Seq<Measure>, table: Seq<char>) -> Seq<char> {
    "select "@ + comma_join(dim_names(dims)) + ","@ + comma_join(measure_list(meas)) + " from "@ + table + " "@
        + " group by "@ + comma_join(dim_names(dims))
}

fn push_str(out: &mut Vec<char>, s: &str)
    ensures
        final(out)@ == old(out)@ + s@,
{
    let cs = chars_of(s);
    let mut i: usize = 0;
    while i < cs.len()
        invariant
            i <= cs@.len(),
            cs@ == s@,
            out@ == old(out)@ + cs@.take(i as int),
        decreases cs@.len() - i,
    {
        out.push(cs[i]);
        i = i + 1;
        assert(out@ =~= old(out)@ + cs@.take(i as int));
    }
    assert(cs@.take(i as int) =~= cs@);
}

fn push_joined(out: &mut Vec<char>, items: &Vec<String>)
    ensures
        final(out)@ == old(out)@ + comma_join(items@.map_values(|s: String| s@)),
{
    let ghost v = items@.map_values(|s: String| s@);
    let mut i: usize = 0;
    assert(v.take(0) =~= Seq::<Seq<char>>::empty());
    while i < items.len()
        invariant
            i <= items@.len(),
            v == items@.map_values(|s: String| s@),
            out@ == old(out)@ + comma_join(v.take(i as int)),
        decreases items@.len() - i,
    {
        let ghost before = out@;
        if i > 0 {
            out.push(',');
        }
        push_str(out, items[i].as_str());
        assert(v.take(i + 1).drop_last() =~= v.take(i as int));
        if i == 0 {
            assert(out@ =~= old(out)@ + comma_join(v.take(i + 1)));
        } else {
            assert(out@ =~= old(out)@ + comma_join(v.take(i + 1)));
        }
        i = i + 1;
    }
    assert(v.take(i as int) =~= v);
}

fn measure_text(m: &Measure) -> (r: String)
    ensures
        r@ == measure_sql(*m),
{
    let mut out: Vec<char> = Vec::new();
    match m.measure_type {
        MeasureFn::SUM => push_str(&mut out, "sum"),
        MeasureFn::MAX => push_str(&mut out, "max"),
        MeasureFn::MIN => push_str(&mut out, "min"),
        MeasureFn::AVG => push_str(&mut out, "avg"),
        MeasureFn::COUNT => push_str(&mut out, "count"),
    }
    push_str(&mut out, "(");
    push_str(&mut out, m.field.field_name.as_str());
    push_str(&mut out, ") as ");
    push_str(&mut out, m.field.field_name.as_str());
    assert(out@ =~= measure_sql(*m));
    crate::text::string_of(&out)
}

/// The SQL text of a query: the rows and then the columns are selected and
/// grouped by, the measures are aggregated, all from the query's table.
pub fn transfer_to_sql(qb: QueryBuilder) -> (r: String)
    ensures
        r@ == select_sql(qb.spec_rows() + qb.spec_cols(), qb.spec_meas(), qb.spec_table()),
{
    let mut qb = qb;
    let ghost q0 = qb;
    let dims = qb.get_rows_and_cols();
    let mut names: Vec<String> = Vec::new();
    let mut i: usize = 0;
    while i < dims.len()
        invariant
            i <= dims@.len(),
            names@.map_values(|s: String| s@) == dim_names(dims@).take(i as int),
        decreases dims@.len() - i,
    {
        let ghost before = names@.map_values(|s: String| s@);
        names.push(dims[i].field.field_name.clone());
        assert(names@.map_values(|s: String| s@) =~= before.push(dims@[i as int].field.field_name@));
        i = i + 1;
        assert(dim_names(dims@).take(i as int) =~= dim_names(dims@).take(i - 1).push(dim_names(dims@)[i - 1]));
    }
    assert(dim_names(dims@).take(i as int) =~= dim_names(dims@));
    let meas = qb.get_meas();
    let mut ms: Vec<String> = Vec::new();
    let mut k: usize = 0;
    while k < meas.len()
        invariant
            k <= meas@.len(),
            ms@.map_values(|s: String| s@) == measure_list(meas@).take(k as int),
        decreases meas@.len() - k,
    {
        let ghost before = ms@.map_values(|s: String| s@);
        ms.push(measure_text(&meas[k]));
        assert(ms@.map_values(|s: String| s@) =~= before.push(measure_sql(meas@[k as int])));
        k = k + 1;
        assert(measure_list(meas@).take(k as int) =~= measure_list(meas@).take(k - 1).push(measure_list(meas@)[k - 1]));
    }
    assert(measure_list(meas@).take(k as int) =~= measure_list(meas@));
    let mut out: Vec<char> = Vec::new();
    push_str(&mut out, "select ");
    push_joined(&mut out, &names);
    push_str(&mut out, ",");
    push_joined(&mut out, &ms);
    push_str(&mut out, " from ");
    push_str(&mut out, qb.get_table().as_str());
    push_str(&mut out, " ");
    push_str(&mut out, " group by ");
    push_joined(&mut out, &names);
    assert(out@ =~= select_sql(q0.spec_rows() + q0.spec_cols(), q0.spec_meas(), q0.spec_table()));
    crate::text::string_of(&out)
}

} // verus!
