//! Domain extractions: the `firewall.address` and `firewall.policy`
//! tables rendered as fixed-column rows.

use vstd::prelude::*;

use crate::rows::{lemma_rows_model, rows_model, rows_wf, Row};
use crate::text::{chars_to_string, push_chars};
use crate::value::{
    entries_model, lemma_arr_model, lemma_entries_model, lemma_view_shape, obj_get, string_form,
    string_form_chars, ValModel, Value,
};

verus! {

/// The entries of the object at `firewall.<name>`, if that path holds an
/// object.
pub open spec fn fw_table(root: ValModel, name: Seq<char>) -> Option<
    Seq<(Seq<char>, ValModel)>,
> {
    match root {
        ValModel::Obj(es) => match obj_get(es, "firewall"@) {
            Some(ValModel::Obj(fes)) => match obj_get(fes, name) {
                Some(ValModel::Obj(tes)) => Some(tes),
                _ => None,
            },
            _ => None,
        },
        _ => None,
    }
}

/// The string stored under `k`, or empty when the key is absent or the
/// value is not a string.
pub open spec fn str_field(e: ValModel, k: Seq<char>) -> Seq<char> {
    match e {
        ValModel::Obj(es) => match obj_get(es, k) {
            Some(ValModel::Str(s)) => s,
            _ => Seq::empty(),
        },
        _ => Seq::empty(),
    }
}

/// As `str_field`, but `k2` is consulted only when `k1` is absent.
pub open spec fn str_field2(e: ValModel, k1: Seq<char>, k2: Seq<char>) -> Seq<char> {
    match e {
        ValModel::Obj(es) => match obj_get(es, k1) {
            Some(ValModel::Str(s)) => s,
            Some(_) => Seq::empty(),
            None => str_field(e, k2),
        },
        _ => Seq::empty(),
    }
}

/// The text form of the value under `k`, or empty when absent; a list
/// renders joined by `" | "`.
pub open spec fn form_field(e: ValModel, k: Seq<char>) -> Seq<char> {
    match e {
        ValModel::Obj(es) => match obj_get(es, k) {
            Some(v) => string_form(v),
            None => Seq::empty(),
        },
        _ => Seq::empty(),
    }
}

/// As `form_field`, but `k2` is consulted only when `k1` is absent.
pub open spec fn form_field2(e: ValModel, k1: Seq<char>, k2: Seq<char>) -> Seq<char> {
    match e {
        ValModel::Obj(es) => match obj_get(es, k1) {
            Some(v) => string_form(v),
            None => form_field(e, k2),
        },
        _ => Seq::empty(),
    }
}

/// The `subnet` column: a two-element list renders as the two forms
/// joined by a space, a string passes through, anything else is empty.
pub open spec fn subnet_field(e: ValModel) -> Seq<char> {
    match e {
        ValModel::Obj(es) => match obj_get(es, "subnet"@) {
            Some(ValModel::Arr(a)) => if a.len() == 2 {
                string_form(a[0]) + seq![' '] + string_form(a[1])
            } else {
                Seq::empty()
            },
            Some(ValModel::Str(s)) => s,
            _ => Seq::empty(),
        },
        _ => Seq::empty(),
    }
}

/// One row of the addresses extraction.
pub open spec fn addr_row(name: Seq<char>, e: ValModel) -> Map<Seq<char>, Seq<char>> {
    Map::empty().insert("name"@, name).insert("type"@, str_field(e, "type"@)).insert(
        "subnet"@,
        subnet_field(e),
    ).insert("fqdn"@, str_field(e, "fqdn"@)).insert(
        "interface"@,
        str_field2(e, "associated-interface"@, "interface"@),
    ).insert("comment"@, str_field2(e, "comment"@, "comments"@))
}

/// One row of the policies extraction.
pub open spec fn pol_row(id: Seq<char>, e: ValModel) -> Map<Seq<char>, Seq<char>> {
    Map::empty().insert("id"@, id).insert("name"@, str_field(e, "name"@)).insert(
        "action"@,
        str_field(e, "action"@),
    ).insert("srcintf"@, form_field(e, "srcintf"@)).insert(
        "dstintf"@,
        form_field(e, "dstintf"@),
    ).insert("srcaddr"@, form_field(e, "srcaddr"@)).insert(
        "dstaddr"@,
        form_field(e, "dstaddr"@),
    ).insert("service"@, form_field(e, "service"@)).insert(
        "schedule"@,
        str_field(e, "schedule"@),
    ).insert("nat"@, form_field(e, "nat"@)).insert(
        "logtraffic"@,
        form_field2(e, "logtraffic"@, "logtraffic_start"@),
    ).insert("comments"@, str_field2(e, "comments"@, "comment"@))
}

/// Executable form of `str_field`.
fn str_field_exec(e: &Value, k: &str) -> (r: String)
    ensures
        r@ == str_field(e@, k@),
{
    match e.get(k) {
        Some(v) => match v {
            Value::Str(s) => s.clone(),
            other => {
                proof {
                    lemma_view_shape(*other);
                }
                String::new()
            },
        },
        None => String::new(),
    }
}

/// Executable form of `str_field2`.
fn str_field2_exec(e: &Value, k1: &str, k2: &str) -> (r: String)
    ensures
        r@ == str_field2(e@, k1@, k2@),
{
    match e.get(k1) {
        Some(v) => match v {
            Value::Str(s) => s.clone(),
            other => {
                proof {
                    lemma_view_shape(*other);
                }
                String::new()
            },
        },
        None => str_field_exec(e, k2),
    }
}

/// Executable form of `form_field`.
fn form_field_exec(e: &Value, k: &str) -> (r: String)
    ensures
        r@ == form_field(e@, k@),
{
    match e.get(k) {
        Some(v) => {
            let fc = string_form_chars(v);
            chars_to_string(&fc)
        },
        None => String::new(),
    }
}

/// Executable form of `form_field2`.
fn form_field2_exec(e: &Value, k1: &str, k2: &str) -> (r: String)
    ensures
        r@ == form_field2(e@, k1@, k2@),
{
    match e.get(k1) {
        Some(v) => {
            let fc = string_form_chars(v);
            chars_to_string(&fc)
        },
        None => form_field_exec(e, k2),
    }
}

/// Executable form of `subnet_field`.
fn subnet_field_exec(e: &Value) -> (r: String)
    ensures
        r@ == subnet_field(e@),
{
    match e.get("subnet") {
        Some(v) => match v {
            Value::Arr(a) => {
                if a.len() == 2 {
                    proof {
                        lemma_arr_model(a@);
                    }
                    let mut out = string_form_chars(&a[0]);
                    out.push(' ');
                    let second = string_form_chars(&a[1]);
                    push_chars(&mut out, &second);
                    proof {
                        assert(out@ =~= string_form(a@[0]@) + seq![' '] + string_form(a@[1]@));
                    }
                    chars_to_string(&out)
                } else {
                    proof {
                        lemma_arr_model(a@);
                    }
                    String::new()
                }
            },
            Value::Str(s) => s.clone(),
            other => {
                proof {
                    lemma_view_shape(*other);
                }
                String::new()
            },
        },
        None => String::new(),
    }
}

/// The `firewall.<name>` table entries, if that path holds an object.
fn table_of<'a>(parsed: &'a Value, name: &str) -> (r: Option<&'a Vec<(String, Value)>>)
    ensures
        match fw_table(parsed@, name@) {
            Some(tes) => r is Some && entries_model(r->0@) == tes,
            None => r is None,
        },
{
    match parsed.get("firewall") {
        Some(fw) => match fw.get(name) {
            Some(t) => match t {
                Value::Obj(es) => Some(es),
                other => {
                    proof {
                        lemma_view_shape(*other);
                    }
                    None
                },
            },
            None => None,
        },
        None => {
            proof {
                lemma_view_shape(*parsed);
            }
            None
        },
    }
}

/// Rows of the `firewall.address` table: columns `name`, `type`,
/// `subnet`, `fqdn`, `interface` (falling back from
/// `associated-interface`) and `comment` (falling back from `comments`).
#[verifier::loop_isolation(false)]
pub fn extract_addresses(parsed: &Value) -> (r: Vec<Row>)
    ensures
        rows_wf(r@),
        match fw_table(parsed@, "address"@) {
            Some(tes) => rows_model(r@).len() == tes.len() && forall|i: int|
                0 <= i < tes.len() ==> rows_model(r@)[i] == addr_row(
                    (#[trigger] tes[i]).0,
                    tes[i].1,
                ),
            None => rows_model(r@).len() == 0,
        },
{
    let mut out: Vec<Row> = Vec::new();
    proof {
        lemma_rows_model(out@);
    }
    match table_of(parsed, "address") {
        Some(es) => {
            let ghost ms = entries_model(es@);
            proof {
                lemma_entries_model(es@);
            }
            let n = es.len();
            let mut i: usize = 0;
            while i < n
                invariant
                    i <= n,
                    n == es@.len(),
                    ms == entries_model(es@),
                    out@.len() == i,
                    rows_wf(out@),
                    forall|l: int| 0 <= l < i ==> (#[trigger] out@[l])@ == addr_row(
                        ms[l].0,
                        ms[l].1,
                    ),
                decreases n - i,
            {
                let e = &es[i].1;
                let mut row = Row::new();
                row.insert(String::from_str("name"), es[i].0.clone());
                row.insert(String::from_str("type"), str_field_exec(e, "type"));
                row.insert(String::from_str("subnet"), subnet_field_exec(e));
                row.insert(String::from_str("fqdn"), str_field_exec(e, "fqdn"));
                row.insert(
                    String::from_str("interface"),
                    str_field2_exec(e, "associated-interface", "interface"),
                );
                row.insert(
                    String::from_str("comment"),
                    str_field2_exec(e, "comment", "comments"),
                );
                proof {
                    assert(row@ =~= addr_row(ms[i as int].0, ms[i as int].1));
                }
                out.push(row);
                i = i + 1;
            }
            proof {
                lemma_rows_model(out@);
            }
            out
        },
        None => out,
    }
}

/// Rows of the `firewall.policy` table: columns `id`, `name`, `action`,
/// `srcintf`, `dstintf`, `srcaddr`, `dstaddr`, `service`, `schedule`,
/// `nat`, `logtraffic` (falling back from `logtraffic_start`) and
/// `comments` (falling back from `comment`); list-valued fields render
/// joined by `" | "`.
#[verifier::loop_isolation(false)]
pub fn extract_policies(parsed: &Value) -> (r: Vec<Row>)
    ensures
        rows_wf(r@),
        match fw_table(parsed@, "policy"@) {
            Some(tes) => rows_model(r@).len() == tes.len() && forall|i: int|
                0 <= i < tes.len() ==> rows_model(r@)[i] == pol_row(
                    (#[trigger] tes[i]).0,
                    tes[i].1,
                ),
            None => rows_model(r@).len() == 0,
        },
{
    let mut out: Vec<Row> = Vec::new();
    proof {
        lemma_rows_model(out@);
    }
    match table_of(parsed, "policy") {
        Some(es) => {
            let ghost ms = entries_model(es@);
            proof {
                lemma_entries_model(es@);
            }
            let n = es.len();
            let mut i: usize = 0;
            while i < n
                invariant
                    i <= n,
                    n == es@.len(),
                    ms == entries_model(es@),
                    out@.len() == i,
                    rows_wf(out@),
                    forall|l: int| 0 <= l < i ==> (#[trigger] out@[l])@ == pol_row(
                        ms[l].0,
                        ms[l].1,
                    ),
                decreases n - i,
            {
                let e = &es[i].1;
                let mut row = Row::new();
                row.insert(String::from_str("id"), es[i].0.clone());
                row.insert(String::from_str("name"), str_field_exec(e, "name"));
                row.insert(String::from_str("action"), str_field_exec(e, "action"));
                row.insert(String::from_str("srcintf"), form_field_exec(e, "srcintf"));
                row.insert(String::from_str("dstintf"), form_field_exec(e, "dstintf"));
                row.insert(String::from_str("srcaddr"), form_field_exec(e, "srcaddr"));
                row.insert(String::from_str("dstaddr"), form_field_exec(e, "dstaddr"));
                row.insert(String::from_str("service"), form_field_exec(e, "service"));
                row.insert(String::from_str("schedule"), str_field_exec(e, "schedule"));
                row.insert(String::from_str("nat"), form_field_exec(e, "nat"));
                row.insert(
                    String::from_str("logtraffic"),
                    form_field2_exec(e, "logtraffic", "logtraffic_start"),
                );
                row.insert(
                    String::from_str("comments"),
                    str_field2_exec(e, "comments", "comment"),
                );
                proof {
                    assert(row@ =~= pol_row(ms[i as int].0, ms[i as int].1));
                }
                out.push(row);
                i = i + 1;
            }
            proof {
                lemma_rows_model(out@);
            }
            out
        },
        None => out,
    }
}

} // verus!
