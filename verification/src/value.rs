//! The universal tree value: a tagged union of null, booleans, numbers,
//! strings, lists and ordered-key objects, together with its ghost model
//! and the basic object operations (lookup and insert-or-overwrite).

use vstd::prelude::*;

use crate::text::str_eq_str;

verus! {

/// Ghost model of a tree value. Object entries keep their insertion order;
/// well-formed objects have pairwise distinct keys.
#[verifier::ext_equal]
pub enum ValModel {
    Null,
    Bool(bool),
    Num(int),
    Str(Seq<char>),
    Arr(Seq<ValModel>),
    Obj(Seq<(Seq<char>, ValModel)>),
}

/// The executable tree value. An `Obj` holds its entries in insertion
/// order; all operations in this crate preserve key uniqueness.
pub enum Value {
    Null,
    Bool(bool),
    Num(i64),
    Str(String),
    Arr(Vec<Value>),
    Obj(Vec<(String, Value)>),
}

/// Model of a sequence of list elements.
pub open spec fn arr_model(items: Seq<Value>) -> Seq<ValModel>
    decreases items,
{
    if items.len() == 0 {
        Seq::empty()
    } else {
        seq![items.first()@] + arr_model(items.drop_first())
    }
}

/// Model of a sequence of object entries.
pub open spec fn entries_model(es: Seq<(String, Value)>) -> Seq<(Seq<char>, ValModel)>
    decreases es,
{
    if es.len() == 0 {
        Seq::empty()
    } else {
        seq![(es.first().0@, es.first().1@)] + entries_model(es.drop_first())
    }
}

impl View for Value {
    type V = ValModel;

    open spec fn view(&self) -> ValModel
        decreases self,
    {
        match self {
            Value::Null => ValModel::Null,
            Value::Bool(b) => ValModel::Bool(*b),
            Value::Num(n) => ValModel::Num(*n as int),
            Value::Str(s) => ValModel::Str(s@),
            Value::Arr(items) => ValModel::Arr(arr_model(items@)),
            Value::Obj(es) => ValModel::Obj(entries_model(es@)),
        }
    }
}

/// `arr_model` maps the sequence pointwise.
pub broadcast proof fn lemma_arr_model(items: Seq<Value>)
    ensures
        (#[trigger] arr_model(items)).len() == items.len(),
        forall|i: int| 0 <= i < items.len() ==> arr_model(items)[i] == items[i]@,
    decreases items.len(),
{
    if items.len() > 0 {
        lemma_arr_model(items.drop_first());
        assert(arr_model(items) == seq![items.first()@] + arr_model(items.drop_first()));
        assert forall|i: int| 0 <= i < items.len() implies arr_model(items)[i] == items[i]@ by {
            if i > 0 {
                assert(arr_model(items)[i] == arr_model(items.drop_first())[i - 1]);
                assert(items.drop_first()[i - 1] == items[i]);
            }
        }
    }
}

/// `entries_model` maps the sequence pointwise.
pub broadcast proof fn lemma_entries_model(es: Seq<(String, Value)>)
    ensures
        (#[trigger] entries_model(es)).len() == es.len(),
        forall|i: int| 0 <= i < es.len() ==> entries_model(es)[i] == (es[i].0@, es[i].1@),
    decreases es.len(),
{
    if es.len() > 0 {
        lemma_entries_model(es.drop_first());
        assert(entries_model(es) == seq![(es.first().0@, es.first().1@)] + entries_model(
            es.drop_first(),
        ));
        assert forall|i: int| 0 <= i < es.len() implies entries_model(es)[i] == (
            es[i].0@,
            es[i].1@,
        ) by {
            if i > 0 {
                assert(entries_model(es)[i] == entries_model(es.drop_first())[i - 1]);
                assert(es.drop_first()[i - 1] == es[i]);
            }
        }
    }
}

/// The keys of `es` are pairwise distinct.
pub open spec fn keys_unique(es: Seq<(Seq<char>, ValModel)>) -> bool {
    forall|i: int, j: int| 0 <= i < j < es.len() ==> es[i].0 != es[j].0
}

/// Every object in the tree has pairwise distinct keys.
pub open spec fn wf(m: ValModel) -> bool
    decreases m,
{
    match m {
        ValModel::Arr(items) => forall|i: int| 0 <= i < items.len() ==> wf(#[trigger] items[i]),
        ValModel::Obj(es) => keys_unique(es) && forall|i: int|
            0 <= i < es.len() ==> wf(#[trigger] es[i].1),
        _ => true,
    }
}

/// Value of the first entry whose key is `key`, if any.
pub open spec fn obj_get(es: Seq<(Seq<char>, ValModel)>, key: Seq<char>) -> Option<ValModel>
    decreases es.len(),
{
    if es.len() == 0 {
        None
    } else if es[0].0 == key {
        Some(es[0].1)
    } else {
        obj_get(es.drop_first(), key)
    }
}

/// Overwrite the entry for `key`, or append one if the key is absent.
pub open spec fn obj_set(
    es: Seq<(Seq<char>, ValModel)>,
    key: Seq<char>,
    val: ValModel,
) -> Seq<(Seq<char>, ValModel)>
    decreases es.len(),
{
    if es.len() == 0 {
        seq![(key, val)]
    } else if es[0].0 == key {
        seq![(key, val)] + es.drop_first()
    } else {
        seq![es[0]] + obj_set(es.drop_first(), key, val)
    }
}

/// `obj_set` touches exactly the entry for `key`: lookups of `key` now see
/// `val`, lookups of any other key are unchanged, and the key set only ever
/// grows by `key`.
pub proof fn lemma_obj_set_get(
    es: Seq<(Seq<char>, ValModel)>,
    key: Seq<char>,
    val: ValModel,
    probe: Seq<char>,
)
    ensures
        obj_get(obj_set(es, key, val), probe) == if probe == key {
            Some(val)
        } else {
            obj_get(es, probe)
        },
    decreases es.len(),
{
    let r = obj_set(es, key, val);
    if es.len() == 0 {
        assert(r == seq![(key, val)]);
        assert(r.drop_first() =~= Seq::<(Seq<char>, ValModel)>::empty());
        if probe != key {
            assert(obj_get(r, probe) == obj_get(r.drop_first(), probe));
            assert(obj_get(r.drop_first(), probe) is None);
            assert(obj_get(es, probe) is None);
        }
    } else if es[0].0 == key {
        assert(r.drop_first() =~= es.drop_first());
    } else {
        lemma_obj_set_get(es.drop_first(), key, val, probe);
        assert(r[0] == es[0]);
        assert(r.drop_first() =~= obj_set(es.drop_first(), key, val));
    }
}

/// The entries after `obj_set` are the old entries with `key` overwritten,
/// stated key by key.
pub proof fn lemma_obj_set_keys(
    es: Seq<(Seq<char>, ValModel)>,
    key: Seq<char>,
    val: ValModel,
)
    ensures
        forall|i: int| 0 <= i < obj_set(es, key, val).len() ==> (#[trigger] obj_set(
            es,
            key,
            val,
        )[i]).0 == key || exists|j: int|
            0 <= j < es.len() && obj_set(es, key, val)[i].0 == #[trigger] es[j].0,
        obj_set(es, key, val).len() == if obj_get(es, key) is Some {
            es.len()
        } else {
            es.len() + 1
        },
    decreases es.len(),
{
    let r = obj_set(es, key, val);
    if es.len() == 0 {
    } else if es[0].0 == key {
        assert forall|i: int| 0 <= i < r.len() implies (#[trigger] r[i]).0 == key || exists|j: int|
            0 <= j < es.len() && r[i].0 == #[trigger] es[j].0 by {
            if i > 0 {
                assert(r[i] == es[i]);
                assert(r[i].0 == es[i].0);
            }
        }
    } else {
        lemma_obj_set_keys(es.drop_first(), key, val);
        let tail = obj_set(es.drop_first(), key, val);
        assert forall|i: int| 0 <= i < r.len() implies (#[trigger] r[i]).0 == key || exists|j: int|
            0 <= j < es.len() && r[i].0 == #[trigger] es[j].0 by {
            if i == 0 {
                assert(r[0].0 == es[0].0);
            } else {
                assert(r[i] == tail[i - 1]);
                if tail[i - 1].0 != key {
                    let j0 = choose|j0: int|
                        0 <= j0 < es.drop_first().len() && tail[i - 1].0 == es.drop_first()[j0].0;
                    assert(es.drop_first()[j0].0 == es[j0 + 1].0);
                }
            }
        }
    }
}

/// `obj_set` preserves key uniqueness.
pub proof fn lemma_obj_set_unique(
    es: Seq<(Seq<char>, ValModel)>,
    key: Seq<char>,
    val: ValModel,
)
    requires
        keys_unique(es),
    ensures
        keys_unique(obj_set(es, key, val)),
    decreases es.len(),
{
    let r = obj_set(es, key, val);
    if es.len() == 0 {
    } else if es[0].0 == key {
        assert forall|i: int, j: int| 0 <= i < j < r.len() implies r[i].0 != r[j].0 by {
            assert(r[j] == es[j]);
            if i > 0 {
                assert(r[i] == es[i]);
            }
        }
    } else {
        lemma_obj_set_unique(es.drop_first(), key, val);
        lemma_obj_set_keys(es.drop_first(), key, val);
        let tail = obj_set(es.drop_first(), key, val);
        assert forall|i: int, j: int| 0 <= i < j < r.len() implies r[i].0 != r[j].0 by {
            if i == 0 {
                assert(r[j] == tail[j - 1]);
                if tail[j - 1].0 == key {
                } else {
                    let j0 = choose|j0: int|
                        0 <= j0 < es.drop_first().len() && tail[j - 1].0 == #[trigger] es.drop_first()[j0].0;
                    assert(es.drop_first()[j0].0 == es[j0 + 1].0);
                }
            } else {
                assert(r[i] == tail[i - 1]);
                assert(r[j] == tail[j - 1]);
            }
        }
    }
}

/// If every value in `es` is well formed and `val` is well formed, the
/// values after `obj_set` are all well formed.
pub proof fn lemma_obj_set_wf_vals(
    es: Seq<(Seq<char>, ValModel)>,
    key: Seq<char>,
    val: ValModel,
)
    requires
        forall|i: int| 0 <= i < es.len() ==> wf(#[trigger] es[i].1),
        wf(val),
    ensures
        forall|i: int| 0 <= i < obj_set(es, key, val).len() ==> wf(
            (#[trigger] obj_set(es, key, val)[i]).1,
        ),
    decreases es.len(),
{
    let r = obj_set(es, key, val);
    if es.len() == 0 {
    } else if es[0].0 == key {
        assert forall|i: int| 0 <= i < r.len() implies wf((#[trigger] r[i]).1) by {
            if i > 0 {
                assert(r[i] == es[i]);
            }
        }
    } else {
        lemma_obj_set_wf_vals(es.drop_first(), key, val);
        let tail = obj_set(es.drop_first(), key, val);
        assert forall|i: int| 0 <= i < r.len() implies wf((#[trigger] r[i]).1) by {
            if i > 0 {
                assert(r[i] == tail[i - 1]);
            }
        }
    }
}

/// `obj_get` returns the first match.
pub proof fn lemma_obj_get_index(es: Seq<(Seq<char>, ValModel)>, key: Seq<char>, j: int)
    requires
        0 <= j < es.len(),
        es[j].0 == key,
        forall|l: int| 0 <= l < j ==> (#[trigger] es[l]).0 != key,
    ensures
        obj_get(es, key) == Some(es[j].1),
    decreases j,
{
    if j > 0 {
        lemma_obj_get_index(es.drop_first(), key, j - 1);
        assert(es.drop_first()[j - 1] == es[j]);
        assert(forall|l: int| 0 <= l < j - 1 ==> (#[trigger] es.drop_first()[l]) == es[l + 1]);
    }
}

/// `obj_get` misses exactly when no entry has the key.
pub proof fn lemma_obj_get_none(es: Seq<(Seq<char>, ValModel)>, key: Seq<char>)
    requires
        forall|l: int| 0 <= l < es.len() ==> (#[trigger] es[l]).0 != key,
    ensures
        obj_get(es, key) is None,
    decreases es.len(),
{
    if es.len() > 0 {
        lemma_obj_get_none(es.drop_first(), key);
    }
}

/// When `key` first occurs at `j`, `obj_set` is a pointwise update at `j`.
pub proof fn lemma_obj_set_update(
    es: Seq<(Seq<char>, ValModel)>,
    key: Seq<char>,
    val: ValModel,
    j: int,
)
    requires
        0 <= j < es.len(),
        es[j].0 == key,
        forall|l: int| 0 <= l < j ==> (#[trigger] es[l]).0 != key,
    ensures
        obj_set(es, key, val) == es.update(j, (key, val)),
    decreases j,
{
    if j == 0 {
        assert(obj_set(es, key, val) =~= es.update(0, (key, val)));
    } else {
        lemma_obj_set_update(es.drop_first(), key, val, j - 1);
        assert(es.drop_first()[j - 1] == es[j]);
        assert(forall|l: int| 0 <= l < j - 1 ==> (#[trigger] es.drop_first()[l]) == es[l + 1]);
        assert(obj_set(es, key, val) =~= es.update(j, (key, val)));
    }
}

/// When `key` is absent, `obj_set` appends a fresh entry.
pub proof fn lemma_obj_set_push(es: Seq<(Seq<char>, ValModel)>, key: Seq<char>, val: ValModel)
    requires
        obj_get(es, key) is None,
    ensures
        obj_set(es, key, val) == es.push((key, val)),
    decreases es.len(),
{
    if es.len() == 0 {
        assert(obj_set(es, key, val) =~= es.push((key, val)));
    } else {
        lemma_obj_set_push(es.drop_first(), key, val);
        assert(obj_set(es, key, val) =~= es.push((key, val)));
    }
}

/// Walk `segs[i..]` through nested objects; `None` as soon as a step is not
/// an object or lacks the segment.
pub open spec fn sv_get(m: ValModel, segs: Seq<Seq<char>>, i: int) -> Option<ValModel>
    decreases segs.len() - i when 0 <= i <= segs.len()
{
    if i >= segs.len() {
        Some(m)
    } else {
        match m {
            ValModel::Obj(es) => match obj_get(es, segs[i]) {
                Some(c) => sv_get(c, segs, i + 1),
                None => None,
            },
            _ => None,
        }
    }
}

/// Walk the path `segs[i..]` down from `v`.
pub fn tree_get<'a>(v: &'a Value, segs: &Vec<String>, i: usize) -> (r: Option<&'a Value>)
    requires
        i <= segs.len(),
    ensures
        match sv_get(v@, strs_model(segs@), i as int) {
            Some(m) => r is Some && r->0@ == m,
            None => r is None,
        },
    decreases segs.len() - i,
{
    proof {
        lemma_strs_model(segs@);
    }
    if i == segs.len() {
        Some(v)
    } else {
        match v.get(segs[i].as_str()) {
            Some(c) => tree_get(c, segs, i + 1),
            None => None,
        }
    }
}

impl Clone for Value {
    /// Structural deep copy; the model is preserved exactly.
    fn clone(&self) -> (r: Value)
        ensures
            r@ == self@,
    {
        clone_value(self)
    }
}

/// Deep copy with an identical model.
#[verifier::loop_isolation(false)]
pub fn clone_value(v: &Value) -> (r: Value)
    ensures
        r@ == v@,
    decreases v,
{
    match v {
        Value::Null => Value::Null,
        Value::Bool(b) => Value::Bool(*b),
        Value::Num(n) => Value::Num(*n),
        Value::Str(s) => Value::Str(s.clone()),
        Value::Arr(items) => {
            let n = items.len();
            let mut out: Vec<Value> = Vec::new();
            let mut i: usize = 0;
            while i < n
                invariant
                    n == items.len(),
                    i <= n,
                    out@.len() == i,
                    forall|j: int| 0 <= j < i ==> (#[trigger] out@[j])@ == items@[j]@,
                decreases n - i,
            {
                let c = clone_value(&items[i]);
                out.push(c);
                i = i + 1;
            }
            proof {
                lemma_arr_model(out@);
                lemma_arr_model(items@);
                assert(arr_model(out@) =~= arr_model(items@));
            }
            Value::Arr(out)
        },
        Value::Obj(es) => {
            let n = es.len();
            let mut out: Vec<(String, Value)> = Vec::new();
            let mut i: usize = 0;
            while i < n
                invariant
                    n == es.len(),
                    i <= n,
                    out@.len() == i,
                    forall|j: int| 0 <= j < i ==> (#[trigger] out@[j]).0@ == es@[j].0@
                        && out@[j].1@ == es@[j].1@,
                decreases n - i,
            {
                let k = es[i].0.clone();
                let c = clone_value(&es[i].1);
                out.push((k, c));
                i = i + 1;
            }
            proof {
                lemma_entries_model(out@);
                lemma_entries_model(es@);
                assert(entries_model(out@) =~= entries_model(es@));
            }
            Value::Obj(out)
        },
    }
}

/// The views of a sequence of strings.
pub open spec fn strs_model(ss: Seq<String>) -> Seq<Seq<char>>
    decreases ss,
{
    if ss.len() == 0 {
        Seq::empty()
    } else {
        seq![ss.first()@] + strs_model(ss.drop_first())
    }
}

/// `strs_model` maps the sequence pointwise.
pub proof fn lemma_strs_model(ss: Seq<String>)
    ensures
        strs_model(ss).len() == ss.len(),
        forall|i: int| 0 <= i < ss.len() ==> strs_model(ss)[i] == ss[i]@,
    decreases ss.len(),
{
    if ss.len() > 0 {
        lemma_strs_model(ss.drop_first());
        assert forall|i: int| 0 <= i < ss.len() implies strs_model(ss)[i] == ss[i]@ by {
            if i > 0 {
                assert(strs_model(ss)[i] == strs_model(ss.drop_first())[i - 1]);
                assert(ss.drop_first()[i - 1] == ss[i]);
            }
        }
    }
}

/// Index of the first entry whose key is `key`.
#[verifier::loop_isolation(false)]
pub fn find_key(es: &Vec<(String, Value)>, key: &String) -> (r: Option<usize>)
    ensures
        match r {
            Some(j) => j < es@.len() && es@[j as int].0@ == key@ && forall|l: int|
                0 <= l < j ==> (#[trigger] es@[l]).0@ != key@,
            None => forall|l: int| 0 <= l < es@.len() ==> (#[trigger] es@[l]).0@ != key@,
        },
{
    let n = es.len();
    let mut j: usize = 0;
    while j < n
        invariant
            j <= n,
            forall|l: int| 0 <= l < j ==> (#[trigger] es@[l]).0@ != key@,
        decreases n - j,
    {
        if es[j].0 == *key {
            return Some(j);
        }
        j = j + 1;
    }
    None
}

/// A value and its model always have the same head constructor.
pub proof fn lemma_view_shape(v: Value)
    ensures
        (v@ is Null <==> v is Null),
        (v@ is Bool <==> v is Bool),
        (v@ is Num <==> v is Num),
        (v@ is Str <==> v is Str),
        (v@ is Arr <==> v is Arr),
        (v@ is Obj <==> v is Obj),
{
    match v {
        Value::Null => {},
        Value::Bool(_) => {},
        Value::Num(_) => {},
        Value::Str(_) => {},
        Value::Arr(_) => {},
        Value::Obj(_) => {},
    }
}

/// `strs_model` commutes with `push`.
pub proof fn lemma_strs_model_push(ss: Seq<String>, s: String)
    ensures
        strs_model(ss.push(s)) == strs_model(ss).push(s@),
{
    lemma_strs_model(ss);
    lemma_strs_model(ss.push(s));
    assert(strs_model(ss.push(s)) =~= strs_model(ss).push(s@));
}

/// The scalar text form of a value: strings pass through, booleans and
/// numbers render canonically, null and objects render empty, and a list
/// renders as its elements' forms joined by `" | "`.
pub open spec fn string_form(m: ValModel) -> Seq<char>
    decreases m,
{
    match m {
        ValModel::Null => Seq::empty(),
        ValModel::Bool(b) => if b {
            seq!['t', 'r', 'u', 'e']
        } else {
            seq!['f', 'a', 'l', 's', 'e']
        },
        ValModel::Num(n) => crate::text::spec_int_str(n),
        ValModel::Str(s) => s,
        ValModel::Arr(items) => join_forms(items),
        ValModel::Obj(_) => Seq::empty(),
    }
}

/// Element forms joined by `" | "`.
pub open spec fn join_forms(items: Seq<ValModel>) -> Seq<char>
    decreases items,
{
    if items.len() == 0 {
        Seq::empty()
    } else if items.len() == 1 {
        string_form(items[0])
    } else {
        join_forms(items.drop_last()) + seq![' ', '|', ' '] + string_form(items.last())
    }
}

/// Executable form of `string_form`.
#[verifier::loop_isolation(false)]
pub fn string_form_chars(v: &Value) -> (r: Vec<char>)
    ensures
        r@ == string_form(v@),
    decreases v,
{
    match v {
        Value::Null => Vec::new(),
        Value::Bool(b) => {
            let s = if *b { "true" } else { "false" };
            proof {
                reveal_strlit("true");
                reveal_strlit("false");
                assert("true"@ =~= seq!['t', 'r', 'u', 'e']);
                assert("false"@ =~= seq!['f', 'a', 'l', 's', 'e']);
            }
            crate::text::str_to_chars(s)
        },
        Value::Num(n) => crate::text::i64_dec(*n),
        Value::Str(s) => crate::text::str_to_chars(s.as_str()),
        Value::Arr(items) => {
            let n = items.len();
            let ghost ims = arr_model(items@);
            proof {
                lemma_arr_model(items@);
            }
            let mut acc: Vec<char> = Vec::new();
            let mut i: usize = 0;
            while i < n
                invariant
                    i <= n,
                    acc@ == join_forms(ims.take(i as int)),
                decreases n - i,
            {
                proof {
                    assert(ims.take(i as int + 1).drop_last() =~= ims.take(i as int));
                    assert(ims.take(i as int + 1).last() == ims[i as int]);
                }
                if i > 0 {
                    acc.push(' ');
                    acc.push('|');
                    acc.push(' ');
                }
                let ghost base = acc@;
                proof {
                    if i > 0 {
                        assert(base =~= join_forms(ims.take(i as int)) + seq![' ', '|', ' ']);
                    }
                    assert(base + Seq::<char>::empty() =~= base);
                }
                let part = string_form_chars(&items[i]);
                let m = part.len();
                let mut k: usize = 0;
                proof {
                    assert(part@.take(0) =~= Seq::<char>::empty());
                }
                while k < m
                    invariant
                        k <= m,
                        m == part@.len(),
                        acc@ == base + part@.take(k as int),
                    decreases m - k,
                {
                    proof {
                        assert(part@.take(k as int + 1) =~= part@.take(k as int).push(
                            part@[k as int],
                        ));
                    }
                    acc.push(part[k]);
                    k = k + 1;
                }
                proof {
                    assert(part@.take(m as int) =~= part@);
                    if i > 0 {
                        assert(acc@ =~= join_forms(ims.take(i as int)) + seq![' ', '|', ' ']
                            + string_form(ims[i as int]));
                    } else {
                        assert(acc@ =~= string_form(ims[0]));
                    }
                    assert(acc@ =~= join_forms(ims.take(i as int + 1)));
                }
                i = i + 1;
            }
            proof {
                assert(ims.take(n as int) =~= ims);
            }
            acc
        },
        Value::Obj(_) => Vec::new(),
    }
}

impl Value {
    /// Look a key up in an object; `None` on any other variant.
    pub fn get<'a>(&'a self, key: &str) -> (r: Option<&'a Value>)
        ensures
            match self@ {
                ValModel::Obj(es) => match obj_get(es, key@) {
                    Some(m) => r is Some && r->0@ == m,
                    None => r is None,
                },
                _ => r is None,
            },
    {
        match self {
            Value::Obj(es) => {
                let ghost ms = entries_model(es@);
                proof {
                    lemma_entries_model(es@);
                    assert(ms.skip(0) =~= ms);
                }
                let n = es.len();
                let mut i: usize = 0;
                while i < n
                    invariant
                        n == es.len(),
                        i <= n,
                        ms == entries_model(es@),
                        self@ == ValModel::Obj(ms),
                        obj_get(ms, key@) == obj_get(ms.skip(i as int), key@),
                    decreases n - i,
                {
                    proof {
                        lemma_entries_model(es@);
                        assert(ms.skip(i as int)[0] == ms[i as int]);
                    }
                    if str_eq_str(es[i].0.as_str(), key) {
                        proof {
                            assert(ms.skip(i as int)[0].0 == key@);
                            assert(obj_get(ms, key@) == Some(ms[i as int].1));
                        }
                        return Some(&es[i].1);
                    }
                    proof {
                        assert(ms.skip(i as int).drop_first() =~= ms.skip(i as int + 1));
                    }
                    i = i + 1;
                }
                proof {
                    lemma_entries_model(es@);
                    assert(ms.skip(n as int) =~= Seq::<(Seq<char>, ValModel)>::empty());
                }
                None
            },
            _ => None,
        }
    }
}

} // verus!
