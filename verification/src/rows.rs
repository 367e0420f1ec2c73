//! Flat rows: a string-keyed mapping with unique columns, the dotted-key
//! flattener, the table/record/scalar row extractor, and the dot-path
//! resolver.

use vstd::prelude::*;

use crate::text::{char_is_ws, chars_to_string, is_ws, str_eq_str, str_to_chars};
use crate::value::{
    arr_model, clone_value, entries_model, lemma_arr_model, lemma_entries_model, lemma_strs_model,
    lemma_view_shape, obj_get, string_form, string_form_chars, strs_model, sv_get, tree_get,
    ValModel, Value,
};

verus! {

/// A flat row: column name to rendered text, insertion-ordered, with
/// pairwise distinct column names.
pub struct Row {
    pub cols: Vec<(String, String)>,
}

/// The mapping described by a column list; a later entry for the same
/// column overrides an earlier one.
pub open spec fn row_model(ps: Seq<(String, String)>) -> Map<Seq<char>, Seq<char>>
    decreases ps.len(),
{
    if ps.len() == 0 {
        Map::empty()
    } else {
        row_model(ps.drop_last()).insert(ps.last().0@, ps.last().1@)
    }
}

impl View for Row {
    type V = Map<Seq<char>, Seq<char>>;

    open spec fn view(&self) -> Map<Seq<char>, Seq<char>> {
        row_model(self.cols@)
    }
}

/// The column names of a row are pairwise distinct.
pub open spec fn row_wf(r: Row) -> bool {
    forall|i: int, j: int|
        0 <= i < j < r.cols@.len() ==> r.cols@[i].0@ != r.cols@[j].0@
}

/// A key is in the mapping exactly when some entry carries it.
pub proof fn lemma_row_model_contains(ps: Seq<(String, String)>, k: Seq<char>)
    ensures
        row_model(ps).contains_key(k) <==> exists|l: int|
            0 <= l < ps.len() && (#[trigger] ps[l]).0@ == k,
    decreases ps.len(),
{
    if ps.len() > 0 {
        lemma_row_model_contains(ps.drop_last(), k);
        if ps.last().0@ == k {
        } else if row_model(ps).contains_key(k) {
            let l = choose|l: int| 0 <= l < ps.drop_last().len() && (#[trigger] ps.drop_last()[l]).0@ == k;
            assert(ps[l].0@ == k);
        } else {
            assert forall|l: int| 0 <= l < ps.len() implies (#[trigger] ps[l]).0@ != k by {
                if l < ps.len() - 1 {
                    assert(ps.drop_last()[l] == ps[l]);
                }
            }
        }
    }
}

/// With no later entry for the same column, entry `j` gives the value.
pub proof fn lemma_row_model_get(ps: Seq<(String, String)>, j: int)
    requires
        0 <= j < ps.len(),
        forall|l: int| j < l < ps.len() ==> (#[trigger] ps[l]).0@ != ps[j].0@,
    ensures
        row_model(ps).contains_key(ps[j].0@),
        row_model(ps)[ps[j].0@] == ps[j].1@,
    decreases ps.len(),
{
    if j < ps.len() - 1 {
        assert(ps.drop_last()[j] == ps[j]);
        assert forall|l: int| j < l < ps.drop_last().len() implies (#[trigger] ps.drop_last()[l]).0@
            != ps.drop_last()[j].0@ by {
            assert(ps.drop_last()[l] == ps[l]);
        }
        lemma_row_model_get(ps.drop_last(), j);
    }
}

/// Updating the unique entry for a column is an insert on the mapping.
pub proof fn lemma_row_model_update(ps: Seq<(String, String)>, j: int, k: String, v: String)
    requires
        0 <= j < ps.len(),
        ps[j].0@ == k@,
        forall|l: int| 0 <= l < ps.len() && l != j ==> (#[trigger] ps[l]).0@ != k@,
    ensures
        row_model(ps.update(j, (k, v))) == row_model(ps).insert(k@, v@),
    decreases ps.len(),
{
    let ps2 = ps.update(j, (k, v));
    if j == ps.len() - 1 {
        assert(ps2.drop_last() =~= ps.drop_last());
        assert(row_model(ps2) == row_model(ps.drop_last()).insert(k@, v@));
        assert(row_model(ps).insert(k@, v@) =~= row_model(ps.drop_last()).insert(k@, v@));
    } else {
        assert(ps.drop_last()[j] == ps[j]);
        assert forall|l: int| 0 <= l < ps.drop_last().len() && l != j implies (
        #[trigger] ps.drop_last()[l]).0@ != k@ by {
            assert(ps.drop_last()[l] == ps[l]);
        }
        lemma_row_model_update(ps.drop_last(), j, k, v);
        assert(ps2.drop_last() =~= ps.drop_last().update(j, (k, v)));
        assert(ps2.last() == ps.last());
        assert(row_model(ps2) == row_model(ps.drop_last()).insert(k@, v@).insert(
            ps.last().0@,
            ps.last().1@,
        ));
        assert(row_model(ps2) =~= row_model(ps).insert(k@, v@));
    }
}

impl Row {
    /// An empty row.
    pub fn new() -> (r: Row)
        ensures
            r@ == Map::<Seq<char>, Seq<char>>::empty(),
            row_wf(r),
            r@.dom() =~= Set::<Seq<char>>::empty(),
    {
        Row { cols: Vec::new() }
    }

    /// Set a column, overwriting any earlier value for it.
    #[verifier::loop_isolation(false)]
    pub fn insert(&mut self, k: String, v: String)
        requires
            row_wf(*old(self)),
        ensures
            row_wf(*final(self)),
            final(self)@ == old(self)@.insert(k@, v@),
    {
        let n = self.cols.len();
        let mut i: usize = 0;
        while i < n
            invariant
                i <= n,
                n == self.cols@.len(),
                self.cols@ == old(self).cols@,
                forall|l: int| 0 <= l < i ==> (#[trigger] self.cols@[l]).0@ != k@,
            decreases n - i,
        {
            if self.cols[i].0 == k {
                let ghost ps = self.cols@;
                self.cols.set(i, (k, v));
                proof {
                    lemma_row_model_update(ps, i as int, k, v);
                }
                return ;
            }
            i = i + 1;
        }
        let ghost ps = self.cols@;
        self.cols.push((k, v));
        proof {
            assert(self.cols@.drop_last() =~= ps);
        }
    }

    /// The value of a column, if the row has it.
    #[verifier::loop_isolation(false)]
    pub fn get<'a>(&'a self, k: &str) -> (r: Option<&'a String>)
        requires
            row_wf(*self),
        ensures
            match r {
                Some(s) => self@.contains_key(k@) && s@ == self@[k@],
                None => !self@.contains_key(k@),
            },
    {
        let n = self.cols.len();
        let mut i: usize = 0;
        while i < n
            invariant
                i <= n,
                n == self.cols@.len(),
                forall|l: int| 0 <= l < i ==> (#[trigger] self.cols@[l]).0@ != k@,
            decreases n - i,
        {
            if str_eq_str(self.cols[i].0.as_str(), k) {
                proof {
                    lemma_row_model_get(self.cols@, i as int);
                }
                return Some(&self.cols[i].1);
            }
            i = i + 1;
        }
        proof {
            lemma_row_model_contains(self.cols@, k@);
        }
        None
    }

    /// Number of columns.
    pub fn len(&self) -> (r: usize)
        ensures
            r == self.cols@.len(),
    {
        self.cols.len()
    }
}

/// Dotted column name for a child key under `prefix`.
pub open spec fn child_prefix(prefix: Seq<char>, k: Seq<char>) -> Seq<char> {
    if prefix.len() == 0 {
        k
    } else {
        prefix + seq!['.'] + k
    }
}

/// Flattening of a value under a column-name prefix: an object
/// contributes each child under a dotted name, anything else one column
/// holding its text form.
pub open spec fn flat_model(prefix: Seq<char>, m: ValModel) -> Map<Seq<char>, Seq<char>>
    decreases m,
{
    match m {
        ValModel::Obj(es) => flat_obj(prefix, es),
        _ => Map::empty().insert(prefix, string_form(m)),
    }
}

/// Flattening of object entries, in order; later entries override.
pub open spec fn flat_obj(prefix: Seq<char>, es: Seq<(Seq<char>, ValModel)>) -> Map<
    Seq<char>,
    Seq<char>,
>
    decreases es,
{
    if es.len() == 0 {
        Map::empty()
    } else {
        flat_obj(prefix, es.drop_last()).union_prefer_right(
            flat_model(child_prefix(prefix, es.last().0), es.last().1),
        )
    }
}

/// Flatten `v` into `row` under `prefix`.
#[verifier::loop_isolation(false)]
pub fn flat_into(prefix: &String, v: &Value, row: &mut Row)
    requires
        row_wf(*old(row)),
    ensures
        row_wf(*final(row)),
        final(row)@ == old(row)@.union_prefer_right(flat_model(prefix@, v@)),
    decreases v,
{
    match v {
        Value::Obj(es) => {
            let ghost ms = entries_model(es@);
            proof {
                lemma_entries_model(es@);
                assert(flat_obj(prefix@, ms.take(0)) =~= Map::<Seq<char>, Seq<char>>::empty());
                assert(old(row)@.union_prefer_right(flat_obj(prefix@, ms.take(0))) =~= old(
                    row,
                )@);
            }
            let n = es.len();
            let mut i: usize = 0;
            while i < n
                invariant
                    i <= n,
                    row_wf(*row),
                    row@ == old(row)@.union_prefer_right(flat_obj(prefix@, ms.take(i as int))),
                decreases n - i,
            {
                let cp: String = if prefix.unicode_len() == 0 {
                    es[i].0.clone()
                } else {
                    let mut s = prefix.clone();
                    s.append(".");
                    s.append(es[i].0.as_str());
                    s
                };
                proof {
                    reveal_strlit(".");
                    assert("."@ =~= seq!['.']);
                    assert(cp@ == child_prefix(prefix@, ms[i as int].0));
                }
                let ghost before = row@;
                flat_into(&cp, &es[i].1, row);
                proof {
                    assert(ms.take(i as int + 1).drop_last() =~= ms.take(i as int));
                    assert(ms.take(i as int + 1).last() == ms[i as int]);
                    assert(row@ =~= old(row)@.union_prefer_right(
                        flat_obj(prefix@, ms.take(i as int + 1)),
                    ));
                }
                i = i + 1;
            }
            proof {
                assert(ms.take(n as int) =~= ms);
            }
        },
        _ => {
            let fc = string_form_chars(v);
            let s = chars_to_string(&fc);
            let kp = prefix.clone();
            row.insert(kp, s);
            proof {
                lemma_view_shape(*v);
                assert(flat_model(prefix@, v@) =~= Map::<Seq<char>, Seq<char>>::empty().insert(
                    prefix@,
                    string_form(v@),
                ));
                assert(row@ =~= old(row)@.union_prefer_right(flat_model(prefix@, v@)));
            }
        },
    }
}

/// Every child of the object is itself an object: the table shape.
pub open spec fn all_children_obj(es: Seq<(Seq<char>, ValModel)>) -> bool {
    forall|i: int| 0 <= i < es.len() ==> (#[trigger] es[i]).1 is Obj
}

/// The rows extracted from a node: none for null; one per child for a
/// table-shaped object, each flattened and given a `name` column holding
/// the child's key; one flattened row for any other object; and a single
/// `value` column for a scalar or list.
pub open spec fn spec_rows(m: ValModel) -> Seq<Map<Seq<char>, Seq<char>>> {
    match m {
        ValModel::Null => Seq::empty(),
        ValModel::Obj(es) => if all_children_obj(es) {
            Seq::new(
                es.len(),
                |i: int|
                    flat_model(Seq::empty(), es[i].1).insert(
                        seq!['n', 'a', 'm', 'e'],
                        es[i].0,
                    ),
            )
        } else {
            seq![flat_model(Seq::empty(), m)]
        },
        _ => seq![
            Map::empty().insert(seq!['v', 'a', 'l', 'u', 'e'], string_form(m)),
        ],
    }
}

/// The views of a sequence of rows.
pub open spec fn rows_model(rs: Seq<Row>) -> Seq<Map<Seq<char>, Seq<char>>>
    decreases rs,
{
    if rs.len() == 0 {
        Seq::empty()
    } else {
        seq![rs.first()@] + rows_model(rs.drop_first())
    }
}

/// `rows_model` maps the sequence pointwise.
pub proof fn lemma_rows_model(rs: Seq<Row>)
    ensures
        rows_model(rs).len() == rs.len(),
        forall|i: int| 0 <= i < rs.len() ==> rows_model(rs)[i] == rs[i]@,
    decreases rs.len(),
{
    if rs.len() > 0 {
        lemma_rows_model(rs.drop_first());
        assert forall|i: int| 0 <= i < rs.len() implies rows_model(rs)[i] == rs[i]@ by {
            if i > 0 {
                assert(rows_model(rs)[i] == rows_model(rs.drop_first())[i - 1]);
                assert(rs.drop_first()[i - 1] == rs[i]);
            }
        }
    }
}

/// All rows of a sequence are well formed.
pub open spec fn rows_wf(rs: Seq<Row>) -> bool {
    forall|i: int| 0 <= i < rs.len() ==> row_wf(#[trigger] rs[i])
}

/// Extract the rows of a node.
#[verifier::loop_isolation(false)]
pub fn rows_from_node(node: &Value) -> (r: Vec<Row>)
    ensures
        rows_model(r@) == spec_rows(node@),
        rows_wf(r@),
{
    proof {
        lemma_view_shape(*node);
    }
    match node {
        Value::Null => {
            let r: Vec<Row> = Vec::new();
            proof {
                assert(rows_model(r@) =~= spec_rows(node@));
            }
            r
        },
        Value::Obj(es) => {
            let ghost ms = entries_model(es@);
            proof {
                lemma_entries_model(es@);
            }
            let n = es.len();
            let mut all_obj: bool = true;
            let mut i: usize = 0;
            while i < n
                invariant
                    i <= n,
                    all_obj <==> forall|l: int| 0 <= l < i ==> (#[trigger] ms[l]).1 is Obj,
                decreases n - i,
            {
                let is_obj = match &es[i].1 {
                    Value::Obj(_) => true,
                    _ => false,
                };
                proof {
                    lemma_view_shape(es@[i as int].1);
                    assert(ms[i as int].1 == es@[i as int].1@);
                    assert(is_obj == (ms[i as int].1 is Obj));
                }
                all_obj = all_obj && is_obj;
                i = i + 1;
            }
            if all_obj {
                let mut out: Vec<Row> = Vec::new();
                let mut i: usize = 0;
                proof {
                    lemma_rows_model(out@);
                }
                while i < n
                    invariant
                        i <= n,
                        out@.len() == i,
                        rows_wf(out@),
                        forall|l: int| 0 <= l < i ==> (#[trigger] out@[l])@ == spec_rows(
                            node@,
                        )[l],
                    decreases n - i,
                {
                    let mut row = Row::new();
                    let empty_prefix = String::new();
                    flat_into(&empty_prefix, &es[i].1, &mut row);
                    proof {
                        assert(Map::<Seq<char>, Seq<char>>::empty().union_prefer_right(
                            flat_model(Seq::empty(), ms[i as int].1),
                        ) =~= flat_model(Seq::empty(), ms[i as int].1));
                    }
                    let name_lit: String = chars_to_string(&name_chars());
                    row.insert(name_lit, es[i].0.clone());
                    out.push(row);
                    i = i + 1;
                }
                proof {
                    lemma_rows_model(out@);
                    assert(rows_model(out@) =~= spec_rows(node@));
                }
                out
            } else {
                let mut row = Row::new();
                let empty_prefix = String::new();
                flat_into(&empty_prefix, node, &mut row);
                proof {
                    assert(Map::<Seq<char>, Seq<char>>::empty().union_prefer_right(
                        flat_model(Seq::empty(), node@),
                    ) =~= flat_model(Seq::empty(), node@));
                    let ghost witness_i = choose|l: int|
                        0 <= l < ms.len() && !((#[trigger] ms[l]).1 is Obj);
                    assert(!all_children_obj(ms));
                }
                let mut out: Vec<Row> = Vec::new();
                out.push(row);
                proof {
                    lemma_rows_model(out@);
                    assert(rows_model(out@) =~= spec_rows(node@));
                }
                out
            }
        },
        _ => {
            let mut row = Row::new();
            let fc = string_form_chars(node);
            let s = chars_to_string(&fc);
            let value_lit: String = chars_to_string(&value_chars());
            row.insert(value_lit, s);
            let mut out: Vec<Row> = Vec::new();
            out.push(row);
            proof {
                assert(row@ =~= Map::<Seq<char>, Seq<char>>::empty().insert(
                    seq!['v', 'a', 'l', 'u', 'e'],
                    string_form(node@),
                ));
                lemma_rows_model(out@);
                assert(rows_model(out@) =~= spec_rows(node@));
            }
            out
        },
    }
}

/// Nothing but whitespace.
pub open spec fn all_ws_seq(cs: Seq<char>) -> bool {
    forall|i: int| 0 <= i < cs.len() ==> is_ws(cs[i])
}

/// Split on `.`, dropping empty segments.
pub open spec fn spec_dot_split(cs: Seq<char>, i: int, start: int, acc: Seq<Seq<char>>) -> Seq<
    Seq<char>,
>
    decreases cs.len() - i when 0 <= start <= i <= cs.len()
{
    if i >= cs.len() {
        if i > start {
            acc.push(cs.subrange(start, i))
        } else {
            acc
        }
    } else if cs[i] == '.' {
        spec_dot_split(
            cs,
            i + 1,
            i + 1,
            if i > start {
                acc.push(cs.subrange(start, i))
            } else {
                acc
            },
        )
    } else {
        spec_dot_split(cs, i + 1, start, acc)
    }
}

/// The non-empty dot-separated segments of an address.
pub open spec fn spec_path_segs(cs: Seq<char>) -> Seq<Seq<char>> {
    spec_dot_split(cs, 0, 0, Seq::empty())
}

/// Resolution of a dot-separated address against the tree: null for a
/// blank address, the reached subtree otherwise, and null as soon as a
/// step is missing or not an object.
pub open spec fn spec_resolve(root: ValModel, path: Seq<char>) -> ValModel {
    if all_ws_seq(path) {
        ValModel::Null
    } else {
        match sv_get(root, spec_path_segs(path), 0) {
            Some(m) => m,
            None => ValModel::Null,
        }
    }
}

/// Resolve a dot-separated address to a copy of the subtree it reaches.
#[verifier::loop_isolation(false)]
pub fn get_by_path(root: &Value, path: &str) -> (r: Value)
    ensures
        r@ == spec_resolve(root@, path@),
{
    let cs = str_to_chars(path);
    let n = cs.len();
    let mut allws: bool = true;
    let mut i: usize = 0;
    while i < n
        invariant
            i <= n,
            allws <==> forall|l: int| 0 <= l < i ==> is_ws(cs@[l]),
        decreases n - i,
    {
        let w = char_is_ws(cs[i]);
        allws = allws && w;
        i = i + 1;
    }
    if allws {
        return Value::Null;
    }
    let mut segs: Vec<String> = Vec::new();
    let mut buf: Vec<char> = Vec::new();
    let ghost mut start: int = 0;
    let mut i: usize = 0;
    proof {
        assert(strs_model(segs@) =~= Seq::<Seq<char>>::empty());
        assert(buf@ =~= cs@.subrange(0, 0));
    }
    while i < n
        invariant
            0 <= start <= i as int,
            i <= n,
            buf@ == cs@.subrange(start, i as int),
            spec_path_segs(cs@) == spec_dot_split(cs@, i as int, start, strs_model(segs@)),
        decreases n - i,
    {
        let c = cs[i];
        if c == '.' {
            if buf.len() > 0 {
                let t = chars_to_string(&buf);
                let ghost prev = segs@;
                segs.push(t);
                proof {
                    crate::value::lemma_strs_model_push(prev, t);
                }
            }
            buf = Vec::new();
            proof {
                start = i as int + 1;
                assert(buf@ =~= cs@.subrange(start, i as int + 1));
            }
        } else {
            buf.push(c);
            proof {
                assert(buf@ =~= cs@.subrange(start, i as int + 1));
            }
        }
        i = i + 1;
    }
    if buf.len() > 0 {
        let t = chars_to_string(&buf);
        let ghost prev = segs@;
        segs.push(t);
        proof {
            crate::value::lemma_strs_model_push(prev, t);
        }
    }
    match tree_get(root, &segs, 0) {
        Some(t) => clone_value(t),
        None => Value::Null,
    }
}

/// The characters of the injected `name` column.
fn name_chars() -> (r: Vec<char>)
    ensures
        r@ == seq!['n', 'a', 'm', 'e'],
{
    let mut r: Vec<char> = Vec::new();
    r.push('n');
    r.push('a');
    r.push('m');
    r.push('e');
    proof {
        assert(r@ =~= seq!['n', 'a', 'm', 'e']);
    }
    r
}

/// The characters of the `value` column used for scalar nodes.
fn value_chars() -> (r: Vec<char>)
    ensures
        r@ == seq!['v', 'a', 'l', 'u', 'e'],
{
    let mut r: Vec<char> = Vec::new();
    r.push('v');
    r.push('a');
    r.push('l');
    r.push('u');
    r.push('e');
    proof {
        assert(r@ =~= seq!['v', 'a', 'l', 'u', 'e']);
    }
    r
}

} // verus!
