//! Laws of the library, stated and proved once for all inputs: what a
//! `set` after a `set` leaves behind, how `append` accumulates, that a
//! `config`/`edit`/`set` block is readable back through the resolver,
//! that a standard reader recovers every row's cells from the serialized
//! output — field by field, line by line and record by record — and
//! that a missing path segment resolves to null.

use vstd::prelude::*;

use crate::csv::{dq, join_comma, needs_quote, row_fields, spec_body, spec_escape};
use crate::parser::{
    append_val, apply_lines, apply_tokens, init_st, set_val, spec_lines, spec_parse, strs_to_vals,
    sv_ensure, sv_update, target_path, ParseSt,
};
use crate::rows::{all_ws_seq, spec_dot_split, spec_path_segs, spec_resolve};
use crate::text::{is_ws, spec_lower};
use crate::value::{
    keys_unique, lemma_obj_set_get, lemma_obj_set_unique, lemma_obj_set_wf_vals, obj_get, obj_set,
    sv_get, wf, ValModel,
};

verus! {

/// The directive keywords are fixed points of ASCII lowercasing and
/// pairwise distinct.
pub proof fn lemma_keywords()
    ensures
        spec_lower("config"@) == "config"@,
        spec_lower("edit"@) == "edit"@,
        spec_lower("next"@) == "next"@,
        spec_lower("end"@) == "end"@,
        spec_lower("set"@) == "set"@,
        spec_lower("unset"@) == "unset"@,
        spec_lower("append"@) == "append"@,
        "config"@ != "edit"@,
        "config"@ != "next"@,
        "config"@ != "end"@,
        "config"@ != "set"@,
        "config"@ != "unset"@,
        "config"@ != "append"@,
        "edit"@ != "config"@,
        "edit"@ != "next"@,
        "edit"@ != "end"@,
        "edit"@ != "set"@,
        "edit"@ != "unset"@,
        "edit"@ != "append"@,
        "next"@ != "config"@,
        "next"@ != "edit"@,
        "next"@ != "end"@,
        "next"@ != "set"@,
        "next"@ != "unset"@,
        "next"@ != "append"@,
        "end"@ != "config"@,
        "end"@ != "edit"@,
        "end"@ != "next"@,
        "end"@ != "set"@,
        "end"@ != "unset"@,
        "end"@ != "append"@,
        "set"@ != "config"@,
        "set"@ != "edit"@,
        "set"@ != "next"@,
        "set"@ != "end"@,
        "set"@ != "unset"@,
        "set"@ != "append"@,
        "unset"@ != "config"@,
        "unset"@ != "edit"@,
        "unset"@ != "next"@,
        "unset"@ != "end"@,
        "unset"@ != "set"@,
        "unset"@ != "append"@,
        "append"@ != "config"@,
        "append"@ != "edit"@,
        "append"@ != "next"@,
        "append"@ != "end"@,
        "append"@ != "set"@,
        "append"@ != "unset"@,
{
    reveal_strlit("config");
    reveal_strlit("edit");
    reveal_strlit("next");
    reveal_strlit("end");
    reveal_strlit("set");
    reveal_strlit("unset");
    reveal_strlit("append");
    assert(spec_lower("config"@) =~= "config"@);
    assert(spec_lower("edit"@) =~= "edit"@);
    assert(spec_lower("next"@) =~= "next"@);
    assert(spec_lower("end"@) =~= "end"@);
    assert(spec_lower("set"@) =~= "set"@);
    assert(spec_lower("unset"@) =~= "unset"@);
    assert(spec_lower("append"@) =~= "append"@);
    assert("config"@[0] == 'c' && "append"@[0] == 'a');
    assert("edit"@[0] == 'e' && "next"@[0] == 'n');
    assert("end"@[0] == 'e' && "set"@[0] == 's');
}

/// Overwriting a key along an existing object path changes exactly that
/// object: the walk afterwards reaches it with the key overwritten.
pub proof fn lemma_sv_update_get(
    m: ValModel,
    segs: Seq<Seq<char>>,
    i: int,
    key: Seq<char>,
    val: ValModel,
)
    requires
        0 <= i <= segs.len(),
        match sv_get(m, segs, i) {
            Some(ValModel::Obj(_)) => true,
            _ => false,
        },
    ensures
        match (sv_get(m, segs, i), sv_get(sv_update(m, segs, i, key, val), segs, i)) {
            (Some(ValModel::Obj(es)), Some(ValModel::Obj(es2))) => es2 == obj_set(es, key, val),
            _ => false,
        },
    decreases segs.len() - i,
{
    if i == segs.len() {
    } else {
        match m {
            ValModel::Obj(es0) => match obj_get(es0, segs[i]) {
                Some(c) => {
                    lemma_sv_update_get(c, segs, i + 1, key, val);
                    lemma_obj_set_get(es0, segs[i], sv_update(c, segs, i + 1, key, val), segs[i]);
                },
                None => {},
            },
            _ => {},
        }
    }
}

/// A later `set` of the same key overwrites an earlier one: after
/// `set k v1` and `set k v2` the key holds the scalar string `v2`.
pub proof fn lemma_set_overwrites(st: ParseSt, k: Seq<char>, v1: Seq<char>, v2: Seq<char>)
    requires
        match sv_get(st.root, target_path(st), 0) {
            Some(ValModel::Obj(_)) => true,
            _ => false,
        },
    ensures
        ({
            let st2 = apply_tokens(apply_tokens(st, seq!["set"@, k, v1]), seq!["set"@, k, v2]);
            &&& st2.stack == st.stack
            &&& st2.cur == st.cur
            &&& match sv_get(st2.root, target_path(st), 0) {
                Some(ValModel::Obj(es)) => obj_get(es, k) == Some(ValModel::Str(v2)),
                _ => false,
            }
        }),
{
    lemma_keywords();
    let t1 = seq!["set"@, k, v1];
    let t2 = seq!["set"@, k, v2];
    assert(t1.skip(2) =~= seq![v1]);
    assert(t2.skip(2) =~= seq![v2]);
    let st1 = apply_tokens(st, t1);
    assert(st1.root == sv_update(st.root, target_path(st), 0, k, ValModel::Str(v1)));
    assert(st1.stack == st.stack && st1.cur == st.cur);
    assert(target_path(st1) == target_path(st));
    lemma_sv_update_get(st.root, target_path(st), 0, k, ValModel::Str(v1));
    let st2 = apply_tokens(st1, t2);
    assert(st2.root == sv_update(st1.root, target_path(st), 0, k, ValModel::Str(v2)));
    lemma_sv_update_get(st1.root, target_path(st), 0, k, ValModel::Str(v2));
    match sv_get(st.root, target_path(st), 0) {
        Some(ValModel::Obj(es)) => {
            lemma_obj_set_get(obj_set(es, k, ValModel::Str(v1)), k, ValModel::Str(v2), k);
        },
        _ => {},
    }
}

/// `append` to an absent key, then `append` again, accumulates the
/// values in call order as a list.
pub proof fn lemma_append_accumulates(st: ParseSt, k: Seq<char>, x: Seq<char>, y: Seq<char>)
    requires
        match sv_get(st.root, target_path(st), 0) {
            Some(ValModel::Obj(es)) => obj_get(es, k) is None,
            _ => false,
        },
    ensures
        ({
            let st2 = apply_tokens(apply_tokens(st, seq!["append"@, k, x]), seq!["append"@, k, y]);
            match sv_get(st2.root, target_path(st), 0) {
                Some(ValModel::Obj(es)) => obj_get(es, k) == Some(
                    ValModel::Arr(seq![ValModel::Str(x), ValModel::Str(y)]),
                ),
                _ => false,
            }
        }),
{
    lemma_keywords();
    let t1 = seq!["append"@, k, x];
    let t2 = seq!["append"@, k, y];
    assert(t1.skip(2) =~= seq![x]);
    assert(t2.skip(2) =~= seq![y]);
    assert(strs_to_vals(Seq::<Seq<char>>::empty()) =~= Seq::<ValModel>::empty());
    assert(strs_to_vals(seq![x]) =~= seq![ValModel::Str(x)]) by {
        assert(seq![x].drop_first() =~= Seq::<Seq<char>>::empty());
        assert(strs_to_vals(Seq::<Seq<char>>::empty()) =~= Seq::<ValModel>::empty());
    }
    assert(strs_to_vals(seq![y]) =~= seq![ValModel::Str(y)]) by {
        assert(seq![y].drop_first() =~= Seq::<Seq<char>>::empty());
        assert(strs_to_vals(Seq::<Seq<char>>::empty()) =~= Seq::<ValModel>::empty());
    }
    let v1 = append_val(st.root, target_path(st), k, seq![x]);
    assert(v1 == ValModel::Arr(seq![ValModel::Str(x)]));
    let st1 = apply_tokens(st, t1);
    assert(st1.root == sv_update(st.root, target_path(st), 0, k, v1));
    assert(st1.stack == st.stack && st1.cur == st.cur);
    assert(target_path(st1) == target_path(st));
    lemma_sv_update_get(st.root, target_path(st), 0, k, v1);
    match sv_get(st.root, target_path(st), 0) {
        Some(ValModel::Obj(es)) => {
            lemma_obj_set_get(es, k, v1, k);
        },
        _ => {},
    }
    let v2 = append_val(st1.root, target_path(st), k, seq![y]);
    assert(v2 == ValModel::Arr(seq![ValModel::Str(x)] + seq![ValModel::Str(y)]));
    assert(seq![ValModel::Str(x)] + seq![ValModel::Str(y)] =~= seq![
        ValModel::Str(x),
        ValModel::Str(y),
    ]);
    let st2 = apply_tokens(st1, t2);
    assert(st2.root == sv_update(st1.root, target_path(st), 0, k, v2));
    lemma_sv_update_get(st1.root, target_path(st), 0, k, v2);
    match sv_get(st1.root, target_path(st), 0) {
        Some(ValModel::Obj(es1)) => {
            lemma_obj_set_get(es1, k, v2, k);
        },
        _ => {},
    }
}

/// Splitting runs unchanged over a dot-free stretch ending at a dot.
pub proof fn lemma_dot_split_until(
    cs: Seq<char>,
    i: int,
    start: int,
    acc: Seq<Seq<char>>,
    j: int,
)
    requires
        0 <= start <= i <= j < cs.len(),
        cs[j] == '.',
        forall|l: int| i <= l < j ==> cs[l] != '.',
    ensures
        spec_dot_split(cs, i, start, acc) == spec_dot_split(
            cs,
            j + 1,
            j + 1,
            if j > start {
                acc.push(cs.subrange(start, j))
            } else {
                acc
            },
        ),
    decreases j - i,
{
    if i < j {
        lemma_dot_split_until(cs, i + 1, start, acc, j);
    }
}

/// Splitting a dot-free tail yields at most one final segment.
pub proof fn lemma_dot_split_tail(cs: Seq<char>, i: int, start: int, acc: Seq<Seq<char>>)
    requires
        0 <= start <= i <= cs.len(),
        forall|l: int| i <= l < cs.len() ==> cs[l] != '.',
    ensures
        spec_dot_split(cs, i, start, acc) == if cs.len() > start {
            acc.push(cs.subrange(start, cs.len() as int))
        } else {
            acc
        },
    decreases cs.len() - i,
{
    if i < cs.len() {
        lemma_dot_split_tail(cs, i + 1, start, acc);
    }
}

/// A `config a` / `edit e` / `set k v` / `next` / `end` block leaves a
/// tree on which the address `a.e.k` resolves to the string `v`, for any
/// dot-free non-empty `a`, `e` and `k`.
pub proof fn lemma_block_round_trip(a: Seq<char>, e: Seq<char>, k: Seq<char>, v: Seq<char>)
    requires
        a.len() > 0 && e.len() > 0 && k.len() > 0,
        forall|i: int| 0 <= i < a.len() ==> a[i] != '.',
        forall|i: int| 0 <= i < e.len() ==> e[i] != '.',
        forall|i: int| 0 <= i < k.len() ==> k[i] != '.',
    ensures
        ({
            let st1 = apply_tokens(init_st(), seq!["config"@, a]);
            let st2 = apply_tokens(st1, seq!["edit"@, e]);
            let st3 = apply_tokens(st2, seq!["set"@, k, v]);
            let st4 = apply_tokens(st3, seq!["next"@]);
            let st5 = apply_tokens(st4, seq!["end"@]);
            spec_resolve(st5.root, a + seq!['.'] + e + seq!['.'] + k) == ValModel::Str(v)
        }),
{
    lemma_keywords();
    let empty_es = Seq::<(Seq<char>, ValModel)>::empty();
    // config a
    let t1 = seq!["config"@, a];
    assert(t1.drop_first() =~= seq![a]);
    let sa = seq![a];
    assert(init_st().stack + t1.drop_first() =~= sa);
    let st1 = apply_tokens(init_st(), t1);
    let inner_a = sv_ensure(ValModel::Null, sa, 1);
    assert(inner_a == ValModel::Obj(empty_es));
    assert(obj_get(empty_es, a) is None);
    assert(obj_set(empty_es, a, inner_a) =~= seq![(a, ValModel::Obj(empty_es))]);
    assert(st1.root == ValModel::Obj(seq![(a, ValModel::Obj(empty_es))]));
    assert(st1.stack == sa && st1.cur is None);
    // edit e
    let t2 = seq!["edit"@, e];
    let st2 = apply_tokens(st1, t2);
    let sae = sa.push(e);
    let es1 = seq![(a, ValModel::Obj(empty_es))];
    assert(obj_get(es1, a) == Some(ValModel::Obj(empty_es)));
    let inner_e = sv_ensure(ValModel::Null, sae, 2);
    assert(inner_e == ValModel::Obj(empty_es));
    assert(obj_get(empty_es, sae[1]) is None);
    let eobj = ValModel::Obj(obj_set(empty_es, e, inner_e));
    assert(obj_set(empty_es, e, inner_e) =~= seq![(e, ValModel::Obj(empty_es))]);
    assert(sv_ensure(ValModel::Obj(empty_es), sae, 1) == eobj);
    assert(obj_set(es1, a, eobj) =~= seq![(a, eobj)]);
    assert(st2.root == ValModel::Obj(seq![(a, eobj)]));
    assert(st2.stack == sa && st2.cur == Some(e));
    // set k v
    let t3 = seq!["set"@, k, v];
    assert(t3.skip(2) =~= seq![v]);
    let st3 = apply_tokens(st2, t3);
    assert(target_path(st2) == sae);
    assert(sae.len() == 2);
    assert(sae[0] == a);
    assert(sae[1] == e);
    assert(sa[0] == a);
    let kv = ValModel::Str(v);
    let kobj = ValModel::Obj(obj_set(empty_es, k, kv));
    assert(obj_set(empty_es, k, kv) =~= seq![(k, kv)]);
    assert(sv_update(ValModel::Obj(empty_es), sae, 2, k, kv) == kobj);
    let eobj2 = ValModel::Obj(obj_set(seq![(e, ValModel::Obj(empty_es))], e, kobj));
    assert(obj_get(seq![(e, ValModel::Obj(empty_es))], e) == Some(ValModel::Obj(empty_es)));
    assert(obj_set(seq![(e, ValModel::Obj(empty_es))], e, kobj) =~= seq![(e, kobj)]);
    assert(obj_get(seq![(a, eobj)], a) == Some(eobj));
    assert(obj_set(seq![(a, eobj)], a, eobj2) =~= seq![(a, eobj2)]);
    assert(set_val(t3.skip(2)) == kv);
    assert(st3.root == sv_update(st2.root, sae, 0, k, kv));
    assert(eobj == ValModel::Obj(seq![(e, ValModel::Obj(empty_es))]));
    assert(sv_update(eobj, sae, 1, k, kv) == eobj2);
    assert(sv_update(st2.root, sae, 0, k, kv) == ValModel::Obj(
        obj_set(seq![(a, eobj)], a, sv_update(eobj, sae, 1, k, kv)),
    ));
    assert(st3.root == ValModel::Obj(seq![(a, eobj2)]));
    assert(st3.stack == sa && st3.cur == Some(e));
    // next, end
    let st4 = apply_tokens(st3, seq!["next"@]);
    assert(st4.root == st3.root && st4.cur is None);
    let st5 = apply_tokens(st4, seq!["end"@]);
    assert(st5.root == st3.root);
    // resolve a.e.k
    let path = a + seq!['.'] + e + seq!['.'] + k;
    let d1 = a.len() as int;
    let d2: int = a.len() as int + 1 + e.len() as int;
    assert(path[d1] == '.');
    assert(path[d2] == '.');
    assert(!is_ws('.'));
    assert(!all_ws_seq(path));
    assert forall|l: int| 0 <= l < d1 implies path[l] != '.' by {
        assert(path[l] == a[l]);
    }
    assert forall|l: int| d1 + 1 <= l < d2 implies path[l] != '.' by {
        assert(path[l] == e[l - (d1 + 1)]);
    }
    assert forall|l: int| d2 + 1 <= l < path.len() implies path[l] != '.' by {
        assert(path[l] == k[l - (d2 + 1)]);
    }
    let acc0 = Seq::<Seq<char>>::empty();
    lemma_dot_split_until(path, 0, 0, acc0, d1);
    assert(path.subrange(0, d1) =~= a);
    let acc1 = acc0.push(a);
    lemma_dot_split_until(path, d1 + 1, d1 + 1, acc1, d2);
    assert(path.subrange(d1 + 1, d2) =~= e);
    let acc2 = acc1.push(e);
    lemma_dot_split_tail(path, d2 + 1, d2 + 1, acc2);
    assert(path.subrange(d2 + 1, path.len() as int) =~= k);
    let segs = spec_path_segs(path);
    assert(segs == acc2.push(k));
    assert(segs =~= seq![a, e, k]);
    assert(sv_get(ValModel::Str(v), segs, 3) == Some(kv));
    assert(obj_get(seq![(k, kv)], k) == Some(kv));
    assert(sv_get(kobj, segs, 2) == Some(kv));
    assert(obj_get(seq![(e, kobj)], e) == Some(kobj));
    assert(sv_get(eobj2, segs, 1) == Some(kv));
    assert(obj_get(seq![(a, eobj2)], a) == Some(eobj2));
    assert(sv_get(st5.root, segs, 0) == Some(kv));
}

/// What a standard reader makes of one field: doubled quotes collapse.
pub open spec fn undouble(s: Seq<char>) -> Seq<char>
    decreases s.len(),
{
    if s.len() == 0 {
        Seq::empty()
    } else if s.len() >= 2 && s[0] == '"' && s[1] == '"' {
        seq!['"'] + undouble(s.skip(2))
    } else {
        seq![s[0]] + undouble(s.skip(1))
    }
}

/// What a standard reader makes of one serialized field: a field wrapped
/// in double quotes is unwrapped and its doubled quotes collapsed; any
/// other field is taken as it stands.
pub open spec fn spec_unescape(f: Seq<char>) -> Seq<char> {
    if f.len() >= 2 && f[0] == '"' && f.last() == '"' {
        undouble(f.subrange(1, f.len() - 1))
    } else {
        f
    }
}

/// Quote doubling can also be peeled from the front.
pub proof fn lemma_dq_front(s: Seq<char>)
    requires
        s.len() > 0,
    ensures
        dq(s) == (if s[0] == '"' {
            seq!['"', '"']
        } else {
            seq![s[0]]
        }) + dq(s.drop_first()),
    decreases s.len(),
{
    let hp = if s[0] == '"' {
        seq!['"', '"']
    } else {
        seq![s[0]]
    };
    if s.len() == 1 {
        assert(s.drop_last() =~= Seq::<char>::empty());
        assert(s.drop_first() =~= Seq::<char>::empty());
        assert(dq(s) =~= hp + dq(s.drop_first()));
    } else {
        lemma_dq_front(s.drop_last());
        assert(s.drop_last()[0] == s[0]);
        assert(s.drop_last().drop_first() =~= s.drop_first().drop_last());
        assert(s.drop_first().last() == s.last());
        assert(dq(s) == dq(s.drop_last()) + (if s.last() == '"' {
            seq!['"', '"']
        } else {
            seq![s.last()]
        }));
        assert(dq(s) =~= hp + dq(s.drop_first()));
    }
}

/// Collapsing doubled quotes undoes quote doubling.
pub proof fn lemma_undouble_dq(s: Seq<char>)
    ensures
        undouble(dq(s)) == s,
    decreases s.len(),
{
    if s.len() == 0 {
    } else {
        lemma_dq_front(s);
        lemma_undouble_dq(s.drop_first());
        if s[0] == '"' {
            assert(dq(s)[0] == '"' && dq(s)[1] == '"');
            assert(dq(s).skip(2) =~= dq(s.drop_first()));
            assert(undouble(dq(s)) =~= seq![s[0]] + s.drop_first());
            assert(seq![s[0]] + s.drop_first() =~= s);
        } else {
            assert(dq(s)[0] == s[0]);
            assert(dq(s).len() >= 1);
            if dq(s).len() >= 2 {
                assert(!(dq(s)[0] == '"' && dq(s)[1] == '"'));
            }
            assert(dq(s).skip(1) =~= dq(s.drop_first()));
            assert(undouble(dq(s)) =~= seq![s[0]] + s.drop_first());
            assert(seq![s[0]] + s.drop_first() =~= s);
        }
    }
}

/// Escaping round-trips: a standard reader gives back exactly the
/// original field.
pub proof fn lemma_escape_round_trip(s: Seq<char>)
    ensures
        spec_unescape(spec_escape(s)) == s,
{
    if needs_quote(s) {
        let f = spec_escape(s);
        lemma_undouble_dq(s);
        assert(f[0] == '"');
        assert(f.last() == '"');
        assert(f.len() >= 2);
        assert(f.subrange(1, f.len() - 1) =~= dq(s));
    } else {
        let f = s;
        if f.len() >= 2 && f[0] == '"' && f.last() == '"' {
            assert(needs_quote(s));
        }
    }
}

/// A walk that reaches a node lacking the next segment makes the whole
/// address resolve to null: an absent intermediate segment is no error.
pub proof fn lemma_sv_get_fails_from(m: ValModel, segs: Seq<Seq<char>>, i: int, j: int)
    requires
        0 <= i <= j < segs.len(),
        match sv_get(m, segs.take(j), i) {
            Some(node) => match node {
                ValModel::Obj(es) => obj_get(es, segs[j]) is None,
                _ => true,
            },
            None => false,
        },
    ensures
        sv_get(m, segs, i) is None,
    decreases j - i,
{
    if i == j {
        assert(sv_get(m, segs.take(j), i) == Some(m));
    } else {
        match m {
            ValModel::Obj(es0) => {
                assert(segs.take(j)[i] == segs[i]);
                match obj_get(es0, segs[i]) {
                    Some(c) => {
                        lemma_sv_get_fails_from(c, segs, i + 1, j);
                    },
                    None => {},
                }
            },
            _ => {},
        }
    }
}

/// Resolving an address through an absent intermediate segment yields
/// null.
pub proof fn lemma_resolve_missing_segment(root: ValModel, path: Seq<char>, j: int)
    requires
        0 <= j < spec_path_segs(path).len(),
        match sv_get(root, spec_path_segs(path).take(j), 0) {
            Some(node) => match node {
                ValModel::Obj(es) => obj_get(es, spec_path_segs(path)[j]) is None,
                _ => true,
            },
            None => false,
        },
    ensures
        spec_resolve(root, path) == ValModel::Null,
{
    lemma_sv_get_fails_from(root, spec_path_segs(path), 0, j);
}

/// A standard reader's splitting of text at unquoted separators: a
/// double quote toggles the quoted state, and a separator met outside
/// quotes ends the current raw field.
pub open spec fn rs(
    cs: Seq<char>,
    sep: char,
    inq: bool,
    buf: Seq<char>,
    acc: Seq<Seq<char>>,
) -> Seq<Seq<char>>
    decreases cs.len(),
{
    if cs.len() == 0 {
        acc.push(buf)
    } else if cs[0] == '"' {
        rs(cs.drop_first(), sep, !inq, buf.push('"'), acc)
    } else if cs[0] == sep && !inq {
        rs(cs.drop_first(), sep, false, Seq::empty(), acc.push(buf))
    } else {
        rs(cs.drop_first(), sep, inq, buf.push(cs[0]), acc)
    }
}

/// Each field in its serialized form.
pub open spec fn escs(fs: Seq<Seq<char>>) -> Seq<Seq<char>>
    decreases fs.len(),
{
    if fs.len() == 0 {
        Seq::empty()
    } else {
        seq![spec_escape(fs.first())] + escs(fs.drop_first())
    }
}

/// `escs` maps the sequence pointwise.
pub proof fn lemma_escs(fs: Seq<Seq<char>>)
    ensures
        escs(fs).len() == fs.len(),
        forall|i: int| 0 <= i < fs.len() ==> escs(fs)[i] == spec_escape(fs[i]),
    decreases fs.len(),
{
    if fs.len() > 0 {
        lemma_escs(fs.drop_first());
        assert forall|i: int| 0 <= i < fs.len() implies escs(fs)[i] == spec_escape(fs[i]) by {
            if i > 0 {
                assert(escs(fs)[i] == escs(fs.drop_first())[i - 1]);
                assert(fs.drop_first()[i - 1] == fs[i]);
            }
        }
    }
}

/// A comma-join can be peeled from the front.
pub proof fn lemma_join_comma_front(ss: Seq<Seq<char>>)
    requires
        ss.len() > 0,
    ensures
        join_comma(ss) == ss[0] + (if ss.len() > 1 {
            seq![','] + join_comma(ss.drop_first())
        } else {
            Seq::<char>::empty()
        }),
    decreases ss.len(),
{
    if ss.len() == 1 {
        assert(join_comma(ss) =~= ss[0] + Seq::<char>::empty());
    } else if ss.len() == 2 {
        assert(ss.drop_last() =~= seq![ss[0]]);
        assert(join_comma(seq![ss[0]]) == ss[0]);
        assert(ss.drop_first() =~= seq![ss[1]]);
        assert(join_comma(ss.drop_first()) == ss[1]);
        assert(join_comma(ss) =~= ss[0] + (seq![','] + join_comma(ss.drop_first())));
    } else {
        lemma_join_comma_front(ss.drop_last());
        assert(ss.drop_last()[0] == ss[0]);
        assert(ss.drop_last().drop_first() =~= ss.drop_first().drop_last());
        assert(ss.drop_first().last() == ss.last());
        assert(join_comma(ss) == join_comma(ss.drop_last()) + seq![','] + ss.last());
        assert(join_comma(ss.drop_first()) == join_comma(ss.drop_first().drop_last()) + seq![',']
            + ss.drop_first().last());
        assert(join_comma(ss) =~= ss[0] + (seq![','] + join_comma(ss.drop_first())));
    }
}

/// Scanning a stretch that holds neither a quote nor the separator just
/// grows the raw field.
pub proof fn lemma_rs_clean(seg: Seq<char>, rest: Seq<char>, sep: char, buf: Seq<char>, acc: Seq<Seq<char>>)
    requires
        forall|j: int| 0 <= j < seg.len() ==> seg[j] != '"' && seg[j] != sep,
    ensures
        rs(seg + rest, sep, false, buf, acc) == rs(rest, sep, false, buf + seg, acc),
    decreases seg.len(),
{
    if seg.len() == 0 {
        assert(seg + rest =~= rest);
        assert(buf + seg =~= buf);
    } else {
        lemma_rs_clean(seg.drop_first(), rest, sep, buf.push(seg[0]), acc);
        assert((seg + rest)[0] == seg[0]);
        assert((seg + rest).drop_first() =~= seg.drop_first() + rest);
        assert(buf.push(seg[0]) + seg.drop_first() =~= buf + seg);
    }
}

/// Scanning a quote-doubled stretch from inside quotes stays inside
/// quotes and grows the raw field.
pub proof fn lemma_rs_dq(f: Seq<char>, rest: Seq<char>, sep: char, buf: Seq<char>, acc: Seq<Seq<char>>)
    ensures
        rs(dq(f) + rest, sep, true, buf, acc) == rs(rest, sep, true, buf + dq(f), acc),
    decreases f.len(),
{
    if f.len() == 0 {
        assert(dq(f) + rest =~= rest);
        assert(buf + dq(f) =~= buf);
    } else {
        lemma_dq_front(f);
        let hp = if f[0] == '"' {
            seq!['"', '"']
        } else {
            seq![f[0]]
        };
        let tail = dq(f.drop_first());
        assert(dq(f) == hp + tail);
        if f[0] == '"' {
            let s0 = dq(f) + rest;
            assert(s0[0] == '"');
            let s1 = s0.drop_first();
            assert(rs(s0, sep, true, buf, acc) == rs(s1, sep, false, buf.push('"'), acc));
            assert(s1 =~= seq!['"'] + (tail + rest));
            assert(s1[0] == '"');
            assert(rs(s1, sep, false, buf.push('"'), acc) == rs(
                s1.drop_first(),
                sep,
                true,
                buf.push('"').push('"'),
                acc,
            ));
            assert(s1.drop_first() =~= tail + rest);
            lemma_rs_dq(f.drop_first(), rest, sep, buf.push('"').push('"'), acc);
            assert(buf.push('"').push('"') + tail =~= buf + dq(f));
        } else {
            let s0 = dq(f) + rest;
            assert(s0[0] == f[0]);
            assert(s0[0] != '"');
            // inside quotes, the separator is an ordinary character
            assert(rs(s0, sep, true, buf, acc) == rs(
                s0.drop_first(),
                sep,
                true,
                buf.push(f[0]),
                acc,
            ));
            assert(s0.drop_first() =~= tail + rest);
            lemma_rs_dq(f.drop_first(), rest, sep, buf.push(f[0]), acc);
            assert(buf.push(f[0]) + tail =~= buf + dq(f));
        }
    }
}

/// Scanning one serialized field from outside quotes consumes it whole:
/// the state stays outside quotes and the raw field grows by exactly the
/// serialized form.
pub proof fn lemma_rs_escaped(f: Seq<char>, rest: Seq<char>, sep: char, buf: Seq<char>, acc: Seq<Seq<char>>)
    requires
        sep == ',' || sep == '\n',
    ensures
        rs(spec_escape(f) + rest, sep, false, buf, acc) == rs(rest, sep, false, buf + spec_escape(f), acc),
{
    let e = spec_escape(f);
    if needs_quote(f) {
        let s0 = e + rest;
        assert(e == seq!['"'] + dq(f) + seq!['"']);
        assert(s0[0] == '"');
        assert(s0.drop_first() =~= dq(f) + (seq!['"'] + rest));
        lemma_rs_dq(f, seq!['"'] + rest, sep, buf.push('"'), acc);
        let s1 = seq!['"'] + rest;
        assert(s1[0] == '"');
        assert(s1.drop_first() =~= rest);
        assert(buf.push('"') + dq(f) =~= buf + (seq!['"'] + dq(f)));
        assert((buf.push('"') + dq(f)).push('"') =~= buf + e);
    } else {
        assert(forall|j: int| 0 <= j < f.len() ==> f[j] != '"' && f[j] != sep);
        lemma_rs_clean(f, rest, sep, buf, acc);
    }
}

/// Splitting one data line at unquoted commas recovers exactly the
/// serialized fields, in order.
pub proof fn lemma_rs_line_fields(fs: Seq<Seq<char>>, acc: Seq<Seq<char>>)
    requires
        fs.len() >= 1,
    ensures
        rs(join_comma(escs(fs)), ',', false, Seq::empty(), acc) == acc + escs(fs),
    decreases fs.len(),
{
    lemma_escs(fs);
    let es = escs(fs);
    lemma_join_comma_front(es);
    assert(es[0] == spec_escape(fs[0]));
    if fs.len() == 1 {
        assert(join_comma(es) =~= spec_escape(fs[0]) + Seq::<char>::empty());
        lemma_rs_escaped(fs[0], Seq::empty(), ',', Seq::empty(), acc);
        assert(Seq::<char>::empty() + spec_escape(fs[0]) =~= spec_escape(fs[0]));
        assert(rs(Seq::<char>::empty(), ',', false, spec_escape(fs[0]), acc) == acc.push(
            spec_escape(fs[0]),
        ));
        assert(acc + es =~= acc.push(spec_escape(fs[0])));
    } else {
        lemma_escs(fs.drop_first());
        assert(es.drop_first() =~= escs(fs.drop_first())) by {
            assert forall|i: int| 0 <= i < es.drop_first().len() implies es.drop_first()[i]
                == escs(fs.drop_first())[i] by {
                assert(es.drop_first()[i] == es[i + 1]);
                assert(fs.drop_first()[i] == fs[i + 1]);
            }
        }
        let rest_line = join_comma(escs(fs.drop_first()));
        assert(join_comma(es) =~= spec_escape(fs[0]) + (seq![','] + rest_line));
        lemma_rs_escaped(fs[0], seq![','] + rest_line, ',', Seq::empty(), acc);
        assert(Seq::<char>::empty() + spec_escape(fs[0]) =~= spec_escape(fs[0]));
        let s1 = seq![','] + rest_line;
        assert(s1[0] == ',');
        assert(rs(s1, ',', false, spec_escape(fs[0]), acc) == rs(
            s1.drop_first(),
            ',',
            false,
            Seq::empty(),
            acc.push(spec_escape(fs[0])),
        ));
        assert(s1.drop_first() =~= rest_line);
        lemma_rs_line_fields(fs.drop_first(), acc.push(spec_escape(fs[0])));
        assert(acc.push(spec_escape(fs[0])) + escs(fs.drop_first()) =~= acc + es);
    }
}

/// One data line read back by a standard reader: splitting at unquoted
/// commas and collapsing each raw field's quoting recovers exactly the
/// original cells.
pub proof fn lemma_line_round_trip(fields: Seq<Seq<char>>)
    requires
        fields.len() >= 1,
    ensures
        ({
            let raw = rs(join_comma(escs(fields)), ',', false, Seq::empty(), Seq::empty());
            &&& raw.len() == fields.len()
            &&& forall|i: int| 0 <= i < fields.len() ==> spec_unescape(#[trigger] raw[i])
                == fields[i]
        }),
{
    lemma_rs_line_fields(fields, Seq::empty());
    lemma_escs(fields);
    let raw = rs(join_comma(escs(fields)), ',', false, Seq::empty(), Seq::empty());
    assert(raw =~= escs(fields));
    assert forall|i: int| 0 <= i < fields.len() implies spec_unescape(#[trigger] raw[i])
        == fields[i] by {
        assert(raw[i] == spec_escape(fields[i]));
        lemma_escape_round_trip(fields[i]);
    }
}

/// Scanning one whole data line under the record separator stays
/// outside quotes and grows the raw record by exactly that line.
pub proof fn lemma_rs_line_clean(
    fs: Seq<Seq<char>>,
    rest: Seq<char>,
    buf: Seq<char>,
    acc: Seq<Seq<char>>,
)
    requires
        fs.len() >= 1,
    ensures
        rs(join_comma(escs(fs)) + rest, '\n', false, buf, acc) == rs(
            rest,
            '\n',
            false,
            buf + join_comma(escs(fs)),
            acc,
        ),
    decreases fs.len(),
{
    lemma_escs(fs);
    let es = escs(fs);
    lemma_join_comma_front(es);
    assert(es[0] == spec_escape(fs[0]));
    if fs.len() == 1 {
        assert(join_comma(es) =~= spec_escape(fs[0]));
        lemma_rs_escaped(fs[0], rest, '\n', buf, acc);
    } else {
        lemma_escs(fs.drop_first());
        assert(es.drop_first() =~= escs(fs.drop_first())) by {
            assert forall|i: int| 0 <= i < es.drop_first().len() implies es.drop_first()[i]
                == escs(fs.drop_first())[i] by {
                assert(es.drop_first()[i] == es[i + 1]);
                assert(fs.drop_first()[i] == fs[i + 1]);
            }
        }
        let rest_line = join_comma(escs(fs.drop_first()));
        assert(join_comma(es) + rest =~= spec_escape(fs[0]) + ((seq![','] + rest_line) + rest));
        lemma_rs_escaped(fs[0], (seq![','] + rest_line) + rest, '\n', buf, acc);
        let s1 = (seq![','] + rest_line) + rest;
        assert(s1[0] == ',');
        assert(rs(s1, '\n', false, buf + spec_escape(fs[0]), acc) == rs(
            s1.drop_first(),
            '\n',
            false,
            (buf + spec_escape(fs[0])).push(','),
            acc,
        ));
        assert(s1.drop_first() =~= rest_line + rest);
        lemma_rs_line_clean(fs.drop_first(), rest, (buf + spec_escape(fs[0])).push(','), acc);
        assert((buf + spec_escape(fs[0])).push(',') + rest_line =~= buf + join_comma(es));
    }
}

/// The cells a row shows under the given columns: the stored text, or
/// empty where the row lacks the column.
pub open spec fn row_cells(row: Map<Seq<char>, Seq<char>>, cols: Seq<Seq<char>>) -> Seq<
    Seq<char>,
> {
    Seq::new(
        cols.len(),
        |i: int|
            if row.contains_key(cols[i]) {
                row[cols[i]]
            } else {
                Seq::empty()
            },
    )
}

/// A data line's fields are exactly the row's cells, serialized.
pub proof fn lemma_row_fields_cells(row: Map<Seq<char>, Seq<char>>, cols: Seq<Seq<char>>)
    ensures
        row_fields(row, cols) == escs(row_cells(row, cols)),
    decreases cols.len(),
{
    lemma_escs(row_cells(row, cols));
    if cols.len() == 0 {
        assert(row_fields(row, cols) =~= escs(row_cells(row, cols)));
    } else {
        lemma_row_fields_cells(row, cols.drop_last());
        lemma_escs(row_cells(row, cols.drop_last()));
        assert forall|i: int| 0 <= i < cols.len() implies row_fields(row, cols)[i] == escs(
            row_cells(row, cols),
        )[i] by {
            if i < cols.len() - 1 {
                assert(row_fields(row, cols)[i] == row_fields(row, cols.drop_last())[i]);
                assert(cols.drop_last()[i] == cols[i]);
                assert(row_cells(row, cols.drop_last())[i] == row_cells(row, cols)[i]);
            }
        }
        assert(row_fields(row, cols).len() == cols.len()) by {
            assert(row_fields(row, cols.drop_last()).len() == cols.drop_last().len());
        }
        assert(row_fields(row, cols) =~= escs(row_cells(row, cols)));
    }
}

/// The data lines can be peeled from the front of the body.
pub proof fn lemma_spec_body_front(rsq: Seq<Map<Seq<char>, Seq<char>>>, cols: Seq<Seq<char>>)
    requires
        rsq.len() > 0,
    ensures
        spec_body(rsq, cols) == join_comma(row_fields(rsq[0], cols)) + seq!['\n'] + spec_body(
            rsq.drop_first(),
            cols,
        ),
    decreases rsq.len(),
{
    if rsq.len() == 1 {
        assert(spec_body(rsq.drop_last(), cols) =~= Seq::<char>::empty());
        assert(rsq.drop_first() =~= Seq::<Map<Seq<char>, Seq<char>>>::empty());
        assert(spec_body(rsq, cols) =~= join_comma(row_fields(rsq[0], cols)) + seq!['\n']
            + spec_body(rsq.drop_first(), cols));
    } else {
        lemma_spec_body_front(rsq.drop_last(), cols);
        assert(rsq.drop_last()[0] == rsq[0]);
        assert(rsq.drop_last().drop_first() =~= rsq.drop_first().drop_last());
        assert(rsq.drop_first().last() == rsq.last());
        assert(spec_body(rsq.drop_first(), cols) == spec_body(rsq.drop_first().drop_last(), cols)
            + join_comma(row_fields(rsq.drop_first().last(), cols)) + seq!['\n']);
        assert(spec_body(rsq, cols) =~= join_comma(row_fields(rsq[0], cols)) + seq!['\n']
            + spec_body(rsq.drop_first(), cols));
    }
}

/// Splitting the data portion at unquoted newlines yields one raw
/// record per row, in order, and one empty tail after the final newline.
pub proof fn lemma_rs_records(
    rsq: Seq<Map<Seq<char>, Seq<char>>>,
    cols: Seq<Seq<char>>,
    acc: Seq<Seq<char>>,
)
    requires
        cols.len() >= 1,
    ensures
        ({
            let records = rs(spec_body(rsq, cols), '\n', false, Seq::empty(), acc);
            &&& records.len() == acc.len() + rsq.len() + 1
            &&& forall|i: int| 0 <= i < acc.len() ==> #[trigger] records[i] == acc[i]
            &&& forall|i: int| 0 <= i < rsq.len() ==> #[trigger] records[acc.len() + i]
                == join_comma(row_fields(rsq[i], cols))
            &&& records.last() == Seq::<char>::empty()
        }),
    decreases rsq.len(),
{
    let records = rs(spec_body(rsq, cols), '\n', false, Seq::empty(), acc);
    if rsq.len() == 0 {
        assert(spec_body(rsq, cols).len() == 0);
        assert(records == acc.push(Seq::<char>::empty()));
    } else {
        lemma_spec_body_front(rsq, cols);
        lemma_row_fields_cells(rsq[0], cols);
        let cells0 = row_cells(rsq[0], cols);
        assert(cells0.len() == cols.len());
        let line0 = join_comma(row_fields(rsq[0], cols));
        let tail = spec_body(rsq.drop_first(), cols);
        assert(spec_body(rsq, cols) =~= join_comma(escs(cells0)) + (seq!['\n'] + tail));
        lemma_rs_line_clean(cells0, seq!['\n'] + tail, Seq::empty(), acc);
        assert(Seq::<char>::empty() + join_comma(escs(cells0)) =~= line0);
        let s1 = seq!['\n'] + tail;
        assert(s1[0] == '\n');
        assert(rs(s1, '\n', false, line0, acc) == rs(
            s1.drop_first(),
            '\n',
            false,
            Seq::empty(),
            acc.push(line0),
        ));
        assert(s1.drop_first() =~= tail);
        lemma_rs_records(rsq.drop_first(), cols, acc.push(line0));
        let records2 = rs(tail, '\n', false, Seq::empty(), acc.push(line0));
        assert(records == records2);
        assert forall|i: int| 0 <= i < rsq.len() implies #[trigger] records[acc.len() + i]
            == join_comma(row_fields(rsq[i], cols)) by {
            if i == 0 {
                assert(records2[acc.push(line0).len() - 1] == acc.push(line0)[acc.len() as int]);
            } else {
                assert(records2[acc.push(line0).len() + (i - 1)] == join_comma(
                    row_fields(rsq.drop_first()[i - 1], cols),
                ));
                assert(rsq.drop_first()[i - 1] == rsq[i]);
            }
        }
    }
}

/// The data portion of the output read back by a standard reader:
/// splitting at unquoted newlines yields one record per row and the
/// empty tail after the final newline, and splitting each record at
/// unquoted commas and collapsing its quoting recovers exactly that
/// row's cells. The header line, `join_comma(cols)`, precedes the data
/// portion in the full output.
pub proof fn lemma_csv_round_trip(rsq: Seq<Map<Seq<char>, Seq<char>>>, cols: Seq<Seq<char>>)
    requires
        cols.len() >= 1,
    ensures
        ({
            let records = rs(spec_body(rsq, cols), '\n', false, Seq::empty(), Seq::empty());
            &&& records.len() == rsq.len() + 1
            &&& records.last() == Seq::<char>::empty()
            &&& forall|i: int| 0 <= i < rsq.len() ==> ({
                let raw = rs(#[trigger] records[i], ',', false, Seq::empty(), Seq::empty());
                &&& raw.len() == cols.len()
                &&& forall|j: int| 0 <= j < cols.len() ==> spec_unescape(#[trigger] raw[j])
                    == row_cells(rsq[i], cols)[j]
            })
        }),
{
    lemma_rs_records(rsq, cols, Seq::empty());
    let records = rs(spec_body(rsq, cols), '\n', false, Seq::empty(), Seq::empty());
    assert forall|i: int| 0 <= i < rsq.len() implies ({
        let raw = rs(#[trigger] records[i], ',', false, Seq::empty(), Seq::empty());
        &&& raw.len() == cols.len()
        &&& forall|j: int| 0 <= j < cols.len() ==> spec_unescape(#[trigger] raw[j]) == row_cells(
            rsq[i],
            cols,
        )[j]
    }) by {
        lemma_row_fields_cells(rsq[i], cols);
        let cells = row_cells(rsq[i], cols);
        assert(cells.len() == cols.len());
        assert(records[Seq::<Seq<char>>::empty().len() + i] == join_comma(
            row_fields(rsq[i], cols),
        ));
        assert(records[i] == join_comma(escs(cells)));
        lemma_line_round_trip(cells);
    }
}

/// A lookup in an object whose values are all well formed yields a well
/// formed value.
pub proof fn lemma_obj_get_wf(es: Seq<(Seq<char>, ValModel)>, k: Seq<char>)
    requires
        forall|i: int| 0 <= i < es.len() ==> wf((#[trigger] es[i]).1),
    ensures
        match obj_get(es, k) {
            Some(v) => wf(v),
            None => true,
        },
    decreases es.len(),
{
    if es.len() > 0 && es[0].0 != k {
        lemma_obj_get_wf(es.drop_first(), k);
    }
}

/// `sv_ensure` keeps every object's keys unique.
pub proof fn lemma_sv_ensure_wf(m: ValModel, segs: Seq<Seq<char>>, i: int)
    requires
        0 <= i <= segs.len(),
        wf(m),
    ensures
        wf(sv_ensure(m, segs, i)),
    decreases segs.len() - i,
{
    let es = match m {
        ValModel::Obj(es0) => es0,
        _ => Seq::<(Seq<char>, ValModel)>::empty(),
    };
    assert(keys_unique(es) && forall|l: int| 0 <= l < es.len() ==> wf((#[trigger] es[l]).1));
    if i == segs.len() {
        assert(wf(ValModel::Obj(es)));
    } else {
        let child = match obj_get(es, segs[i]) {
            Some(c) => c,
            None => ValModel::Null,
        };
        lemma_obj_get_wf(es, segs[i]);
        lemma_sv_ensure_wf(child, segs, i + 1);
        lemma_obj_set_unique(es, segs[i], sv_ensure(child, segs, i + 1));
        lemma_obj_set_wf_vals(es, segs[i], sv_ensure(child, segs, i + 1));
        assert(wf(ValModel::Obj(obj_set(es, segs[i], sv_ensure(child, segs, i + 1)))));
    }
}

/// `sv_update` keeps every object's keys unique when the stored value is
/// well formed.
pub proof fn lemma_sv_update_wf(
    m: ValModel,
    segs: Seq<Seq<char>>,
    i: int,
    key: Seq<char>,
    val: ValModel,
)
    requires
        0 <= i <= segs.len(),
        wf(m),
        wf(val),
    ensures
        wf(sv_update(m, segs, i, key, val)),
    decreases segs.len() - i,
{
    match m {
        ValModel::Obj(es) => {
            assert(keys_unique(es) && forall|l: int|
                0 <= l < es.len() ==> wf((#[trigger] es[l]).1));
            if i == segs.len() {
                lemma_obj_set_unique(es, key, val);
                lemma_obj_set_wf_vals(es, key, val);
                assert(wf(ValModel::Obj(obj_set(es, key, val))));
            } else {
                match obj_get(es, segs[i]) {
                    Some(c) => {
                        lemma_obj_get_wf(es, segs[i]);
                        lemma_sv_update_wf(c, segs, i + 1, key, val);
                        lemma_obj_set_unique(es, segs[i], sv_update(c, segs, i + 1, key, val));
                        lemma_obj_set_wf_vals(es, segs[i], sv_update(c, segs, i + 1, key, val));
                        assert(wf(
                            ValModel::Obj(obj_set(es, segs[i], sv_update(c, segs, i + 1, key, val))),
                        ));
                    },
                    None => {},
                }
            }
        },
        _ => {},
    }
}

/// The subtree a walk reaches in a well formed tree is well formed.
pub proof fn lemma_sv_get_wf(m: ValModel, segs: Seq<Seq<char>>, i: int)
    requires
        0 <= i <= segs.len(),
        wf(m),
    ensures
        match sv_get(m, segs, i) {
            Some(v) => wf(v),
            None => true,
        },
    decreases segs.len() - i,
{
    if i < segs.len() {
        match m {
            ValModel::Obj(es) => {
                assert(forall|l: int| 0 <= l < es.len() ==> wf((#[trigger] es[l]).1));
                match obj_get(es, segs[i]) {
                    Some(c) => {
                        lemma_obj_get_wf(es, segs[i]);
                        lemma_sv_get_wf(c, segs, i + 1);
                    },
                    None => {},
                }
            },
            _ => {},
        }
    }
}

/// Lists of string tokens are well formed.
pub proof fn lemma_strs_to_vals_wf(ss: Seq<Seq<char>>)
    ensures
        forall|i: int| 0 <= i < strs_to_vals(ss).len() ==> wf(#[trigger] strs_to_vals(ss)[i]),
        wf(ValModel::Arr(strs_to_vals(ss))),
    decreases ss.len(),
{
    crate::parser::lemma_strs_to_vals(ss);
    assert forall|i: int| 0 <= i < strs_to_vals(ss).len() implies wf(
        #[trigger] strs_to_vals(ss)[i],
    ) by {
        assert(strs_to_vals(ss)[i] == ValModel::Str(ss[i]));
    }
}

/// What `append` stores is well formed when the tree is.
pub proof fn lemma_append_val_wf(
    root: ValModel,
    path: Seq<Seq<char>>,
    key: Seq<char>,
    vals: Seq<Seq<char>>,
)
    requires
        wf(root),
    ensures
        wf(append_val(root, path, key, vals)),
{
    lemma_sv_get_wf(root, path, 0);
    lemma_strs_to_vals_wf(vals);
    match sv_get(root, path, 0) {
        Some(ValModel::Obj(es)) => {
            lemma_obj_get_wf(es, key);
            match obj_get(es, key) {
                Some(ValModel::Arr(items)) => {
                    assert(forall|l: int| 0 <= l < items.len() ==> wf(#[trigger] items[l]));
                    let joined = items + strs_to_vals(vals);
                    assert forall|l: int| 0 <= l < joined.len() implies wf(
                        #[trigger] joined[l],
                    ) by {
                        if l < items.len() {
                            assert(joined[l] == items[l]);
                        } else {
                            assert(joined[l] == strs_to_vals(vals)[l - items.len()]);
                        }
                    }
                },
                Some(ValModel::Str(s)) => {
                    let joined = seq![ValModel::Str(s)] + strs_to_vals(vals);
                    assert forall|l: int| 0 <= l < joined.len() implies wf(
                        #[trigger] joined[l],
                    ) by {
                        if l >= 1 {
                            assert(joined[l] == strs_to_vals(vals)[l - 1]);
                        }
                    }
                },
                _ => {},
            }
        },
        _ => {},
    }
}

/// One applied line keeps the tree well formed.
pub proof fn lemma_apply_tokens_wf(st: ParseSt, toks: Seq<Seq<char>>)
    requires
        wf(st.root),
    ensures
        wf(apply_tokens(st, toks).root),
{
    if toks.len() == 0 {
    } else {
        let cmd = spec_lower(toks[0]);
        if cmd == "config"@ {
            lemma_sv_ensure_wf(st.root, st.stack + toks.drop_first(), 0);
        } else if cmd == "edit"@ {
            if st.stack.len() > 0 {
                let name = if toks.len() >= 2 {
                    toks[1]
                } else {
                    Seq::empty()
                };
                lemma_sv_ensure_wf(st.root, st.stack.push(name), 0);
            }
        } else if cmd == "next"@ || cmd == "end"@ {
        } else if cmd == "set"@ || cmd == "unset"@ || cmd == "append"@ {
            let key = if toks.len() >= 2 {
                toks[1]
            } else {
                Seq::empty()
            };
            let vals = if toks.len() >= 2 {
                toks.skip(2)
            } else {
                Seq::empty()
            };
            let val = if cmd == "unset"@ {
                ValModel::Null
            } else if cmd == "set"@ {
                set_val(vals)
            } else {
                append_val(st.root, target_path(st), key, vals)
            };
            lemma_strs_to_vals_wf(vals);
            if cmd != "unset"@ && cmd != "set"@ {
                lemma_append_val_wf(st.root, target_path(st), key, vals);
            }
            assert(wf(val));
            lemma_sv_update_wf(st.root, target_path(st), 0, key, val);
        }
    }
}

/// A whole parse keeps the tree well formed, line by line.
pub proof fn lemma_apply_lines_wf(st: ParseSt, lines: Seq<Seq<char>>, i: int)
    requires
        0 <= i <= lines.len(),
        wf(st.root),
    ensures
        wf(apply_lines(st, lines, i).root),
    decreases lines.len() - i,
{
    if i < lines.len() {
        lemma_apply_tokens_wf(st, crate::tokenizer::spec_tokenize(lines[i]));
        lemma_apply_lines_wf(
            apply_tokens(st, crate::tokenizer::spec_tokenize(lines[i])),
            lines,
            i + 1,
        );
    }
}

/// Every object in a parsed tree has pairwise distinct keys: the parse
/// maintains the tree's well-formedness invariant.
pub proof fn lemma_parse_wf(text: Seq<char>)
    ensures
        wf(spec_parse(text)),
{
    assert(wf(init_st().root));
    lemma_apply_lines_wf(init_st(), spec_lines(text), 0);
}

} // verus!
