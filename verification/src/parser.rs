//! The structural interpreter: a single forward pass over the lines of a
//! configuration export, maintaining a block-path stack and a current
//! entry, and mutating the tree according to the directives
//! `config` / `edit` / `set` / `append` / `unset` / `next` / `end`.

use vstd::prelude::*;

use crate::text::{
    chars_eq_str, chars_to_string, clone_str_vec, spec_lower, str_lower_chars, str_to_chars,
};
use crate::tokenizer::{spec_tokenize, tokenize};
use crate::value::{
    arr_model, clone_value, entries_model, find_key, lemma_arr_model, lemma_entries_model,
    lemma_obj_get_index, lemma_obj_get_none, lemma_obj_set_push, lemma_obj_set_update,
    lemma_strs_model, lemma_strs_model_push, lemma_view_shape, obj_get, obj_set, strs_model,
    sv_get, tree_get, ValModel, Value,
};

verus! {

/// Descend along `segs[i..]`, making sure an object exists at every step:
/// an existing object is kept, anything else is replaced by an empty
/// object, and missing segments are created.
pub open spec fn sv_ensure(m: ValModel, segs: Seq<Seq<char>>, i: int) -> ValModel
    decreases segs.len() - i when 0 <= i <= segs.len()
{
    let es = match m {
        ValModel::Obj(es0) => es0,
        _ => Seq::empty(),
    };
    if i >= segs.len() {
        ValModel::Obj(es)
    } else {
        let child = match obj_get(es, segs[i]) {
            Some(c) => c,
            None => ValModel::Null,
        };
        ValModel::Obj(obj_set(es, segs[i], sv_ensure(child, segs, i + 1)))
    }
}

/// Walk `segs[i..]` through existing objects and overwrite `key` with
/// `val` in the object at the end of the path; if the walk fails at any
/// step, the tree is unchanged.
pub open spec fn sv_update(
    m: ValModel,
    segs: Seq<Seq<char>>,
    i: int,
    key: Seq<char>,
    val: ValModel,
) -> ValModel
    decreases segs.len() - i when 0 <= i <= segs.len()
{
    match m {
        ValModel::Obj(es) => if i >= segs.len() {
            ValModel::Obj(obj_set(es, key, val))
        } else {
            match obj_get(es, segs[i]) {
                Some(c) => ValModel::Obj(
                    obj_set(es, segs[i], sv_update(c, segs, i + 1, key, val)),
                ),
                None => m,
            }
        },
        _ => m,
    }
}

/// Executable form of `sv_ensure`, by structural recursion on the path.
pub fn tree_ensure(v: Value, segs: &Vec<String>, i: usize) -> (r: Value)
    requires
        i <= segs.len(),
    ensures
        r@ == sv_ensure(v@, strs_model(segs@), i as int),
    decreases segs.len() - i,
{
    let ghost vm = v@;
    proof {
        lemma_strs_model(segs@);
    }
    let mut es: Vec<(String, Value)> = match v {
        Value::Obj(es0) => es0,
        _ => Vec::new(),
    };
    let ghost ms = entries_model(es@);
    proof {
        lemma_entries_model(es@);
        match vm {
            ValModel::Obj(_) => {},
            _ => {
                assert(ms =~= Seq::<(Seq<char>, ValModel)>::empty());
            },
        }
    }
    if i == segs.len() {
        return Value::Obj(es);
    }
    let seg = &segs[i];
    match find_key(&es, seg) {
        Some(j) => {
            let pair = es.remove(j);
            proof {
                lemma_obj_get_index(ms, seg@, j as int);
            }
            let child = tree_ensure(pair.1, segs, i + 1);
            es.insert(j, (pair.0, child));
            proof {
                lemma_obj_set_update(ms, seg@, child@, j as int);
                lemma_entries_model(es@);
                assert(entries_model(es@) =~= ms.update(j as int, (seg@, child@)));
            }
            Value::Obj(es)
        },
        None => {
            proof {
                lemma_obj_get_none(ms, seg@);
            }
            let child = tree_ensure(Value::Null, segs, i + 1);
            es.push((seg.clone(), child));
            proof {
                lemma_obj_set_push(ms, seg@, child@);
                lemma_entries_model(es@);
                assert(entries_model(es@) =~= ms.push((seg@, child@)));
            }
            Value::Obj(es)
        },
    }
}

/// Executable form of `sv_update`, by structural recursion on the path.
pub fn tree_set_at(v: Value, segs: &Vec<String>, i: usize, key: &String, val: Value) -> (r: Value)
    requires
        i <= segs.len(),
    ensures
        r@ == sv_update(v@, strs_model(segs@), i as int, key@, val@),
    decreases segs.len() - i,
{
    let ghost vm = v@;
    let ghost valm = val@;
    proof {
        lemma_strs_model(segs@);
    }
    match v {
        Value::Obj(mut es) => {
            let ghost ms = entries_model(es@);
            proof {
                lemma_entries_model(es@);
            }
            if i == segs.len() {
                match find_key(&es, key) {
                    Some(j) => {
                        proof {
                            lemma_obj_get_index(ms, key@, j as int);
                            lemma_obj_set_update(ms, key@, valm, j as int);
                        }
                        let kc = key.clone();
                        es.set(j, (kc, val));
                        proof {
                            lemma_entries_model(es@);
                            assert(entries_model(es@) =~= ms.update(j as int, (key@, valm)));
                        }
                    },
                    None => {
                        proof {
                            lemma_obj_get_none(ms, key@);
                            lemma_obj_set_push(ms, key@, valm);
                        }
                        es.push((key.clone(), val));
                        proof {
                            lemma_entries_model(es@);
                            assert(entries_model(es@) =~= ms.push((key@, valm)));
                        }
                    },
                }
                Value::Obj(es)
            } else {
                let seg = &segs[i];
                match find_key(&es, seg) {
                    Some(j) => {
                        let pair = es.remove(j);
                        proof {
                            lemma_obj_get_index(ms, seg@, j as int);
                        }
                        let child = tree_set_at(pair.1, segs, i + 1, key, val);
                        es.insert(j, (pair.0, child));
                        proof {
                            lemma_obj_set_update(ms, seg@, child@, j as int);
                            lemma_entries_model(es@);
                            assert(entries_model(es@) =~= ms.update(j as int, (seg@, child@)));
                        }
                        Value::Obj(es)
                    },
                    None => {
                        proof {
                            lemma_obj_get_none(ms, seg@);
                        }
                        Value::Obj(es)
                    },
                }
            }
        },
        other => other,
    }
}

/// Interpreter state: the tree built so far, the open block path, and the
/// name of the entry opened by `edit`, if any.
#[verifier::ext_equal]
pub struct ParseSt {
    pub root: ValModel,
    pub stack: Seq<Seq<char>>,
    pub cur: Option<Seq<char>>,
}

/// The state before any line: an empty root object, no open blocks.
pub open spec fn init_st() -> ParseSt {
    ParseSt { root: ValModel::Obj(Seq::empty()), stack: Seq::empty(), cur: None }
}

/// Field writes go to the current entry if one is open, else to the
/// object at the top of the block path.
pub open spec fn target_path(st: ParseSt) -> Seq<Seq<char>> {
    match st.cur {
        Some(n) => st.stack.push(n),
        None => st.stack,
    }
}

/// Each token as a string value.
pub open spec fn strs_to_vals(ss: Seq<Seq<char>>) -> Seq<ValModel>
    decreases ss.len(),
{
    if ss.len() == 0 {
        Seq::empty()
    } else {
        seq![ValModel::Str(ss.first())] + strs_to_vals(ss.drop_first())
    }
}

/// `strs_to_vals` maps the sequence pointwise.
pub proof fn lemma_strs_to_vals(ss: Seq<Seq<char>>)
    ensures
        strs_to_vals(ss).len() == ss.len(),
        forall|i: int| 0 <= i < ss.len() ==> strs_to_vals(ss)[i] == ValModel::Str(ss[i]),
    decreases ss.len(),
{
    if ss.len() > 0 {
        lemma_strs_to_vals(ss.drop_first());
        assert forall|i: int| 0 <= i < ss.len() implies strs_to_vals(ss)[i] == ValModel::Str(
            ss[i],
        ) by {
            if i > 0 {
                assert(strs_to_vals(ss)[i] == strs_to_vals(ss.drop_first())[i - 1]);
                assert(ss.drop_first()[i - 1] == ss[i]);
            }
        }
    }
}

/// What `set` stores: a single value token as a scalar string, zero or
/// several as a list of strings.
pub open spec fn set_val(vals: Seq<Seq<char>>) -> ValModel {
    if vals.len() == 1 {
        ValModel::Str(vals[0])
    } else {
        ValModel::Arr(strs_to_vals(vals))
    }
}

/// What `append` stores: an existing list is extended, an existing
/// scalar string becomes the head of a new list, anything else is
/// replaced by a list of the given values.
pub open spec fn append_val(
    root: ValModel,
    path: Seq<Seq<char>>,
    key: Seq<char>,
    vals: Seq<Seq<char>>,
) -> ValModel {
    let existing = match sv_get(root, path, 0) {
        Some(ValModel::Obj(es)) => obj_get(es, key),
        _ => None,
    };
    match existing {
        Some(ValModel::Arr(items)) => ValModel::Arr(items + strs_to_vals(vals)),
        Some(ValModel::Str(s)) => ValModel::Arr(seq![ValModel::Str(s)] + strs_to_vals(vals)),
        _ => ValModel::Arr(strs_to_vals(vals)),
    }
}

/// The view of an optional string.
pub open spec fn opt_model(c: Option<String>) -> Option<Seq<char>> {
    match c {
        Some(s) => Some(s@),
        None => None,
    }
}

/// One line of directives applied to the interpreter state. The first
/// token is matched case-insensitively; an empty line or an unrecognized
/// directive leaves the state unchanged.
pub open spec fn apply_tokens(st: ParseSt, toks: Seq<Seq<char>>) -> ParseSt {
    if toks.len() == 0 {
        st
    } else {
        let cmd = spec_lower(toks[0]);
        if cmd == "config"@ {
            let ns = st.stack + toks.drop_first();
            ParseSt { root: sv_ensure(st.root, ns, 0), stack: ns, cur: None }
        } else if cmd == "edit"@ {
            if st.stack.len() == 0 {
                st
            } else {
                let name = if toks.len() >= 2 {
                    toks[1]
                } else {
                    Seq::empty()
                };
                ParseSt {
                    root: sv_ensure(st.root, st.stack.push(name), 0),
                    stack: st.stack,
                    cur: Some(name),
                }
            }
        } else if cmd == "next"@ {
            ParseSt { root: st.root, stack: st.stack, cur: None }
        } else if cmd == "end"@ {
            ParseSt {
                root: st.root,
                stack: if st.stack.len() > 0 {
                    st.stack.drop_last()
                } else {
                    st.stack
                },
                cur: None,
            }
        } else if cmd == "set"@ || cmd == "unset"@ || cmd == "append"@ {
            let key = if toks.len() >= 2 {
                toks[1]
            } else {
                Seq::empty()
            };
            let vals = if toks.len() >= 2 {
                toks.skip(2)
            } else {
                Seq::empty()
            };
            let val = if cmd == "unset"@ {
                ValModel::Null
            } else if cmd == "set"@ {
                set_val(vals)
            } else {
                append_val(st.root, target_path(st), key, vals)
            };
            ParseSt {
                root: sv_update(st.root, target_path(st), 0, key, val),
                stack: st.stack,
                cur: st.cur,
            }
        } else {
            st
        }
    }
}

/// Push copies of `src[from..]` onto `dst`.
#[verifier::loop_isolation(false)]
pub fn extend_clone(dst: &mut Vec<String>, src: &Vec<String>, from: usize)
    requires
        from <= src.len(),
    ensures
        final(dst)@ == old(dst)@ + src@.skip(from as int),
{
    let n = src.len();
    let mut i: usize = from;
    while i < n
        invariant
            from <= i <= n,
            dst@ =~= old(dst)@ + src@.subrange(from as int, i as int),
        decreases n - i,
    {
        let s = src[i].clone();
        dst.push(s);
        i = i + 1;
    }
    proof {
        assert(dst@ =~= old(dst)@ + src@.skip(from as int));
    }
}

/// Push each string of `src` as a string value onto `dst`.
#[verifier::loop_isolation(false)]
pub fn extend_vals(dst: &mut Vec<Value>, src: &Vec<String>)
    ensures
        arr_model(final(dst)@) == arr_model(old(dst)@) + strs_to_vals(strs_model(src@)),
{
    let n = src.len();
    let mut i: usize = 0;
    while i < n
        invariant
            i <= n,
            dst@.len() == old(dst)@.len() + i,
            forall|j: int| 0 <= j < old(dst)@.len() ==> (#[trigger] dst@[j])@ == old(dst)@[j]@,
            forall|j: int| old(dst)@.len() <= j < dst@.len() ==> (#[trigger] dst@[j])@
                == ValModel::Str(src@[j - old(dst)@.len()]@),
        decreases n - i,
    {
        let s = src[i].clone();
        dst.push(Value::Str(s));
        i = i + 1;
    }
    proof {
        lemma_arr_model(dst@);
        lemma_arr_model(old(dst)@);
        lemma_strs_model(src@);
        lemma_strs_to_vals(strs_model(src@));
        assert(arr_model(dst@) =~= arr_model(old(dst)@) + strs_to_vals(strs_model(src@)));
    }
}

/// A deep copy of a list of values.
#[verifier::loop_isolation(false)]
pub fn clone_arr(items: &Vec<Value>) -> (r: Vec<Value>)
    ensures
        arr_model(r@) == arr_model(items@),
{
    let n = items.len();
    let mut r: Vec<Value> = Vec::new();
    let mut i: usize = 0;
    while i < n
        invariant
            i <= n,
            r@.len() == i,
            forall|j: int| 0 <= j < i ==> (#[trigger] r@[j])@ == items@[j]@,
        decreases n - i,
    {
        let c = clone_value(&items[i]);
        r.push(c);
        i = i + 1;
    }
    proof {
        lemma_arr_model(r@);
        lemma_arr_model(items@);
        assert(arr_model(r@) =~= arr_model(items@));
    }
    r
}

/// Apply one tokenized line to the interpreter state.
pub fn apply_line(root: Value, stack: Vec<String>, cur: Option<String>, toks: &Vec<String>) -> (r:
    (Value, Vec<String>, Option<String>))
    ensures
        ({
            let st2 = apply_tokens(
                ParseSt { root: root@, stack: strs_model(stack@), cur: opt_model(cur) },
                strs_model(toks@),
            );
            r.0@ == st2.root && strs_model(r.1@) == st2.stack && opt_model(r.2) == st2.cur
        }),
{
    let ghost st0 = ParseSt { root: root@, stack: strs_model(stack@), cur: opt_model(cur) };
    let ghost tm = strs_model(toks@);
    proof {
        lemma_strs_model(toks@);
        lemma_strs_model(stack@);
    }
    if toks.len() == 0 {
        return (root, stack, cur);
    }
    let lc = str_lower_chars(toks[0].as_str());
    proof {
        assert(lc@ == spec_lower(tm[0]));
    }
    if chars_eq_str(&lc, "config") {
        let mut ns = clone_str_vec(&stack);
        extend_clone(&mut ns, toks, 1);
        proof {
            lemma_strs_model(ns@);
            assert(strs_model(ns@) =~= st0.stack + tm.drop_first());
        }
        let root2 = tree_ensure(root, &ns, 0);
        (root2, ns, None)
    } else if chars_eq_str(&lc, "edit") {
        if stack.len() == 0 {
            return (root, stack, cur);
        }
        let name: String = if toks.len() >= 2 {
            toks[1].clone()
        } else {
            String::new()
        };
        let mut p = clone_str_vec(&stack);
        p.push(name.clone());
        proof {
            lemma_strs_model_push(stack@, name);
            assert(strs_model(p@) == st0.stack.push(name@));
        }
        let root2 = tree_ensure(root, &p, 0);
        (root2, stack, Some(name))
    } else if chars_eq_str(&lc, "next") {
        (root, stack, None)
    } else if chars_eq_str(&lc, "end") {
        let mut stack2 = stack;
        if stack2.len() > 0 {
            stack2.pop();
            proof {
                lemma_strs_model(stack2@);
                assert(strs_model(stack2@) =~= st0.stack.drop_last());
            }
        }
        (root, stack2, None)
    } else {
        let is_set = chars_eq_str(&lc, "set");
        let is_unset = chars_eq_str(&lc, "unset");
        let is_append = chars_eq_str(&lc, "append");
        if !(is_set || is_unset || is_append) {
            return (root, stack, cur);
        }
        let key: String = if toks.len() >= 2 {
            toks[1].clone()
        } else {
            String::new()
        };
        let mut vals: Vec<String> = Vec::new();
        if toks.len() >= 2 {
            extend_clone(&mut vals, toks, 2);
        }
        let ghost vm = if tm.len() >= 2 {
            tm.skip(2)
        } else {
            Seq::<Seq<char>>::empty()
        };
        proof {
            lemma_strs_model(vals@);
            assert(strs_model(vals@) =~= vm);
        }
        let mut path = clone_str_vec(&stack);
        match &cur {
            Some(c) => {
                let cc = c.clone();
                proof {
                    lemma_strs_model_push(stack@, cc);
                }
                path.push(cc);
            },
            None => {},
        }
        proof {
            assert(strs_model(path@) == target_path(st0));
        }
        let val: Value = if is_unset {
            Value::Null
        } else if is_set {
            if vals.len() == 1 {
                Value::Str(vals[0].clone())
            } else {
                let mut items: Vec<Value> = Vec::new();
                extend_vals(&mut items, &vals);
                proof {
                    lemma_arr_model(Seq::<Value>::empty());
                    assert(arr_model(items@) =~= strs_to_vals(vm));
                }
                Value::Arr(items)
            }
        } else {
            let ghost av = append_val(st0.root, target_path(st0), key@, vm);
            let ghost ex: Option<ValModel> = match sv_get(st0.root, target_path(st0), 0) {
                Some(ValModel::Obj(es2)) => obj_get(es2, key@),
                _ => None,
            };
            let existing: Option<&Value> = match tree_get(&root, &path, 0) {
                Some(t) => t.get(key.as_str()),
                None => None,
            };
            proof {
                match existing {
                    Some(t2) => {
                        assert(ex == Some(t2@));
                    },
                    None => {
                        assert(ex is None);
                    },
                }
            }
            let items: Vec<Value> = match existing {
                Some(Value::Arr(a)) => {
                    let mut items = clone_arr(a);
                    extend_vals(&mut items, &vals);
                    proof {
                        assert(ex == Some(ValModel::Arr(arr_model(a@))));
                        assert(av == ValModel::Arr(arr_model(a@) + strs_to_vals(vm)));
                        assert(arr_model(items@) =~= arr_model(a@) + strs_to_vals(vm));
                    }
                    items
                },
                Some(Value::Str(s)) => {
                    let mut items: Vec<Value> = Vec::new();
                    items.push(Value::Str(s.clone()));
                    proof {
                        lemma_arr_model(items@);
                        assert(arr_model(items@) =~= seq![ValModel::Str(s@)]);
                    }
                    extend_vals(&mut items, &vals);
                    proof {
                        assert(ex == Some(ValModel::Str(s@)));
                        assert(av == ValModel::Arr(seq![ValModel::Str(s@)] + strs_to_vals(vm)));
                        assert(arr_model(items@) =~= seq![ValModel::Str(s@)] + strs_to_vals(vm));
                    }
                    items
                },
                _ => {
                    let mut items: Vec<Value> = Vec::new();
                    extend_vals(&mut items, &vals);
                    proof {
                        lemma_arr_model(Seq::<Value>::empty());
                        match existing {
                            Some(t2) => {
                                lemma_view_shape(*t2);
                                assert(!(t2@ is Arr) && !(t2@ is Str));
                            },
                            None => {},
                        }
                        assert(av == ValModel::Arr(strs_to_vals(vm)));
                        assert(arr_model(items@) =~= strs_to_vals(vm));
                    }
                    items
                },
            };
            proof {
                assert(ValModel::Arr(arr_model(items@)) == av);
            }
            Value::Arr(items)
        };
        let root2 = tree_set_at(root, &path, 0, &key, val);
        (root2, stack, cur)
    }
}

/// Split on newline characters, keeping empty fragments; the text after
/// the last newline is always a line.
pub open spec fn spec_split(cs: Seq<char>, i: int, start: int, acc: Seq<Seq<char>>) -> Seq<
    Seq<char>,
>
    decreases cs.len() - i when 0 <= start <= i <= cs.len()
{
    if i >= cs.len() {
        acc.push(cs.subrange(start, i))
    } else if cs[i] == '\n' {
        spec_split(cs, i + 1, i + 1, acc.push(cs.subrange(start, i)))
    } else {
        spec_split(cs, i + 1, start, acc)
    }
}

/// The lines of the input text.
pub open spec fn spec_lines(cs: Seq<char>) -> Seq<Seq<char>> {
    spec_split(cs, 0, 0, Seq::empty())
}

/// Tokenize and apply `lines[i..]` in order.
pub open spec fn apply_lines(st: ParseSt, lines: Seq<Seq<char>>, i: int) -> ParseSt
    decreases lines.len() - i when 0 <= i <= lines.len()
{
    if i >= lines.len() {
        st
    } else {
        apply_lines(apply_tokens(st, spec_tokenize(lines[i])), lines, i + 1)
    }
}

/// The tree produced by one full parse of the text.
pub open spec fn spec_parse(text: Seq<char>) -> ValModel {
    apply_lines(init_st(), spec_lines(text), 0).root
}

/// Split the input into lines.
#[verifier::loop_isolation(false)]
fn split_lines(text: &str) -> (r: Vec<String>)
    ensures
        strs_model(r@) == spec_lines(text@),
{
    let cs = str_to_chars(text);
    let n = cs.len();
    let mut out: Vec<String> = Vec::new();
    let mut buf: Vec<char> = Vec::new();
    let ghost mut start: int = 0;
    let mut i: usize = 0;
    proof {
        assert(strs_model(out@) =~= Seq::<Seq<char>>::empty());
        assert(buf@ =~= cs@.subrange(0, 0));
    }
    while i < n
        invariant
            0 <= start <= i as int,
            i <= n,
            buf@ == cs@.subrange(start, i as int),
            spec_lines(cs@) == spec_split(cs@, i as int, start, strs_model(out@)),
        decreases n - i,
    {
        let c = cs[i];
        if c == '\n' {
            let t = chars_to_string(&buf);
            let ghost prev = out@;
            out.push(t);
            buf = Vec::new();
            proof {
                lemma_strs_model_push(prev, t);
                start = i as int + 1;
                assert(buf@ =~= cs@.subrange(start, i as int + 1));
            }
        } else {
            buf.push(c);
            proof {
                assert(buf@ =~= cs@.subrange(start, i as int + 1));
            }
        }
        i = i + 1;
    }
    let t = chars_to_string(&buf);
    let ghost prev = out@;
    out.push(t);
    proof {
        lemma_strs_model_push(prev, t);
    }
    out
}

/// Parse a configuration export into a tree. Every line is attempted
/// independently; malformed lines degrade to no-ops, so the parse always
/// succeeds.
#[verifier::loop_isolation(false)]
pub fn parse_forti(text: &str) -> (r: Value)
    ensures
        r@ == spec_parse(text@),
        crate::value::wf(r@),
{
    proof {
        crate::laws::lemma_parse_wf(text@);
    }
    let lines = split_lines(text);
    let ghost lm = strs_model(lines@);
    let mut root = Value::Obj(Vec::new());
    let mut stack: Vec<String> = Vec::new();
    let mut cur: Option<String> = None;
    proof {
        assert(entries_model(Seq::<(String, Value)>::empty()) =~= Seq::<
            (Seq<char>, ValModel),
        >::empty());
        assert(strs_model(Seq::<String>::empty()) =~= Seq::<Seq<char>>::empty());
        assert(ParseSt { root: root@, stack: strs_model(stack@), cur: opt_model(cur) }
            =~= init_st());
    }
    let n = lines.len();
    let mut j: usize = 0;
    while j < n
        invariant
            j <= n,
            n == lines@.len(),
            apply_lines(init_st(), lm, 0) == apply_lines(
                ParseSt { root: root@, stack: strs_model(stack@), cur: opt_model(cur) },
                lm,
                j as int,
            ),
        decreases n - j,
    {
        let toks = tokenize(lines[j].as_str());
        let ghost stj = ParseSt { root: root@, stack: strs_model(stack@), cur: opt_model(cur) };
        let next_state = apply_line(root, stack, cur, &toks);
        root = next_state.0;
        stack = next_state.1;
        cur = next_state.2;
        proof {
            lemma_strs_model(lines@);
            assert(strs_model(toks@) == spec_tokenize(lm[j as int]));
            assert(apply_lines(stj, lm, j as int) == apply_lines(
                apply_tokens(stj, spec_tokenize(lm[j as int])),
                lm,
                j as int + 1,
            ));
            assert(ParseSt { root: root@, stack: strs_model(stack@), cur: opt_model(cur) }
                =~= apply_tokens(stj, spec_tokenize(lm[j as int])));
        }
        j = j + 1;
    }
    proof {
        lemma_strs_model(lines@);
        let stn = ParseSt { root: root@, stack: strs_model(stack@), cur: opt_model(cur) };
        assert(apply_lines(stn, lm, n as int) == stn);
    }
    root
}

} // verus!
