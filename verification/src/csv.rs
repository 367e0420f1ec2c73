//! Tabular serialization: deterministic column ordering (preferred
//! columns first, remaining discovered columns in ascending
//! lexicographic order), comma-joined fields, and RFC4180-style quoting.

use vstd::prelude::*;

use crate::rows::{lemma_row_model_contains, row_model, rows_model, rows_wf, lemma_rows_model, Row};
use crate::text::{chars_to_string, clone_str_vec, push_chars, str_to_chars};
use crate::value::{lemma_strs_model, lemma_strs_model_push, strs_model};

verus! {

/// Strict lexicographic order on character sequences, by code point; a
/// proper prefix comes first.
pub open spec fn lex_lt(a: Seq<char>, b: Seq<char>) -> bool
    decreases a.len(),
{
    if b.len() == 0 {
        false
    } else if a.len() == 0 {
        true
    } else if a[0] != b[0] {
        (a[0] as int) < (b[0] as int)
    } else {
        lex_lt(a.drop_first(), b.drop_first())
    }
}

/// Any two sequences are ordered or equal, and never both ways.
pub proof fn lemma_lex_trichotomy(a: Seq<char>, b: Seq<char>)
    ensures
        lex_lt(a, b) || lex_lt(b, a) || a == b,
        !(lex_lt(a, b) && lex_lt(b, a)),
        lex_lt(a, b) ==> a != b,
    decreases a.len(),
{
    if a.len() == 0 && b.len() == 0 {
        assert(a =~= b);
    } else if a.len() > 0 && b.len() > 0 && a[0] == b[0] {
        lemma_lex_trichotomy(a.drop_first(), b.drop_first());
        if a.drop_first() == b.drop_first() {
            assert forall|i: int| 1 <= i < a.len() implies a[i] == b[i] by {
                assert(a.drop_first()[i - 1] == b.drop_first()[i - 1]);
            }
            assert(a =~= b);
        }
        if a == b {
            assert(a.drop_first() =~= b.drop_first());
        }
    }
}

/// Lexicographic order is transitive.
pub proof fn lemma_lex_trans(a: Seq<char>, b: Seq<char>, c: Seq<char>)
    requires
        lex_lt(a, b),
        lex_lt(b, c),
    ensures
        lex_lt(a, c),
    decreases a.len(),
{
    if a.len() > 0 && b.len() > 0 && c.len() > 0 {
        if a[0] == b[0] && b[0] == c[0] {
            lemma_lex_trans(a.drop_first(), b.drop_first(), c.drop_first());
        }
    }
}

/// Executable lexicographic comparison.
#[verifier::loop_isolation(false)]
pub fn str_lex_lt(a: &str, b: &str) -> (r: bool)
    ensures
        r == lex_lt(a@, b@),
{
    let na = a.unicode_len();
    let nb = b.unicode_len();
    let min: usize = if na < nb {
        na
    } else {
        nb
    };
    let mut i: usize = 0;
    proof {
        assert(a@.skip(0) =~= a@);
        assert(b@.skip(0) =~= b@);
    }
    while i < min
        invariant
            i <= min,
            min <= a@.len() && min <= b@.len(),
            min == a@.len() || min == b@.len(),
            forall|j: int| 0 <= j < i ==> a@[j] == b@[j],
            lex_lt(a@, b@) == lex_lt(a@.skip(i as int), b@.skip(i as int)),
        decreases min - i,
    {
        let ca = a.get_char(i);
        let cb = b.get_char(i);
        if ca != cb {
            proof {
                assert(a@.skip(i as int)[0] == a@[i as int]);
                assert(b@.skip(i as int)[0] == b@[i as int]);
            }
            return (ca as u32) < (cb as u32);
        }
        proof {
            assert(a@.skip(i as int)[0] == a@[i as int]);
            assert(b@.skip(i as int)[0] == b@[i as int]);
            assert(a@.skip(i as int).drop_first() =~= a@.skip(i as int + 1));
            assert(b@.skip(i as int).drop_first() =~= b@.skip(i as int + 1));
        }
        i = i + 1;
    }
    proof {
        if na < nb {
            assert(a@.skip(min as int).len() == 0);
            assert(b@.skip(min as int).len() > 0);
        } else {
            assert(b@.skip(min as int).len() == 0);
        }
    }
    na < nb
}

/// Some column in `ss` is `k`.
pub open spec fn has_col(ss: Seq<Seq<char>>, k: Seq<char>) -> bool {
    exists|i: int| 0 <= i < ss.len() && ss[i] == k
}

/// Strictly ascending from index `from` on.
pub open spec fn sorted_from(ss: Seq<Seq<char>>, from: int) -> bool {
    forall|i: int, j: int| from <= i < j < ss.len() ==> lex_lt(ss[i], ss[j])
}

/// The union of the column names of all rows.
pub open spec fn col_set(rs: Seq<Map<Seq<char>, Seq<char>>>) -> Set<Seq<char>>
    decreases rs.len(),
{
    if rs.len() == 0 {
        Set::empty()
    } else {
        col_set(rs.drop_first()).union(rs.first().dom())
    }
}

/// `cols` is the column ordering for `rs` under preferred columns
/// `pref`: the preferred columns first, in the given order, then every
/// other discovered column, in ascending lexicographic order.
pub open spec fn cols_ok(
    rs: Seq<Map<Seq<char>, Seq<char>>>,
    pref: Seq<Seq<char>>,
    cols: Seq<Seq<char>>,
) -> bool {
    &&& cols.len() >= pref.len()
    &&& cols.take(pref.len() as int) == pref
    &&& sorted_from(cols, pref.len() as int)
    &&& forall|k: Seq<char>| #[trigger] has_col(cols.skip(pref.len() as int), k) <==> (col_set(
        rs,
    ).contains(k) && !has_col(pref, k))
}

/// A field needing quotes: it contains a comma, a double quote or a
/// newline.
pub open spec fn needs_quote(s: Seq<char>) -> bool {
    exists|i: int| 0 <= i < s.len() && ((s[i] == ',') || (s[i] == '"') || (s[i] == '\n'))
}

/// Each double quote doubled.
pub open spec fn dq(s: Seq<char>) -> Seq<char>
    decreases s.len(),
{
    if s.len() == 0 {
        Seq::empty()
    } else {
        dq(s.drop_last()) + (if s.last() == '"' {
            seq!['"', '"']
        } else {
            seq![s.last()]
        })
    }
}

/// A serialized field: wrapped in double quotes, with inner quotes
/// doubled, exactly when it needs quoting.
pub open spec fn spec_escape(s: Seq<char>) -> Seq<char> {
    if needs_quote(s) {
        seq!['"'] + dq(s) + seq!['"']
    } else {
        s
    }
}

/// Fields joined by commas.
pub open spec fn join_comma(ss: Seq<Seq<char>>) -> Seq<char>
    decreases ss.len(),
{
    if ss.len() == 0 {
        Seq::empty()
    } else if ss.len() == 1 {
        ss[0]
    } else {
        join_comma(ss.drop_last()) + seq![','] + ss.last()
    }
}

/// One data line: for each column the row's escaped value, or empty.
pub open spec fn row_fields(row: Map<Seq<char>, Seq<char>>, cols: Seq<Seq<char>>) -> Seq<
    Seq<char>,
>
    decreases cols.len(),
{
    if cols.len() == 0 {
        Seq::empty()
    } else {
        row_fields(row, cols.drop_last()).push(
            spec_escape(
                if row.contains_key(cols.last()) {
                    row[cols.last()]
                } else {
                    Seq::empty()
                },
            ),
        )
    }
}

/// The data lines of all rows, each terminated by a newline.
pub open spec fn spec_body(rs: Seq<Map<Seq<char>, Seq<char>>>, cols: Seq<Seq<char>>) -> Seq<char>
    decreases rs.len(),
{
    if rs.len() == 0 {
        Seq::empty()
    } else {
        spec_body(rs.drop_last(), cols) + join_comma(row_fields(rs.last(), cols)) + seq!['\n']
    }
}

/// The whole output for a non-empty row list: header, then one line per
/// row.
pub open spec fn spec_render(rs: Seq<Map<Seq<char>, Seq<char>>>, cols: Seq<Seq<char>>) -> Seq<
    char,
> {
    join_comma(cols) + seq!['\n'] + spec_body(rs, cols)
}

/// The given column ordering produced this output.
pub open spec fn csv_ok(
    rs: Seq<Map<Seq<char>, Seq<char>>>,
    pref: Seq<Seq<char>>,
    cols: Seq<Seq<char>>,
    outp: Seq<char>,
) -> bool {
    cols_ok(rs, pref, cols) && outp == spec_render(rs, cols)
}

/// The preferred columns, if given.
pub open spec fn pref_model(preferred: Option<&Vec<String>>) -> Seq<Seq<char>> {
    match preferred {
        Some(p) => strs_model(p@),
        None => Seq::empty(),
    }
}

/// Escape one field for tabular output.
#[verifier::loop_isolation(false)]
pub fn csv_escape(s: String) -> (r: String)
    ensures
        r@ == spec_escape(s@),
{
    let cs = str_to_chars(s.as_str());
    let n = cs.len();
    let mut special: bool = false;
    let mut i: usize = 0;
    while i < n
        invariant
            i <= n,
            special <==> exists|j: int|
                0 <= j < i && ((cs@[j] == ',') || (cs@[j] == '"') || (cs@[j] == '\n')),
        decreases n - i,
    {
        let c = cs[i];
        if c == ',' || c == '"' || c == '\n' {
            special = true;
        }
        i = i + 1;
    }
    if !special {
        return s;
    }
    let mut out: Vec<char> = Vec::new();
    out.push('"');
    proof {
        assert(dq(cs@.take(0)) =~= Seq::<char>::empty());
        assert(out@ =~= seq!['"'] + dq(cs@.take(0)));
    }
    let mut i: usize = 0;
    while i < n
        invariant
            i <= n,
            out@ == seq!['"'] + dq(cs@.take(i as int)),
        decreases n - i,
    {
        proof {
            assert(cs@.take(i as int + 1).drop_last() =~= cs@.take(i as int));
            assert(cs@.take(i as int + 1).last() == cs@[i as int]);
        }
        let c = cs[i];
        if c == '"' {
            out.push('"');
            out.push('"');
        } else {
            out.push(c);
        }
        proof {
            assert(out@ =~= seq!['"'] + dq(cs@.take(i as int + 1)));
        }
        i = i + 1;
    }
    out.push('"');
    proof {
        assert(cs@.take(n as int) =~= cs@);
        assert(out@ =~= seq!['"'] + dq(cs@) + seq!['"']);
    }
    chars_to_string(&out)
}

/// Insert into a strictly ascending vector, keeping it ascending; a
/// column already present is left alone.
#[verifier::loop_isolation(false)]
fn insert_sorted(keys: &mut Vec<String>, s: &String)
    requires
        sorted_from(strs_model(old(keys)@), 0),
    ensures
        sorted_from(strs_model(final(keys)@), 0),
        forall|k: Seq<char>| #[trigger] has_col(strs_model(final(keys)@), k) <==> (has_col(
            strs_model(old(keys)@),
            k,
        ) || k == s@),
{
    let ghost km = strs_model(keys@);
    proof {
        lemma_strs_model(keys@);
    }
    let n = keys.len();
    let mut i: usize = 0;
    while i < n
        invariant
            i <= n,
            n == keys@.len(),
            keys@ == old(keys)@,
            forall|l: int| 0 <= l < i ==> lex_lt(km[l], s@),
        decreases n - i,
    {
        if !str_lex_lt(keys[i].as_str(), s.as_str()) {
            if !str_lex_lt(s.as_str(), keys[i].as_str()) {
                proof {
                    lemma_lex_trichotomy(km[i as int], s@);
                    assert(km[i as int] == s@);
                    assert forall|k: Seq<char>| #[trigger] has_col(strs_model(keys@), k) <==> (
                    has_col(strs_model(old(keys)@), k) || k == s@) by {
                        if k == s@ {
                            assert(strs_model(keys@)[i as int] == k);
                        }
                    }
                }
                return ;
            }
            let sc = s.clone();
            let ghost prev = keys@;
            keys.insert(i, sc);
            proof {
                prev.insert_ensures(i as int, sc);
                lemma_strs_model(keys@);
                lemma_strs_model(prev);
                let nm = strs_model(keys@);
                assert(nm.len() == n + 1);
                assert forall|l: int| 0 <= l < nm.len() implies nm[l] == (if l < i as int {
                    km[l]
                } else if l == i as int {
                    s@
                } else {
                    km[l - 1]
                }) by {
                    if l < i as int {
                        assert(keys@[l] == prev[l]);
                    } else if l == i as int {
                        assert(keys@[l] == sc);
                    } else {
                        assert(prev.insert(i as int, sc)[(l - 1) + 1] == prev[l - 1]);
                    }
                }
                assert forall|a: int, b: int| 0 <= a < b < nm.len() implies lex_lt(
                    nm[a],
                    nm[b],
                ) by {
                    if b < i as int {
                    } else if b == i as int {
                    } else {
                        if a == i as int {
                            if b - 1 > i as int {
                                lemma_lex_trans(s@, km[i as int], km[b - 1]);
                            }
                        }
                    }
                }
                assert forall|k: Seq<char>| #[trigger] has_col(nm, k) <==> (has_col(km, k) || k
                    == s@) by {
                    if has_col(nm, k) {
                        let l = choose|l: int| 0 <= l < nm.len() && nm[l] == k;
                        if l < i as int {
                            assert(km[l] == k);
                        } else if l > i as int {
                            assert(km[l - 1] == k);
                        }
                    }
                    if has_col(km, k) {
                        let l = choose|l: int| 0 <= l < km.len() && km[l] == k;
                        if l < i as int {
                            assert(nm[l] == k);
                        } else {
                            assert(nm[l + 1] == k);
                        }
                    }
                    if k == s@ {
                        assert(nm[i as int] == k);
                    }
                }
            }
            return ;
        }
        i = i + 1;
    }
    let ghost prev = keys@;
    keys.push(s.clone());
    proof {
        lemma_strs_model_push(prev, *s);
        lemma_strs_model(keys@);
        let nm = strs_model(keys@);
        assert(nm =~= km.push(s@));
        assert forall|a: int, b: int| 0 <= a < b < nm.len() implies lex_lt(nm[a], nm[b]) by {
            lemma_strs_model(prev);
            if b == n as int {
                assert(nm[a] == km[a]);
                assert(nm[b] == s@);
            } else {
                assert(nm[a] == km[a]);
                assert(nm[b] == km[b]);
            }
        }
        assert forall|k: Seq<char>| #[trigger] has_col(nm, k) <==> (has_col(km, k) || k == s@) by {
            if has_col(nm, k) {
                let l = choose|l: int| 0 <= l < nm.len() && nm[l] == k;
                if l < n as int {
                    assert(km[l] == k);
                }
            }
            if has_col(km, k) {
                let l = choose|l: int| 0 <= l < km.len() && km[l] == k;
                assert(nm[l] == k);
            }
            if k == s@ {
                assert(nm[n as int] == k);
            }
        }
    }
}

/// Serialize rows as delimited text: a header line of column names, then
/// one comma-joined line per row, each field escaped; an empty row list
/// yields an entirely empty output. The column ordering is pinned by
/// `cols_ok`: preferred columns first, then the remaining discovered
/// columns in ascending lexicographic order.
#[verifier::loop_isolation(false)]
#[verifier::rlimit(80)]
pub fn to_csv(rows: &Vec<Row>, preferred: Option<&Vec<String>>) -> (r: String)
    requires
        rows_wf(rows@),
    ensures
        rows@.len() == 0 ==> r@ == Seq::<char>::empty(),
        rows@.len() > 0 ==> exists|cols: Seq<Seq<char>>|
            #[trigger] csv_ok(rows_model(rows@), pref_model(preferred), cols, r@),
{
    let ghost rsm = rows_model(rows@);
    proof {
        lemma_rows_model(rows@);
    }
    let nr = rows.len();
    if nr == 0 {
        return String::new();
    }
    // Discover the columns, kept strictly sorted.
    let mut keys: Vec<String> = Vec::new();
    proof {
        assert(strs_model(keys@) =~= Seq::<Seq<char>>::empty());
        assert(rsm.skip(0) =~= rsm);
    }
    let mut i: usize = 0;
    while i < nr
        invariant
            i <= nr,
            nr == rows@.len(),
            sorted_from(strs_model(keys@), 0),
            forall|k: Seq<char>| #[trigger] col_set(rsm).contains(k) <==> (col_set(
                rsm.skip(i as int),
            ).contains(k) || has_col(strs_model(keys@), k)),
        decreases nr - i,
    {
        let ghost km0 = strs_model(keys@);
        let ghost rowm = rsm[i as int];
        proof {
            assert(rsm.skip(i as int)[0] == rsm[i as int]);
            assert(rsm.skip(i as int).drop_first() =~= rsm.skip(i as int + 1));
        }
        let nc = rows[i].cols.len();
        let mut l: usize = 0;
        while l < nc
            invariant
                l <= nc,
                i < nr,
                nr == rows@.len(),
                nc == rows@[i as int].cols@.len(),
                sorted_from(strs_model(keys@), 0),
                forall|k: Seq<char>| #[trigger] has_col(strs_model(keys@), k) <==> (has_col(
                    km0,
                    k,
                ) || exists|t: int| 0 <= t < l && (#[trigger] rows@[i as int].cols@[t]).0@ == k),
            decreases nc - l,
        {
            let s = rows[i].cols[l].0.clone();
            insert_sorted(&mut keys, &s);
            l = l + 1;
        }
        proof {
            assert forall|k: Seq<char>| #[trigger] col_set(rsm).contains(k) <==> (col_set(
                rsm.skip(i as int + 1),
            ).contains(k) || has_col(strs_model(keys@), k)) by {
                assert(col_set(rsm).contains(k) || !col_set(rsm).contains(k));
                lemma_row_model_contains(rows@[i as int].cols@, k);
                assert(rowm == rows@[i as int]@);
                assert(col_set(rsm).contains(k) <==> (col_set(rsm.skip(i as int)).contains(k)
                    || has_col(km0, k)));
                assert(has_col(strs_model(keys@), k) <==> (has_col(km0, k)
                    || rowm.contains_key(k)));
                assert(rsm.skip(i as int).first() == rsm[i as int]);
                assert(col_set(rsm.skip(i as int)) == col_set(
                    rsm.skip(i as int).drop_first(),
                ).union(rsm.skip(i as int).first().dom()));
                assert(col_set(rsm.skip(i as int).drop_first()) == col_set(
                    rsm.skip(i as int + 1),
                ));
            }
        }
        i = i + 1;
    }
    proof {
        assert(rsm.skip(nr as int) =~= Seq::<Map<Seq<char>, Seq<char>>>::empty());
    }
    // Preferred columns first, then the remaining discovered columns.
    let ghost pm = pref_model(preferred);
    let mut cols: Vec<String> = match preferred {
        Some(p) => clone_str_vec(p),
        None => Vec::new(),
    };
    let np = cols.len();
    proof {
        assert(strs_model(Seq::<String>::empty()) =~= Seq::<Seq<char>>::empty());
        assert(strs_model(cols@) == pm);
        lemma_strs_model(cols@);
        assert(strs_model(cols@).take(np as int) =~= pm);
        assert(strs_model(cols@).skip(np as int) =~= Seq::<Seq<char>>::empty());
    }
    let nk = keys.len();
    let ghost km = strs_model(keys@);
    proof {
        lemma_strs_model(keys@);
    }
    let mut j: usize = 0;
    while j < nk
        invariant
            j <= nk,
            nk == keys@.len(),
            km == strs_model(keys@),
            np as int <= strs_model(cols@).len(),
            strs_model(cols@).take(np as int) == pm,
            sorted_from(strs_model(cols@), np as int),
            forall|t: int| np <= t < strs_model(cols@).len() ==> exists|l: int|
                0 <= l < j && #[trigger] strs_model(cols@)[t] == #[trigger] km[l],
            forall|k: Seq<char>| has_col(strs_model(cols@).skip(np as int), k) <==> (
            exists|l: int| 0 <= l < j && #[trigger] km[l] == k && ! #[trigger] has_col(pm, k)),
        decreases nk - j,
    {
        let ghost cm0 = strs_model(cols@);
        let mut inpref: bool = false;
        let mut t: usize = 0;
        while t < np
            invariant
                t <= np,
                j < nk,
                inpref <==> exists|u: int| 0 <= u < t && #[trigger] pm[u] == km[j as int],
            decreases np - t,
        {
            proof {
                lemma_strs_model(cols@);
                assert(strs_model(cols@).take(np as int)[t as int] == pm[t as int]);
            }
            if cols[t] == keys[j] {
                inpref = true;
            }
            t = t + 1;
        }
        if !inpref {
            let kc = keys[j].clone();
            let ghost prev = cols@;
            cols.push(kc);
            proof {
                lemma_strs_model_push(prev, kc);
                let cm = strs_model(cols@);
                assert(cm =~= cm0.push(km[j as int]));
                assert(cm.take(np as int) =~= cm0.take(np as int));
                assert forall|a: int, b: int| np <= a < b < cm.len() implies lex_lt(
                    cm[a],
                    cm[b],
                ) by {
                    if b == cm.len() - 1 {
                        assert(cm[a] == cm0[a]);
                        let l = choose|l: int| 0 <= l < j && cm0[a] == #[trigger] km[l];
                        assert(lex_lt(km[l], km[j as int]));
                    } else {
                        assert(cm[a] == cm0[a]);
                        assert(cm[b] == cm0[b]);
                    }
                }
                assert forall|k: Seq<char>| has_col(cm.skip(np as int), k) <==> (
                exists|l: int| 0 <= l < j + 1 && #[trigger] km[l] == k && ! #[trigger] has_col(
                    pm,
                    k,
                )) by {
                    assert(has_col(pm, k) || !has_col(pm, k));
                    if has_col(cm.skip(np as int), k) {
                        let u = choose|u: int|
                            0 <= u < cm.skip(np as int).len() && cm.skip(np as int)[u] == k;
                        if np + u < cm.len() - 1 {
                            assert(cm0.skip(np as int)[u] == k);
                            assert(has_col(cm0.skip(np as int), k));
                        } else {
                            assert(k == km[j as int]);
                            assert(!has_col(pm, k));
                        }
                    }
                    if exists|l: int| 0 <= l < j + 1 && #[trigger] km[l] == k && !has_col(pm, k) {
                        let l = choose|l: int| 0 <= l < j + 1 && #[trigger] km[l] == k && !has_col(
                            pm,
                            k,
                        );
                        if l < j {
                            assert(has_col(cm0.skip(np as int), k));
                            let u = choose|u: int|
                                0 <= u < cm0.skip(np as int).len() && cm0.skip(np as int)[u] == k;
                            assert(cm.skip(np as int)[u] == k);
                        } else {
                            assert(cm.skip(np as int)[cm.len() - 1 - np as int] == k);
                        }
                    }
                }
            }
        } else {
            proof {
                let cm = strs_model(cols@);
                assert forall|k: Seq<char>| has_col(cm.skip(np as int), k) <==> (
                exists|l: int| 0 <= l < j + 1 && #[trigger] km[l] == k && ! #[trigger] has_col(
                    pm,
                    k,
                )) by {
                    assert(has_col(pm, k) || !has_col(pm, k));
                    if exists|l: int| 0 <= l < j + 1 && #[trigger] km[l] == k && !has_col(pm, k) {
                        let l = choose|l: int| 0 <= l < j + 1 && #[trigger] km[l] == k && !has_col(
                            pm,
                            k,
                        );
                        assert(l < j);
                    }
                }
            }
        }
        j = j + 1;
    }
    let ghost cm = strs_model(cols@);
    proof {
        lemma_strs_model(cols@);
        assert forall|k: Seq<char>| #[trigger] has_col(cm.skip(np as int), k) <==> (col_set(
            rsm,
        ).contains(k) && !has_col(pm, k)) by {
            assert(has_col(pm, k) || !has_col(pm, k));
            assert(col_set(rsm).contains(k) || !col_set(rsm).contains(k));
            if col_set(rsm).contains(k) && !has_col(pm, k) {
                assert(has_col(km, k));
                let l = choose|l: int| 0 <= l < km.len() && km[l] == k;
                assert(km[l] == k);
            }
            if has_col(cm.skip(np as int), k) {
                let l = choose|l: int| 0 <= l < nk && #[trigger] km[l] == k && !has_col(pm, k);
                assert(km[l] == k);
                assert(has_col(km, k));
            }
        }
        assert(cols_ok(rsm, pm, cm));
    }
    // Render: header line, then one line per row.
    let ncols = cols.len();
    let mut out: Vec<char> = Vec::new();
    let mut t: usize = 0;
    proof {
        assert(join_comma(cm.take(0)) =~= Seq::<char>::empty());
        assert(out@ =~= join_comma(cm.take(0)));
    }
    while t < ncols
        invariant
            t <= ncols,
            ncols == cols@.len(),
            cm == strs_model(cols@),
            out@ == join_comma(cm.take(t as int)),
        decreases ncols - t,
    {
        proof {
            assert(cm.take(t as int + 1).drop_last() =~= cm.take(t as int));
            assert(cm.take(t as int + 1).last() == cm[t as int]);
        }
        if t > 0 {
            out.push(',');
        }
        let csch = str_to_chars(cols[t].as_str());
        push_chars(&mut out, &csch);
        proof {
            assert(out@ =~= join_comma(cm.take(t as int + 1)));
        }
        t = t + 1;
    }
    out.push('\n');
    proof {
        assert(cm.take(ncols as int) =~= cm);
        assert(spec_body(rsm.take(0), cm) =~= Seq::<char>::empty());
        assert(out@ =~= join_comma(cm) + seq!['\n'] + spec_body(rsm.take(0), cm));
    }
    let mut ri: usize = 0;
    while ri < nr
        invariant
            ri <= nr,
            nr == rows@.len(),
            ncols == cols@.len(),
            cm == strs_model(cols@),
            out@ == join_comma(cm) + seq!['\n'] + spec_body(rsm.take(ri as int), cm),
        decreases nr - ri,
    {
        let ghost rowm = rsm[ri as int];
        let mut line: Vec<char> = Vec::new();
        let mut t: usize = 0;
        proof {
            assert(row_fields(rowm, cm.take(0)) =~= Seq::<Seq<char>>::empty());
            assert(line@ =~= join_comma(row_fields(rowm, cm.take(0))));
        }
        while t < ncols
            invariant
                t <= ncols,
                ri < nr,
                nr == rows@.len(),
                ncols == cols@.len(),
                cm == strs_model(cols@),
                rowm == rsm[ri as int],
                line@ == join_comma(row_fields(rowm, cm.take(t as int))),
            decreases ncols - t,
        {
            proof {
                assert(cm.take(t as int + 1).drop_last() =~= cm.take(t as int));
                assert(cm.take(t as int + 1).last() == cm[t as int]);
            }
            if t > 0 {
                line.push(',');
            }
            let field: String = match rows[ri].get(cols[t].as_str()) {
                Some(v) => v.clone(),
                None => String::new(),
            };
            proof {
                assert(field@ == if rowm.contains_key(cm[t as int]) {
                    rowm[cm[t as int]]
                } else {
                    Seq::<char>::empty()
                });
            }
            let esc = csv_escape(field);
            let ec = str_to_chars(esc.as_str());
            push_chars(&mut line, &ec);
            proof {
                let zs = row_fields(rowm, cm.take(t as int + 1));
                assert(zs == row_fields(rowm, cm.take(t as int)).push(esc@));
                assert(zs.drop_last() =~= row_fields(rowm, cm.take(t as int)));
                assert(zs.last() == esc@);
                assert(line@ =~= join_comma(zs));
            }
            t = t + 1;
        }
        proof {
            assert(cm.take(ncols as int) =~= cm);
        }
        push_chars(&mut out, &line);
        out.push('\n');
        proof {
            assert(rsm.take(ri as int + 1).drop_last() =~= rsm.take(ri as int));
            assert(rsm.take(ri as int + 1).last() == rsm[ri as int]);
            assert(out@ =~= join_comma(cm) + seq!['\n'] + spec_body(rsm.take(ri as int + 1), cm));
        }
        ri = ri + 1;
    }
    proof {
        assert(rsm.take(nr as int) =~= rsm);
        assert(csv_ok(rsm, pm, cm, out@));
    }
    chars_to_string(&out)
}

} // verus!
