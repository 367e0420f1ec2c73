//! Shell-like tokenization of one line: whitespace-separated tokens,
//! single or double quotes taken literally, backslash escapes, and `#`
//! starting a comment unless quoted or escaped.

use vstd::prelude::*;

use crate::text::{char_is_ws, chars_to_string, is_ws, str_to_chars};
use crate::value::{lemma_strs_model_push, strs_model};

verus! {

/// One step per character, carried state: position, in-quote flag and
/// quote character, pending escape, token being built, finished tokens.
/// At end of line a pending escape is kept as a literal backslash and a
/// non-empty token is flushed.
pub open spec fn spec_tok(
    cs: Seq<char>,
    i: int,
    in_q: bool,
    qc: char,
    esc: bool,
    buf: Seq<char>,
    out: Seq<Seq<char>>,
) -> Seq<Seq<char>>
    decreases cs.len() - i when 0 <= i <= cs.len()
{
    if i >= cs.len() {
        let fbuf = if esc {
            buf.push('\\')
        } else {
            buf
        };
        if fbuf.len() > 0 {
            out.push(fbuf)
        } else {
            out
        }
    } else {
        let c = cs[i];
        if esc {
            spec_tok(cs, i + 1, in_q, qc, false, buf.push(c), out)
        } else if c == '\\' {
            spec_tok(cs, i + 1, in_q, qc, true, buf, out)
        } else if in_q {
            if c == qc {
                spec_tok(cs, i + 1, false, qc, false, buf, out)
            } else {
                spec_tok(cs, i + 1, true, qc, false, buf.push(c), out)
            }
        } else if c == '#' {
            if buf.len() > 0 {
                out.push(buf)
            } else {
                out
            }
        } else if c == '"' || c == '\'' {
            spec_tok(cs, i + 1, true, c, false, buf, out)
        } else if is_ws(c) {
            if buf.len() > 0 {
                spec_tok(cs, i + 1, false, qc, false, Seq::empty(), out.push(buf))
            } else {
                spec_tok(cs, i + 1, false, qc, false, buf, out)
            }
        } else {
            spec_tok(cs, i + 1, in_q, qc, false, buf.push(c), out)
        }
    }
}

/// The tokens of one line.
pub open spec fn spec_tokenize(cs: Seq<char>) -> Seq<Seq<char>> {
    spec_tok(cs, 0, false, '\0', false, Seq::empty(), Seq::empty())
}

/// Tokenize one line of text.
#[verifier::loop_isolation(false)]
pub fn tokenize(line: &str) -> (r: Vec<String>)
    ensures
        strs_model(r@) == spec_tokenize(line@),
{
    let cs = str_to_chars(line);
    let n = cs.len();
    let mut out: Vec<String> = Vec::new();
    let mut buf: Vec<char> = Vec::new();
    let mut in_q: bool = false;
    let mut qc: char = '\0';
    let mut esc: bool = false;
    let mut i: usize = 0;
    proof {
        assert(strs_model(out@) =~= Seq::<Seq<char>>::empty());
        assert(buf@ =~= Seq::<char>::empty());
    }
    while i < n
        invariant
            i <= n,
            spec_tokenize(cs@) == spec_tok(cs@, i as int, in_q, qc, esc, buf@, strs_model(out@)),
        decreases n - i,
    {
        let ghost (i0, q0, qc0, e0, b0, o0) = (i as int, in_q, qc, esc, buf@, strs_model(out@));
        let c = cs[i];
        if esc {
            buf.push(c);
            esc = false;
        } else if c == '\\' {
            esc = true;
        } else if in_q {
            if c == qc {
                in_q = false;
            } else {
                buf.push(c);
            }
        } else if c == '#' {
            if buf.len() > 0 {
                let t = chars_to_string(&buf);
                let ghost prev = out@;
                out.push(t);
                proof {
                    lemma_strs_model_push(prev, t);
                }
            }
            proof {
                assert(spec_tok(cs@, i0, q0, qc0, e0, b0, o0) == strs_model(out@));
            }
            return out;
        } else if c == '"' || c == '\'' {
            in_q = true;
            qc = c;
        } else if char_is_ws(c) {
            if buf.len() > 0 {
                let t = chars_to_string(&buf);
                let ghost prev = out@;
                out.push(t);
                buf = Vec::new();
                proof {
                    lemma_strs_model_push(prev, t);
                    assert(buf@ =~= Seq::<char>::empty());
                }
            }
        } else {
            buf.push(c);
        }
        i = i + 1;
        proof {
            assert(spec_tok(cs@, i0, q0, qc0, e0, b0, o0) == spec_tok(
                cs@,
                i as int,
                in_q,
                qc,
                esc,
                buf@,
                strs_model(out@),
            ));
        }
    }
    if esc {
        buf.push('\\');
    }
    if buf.len() > 0 {
        let t = chars_to_string(&buf);
        let ghost prev = out@;
        out.push(t);
        proof {
            lemma_strs_model_push(prev, t);
        }
    }
    out
}

} // verus!
