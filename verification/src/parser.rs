use vstd::prelude::*;

use crate::ast::{
    AST, AstView, lemma_views_index, lemma_views_len, lemma_views_push, views,
};

verus! {

/// Failures of parsing: every variant is a caller input error, and the ones
/// that carry a `usize` report the character position of the offence.
#[derive(Clone, Copy, Debug, PartialEq, Eq, Structural)]
pub enum ParserError {
    /// The character after a backslash is not a metacharacter.
    InvalidEscape(usize, char),
    /// A closing parenthesis with no group open.
    InvalidRightParan(usize),
    /// A postfix operator or an alternation bar with nothing before it.
    NoPrev(usize),
    /// A group left open at the end of the pattern.
    NoRightParan,
    /// The whole pattern folds to nothing.
    Empty,
}

/// The characters that may follow a backslash.
pub open spec fn is_meta(c: char) -> bool {
    c == '\\' || c == '(' || c == ')' || c == '|' || c == '+' || c == '*' || c == '?'
}

/// The parser's accumulators after some prefix of the pattern: the current
/// concatenation (`cur`), the alternation branches gathered at this nesting
/// level (`alts`), the `(cur, alts)` pairs saved by the parentheses still
/// open (`saved`, innermost last), and whether a backslash is pending.
pub struct ParserState {
    pub cur: Seq<AstView>,
    pub alts: Seq<AstView>,
    pub saved: Seq<(Seq<AstView>, Seq<AstView>)>,
    pub escape: bool,
}

/// A right-nested alternation chain over one or more branches, so the
/// leftmost branch is always tried first.
pub open spec fn fold_chain(alts: Seq<AstView>) -> AstView
    decreases alts.len(),
{
    if alts.len() <= 1 {
        alts.first()
    } else {
        AstView::Or(Box::new(alts.first()), Box::new(fold_chain(alts.drop_first())))
    }
}

/// Fold gathered branches into one tree: nothing from no branches, the
/// branch itself from one, a right-nested `Or` chain from more.
pub open spec fn fold_alts(alts: Seq<AstView>) -> Option<AstView> {
    if alts.len() == 0 {
        None
    } else {
        Some(fold_chain(alts))
    }
}

/// Wrap the last element of the current concatenation in the postfix
/// operator written as `c`.
pub open spec fn postfix_wrap(cur: Seq<AstView>, c: char) -> Seq<AstView> {
    let prev = cur.last();
    let wrapped = if c == '+' {
        AstView::Plus(Box::new(prev))
    } else if c == '*' {
        AstView::Star(Box::new(prev))
    } else if c == '?' {
        AstView::Question(Box::new(prev))
    } else {
        AstView::Dollar(Box::new(prev))
    };
    cur.drop_last().push(wrapped)
}

/// One character of parsing, at position `i`: spec.
pub open spec fn pstep(st: ParserState, c: char, i: int) -> Result<ParserState, ParserError> {
    if st.escape {
        if is_meta(c) {
            Ok(ParserState {
                cur: st.cur.push(AstView::Char(c)),
                alts: st.alts,
                saved: st.saved,
                escape: false,
            })
        } else {
            Err(ParserError::InvalidEscape(i as usize, c))
        }
    } else if c == '+' || c == '*' || c == '?' || c == '$' {
        if st.cur.len() == 0 {
            Err(ParserError::NoPrev(i as usize))
        } else {
            Ok(ParserState {
                cur: postfix_wrap(st.cur, c),
                alts: st.alts,
                saved: st.saved,
                escape: false,
            })
        }
    } else if c == '(' {
        Ok(ParserState {
            cur: Seq::empty(),
            alts: Seq::empty(),
            saved: st.saved.push((st.cur, st.alts)),
            escape: false,
        })
    } else if c == ')' {
        if st.saved.len() == 0 {
            Err(ParserError::InvalidRightParan(i as usize))
        } else {
            let outer = st.saved.last();
            let closed = if st.cur.len() > 0 {
                st.alts.push(AstView::Concat(st.cur))
            } else {
                st.alts
            };
            let restored = match fold_alts(closed) {
                Some(a) => outer.0.push(a),
                None => outer.0,
            };
            Ok(ParserState {
                cur: restored,
                alts: outer.1,
                saved: st.saved.drop_last(),
                escape: false,
            })
        }
    } else if c == '|' {
        if st.cur.len() == 0 {
            Err(ParserError::NoPrev(i as usize))
        } else {
            Ok(ParserState {
                cur: Seq::empty(),
                alts: st.alts.push(AstView::Concat(st.cur)),
                saved: st.saved,
                escape: false,
            })
        }
    } else if c == '\\' {
        Ok(ParserState { cur: st.cur, alts: st.alts, saved: st.saved, escape: true })
    } else if c == '^' {
        Ok(ParserState {
            cur: st.cur.push(AstView::Hat),
            alts: st.alts,
            saved: st.saved,
            escape: false,
        })
    } else {
        Ok(ParserState {
            cur: st.cur.push(AstView::Char(c)),
            alts: st.alts,
            saved: st.saved,
            escape: false,
        })
    }
}

/// The parser's state after the first `n` characters of the pattern, or the
/// first error met on the way.
pub open spec fn prun(cs: Seq<char>, n: int) -> Result<ParserState, ParserError>
    decreases n,
{
    if n <= 0 {
        Ok(
            ParserState {
                cur: Seq::empty(),
                alts: Seq::empty(),
                saved: Seq::empty(),
                escape: false,
            },
        )
    } else {
        match prun(cs, n - 1) {
            Ok(st) => pstep(st, cs[n - 1], n - 1),
            Err(e) => Err(e),
        }
    }
}

/// What parsing a whole pattern yields: the state machine over every
/// character, then the end-of-scan checks — open groups are an error, a
/// pending concatenation becomes a final branch, and the branches fold into
/// one tree (none at all is the empty-pattern error).
pub open spec fn parse_spec(cs: Seq<char>) -> Result<AstView, ParserError> {
    match prun(cs, cs.len() as int) {
        Err(e) => Err(e),
        Ok(st) => {
            if st.saved.len() > 0 {
                Err(ParserError::NoRightParan)
            } else {
                let closed = if st.cur.len() > 0 {
                    st.alts.push(AstView::Concat(st.cur))
                } else {
                    st.alts
                };
                match fold_alts(closed) {
                    Some(a) => Ok(a),
                    None => Err(ParserError::Empty),
                }
            }
        },
    }
}

/// Once the state machine has failed, every longer prefix fails the same way.
proof fn lemma_prun_err(cs: Seq<char>, i: int, j: int)
    requires
        0 <= i <= j,
        prun(cs, i) is Err,
    ensures
        prun(cs, j) == prun(cs, i),
    decreases j - i,
{
    if j > i {
        lemma_prun_err(cs, i, j - 1);
    }
}

/// The views of the saved `(cur, alts)` pairs of the open parentheses.
pub open spec fn saved_views(s: Seq<(Vec<AST>, Vec<AST>)>) -> Seq<(Seq<AstView>, Seq<AstView>)>
    decreases s.len(),
{
    if s.len() == 0 {
        Seq::empty()
    } else {
        saved_views(s.drop_last()).push((views(s.last().0@), views(s.last().1@)))
    }
}

proof fn lemma_saved_views_push(s: Seq<(Vec<AST>, Vec<AST>)>, x: (Vec<AST>, Vec<AST>))
    ensures
        saved_views(s.push(x)) == saved_views(s).push((views(x.0@), views(x.1@))),
{
    assert(s.push(x).drop_last() =~= s);
    assert(s.push(x).last() == x);
}

proof fn lemma_saved_views_len(s: Seq<(Vec<AST>, Vec<AST>)>)
    ensures
        saved_views(s).len() == s.len(),
    decreases s.len(),
{
    if s.len() > 0 {
        lemma_saved_views_len(s.drop_last());
    }
}

/// Parse a pattern string into a tree. The result — the tree on success,
/// and the error with its position otherwise — is exactly what the
/// character-by-character state machine `parse_spec` yields on the
/// pattern's characters.
pub fn parse(expr: &str) -> (r: Result<AST, ParserError>)
    ensures
        (match r {
            Ok(a) => parse_spec(expr@) == Ok::<AstView, ParserError>(a@),
            Err(e) => parse_spec(expr@) == Err::<AstView, ParserError>(e),
        }),
{
    let mut cur: Vec<AST> = Vec::new();
    let mut alts: Vec<AST> = Vec::new();
    let mut saved: Vec<(Vec<AST>, Vec<AST>)> = Vec::new();
    let mut escape = false;

    let n = expr.unicode_len();
    let mut i: usize = 0;
    proof {
        assert(views(cur@) =~= Seq::<AstView>::empty());
        assert(saved_views(saved@) =~= Seq::<(Seq<AstView>, Seq<AstView>)>::empty());
    }
    while i < n
        invariant
            i <= n,
            n == expr@.len(),
            prun(expr@, i as int) == Ok::<ParserState, ParserError>(
                ParserState {
                    cur: views(cur@),
                    alts: views(alts@),
                    saved: saved_views(saved@),
                    escape: escape,
                },
            ),
        decreases n - i,
    {
        let c = expr.get_char(i);
        let ghost st_pre = ParserState {
            cur: views(cur@),
            alts: views(alts@),
            saved: saved_views(saved@),
            escape: escape,
        };
        if escape {
            match parser_escape(i, c) {
                Ok(ast) => {
                    let ghost cur_pre = cur@;
                    cur.push(ast);
                    escape = false;
                    proof {
                        lemma_views_push(cur_pre, AST::Char(c));
                    }
                },
                Err(e) => {
                    proof {
                        lemma_prun_err(expr@, i + 1 as int, n as int);
                    }
                    return Err(e);
                },
            }
        } else {
            match c {
                '+' | '*' | '?' | '$' => {
                    let t = match c {
                        '+' => NeedPrev::Plus,
                        '*' => NeedPrev::Star,
                        '?' => NeedPrev::Question,
                        _ => NeedPrev::Dollar,
                    };
                    let ghost cur_pre = cur@;
                    match parse_need_prev_symbol(&mut cur, t, i) {
                        Ok(()) => {
                            proof {
                                lemma_views_len(cur_pre);
                                lemma_views_push(
                                    cur_pre.drop_last(),
                                    wrap_node(t, cur_pre.last()),
                                );
                                assert(views(cur_pre).drop_last() =~= views(cur_pre.drop_last()));
                                assert(views(cur@) =~= postfix_wrap(views(cur_pre), c));
                            }
                        },
                        Err(e) => {
                            proof {
                                lemma_views_len(cur_pre);
                                lemma_prun_err(expr@, i + 1 as int, n as int);
                            }
                            return Err(e);
                        },
                    }
                },
                '(' => {
                    let prev_cur = cur;
                    cur = Vec::new();
                    let prev_alts = alts;
                    alts = Vec::new();
                    let ghost saved_pre = saved@;
                    let ghost pcur_v = prev_cur@;
                    let ghost palts_v = prev_alts@;
                    saved.push((prev_cur, prev_alts));
                    proof {
                        lemma_saved_views_push(saved_pre, saved@.last());
                        assert(saved@ =~= saved_pre.push(saved@.last()));
                        assert(saved@.last().0@ == pcur_v);
                        assert(saved@.last().1@ == palts_v);
                        assert(views(cur@) =~= Seq::<AstView>::empty());
                        assert(views(alts@) =~= Seq::<AstView>::empty());
                        assert(saved_views(saved@) =~= st_pre.saved.push((st_pre.cur, st_pre.alts)));
                    }
                },
                ')' => {
                    let ghost saved_pre = saved@;
                    match saved.pop() {
                        None => {
                            proof {
                                lemma_saved_views_len(saved_pre);
                                lemma_prun_err(expr@, i + 1 as int, n as int);
                            }
                            return Err(ParserError::InvalidRightParan(i));
                        },
                        Some(pair) => {
                            proof {
                                lemma_saved_views_len(saved_pre);
                                assert(saved_pre.len() > 0);
                                assert(st_pre.saved.len() > 0);
                                assert(st_pre.saved.last() == (
                                    views(saved_pre.last().0@),
                                    views(saved_pre.last().1@),
                                ));
                                assert(st_pre.saved.drop_last() =~= saved_views(saved@));
                            }
                            let mut prev_cur = pair.0;
                            let prev_alts = pair.1;
                            let ghost alts_mid = alts@;
                            if cur.len() > 0 {
                                proof {
                                    lemma_views_len(cur@);
                                }
                                let ghost done_v = cur@;
                                let done = cur;
                                cur = Vec::new();
                                alts.push(AST::Concat(done));
                                proof {
                                    lemma_views_push(alts_mid, alts@.last());
                                    assert(alts@ =~= alts_mid.push(alts@.last()));
                                    assert(alts@.last()@ == AstView::Concat(views(done_v)));
                                    assert(views(alts@) =~= st_pre.alts.push(
                                        AstView::Concat(st_pre.cur),
                                    ));
                                }
                            } else {
                                proof {
                                    lemma_views_len(cur@);
                                }
                            }
                            let ghost closed_v = views(alts@);
                            let taken = alts;
                            alts = prev_alts;
                            let ghost pcur_v = prev_cur@;
                            match fold_or(taken) {
                                Some(ast) => {
                                    let ghost ast_g = ast;
                                    prev_cur.push(ast);
                                    proof {
                                        lemma_views_push(pcur_v, ast_g);
                                    }
                                },
                                None => {},
                            }
                            cur = prev_cur;
                            proof {
                                assert(views(cur@) == (match fold_alts(closed_v) {
                                    Some(a) => st_pre.saved.last().0.push(a),
                                    None => st_pre.saved.last().0,
                                }));
                            }
                        },
                    }
                },
                '|' => {
                    if cur.len() == 0 {
                        proof {
                            lemma_views_len(cur@);
                            lemma_prun_err(expr@, i + 1 as int, n as int);
                        }
                        return Err(ParserError::NoPrev(i));
                    } else {
                        proof {
                            lemma_views_len(cur@);
                        }
                        let ghost done_v = cur@;
                        let ghost alts_pre = alts@;
                        let done = cur;
                        cur = Vec::new();
                        alts.push(AST::Concat(done));
                        proof {
                            lemma_views_push(alts_pre, alts@.last());
                            assert(alts@ =~= alts_pre.push(alts@.last()));
                            assert(alts@.last()@ == AstView::Concat(views(done_v)));
                            assert(views(cur@) =~= Seq::<AstView>::empty());
                        }
                    }
                },
                '\\' => {
                    escape = true;
                },
                '^' => {
                    let ghost cur_pre = cur@;
                    cur.push(AST::Hat);
                    proof {
                        lemma_views_push(cur_pre, AST::Hat);
                    }
                },
                _ => {
                    let ghost cur_pre = cur@;
                    cur.push(AST::Char(c));
                    proof {
                        lemma_views_push(cur_pre, AST::Char(c));
                    }
                },
            }
        }
        proof {
            assert(prun(expr@, i + 1 as int) == pstep(st_pre, expr@[i as int], i as int));
        }
        i = i + 1;
    }

    proof {
        lemma_saved_views_len(saved@);
        lemma_views_len(cur@);
    }
    if saved.len() > 0 {
        return Err(ParserError::NoRightParan);
    }
    let ghost st_end = ParserState {
        cur: views(cur@),
        alts: views(alts@),
        saved: saved_views(saved@),
        escape: escape,
    };
    if cur.len() > 0 {
        let ghost done_v = cur@;
        let ghost alts_pre = alts@;
        let done = cur;
        alts.push(AST::Concat(done));
        proof {
            lemma_views_push(alts_pre, alts@.last());
            assert(alts@ =~= alts_pre.push(alts@.last()));
            assert(alts@.last()@ == AstView::Concat(views(done_v)));
            assert(views(alts@) =~= st_end.alts.push(AstView::Concat(st_end.cur)));
        }
        match fold_or(alts) {
            Some(ast) => Ok(ast),
            None => Err(ParserError::Empty),
        }
    } else {
        match fold_or(alts) {
            Some(ast) => Ok(ast),
            None => Err(ParserError::Empty),
        }
    }
}

/// The four postfix operators that need a preceding expression.
#[derive(Clone, Copy)]
enum NeedPrev {
    Plus,
    Star,
    Question,
    Dollar,
}

/// The tree that wrapping `prev` in the given postfix operator yields.
spec fn wrap_node(t: NeedPrev, prev: AST) -> AST {
    match t {
        NeedPrev::Plus => AST::Plus(Box::new(prev)),
        NeedPrev::Star => AST::Star(Box::new(prev)),
        NeedPrev::Question => AST::Question(Box::new(prev)),
        NeedPrev::Dollar => AST::Dollar(Box::new(prev)),
    }
}

/// An escaped character: a metacharacter becomes a literal, anything else
/// is an invalid escape at `pos`.
fn parser_escape(pos: usize, c: char) -> (r: Result<AST, ParserError>)
    ensures
        (match r {
            Ok(a) => is_meta(c) && a == AST::Char(c),
            Err(e) => !is_meta(c) && e == ParserError::InvalidEscape(pos, c),
        }),
{
    match c {
        '\\' | '(' | ')' | '|' | '+' | '*' | '?' => Ok(AST::Char(c)),
        _ => {
            let err = ParserError::InvalidEscape(pos, c);
            Err(err)
        },
    }
}

/// Pop the latest expression of the current concatenation, wrap it in the
/// postfix operator, and push the wrapped node back; an empty concatenation
/// is a missing-predecessor error at `pos`.
fn parse_need_prev_symbol(cur: &mut Vec<AST>, ast_type: NeedPrev, pos: usize) -> (r: Result<
    (),
    ParserError,
>)
    ensures
        (match r {
            Ok(()) => old(cur)@.len() > 0 && final(cur)@ == old(cur)@.drop_last().push(
                wrap_node(ast_type, old(cur)@.last()),
            ),
            Err(e) => old(cur)@.len() == 0 && final(cur)@ == old(cur)@ && e == ParserError::NoPrev(
                pos,
            ),
        }),
{
    if let Some(prev) = cur.pop() {
        let ast = match ast_type {
            NeedPrev::Plus => AST::Plus(Box::new(prev)),
            NeedPrev::Star => AST::Star(Box::new(prev)),
            NeedPrev::Question => AST::Question(Box::new(prev)),
            NeedPrev::Dollar => AST::Dollar(Box::new(prev)),
        };
        cur.push(ast);
        Ok(())
    } else {
        Err(ParserError::NoPrev(pos))
    }
}

/// Fold the gathered alternation branches into one tree, first branch
/// outermost, exactly as `fold_alts` says.
fn fold_or(seq_or: Vec<AST>) -> (r: Option<AST>)
    ensures
        (match r {
            Some(a) => fold_alts(views(seq_or@)) == Some(a@),
            None => fold_alts(views(seq_or@)) is None,
        }),
{
    let ghost orig = seq_or@;
    let ghost vs = views(orig);
    proof {
        lemma_views_len(orig);
    }
    let mut v = seq_or;
    let ghost n = vs.len() as int;
    match v.pop() {
        None => {
            proof {
                assert(vs.len() == 0);
            }
            None
        },
        Some(first_popped) => {
            let mut ast = first_popped;
            proof {
                lemma_views_index(orig, n - 1);
                assert(vs.subrange(n - 1, n).first() == vs[n - 1]);
                assert(ast@ == fold_chain(vs.subrange(n - 1, n)));
            }
            while v.len() > 0
                invariant
                    vs == views(orig),
                    vs.len() == orig.len() == n,
                    v@ == orig.subrange(0, v@.len() as int),
                    v@.len() < n,
                    ast@ == fold_chain(vs.subrange(v@.len() as int, n)),
                decreases v@.len(),
            {
                let ghost k = v@.len() as int;
                let s = match v.pop() {
                    Some(s) => s,
                    None => {
                        return None;
                    },
                };
                proof {
                    assert(s == orig.subrange(0, k)[k - 1]);
                    assert(s == orig[k - 1]);
                    lemma_views_index(orig, k - 1);
                    assert(v@ =~= orig.subrange(0, k - 1));
                }
                ast = AST::Or(Box::new(s), Box::new(ast));
                proof {
                    let sub = vs.subrange(k - 1, n);
                    assert(sub.len() >= 2);
                    assert(sub.first() == vs[k - 1]);
                    assert(sub.drop_first() =~= vs.subrange(k, n));
                    assert(ast@ == fold_chain(sub));
                }
            }
            proof {
                assert(vs.subrange(0, n) =~= vs);
            }
            Some(ast)
        },
    }
}

} // verus!
