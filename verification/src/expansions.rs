//! The expansion pass over a scanned token stream.
//!
//! The scanner emits quote delimiters as plain tokens; this pass re-derives
//! single-quote context from them, collects backtick-delimited command
//! expansion regions, and extracts variable names from the `Word` token
//! after a `$`. It only reports what it finds — running a command or looking
//! a variable up is a later stage's work. The whole walk is pinned down by
//! [`expansions_spec`], which [`find_expansions`] is proved to implement.

use vstd::prelude::*;

use crate::parser::{QuoteType, Token, TokenV, Tokens, tokens_view};
use crate::parser::{chars_to_string, to_char_vec};

verus! {

/// The error on which the expansion walk aborts.
#[derive(Debug, PartialEq, Eq)]
pub enum ExpansionError {
    /// A `$` stood before a parenthesis token: arithmetic and parameter
    /// substitution have no defined behaviour at this layer.
    UnimplementedSubstitution,
}

/// One expansion found in the token stream.
#[derive(Debug, PartialEq, Eq)]
pub enum Expansion {
    /// A backtick-delimited command expansion region: the enclosed tokens,
    /// and whether a closing backtick was found before the stream's end.
    Command(Vec<Token>, bool),
    /// A variable expansion: the name extracted from the `Word` token after
    /// a `$`.
    Variable(String),
    /// The token after a `$` was neither a parenthesis nor a `Word`.
    UnexpectedAfterDollar(Token),
}

/// The mathematical form of an [`Expansion`].
#[verifier::ext_equal]
pub enum ExpansionV {
    Command(Seq<TokenV>, bool),
    Variable(Seq<char>),
    UnexpectedAfterDollar(TokenV),
}

impl View for Expansion {
    type V = ExpansionV;

    open spec fn view(&self) -> ExpansionV {
        match self {
            Expansion::Command(ts, closed) => ExpansionV::Command(tokens_view(ts@), *closed),
            Expansion::Variable(name) => ExpansionV::Variable(name@),
            Expansion::UnexpectedAfterDollar(t) => ExpansionV::UnexpectedAfterDollar(t@),
        }
    }
}

/// The views of a sequence of expansions, element by element.
pub open spec fn expansions_view(es: Seq<Expansion>) -> Seq<ExpansionV> {
    es.map_values(|e: Expansion| e@)
}

/// A character that ends a variable name inside a word.
pub open spec fn is_name_splitter(c: char) -> bool {
    c == ' ' || c == '/' || c == '-'
}

/// The variable name a word yields: its prefix up to the first space, slash
/// or dash.
pub open spec fn var_name(w: Seq<char>) -> Seq<char>
    decreases w.len(),
{
    if w.len() == 0 || is_name_splitter(w[0]) {
        Seq::empty()
    } else {
        seq![w[0]] + var_name(w.skip(1))
    }
}

/// Where the spec walk stands: scanning, or collecting the tokens of a
/// backtick-delimited region.
pub enum ExpandState {
    Scan,
    Collect(Seq<TokenV>),
}

/// The expansion walk as a mathematical state machine over the remaining
/// tokens `ts`, the single-quote context `in_single`, and the expansions
/// `acc` already found. After a `$` and its following token, one further
/// token is consumed unexamined.
pub open spec fn expand_from(
    ts: Seq<TokenV>,
    in_single: bool,
    st: ExpandState,
    acc: Seq<ExpansionV>,
) -> Result<Seq<ExpansionV>, ExpansionError>
    decreases ts.len(),
{
    match st {
        ExpandState::Collect(coll) => {
            if ts.len() == 0 {
                Ok(acc.push(ExpansionV::Command(coll, false)))
            } else if ts[0] == TokenV::Quote(QuoteType::Backtick) {
                expand_from(
                    ts.skip(1),
                    in_single,
                    ExpandState::Scan,
                    acc.push(ExpansionV::Command(coll, true)),
                )
            } else {
                expand_from(ts.skip(1), in_single, ExpandState::Collect(coll.push(ts[0])), acc)
            }
        },
        ExpandState::Scan => {
            if ts.len() == 0 {
                Ok(acc)
            } else {
                match ts[0] {
                    TokenV::Quote(QuoteType::Single) => expand_from(
                        ts.skip(1),
                        !in_single,
                        ExpandState::Scan,
                        acc,
                    ),
                    TokenV::Quote(QuoteType::Backtick) => {
                        if in_single {
                            expand_from(ts.skip(1), in_single, ExpandState::Scan, acc)
                        } else {
                            expand_from(
                                ts.skip(1),
                                in_single,
                                ExpandState::Collect(Seq::empty()),
                                acc,
                            )
                        }
                    },
                    TokenV::DollarSign => {
                        if in_single {
                            expand_from(ts.skip(1), in_single, ExpandState::Scan, acc)
                        } else if ts.len() == 1 {
                            Ok(acc)
                        } else {
                            match ts[1] {
                                TokenV::Parenthesis(_) => Err(
                                    ExpansionError::UnimplementedSubstitution,
                                ),
                                TokenV::Word(w) => {
                                    let acc2 = acc.push(ExpansionV::Variable(var_name(w)));
                                    if ts.len() >= 3 {
                                        expand_from(ts.skip(3), in_single, ExpandState::Scan, acc2)
                                    } else {
                                        Ok(acc2)
                                    }
                                },
                                _ => {
                                    let acc2 = acc.push(ExpansionV::UnexpectedAfterDollar(ts[1]));
                                    if ts.len() >= 3 {
                                        expand_from(ts.skip(3), in_single, ExpandState::Scan, acc2)
                                    } else {
                                        Ok(acc2)
                                    }
                                },
                            }
                        }
                    },
                    _ => expand_from(ts.skip(1), in_single, ExpandState::Scan, acc),
                }
            }
        },
    }
}

/// What the expansion walk yields on a whole token stream, started outside
/// any quote.
pub open spec fn expansions_spec(ts: Seq<TokenV>) -> Result<Seq<ExpansionV>, ExpansionError> {
    expand_from(ts, false, ExpandState::Scan, Seq::empty())
}

/// Extracts the variable name from a word's text: its prefix up to the
/// first space, slash or dash.
pub fn extract_variable_name(word: &str) -> (r: String)
    ensures
        r@ == var_name(word@),
{
    let cs = to_char_vec(word);
    let n = cs.len();
    let mut out: Vec<char> = Vec::new();
    let mut i: usize = 0;
    let mut stopped = false;
    proof {
        assert(cs@.skip(0) =~= cs@);
        assert(out@ + var_name(cs@) =~= var_name(cs@));
    }
    while i < n && !stopped
        invariant
            i <= n,
            n == cs@.len(),
            cs@ == word@,
            !stopped ==> var_name(cs@) == out@ + var_name(cs@.skip(i as int)),
            stopped ==> var_name(cs@) == out@,
        decreases n - i, (if stopped { 0int } else { 1int }),
    {
        proof {
            assert(cs@.skip(i as int)[0] == cs@[i as int]);
            assert(cs@.skip(i as int).skip(1) =~= cs@.skip(i as int + 1));
        }
        let c = cs[i];
        if c == ' ' || c == '/' || c == '-' {
            stopped = true;
        } else {
            let ghost prev = out@;
            out.push(c);
            i = i + 1;
            proof {
                assert(prev + (seq![c] + var_name(cs@.skip(i as int))) =~= out@ + var_name(
                    cs@.skip(i as int),
                ));
            }
        }
    }
    proof {
        if !stopped {
            assert(cs@.skip(n as int) =~= Seq::<char>::empty());
            assert(out@ + Seq::<char>::empty() =~= out@);
        }
    }
    chars_to_string(&out)
}

/// Walks a scanned token stream and reports every expansion in it, in
/// source order: exactly what the spec-level walk [`expansions_spec`]
/// yields on the stream's view.
pub fn find_expansions(tokens: &Tokens) -> (r: Result<Vec<Expansion>, ExpansionError>)
    ensures
        match r {
            Ok(es) => expansions_spec(tokens_view(tokens@)) == Ok::<
                Seq<ExpansionV>,
                ExpansionError,
            >(expansions_view(es@)),
            Err(e) => expansions_spec(tokens_view(tokens@)) == Err::<
                Seq<ExpansionV>,
                ExpansionError,
            >(e),
        },
{
    let ghost tv = tokens_view(tokens@);
    let n = tokens.len();
    let mut out: Vec<Expansion> = Vec::new();
    let mut in_single = false;
    let mut j: usize = 0;
    proof {
        assert(tv.skip(0) =~= tv);
        assert(expansions_view(out@) =~= Seq::<ExpansionV>::empty());
    }
    while j < n
        invariant
            n == tokens@.len(),
            tv == tokens_view(tokens@),
            j <= n,
            expand_from(tv.skip(j as int), in_single, ExpandState::Scan, expansions_view(out@))
                == expansions_spec(tv),
        decreases n - j,
    {
        let ghost j0 = j as int;
        let ghost ev = expansions_view(out@);
        proof {
            assert(tv[j as int] == tokens@[j as int]@);
            assert(tv.skip(j as int)[0] == tv[j as int]);
            assert(tv.skip(j as int).skip(1) =~= tv.skip(j as int + 1));
        }
        match &tokens[j] {
            Token::Quote(q) => {
                match q {
                    QuoteType::Single => {
                        in_single = !in_single;
                        j = j + 1;
                    },
                    QuoteType::Double => {
                        j = j + 1;
                    },
                    QuoteType::Backtick => {
                        j = j + 1;
                        if !in_single {
                            let mut coll: Vec<Token> = Vec::new();
                            let mut closed = false;
                            proof {
                                assert(tokens_view(coll@) =~= Seq::<TokenV>::empty());
                            }
                            while j < n && !closed
                                invariant
                                    n == tokens@.len(),
                                    tv == tokens_view(tokens@),
                                    j <= n,
                                    j > j0,
                                    !closed ==> expand_from(
                                        tv.skip(j as int),
                                        in_single,
                                        ExpandState::Collect(tokens_view(coll@)),
                                        ev,
                                    ) == expansions_spec(tv),
                                    closed ==> expand_from(
                                        tv.skip(j as int),
                                        in_single,
                                        ExpandState::Scan,
                                        ev.push(ExpansionV::Command(tokens_view(coll@), true)),
                                    ) == expansions_spec(tv),
                                decreases n - j, (if closed { 0int } else { 1int }),
                            {
                                proof {
                                    assert(tv[j as int] == tokens@[j as int]@);
                                    assert(tv.skip(j as int)[0] == tv[j as int]);
                                    assert(tv.skip(j as int).skip(1) =~= tv.skip(j as int + 1));
                                }
                                let t = &tokens[j];
                                j = j + 1;
                                match t {
                                    Token::Quote(QuoteType::Backtick) => {
                                        closed = true;
                                    },
                                    _ => {
                                        let ghost collv = tokens_view(coll@);
                                        coll.push(t.clone());
                                        proof {
                                            assert(tokens_view(coll@) =~= collv.push(t@));
                                        }
                                    },
                                }
                            }
                            if closed {
                                out.push(Expansion::Command(coll, true));
                                proof {
                                    assert(expansions_view(out@) =~= ev.push(
                                        out@.last()@,
                                    ));
                                }
                            } else {
                                proof {
                                    assert(tv.skip(j as int) =~= Seq::<TokenV>::empty());
                                }
                                out.push(Expansion::Command(coll, false));
                                proof {
                                    assert(expansions_view(out@) =~= ev.push(
                                        out@.last()@,
                                    ));
                                }
                            }
                        }
                    },
                }
            },
            Token::DollarSign => {
                if in_single {
                    j = j + 1;
                } else if j + 1 == n {
                    j = j + 1;
                    proof {
                        assert(tv.skip(j as int) =~= Seq::<TokenV>::empty());
                    }
                } else {
                    proof {
                        assert(tv.skip(j as int)[1] == tv[j as int + 1]);
                        assert(tv[j as int + 1] == tokens@[j as int + 1]@);
                        if n - j >= 3 {
                            assert(tv.skip(j as int).skip(3) =~= tv.skip(j as int + 3));
                        }
                    }
                    match &tokens[j + 1] {
                        Token::Parenthesis(_) => {
                            return Err(ExpansionError::UnimplementedSubstitution);
                        },
                        Token::Word(w) => {
                            let name = extract_variable_name(w.as_str());
                            out.push(Expansion::Variable(name));
                            proof {
                                assert(expansions_view(out@) =~= ev.push(out@.last()@));
                            }
                            if n - j >= 3 {
                                j = j + 3;
                            } else {
                                j = n;
                                proof {
                                    assert(tv.skip(n as int) =~= Seq::<TokenV>::empty());
                                }
                            }
                        },
                        _ => {
                            let after = tokens[j + 1].clone();
                            out.push(Expansion::UnexpectedAfterDollar(after));
                            proof {
                                assert(expansions_view(out@) =~= ev.push(out@.last()@));
                            }
                            if n - j >= 3 {
                                j = j + 3;
                            } else {
                                j = n;
                                proof {
                                    assert(tv.skip(n as int) =~= Seq::<TokenV>::empty());
                                }
                            }
                        },
                    }
                }
            },
            _ => {
                j = j + 1;
            },
        }
    }
    proof {
        assert(tv.skip(n as int) =~= Seq::<TokenV>::empty());
    }
    Ok(out)
}

} // verus!

